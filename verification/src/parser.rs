//! The quote-aware scanner: a single left-to-right pass over the reply text
//! that collects every properly terminated double-quoted segment, unescapes
//! `\"` to `"`, and silently drops an unterminated trailing segment.

use vstd::prelude::*;

verus! {

/// What unescaping a raw accumulated segment means: scanning left to right,
/// each two-character sequence `\"` becomes a single `"`; every other
/// character is kept as it is.
pub open spec fn decode(s: Seq<char>) -> Seq<char>
    decreases s.len(),
{
    if s.len() == 0 {
        Seq::empty()
    } else if s.len() >= 2 && s[0] == '\\' && s[1] == '"' {
        seq!['"'] + decode(s.skip(2))
    } else {
        seq![s[0]] + decode(s.skip(1))
    }
}

/// The titles that the scan yields from `s` when the scanner stands outside
/// any quoted segment: everything up to the next `"` is structural noise.
pub open spec fn scan(s: Seq<char>) -> Seq<Seq<char>>
    decreases s.len(),
{
    if s.len() == 0 {
        Seq::empty()
    } else if s[0] == '"' {
        scan_title(s.skip(1), Seq::empty())
    } else {
        scan(s.skip(1))
    }
}

/// The titles that the scan yields from `s` when the scanner stands inside a
/// quoted segment with the raw characters `acc` already accumulated.  A `"`
/// closes the segment only when the last accumulated character is not a
/// backslash; reaching the end of the input discards the open segment.
pub open spec fn scan_title(s: Seq<char>, acc: Seq<char>) -> Seq<Seq<char>>
    decreases s.len(),
{
    if s.len() == 0 {
        Seq::empty()
    } else if s[0] == '"' && !(acc.len() > 0 && acc.last() == '\\') {
        seq![decode(acc)] + scan(s.skip(1))
    } else {
        scan_title(s.skip(1), acc.push(s[0]))
    }
}

/// Relies on String::push: appends the given character to the end of the
/// string.
#[verifier::external_body]
fn push_char(s: &mut String, c: char)
    ensures
        final(s)@ == old(s)@.push(c),
{
    s.push(c)
}

/// Unescapes a raw accumulated segment: each `\"` becomes `"`.
fn decode_chars(raw: &Vec<char>) -> (out: String)
    ensures
        out@ == decode(raw@),
{
    let mut out = String::new();
    let mut i: usize = 0;
    proof {
        assert(raw@.skip(0) =~= raw@);
        assert(Seq::<char>::empty() + decode(raw@) =~= decode(raw@));
    }
    while i < raw.len()
        invariant
            i <= raw@.len(),
            decode(raw@) == out@ + decode(raw@.skip(i as int)),
        decreases raw@.len() - i,
    {
        if raw[i] == '\\' && i + 1 < raw.len() && raw[i + 1] == '"' {
            push_char(&mut out, '"');
            proof {
                assert(raw@.skip(i as int).skip(2) =~= raw@.skip(i + 2));
                assert(decode(raw@) == out@ + decode(raw@.skip(i + 2)));
            }
            i = i + 2;
        } else {
            let c = raw[i];
            push_char(&mut out, c);
            proof {
                assert(raw@.skip(i as int).skip(1) =~= raw@.skip(i + 1));
                assert(decode(raw@) == out@ + decode(raw@.skip(i + 1)));
            }
            i = i + 1;
        }
    }
    proof {
        assert(raw@.skip(raw@.len() as int) =~= Seq::<char>::empty());
        assert(decode(raw@) =~= out@);
    }
    out
}

/// Scans `string` and returns, in order of appearance, the decoded content
/// of every properly terminated double-quoted segment.  Everything outside
/// quotes is ignored; an unterminated trailing segment yields nothing.
pub fn split(string: &str) -> (titles: Vec<String>)
    ensures
        titles.deep_view() == scan(string@),
{
    let ghost s: Seq<char> = string@;
    let n = string.unicode_len();
    let mut titles: Vec<String> = Vec::new();
    let mut i: usize = 0;
    proof {
        assert(s.skip(0) =~= s);
        assert(titles.deep_view() =~= Seq::<Seq<char>>::empty());
        assert(Seq::<Seq<char>>::empty() + scan(s) =~= scan(s));
    }
    while i < n
        invariant
            s == string@,
            n == s.len(),
            i <= n,
            scan(s) == titles.deep_view() + scan(s.skip(i as int)),
        decreases n - i,
    {
        let c = string.get_char(i);
        if c == '"' {
            proof {
                assert(s.skip(i as int)[0] == '"');
                assert(s.skip(i as int).skip(1) =~= s.skip(i + 1));
                assert(scan(s.skip(i as int)) == scan_title(s.skip(i + 1), Seq::empty()));
            }
            i = i + 1;
            let ghost i0: int = i as int;
            let mut acc: Vec<char> = Vec::new();
            let mut found_end = false;
            while i < n && !found_end
                invariant
                    s == string@,
                    n == s.len(),
                    i0 <= i <= n,
                    !found_end ==> scan(s) == titles.deep_view() + scan_title(
                        s.skip(i as int),
                        acc@,
                    ),
                    found_end ==> scan(s) == titles.deep_view() + (seq![decode(acc@)] + scan(
                        s.skip(i as int),
                    )),
                decreases n - i,
            {
                let c2 = string.get_char(i);
                if c2 == '"' && !(acc.len() > 0 && acc[acc.len() - 1] == '\\') {
                    proof {
                        assert(s.skip(i as int)[0] == '"');
                        assert(s.skip(i as int).skip(1) =~= s.skip(i + 1));
                        assert(scan_title(s.skip(i as int), acc@) == seq![decode(acc@)] + scan(
                            s.skip(i + 1),
                        ));
                    }
                    found_end = true;
                    i = i + 1;
                } else {
                    proof {
                        assert(s.skip(i as int)[0] == s[i as int]);
                        assert(s.skip(i as int).skip(1) =~= s.skip(i + 1));
                        assert(scan_title(s.skip(i as int), acc@) == scan_title(
                            s.skip(i + 1),
                            acc@.push(s[i as int]),
                        ));
                    }
                    acc.push(c2);
                    i = i + 1;
                }
            }
            if found_end {
                let t = decode_chars(&acc);
                let ghost old_dv = titles.deep_view();
                titles.push(t);
                proof {
                    assert(titles.deep_view() =~= old_dv + seq![decode(acc@)]);
                    assert((old_dv + seq![decode(acc@)]) + scan(s.skip(i as int)) =~= old_dv + (
                    seq![decode(acc@)] + scan(s.skip(i as int))));
                }
            } else {
                proof {
                    assert(s.skip(i as int) =~= Seq::<char>::empty());
                    assert(scan_title(s.skip(i as int), acc@) =~= Seq::<Seq<char>>::empty());
                    assert(titles.deep_view() + Seq::<Seq<char>>::empty() =~= titles.deep_view());
                    assert(scan(s.skip(i as int)) =~= Seq::<Seq<char>>::empty());
                }
            }
        } else {
            proof {
                assert(s.skip(i as int)[0] == s[i as int]);
                assert(s[i as int] != '"');
                assert(s.skip(i as int).skip(1) =~= s.skip(i + 1));
                assert(scan(s.skip(i as int)) == scan(s.skip(i + 1)));
            }
            i = i + 1;
        }
    }
    proof {
        assert(s.skip(n as int) =~= Seq::<char>::empty());
        assert(titles.deep_view() + Seq::<Seq<char>>::empty() =~= titles.deep_view());
    }
    titles
}

} // verus!
