//! General properties of the scanner, stated over its mathematical model and
//! proved once and for all: how many titles a well-formed reply yields, what
//! an unterminated trailing segment contributes, how escaped quotes decode,
//! and that re-parsing re-encoded output reproduces it.

use vstd::prelude::*;
use crate::parser::decode;
use crate::parser::scan;
use crate::parser::scan_title;

verus! {

/// `s` holds no double-quote character.
pub open spec fn no_quote(s: Seq<char>) -> bool {
    forall|k: int| 0 <= k < s.len() ==> s[k] != '"'
}

/// Every `"` in `u` is escaped by a preceding backslash, so a scan inside
/// `u` never finds a closing quote.
pub open spec fn open_body(u: Seq<char>) -> bool {
    forall|k: int| 0 <= k < u.len() && #[trigger] u[k] == '"' ==> k > 0 && u[k - 1] == '\\'
}

/// `t` can stand complete between two quotes: every `"` in it is escaped,
/// and it does not end in a backslash that would escape the closing quote.
pub open spec fn closed_body(t: Seq<char>) -> bool {
    open_body(t) && (t.len() > 0 ==> t.last() != '\\')
}

/// The raw body `t` wrapped in its delimiting quotes.
pub open spec fn quoted(t: Seq<char>) -> Seq<char> {
    seq!['"'] + t + seq!['"']
}

/// Each raw body decoded, in order.
pub open spec fn decode_all(ts: Seq<Seq<char>>) -> Seq<Seq<char>> {
    ts.map_values(|t: Seq<char>| decode(t))
}

/// A reply assembled from `bodies.len()` quoted segments with runs of
/// structural text around them: `junks[0]`, then the first quoted body, then
/// `junks[1]`, and so on, ending with the last junk run.
pub open spec fn assemble(junks: Seq<Seq<char>>, bodies: Seq<Seq<char>>) -> Seq<char>
    recommends
        junks.len() == bodies.len() + 1,
    decreases bodies.len(),
{
    if junks.len() == 0 {
        Seq::empty()
    } else if bodies.len() == 0 {
        junks[0]
    } else {
        junks[0] + quoted(bodies[0]) + assemble(junks.skip(1), bodies.skip(1))
    }
}

/// Text without quotes in front of the input changes nothing: the scanner
/// skips it.
pub proof fn lemma_skip_junk(j: Seq<char>, rest: Seq<char>)
    requires
        no_quote(j),
    ensures
        scan(j + rest) == scan(rest),
    decreases j.len(),
{
    if j.len() == 0 {
        assert(j + rest =~= rest);
    } else {
        assert((j + rest)[0] == j[0]);
        assert((j + rest).skip(1) =~= j.skip(1) + rest);
        assert(no_quote(j.skip(1))) by {
            assert forall|k: int| 0 <= k < j.skip(1).len() implies j.skip(1)[k] != '"' by {
                assert(j.skip(1)[k] == j[k + 1]);
            }
        }
        lemma_skip_junk(j.skip(1), rest);
        assert(scan(j + rest) == scan((j + rest).skip(1)));
    }
}

proof fn lemma_title_body(t: Seq<char>, rest: Seq<char>, k: int)
    requires
        closed_body(t),
        0 <= k <= t.len(),
    ensures
        scan_title(t.skip(k) + seq!['"'] + rest, t.take(k)) == seq![decode(t)] + scan(rest),
    decreases t.len() - k,
{
    let s = t.skip(k) + seq!['"'] + rest;
    if k == t.len() {
        assert(t.skip(k) =~= Seq::<char>::empty());
        assert(s =~= seq!['"'] + rest);
        assert(s[0] == '"');
        assert(t.take(k) =~= t);
        assert(s.skip(1) =~= rest);
        assert(scan_title(s, t.take(k)) == seq![decode(t.take(k))] + scan(rest));
    } else {
        assert(s[0] == t[k]);
        assert(s.skip(1) =~= t.skip(k + 1) + seq!['"'] + rest);
        assert(t.take(k).push(t[k]) =~= t.take(k + 1));
        if t[k] == '"' {
            assert(k > 0 && t[k - 1] == '\\');
            assert(t.take(k).len() == k);
            assert(t.take(k).last() == t[k - 1]);
        }
        lemma_title_body(t, rest, k + 1);
        assert(scan_title(s, t.take(k)) == scan_title(s.skip(1), t.take(k).push(t[k])));
    }
}

/// A properly terminated quoted segment in front of the input yields exactly
/// its decoded body, followed by whatever the rest yields.
pub proof fn lemma_scan_segment(t: Seq<char>, rest: Seq<char>)
    requires
        closed_body(t),
    ensures
        scan(quoted(t) + rest) == seq![decode(t)] + scan(rest),
{
    let s = quoted(t) + rest;
    assert(s[0] == '"');
    assert(s.skip(1) =~= t.skip(0) + seq!['"'] + rest);
    assert(t.take(0) =~= Seq::<char>::empty());
    lemma_title_body(t, rest, 0);
    assert(scan(s) == scan_title(s.skip(1), Seq::empty()));
}

proof fn lemma_title_open(u: Seq<char>, k: int)
    requires
        open_body(u),
        0 <= k <= u.len(),
    ensures
        scan_title(u.skip(k), u.take(k)) == Seq::<Seq<char>>::empty(),
    decreases u.len() - k,
{
    if k == u.len() {
        assert(u.skip(k) =~= Seq::<char>::empty());
    } else {
        let s = u.skip(k);
        assert(s[0] == u[k]);
        assert(s.skip(1) =~= u.skip(k + 1));
        assert(u.take(k).push(u[k]) =~= u.take(k + 1));
        if u[k] == '"' {
            assert(k > 0 && u[k - 1] == '\\');
            assert(u.take(k).len() == k);
            assert(u.take(k).last() == u[k - 1]);
        }
        lemma_title_open(u, k + 1);
        assert(scan_title(s, u.take(k)) == scan_title(s.skip(1), u.take(k).push(u[k])));
    }
}

/// A reply of `bodies.len()` properly terminated quoted segments, with any
/// structural text around them, yields exactly one title per segment, in
/// left-to-right order: each body decoded.
pub proof fn lemma_scan_counts_segments(junks: Seq<Seq<char>>, bodies: Seq<Seq<char>>)
    requires
        junks.len() == bodies.len() + 1,
        forall|i: int| 0 <= i < junks.len() ==> no_quote(#[trigger] junks[i]),
        forall|i: int| 0 <= i < bodies.len() ==> closed_body(#[trigger] bodies[i]),
    ensures
        scan(assemble(junks, bodies)) == decode_all(bodies),
        scan(assemble(junks, bodies)).len() == bodies.len(),
    decreases bodies.len(),
{
    if bodies.len() == 0 {
        lemma_skip_junk(junks[0], Seq::empty());
        assert(junks[0] + Seq::<char>::empty() =~= junks[0]);
        assert(decode_all(bodies) =~= Seq::<Seq<char>>::empty());
    } else {
        let rest = assemble(junks.skip(1), bodies.skip(1));
        assert forall|i: int| 0 <= i < junks.skip(1).len() implies no_quote(
            #[trigger] junks.skip(1)[i],
        ) by {
            assert(junks.skip(1)[i] == junks[i + 1]);
        }
        assert forall|i: int| 0 <= i < bodies.skip(1).len() implies closed_body(
            #[trigger] bodies.skip(1)[i],
        ) by {
            assert(bodies.skip(1)[i] == bodies[i + 1]);
        }
        lemma_scan_counts_segments(junks.skip(1), bodies.skip(1));
        lemma_scan_segment(bodies[0], rest);
        lemma_skip_junk(junks[0], quoted(bodies[0]) + rest);
        assert(assemble(junks, bodies) =~= junks[0] + (quoted(bodies[0]) + rest));
        assert(decode_all(bodies) =~= seq![decode(bodies[0])] + decode_all(bodies.skip(1)));
    }
}

/// An unterminated trailing quoted segment contributes no title and leaves
/// every title parsed before it untouched.
pub proof fn lemma_unterminated_tail_dropped(
    junks: Seq<Seq<char>>,
    bodies: Seq<Seq<char>>,
    u: Seq<char>,
)
    requires
        junks.len() == bodies.len() + 1,
        forall|i: int| 0 <= i < junks.len() ==> no_quote(#[trigger] junks[i]),
        forall|i: int| 0 <= i < bodies.len() ==> closed_body(#[trigger] bodies[i]),
        open_body(u),
    ensures
        scan(assemble(junks, bodies) + seq!['"'] + u) == decode_all(bodies),
    decreases bodies.len(),
{
    if bodies.len() == 0 {
        let tail = seq!['"'] + u;
        lemma_skip_junk(junks[0], tail);
        assert(assemble(junks, bodies) + seq!['"'] + u =~= junks[0] + tail);
        assert(tail[0] == '"');
        assert(tail.skip(1) =~= u);
        assert(u.skip(0) =~= u);
        assert(u.take(0) =~= Seq::<char>::empty());
        lemma_title_open(u, 0);
        assert(scan(tail) == scan_title(u, Seq::empty()));
        assert(decode_all(bodies) =~= Seq::<Seq<char>>::empty());
    } else {
        let rest = assemble(junks.skip(1), bodies.skip(1)) + seq!['"'] + u;
        assert forall|i: int| 0 <= i < junks.skip(1).len() implies no_quote(
            #[trigger] junks.skip(1)[i],
        ) by {
            assert(junks.skip(1)[i] == junks[i + 1]);
        }
        assert forall|i: int| 0 <= i < bodies.skip(1).len() implies closed_body(
            #[trigger] bodies.skip(1)[i],
        ) by {
            assert(bodies.skip(1)[i] == bodies[i + 1]);
        }
        lemma_unterminated_tail_dropped(junks.skip(1), bodies.skip(1), u);
        lemma_scan_segment(bodies[0], rest);
        lemma_skip_junk(junks[0], quoted(bodies[0]) + rest);
        assert(assemble(junks, bodies) + seq!['"'] + u =~= junks[0] + (quoted(bodies[0]) + rest));
        assert(decode_all(bodies) =~= seq![decode(bodies[0])] + decode_all(bodies.skip(1)));
    }
}

proof fn lemma_decode_append(a: Seq<char>, x: Seq<char>)
    requires
        x.len() > 0 ==> x[0] != '"',
    ensures
        decode(a + x) == decode(a) + decode(x),
    decreases a.len(),
{
    if a.len() == 0 {
        assert(a + x =~= x);
        assert(decode(a) =~= Seq::<char>::empty());
        assert(Seq::<char>::empty() + decode(x) =~= decode(x));
    } else if a.len() >= 2 && a[0] == '\\' && a[1] == '"' {
        assert((a + x)[0] == '\\');
        assert((a + x)[1] == '"');
        assert((a + x).skip(2) =~= a.skip(2) + x);
        lemma_decode_append(a.skip(2), x);
        assert(seq!['"'] + (decode(a.skip(2)) + decode(x)) =~= (seq!['"'] + decode(a.skip(2)))
            + decode(x));
    } else {
        assert((a + x)[0] == a[0]);
        if a.len() >= 2 {
            assert((a + x)[1] == a[1]);
        } else if x.len() > 0 {
            assert((a + x)[1] == x[0]);
        }
        assert((a + x).skip(1) =~= a.skip(1) + x);
        lemma_decode_append(a.skip(1), x);
        assert(seq![a[0]] + (decode(a.skip(1)) + decode(x)) =~= (seq![a[0]] + decode(a.skip(1)))
            + decode(x));
    }
}

/// Decoding touches nothing in quote-free text: plain content, of whatever
/// codepoints, passes through unchanged, one for one.
pub proof fn lemma_decode_plain(t: Seq<char>)
    requires
        no_quote(t),
    ensures
        decode(t) == t,
    decreases t.len(),
{
    if t.len() == 0 {
    } else {
        if t.len() >= 2 {
            assert(t[1] != '"');
        }
        assert(no_quote(t.skip(1))) by {
            assert forall|k: int| 0 <= k < t.skip(1).len() implies t.skip(1)[k] != '"' by {
                assert(t.skip(1)[k] == t[k + 1]);
            }
        }
        lemma_decode_plain(t.skip(1));
        assert(seq![t[0]] + t.skip(1) =~= t);
    }
}

/// An escaped quote decodes to a literal `"` in place, with the text on both
/// sides of it decoded as it stands.
pub proof fn lemma_escaped_quote_decodes(a: Seq<char>, b: Seq<char>)
    ensures
        decode(a + seq!['\\', '"'] + b) == decode(a) + seq!['"'] + decode(b),
{
    let x = seq!['\\', '"'] + b;
    assert(x[0] == '\\');
    assert(x[1] == '"');
    assert(a + seq!['\\', '"'] + b =~= a + x);
    lemma_decode_append(a, x);
    assert(x.skip(2) =~= b);
    assert(decode(x) == seq!['"'] + decode(b));
    assert(decode(a) + (seq!['"'] + decode(b)) =~= decode(a) + seq!['"'] + decode(b));
}

/// An escaped quote does not terminate its segment: a body made of plain
/// text around one `\"` scans as a single title, with a literal `"` where
/// the escape stood.
pub proof fn lemma_escaped_quote_one_segment(a: Seq<char>, b: Seq<char>, rest: Seq<char>)
    requires
        no_quote(a),
        no_quote(b),
        b.len() > 0 ==> b.last() != '\\',
    ensures
        scan(quoted(a + seq!['\\', '"'] + b) + rest) == seq![a + seq!['"'] + b] + scan(rest),
{
    let t = a + seq!['\\', '"'] + b;
    assert(closed_body(t)) by {
        assert forall|k: int| 0 <= k < t.len() && #[trigger] t[k] == '"' implies k > 0 && t[k - 1] == '\\' by {
            if k < a.len() {
                assert(t[k] == a[k]);
            } else if k == a.len() {
                assert(t[k] == '\\');
            } else if k == a.len() + 1 {
                assert(t[k - 1] == '\\');
            } else {
                assert(t[k] == b[k - a.len() - 2]);
            }
        }
        if t.len() > 0 {
            if b.len() > 0 {
                assert(t.last() == b.last());
            } else {
                assert(t.last() == '"');
            }
        }
    }
    lemma_scan_segment(t, rest);
    lemma_escaped_quote_decodes(a, b);
    lemma_decode_plain(a);
    lemma_decode_plain(b);
}

/// Plain Unicode content between quotes, multi-codepoint sequences included,
/// comes out of the scan exactly as it went in: one segment, one title,
/// codepoint for codepoint.
pub proof fn lemma_plain_segment_preserved(t: Seq<char>, rest: Seq<char>)
    requires
        no_quote(t),
        t.len() > 0 ==> t.last() != '\\',
    ensures
        scan(quoted(t) + rest) == seq![t] + scan(rest),
{
    assert(closed_body(t));
    lemma_scan_segment(t, rest);
    lemma_decode_plain(t);
}

/// What re-wrapping a decoded title means: every literal `"` in it gains a
/// backslash again.
pub open spec fn encode(s: Seq<char>) -> Seq<char>
    decreases s.len(),
{
    if s.len() == 0 {
        Seq::empty()
    } else if s[0] == '"' {
        seq!['\\', '"'] + encode(s.skip(1))
    } else {
        seq![s[0]] + encode(s.skip(1))
    }
}

/// A title list written back out as input text: each title re-encoded and
/// re-wrapped in quotes, one segment after the other.
pub open spec fn rewrap(titles: Seq<Seq<char>>) -> Seq<char>
    decreases titles.len(),
{
    if titles.len() == 0 {
        Seq::empty()
    } else {
        quoted(encode(titles[0])) + rewrap(titles.skip(1))
    }
}

proof fn lemma_encode_head(s: Seq<char>)
    ensures
        s.len() == 0 ==> encode(s).len() == 0,
        s.len() > 0 ==> encode(s).len() > 0 && encode(s)[0] != '"',
{
    if s.len() > 0 {
        if s[0] == '"' {
            assert(encode(s)[0] == '\\');
        } else {
            assert(encode(s)[0] == s[0]);
        }
    }
}

proof fn lemma_decode_encode(t: Seq<char>)
    ensures
        decode(encode(t)) == t,
    decreases t.len(),
{
    if t.len() == 0 {
    } else if t[0] == '"' {
        let e = encode(t.skip(1));
        assert(encode(t) == seq!['\\', '"'] + e);
        assert(encode(t)[0] == '\\');
        assert(encode(t)[1] == '"');
        assert(encode(t).skip(2) =~= e);
        lemma_decode_encode(t.skip(1));
        assert(decode(encode(t)) == seq!['"'] + decode(e));
        assert(seq!['"'] + t.skip(1) =~= t);
    } else {
        let e = encode(t.skip(1));
        assert(encode(t) == seq![t[0]] + e);
        assert(encode(t)[0] == t[0]);
        lemma_encode_head(t.skip(1));
        if e.len() > 0 {
            assert(encode(t)[1] == e[0]);
        }
        assert(encode(t).skip(1) =~= e);
        lemma_decode_encode(t.skip(1));
        assert(decode(encode(t)) == seq![t[0]] + decode(e));
        assert(seq![t[0]] + t.skip(1) =~= t);
    }
}

proof fn lemma_encode_closed(t: Seq<char>)
    requires
        t.len() > 0 ==> t.last() != '\\',
    ensures
        closed_body(encode(t)),
    decreases t.len(),
{
    if t.len() == 0 {
        assert(encode(t) =~= Seq::<char>::empty());
    } else {
        let e = encode(t.skip(1));
        if t.len() > 1 {
            assert(t.skip(1).last() == t.last());
        }
        lemma_encode_closed(t.skip(1));
        if t[0] == '"' {
            let full = seq!['\\', '"'] + e;
            assert(encode(t) == full);
            assert forall|k: int| 0 <= k < full.len() && #[trigger] full[k] == '"' implies k > 0 && full[k
                - 1] == '\\' by {
                if k >= 2 {
                    assert(full[k] == e[k - 2]);
                    assert(k - 2 > 0 && e[k - 3] == '\\');
                    assert(full[k - 1] == e[k - 3]);
                } else {
                    assert(full[0] == '\\');
                }
            }
            if e.len() > 0 {
                assert(full.last() == e.last());
            } else {
                assert(full.last() == '"');
            }
        } else {
            let full = seq![t[0]] + e;
            assert(encode(t) == full);
            assert forall|k: int| 0 <= k < full.len() && #[trigger] full[k] == '"' implies k > 0 && full[k
                - 1] == '\\' by {
                if k >= 1 {
                    assert(full[k] == e[k - 1]);
                    assert(k - 1 > 0 && e[k - 2] == '\\');
                    assert(full[k - 1] == e[k - 2]);
                } else {
                    assert(full[0] == t[0]);
                }
            }
            if e.len() > 0 {
                assert(full.last() == e.last());
            } else {
                assert(t.len() == 1);
                assert(full.last() == t[0]);
                assert(t[0] == t.last());
            }
        }
    }
}

/// No title the scanner yields ends in a backslash.
pub open spec fn no_trailing_backslash(ts: Seq<Seq<char>>) -> bool {
    forall|i: int|
        0 <= i < ts.len() ==> ((#[trigger] ts[i]).len() > 0 ==> ts[i].last() != '\\')
}

proof fn lemma_decode_last(t: Seq<char>)
    requires
        t.len() > 0 ==> t.last() != '\\',
    ensures
        decode(t).len() > 0 ==> decode(t).last() != '\\',
    decreases t.len(),
{
    if t.len() == 0 {
    } else if t.len() >= 2 && t[0] == '\\' && t[1] == '"' {
        let r = t.skip(2);
        if r.len() > 0 {
            assert(r.last() == t.last());
        }
        lemma_decode_last(r);
        if decode(r).len() > 0 {
            assert(decode(t).last() == decode(r).last());
        } else {
            if r.len() > 0 {
                assert(decode(r).len() >= 1);
            }
            assert(decode(t) =~= seq!['"']);
        }
    } else {
        let r = t.skip(1);
        if r.len() > 0 {
            assert(r.last() == t.last());
        }
        lemma_decode_last(r);
        if decode(r).len() > 0 {
            assert(decode(t).last() == decode(r).last());
        } else {
            if r.len() > 0 {
                assert(decode(r).len() >= 1);
            }
            assert(t.len() == 1);
            assert(decode(t).last() == t[0]);
            assert(t[0] == t.last());
        }
    }
}

proof fn lemma_scan_no_trailing(s: Seq<char>)
    ensures
        no_trailing_backslash(scan(s)),
    decreases s.len(), 0int,
{
    if s.len() == 0 {
    } else if s[0] == '"' {
        lemma_scan_title_no_trailing(s.skip(1), Seq::empty());
    } else {
        lemma_scan_no_trailing(s.skip(1));
    }
}

proof fn lemma_scan_title_no_trailing(s: Seq<char>, acc: Seq<char>)
    ensures
        no_trailing_backslash(scan_title(s, acc)),
    decreases s.len(), 1int,
{
    if s.len() == 0 {
    } else if s[0] == '"' && !(acc.len() > 0 && acc.last() == '\\') {
        lemma_decode_last(acc);
        lemma_scan_no_trailing(s.skip(1));
        let full = seq![decode(acc)] + scan(s.skip(1));
        assert forall|i: int|
            0 <= i < full.len() && (#[trigger] full[i]).len() > 0 implies full[i].last()
            != '\\' by {
            if i > 0 {
                assert(full[i] == scan(s.skip(1))[i - 1]);
            }
        }
    } else {
        lemma_scan_title_no_trailing(s.skip(1), acc.push(s[0]));
    }
}

/// Re-parsing a written-back title list reproduces it exactly, provided no
/// title ends in a backslash — the one value the escape rule cannot carry
/// through a closing quote.
pub proof fn lemma_reparse_roundtrip(titles: Seq<Seq<char>>)
    requires
        no_trailing_backslash(titles),
    ensures
        scan(rewrap(titles)) == titles,
    decreases titles.len(),
{
    if titles.len() == 0 {
        assert(rewrap(titles) =~= Seq::<char>::empty());
        assert(scan(rewrap(titles)) =~= titles);
    } else {
        let t0 = titles[0];
        lemma_encode_closed(t0);
        assert forall|i: int|
            0 <= i < titles.skip(1).len() && (#[trigger] titles.skip(1)[i]).len() > 0
            implies titles.skip(1)[i].last() != '\\' by {
            assert(titles.skip(1)[i] == titles[i + 1]);
        }
        lemma_reparse_roundtrip(titles.skip(1));
        lemma_scan_segment(encode(t0), rewrap(titles.skip(1)));
        lemma_decode_encode(t0);
        assert(rewrap(titles) == quoted(encode(t0)) + rewrap(titles.skip(1)));
        assert(seq![t0] + titles.skip(1) =~= titles);
    }
}

/// Parsing is idempotent on its own output: every title list the scanner
/// yields survives being re-wrapped and re-parsed, with no proviso, since
/// the scanner never yields a title ending in a backslash.
pub proof fn lemma_reparse_idempotent(s: Seq<char>)
    ensures
        scan(rewrap(scan(s))) == scan(s),
{
    lemma_scan_no_trailing(s);
    lemma_reparse_roundtrip(scan(s));
}

} // verus!
