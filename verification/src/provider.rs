//! The window-title provider: the error taxonomy of a tool run, and the pure
//! classification of a finished run's captured output.  Spawning the external
//! scripting tool is the caller's business; once its error and output streams
//! are captured as text, everything that decides is verified here.

use vstd::prelude::*;
use crate::parser::scan;
use crate::parser::split;

verus! {

/// The fixed substring on the tool's error stream that signals the
/// accessibility permission has not been granted.
pub open spec fn permission_signature() -> Seq<char> {
    "osascript is not allowed assistive access"@
}

/// The executable form of the permission signature.
pub fn permission_signature_str() -> (s: &'static str)
    ensures
        s@ == permission_signature(),
{
    "osascript is not allowed assistive access"
}

/// `pat` occurs in `text` starting at position `i`.
pub open spec fn is_substring_at(text: Seq<char>, pat: Seq<char>, i: int) -> bool {
    0 <= i && i + pat.len() <= text.len() && text.subrange(i, i + pat.len()) == pat
}

/// `pat` occurs somewhere in `text`.
pub open spec fn contains_substring(text: Seq<char>, pat: Seq<char>) -> bool {
    exists|i: int| is_substring_at(text, pat, i)
}

/// Whether `pat` occurs as a contiguous run of characters in `text`.
pub fn contains_str(text: &str, pat: &str) -> (r: bool)
    ensures
        r == contains_substring(text@, pat@),
{
    let n = text.unicode_len();
    let m = pat.unicode_len();
    if m > n {
        proof {
            assert forall|j: int| !is_substring_at(text@, pat@, j) by {
                if 0 <= j {
                    assert(j + pat@.len() > text@.len());
                }
            }
        }
        return false;
    }
    if m == 0 {
        proof {
            assert(text@.subrange(0, 0) =~= pat@);
            assert(is_substring_at(text@, pat@, 0));
        }
        return true;
    }
    let mut i: usize = 0;
    while i <= n - m
        invariant
            n == text@.len(),
            m == pat@.len(),
            1 <= m <= n,
            i <= n - m + 1,
            forall|j: int| 0 <= j < i ==> !is_substring_at(text@, pat@, j),
        decreases n - m - i + 1,
    {
        let mut k: usize = 0;
        let mut mismatch = false;
        while k < m && !mismatch
            invariant
                n == text@.len(),
                m == pat@.len(),
                i + m <= n,
                k <= m,
                !mismatch ==> forall|t: int| 0 <= t < k ==> text@[i + t] == pat@[t],
                mismatch ==> !is_substring_at(text@, pat@, i as int),
            decreases m - k + (if mismatch { 0int } else { 1int }),
        {
            if text.get_char(i + k) != pat.get_char(k) {
                proof {
                    if is_substring_at(text@, pat@, i as int) {
                        assert(text@.subrange(i as int, i + m)[k as int] == pat@[k as int]);
                        assert(text@[i + k] == pat@[k as int]);
                    }
                }
                mismatch = true;
            } else {
                k = k + 1;
            }
        }
        if !mismatch {
            proof {
                assert(text@.subrange(i as int, i + m) =~= pat@);
                assert(is_substring_at(text@, pat@, i as int));
            }
            return true;
        }
        i = i + 1;
    }
    proof {
        assert forall|j: int| !is_substring_at(text@, pat@, j) by {
            if 0 <= j && j + pat@.len() <= text@.len() {
                assert(j < i);
            }
        }
    }
    false
}

/// The closed taxonomy of provider failures: the tool could not be launched,
/// or it ran without the accessibility permission.
#[derive(Clone, Copy, Debug, PartialEq, Eq, Structural)]
pub enum WindowTitleError {
    NoAccessibilityPermission,
    ExecuteFailed,
}

impl WindowTitleError {
    /// The human-readable description of this failure.
    pub open spec fn spec_message(self) -> Seq<char> {
        match self {
            WindowTitleError::NoAccessibilityPermission
                => "Permission to use the accessibility API has not been granted"@,
            WindowTitleError::ExecuteFailed => "Failed to execute the command"@,
        }
    }

    /// Describes this failure in a sentence.
    pub fn message(&self) -> (m: &'static str)
        ensures
            m@ == self.spec_message(),
    {
        match self {
            WindowTitleError::NoAccessibilityPermission
                => "Permission to use the accessibility API has not been granted",
            WindowTitleError::ExecuteFailed => "Failed to execute the command",
        }
    }
}

/// The window-title provider for a platform whose scripting tool is
/// `osascript`.  It holds no state; each enumeration is one independent run
/// of the tool, whose captured streams are classified by
/// [`Connection::window_titles_from_output`].
pub struct Connection;

impl Connection {
    /// Constructs a provider.  On this platform variant there is an
    /// implementation, so construction always succeeds and does no work.
    pub fn new() -> (r: Result<Connection, WindowTitleError>)
        ensures
            r == Ok::<Connection, WindowTitleError>(Connection),
    {
        Ok(Connection)
    }

    /// Classifies one finished run of the scripting tool from its captured
    /// streams: if the error stream carries the permission signature the run
    /// failed for want of the accessibility permission, whatever the output
    /// stream holds; otherwise the output stream is parsed and every title
    /// found in it is returned in order.
    pub fn window_titles_from_output(&self, stdout: &str, stderr: &str) -> (r: Result<
        Vec<String>,
        WindowTitleError,
    >)
        ensures
            contains_substring(stderr@, permission_signature()) ==> r == Err::<
                Vec<String>,
                WindowTitleError,
            >(WindowTitleError::NoAccessibilityPermission),
            !contains_substring(stderr@, permission_signature()) ==> r is Ok
                && r->Ok_0.deep_view() == scan(stdout@),
    {
        if contains_str(stderr, permission_signature_str()) {
            Err(WindowTitleError::NoAccessibilityPermission)
        } else {
            Ok(split(stdout))
        }
    }
}

} // verus!
