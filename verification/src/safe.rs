//! Path safety: a path may be handed to the filesystem only when it is
//! relative and never steps up through a parent directory.

use vstd::prelude::*;
use vstd::string::*;

verus! {

/// Some `/`-separated component of the path is exactly `..`.
pub open spec fn spec_has_dotdot(s: Seq<char>) -> bool {
    exists|i: int|
        0 <= i && i + 2 <= s.len() && #[trigger] s[i] == '.' && s[i + 1] == '.' && (i == 0 || s[i
            - 1] == '/') && (i + 2 == s.len() || s[i + 2] == '/')
}

/// A path is safe when it is relative and has no `..` component.
pub open spec fn spec_is_safe_path(s: Seq<char>) -> bool {
    !(s.len() > 0 && s[0] == '/') && !spec_has_dotdot(s)
}

/// Decide whether `path` is safe to hand to the filesystem: it must be
/// relative and contain no parent-directory (`..`) component.
pub fn is_safe_path(path: &str) -> (r: bool)
    ensures
        r == spec_is_safe_path(path@),
{
    let n = path.unicode_len();
    if n > 0 && path.get_char(0) == '/' {
        return false;
    }
    let mut i: usize = 0;
    while i < n
        invariant
            i <= n,
            n == path@.len(),
            forall|j: int|
                0 <= j < i ==> !(j + 2 <= path@.len() && #[trigger] path@[j] == '.' && path@[j + 1] == '.' && (
                j == 0 || path@[j - 1] == '/') && (j + 2 == path@.len() || path@[j + 2] == '/')),
        decreases n - i,
    {
        if n >= 2 && i <= n - 2 && path.get_char(i) == '.' && path.get_char(i + 1) == '.' && (i == 0
            || path.get_char(i - 1) == '/') && (i + 2 == n || path.get_char(i + 2) == '/') {
            proof {
                assert(spec_has_dotdot(path@));
            }
            return false;
        }
        i += 1;
    }
    proof {
        assert(!spec_has_dotdot(path@));
    }
    true
}

} // verus!
