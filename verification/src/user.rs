//! Username validity rules.
//!
//! The identity store itself (durable storage of usernames) is an external
//! collaborator; this module only defines which names are acceptable.

use crate::strutil::str_eq;
use vstd::prelude::*;
use vstd::string::StrSliceExecFns;

verus! {

/// A character allowed in a username: printable, non-whitespace ASCII.
pub open spec fn is_username_char(c: char) -> bool {
    0x21 <= c as u32 <= 0x7e
}

/// A valid username: non-empty, every character printable non-whitespace
/// ASCII, and not the reserved superuser name.
pub open spec fn valid_username(s: Seq<char>) -> bool {
    &&& s != "root"@
    &&& s.len() > 0
    &&& forall|i: int| 0 <= i < s.len() ==> is_username_char(#[trigger] s[i])
}

/// Decides whether `user` may be created as an ordinary user.
pub fn check_username(user: &str) -> (r: bool)
    ensures
        r == valid_username(user@),
{
    if str_eq(user, "root") {
        return false;
    }
    let n = user.unicode_len();
    if n == 0 {
        return false;
    }
    let mut i: usize = 0;
    while i < n
        invariant
            n == user@.len(),
            i <= n,
            forall|k: int| 0 <= k < i ==> is_username_char(#[trigger] user@[k]),
        decreases n - i,
    {
        let c = user.get_char(i);
        let u = c as u32;
        if u < 0x21 || u > 0x7e {
            return false;
        }
        i = i + 1;
    }
    true
}

} // verus!
