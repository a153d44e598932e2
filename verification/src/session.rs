//! Session identity: the username captured by the login screen.

use vstd::prelude::*;

verus! {

/// The application-level session identity.  It is written once, by a
/// successful login, and only read afterwards; holding it in its own type
/// with no mutating method makes the single-writer discipline a property of
/// the type rather than of runtime checks.
pub struct User {
    pub username: String,
}

/// The login screen's decision: a typed name is accepted exactly when it is
/// non-empty, and the accepted name becomes the session identity verbatim.
pub fn login(typed: &str) -> (r: Option<User>)
    ensures
        match r {
            Some(u) => typed@.len() > 0 && u.username@ == typed@,
            None => typed@.len() == 0,
        },
{
    if typed.unicode_len() == 0 {
        None
    } else {
        Some(User { username: typed.to_owned() })
    }
}

} // verus!
