//! Request handling: the login and session checks of the dashboard, and a
//! status rewrite for error responses that the server leaves unapplied.

pub mod dashboard;
pub mod ingest;

use vstd::prelude::*;

verus! {

/// Where a request without a valid session is sent.
pub const LOGIN_PATH: &'static str = "/login";

/// Whether the `session` cookie (if any) carries the session token.
pub fn session_is_valid(cookie: Option<&str>, token: &str) -> (res: bool)
    ensures
        res == (cookie matches Some(c) && c@ == token@),
{
    match cookie {
        Some(c) => str_equal(c, token),
        None => false,
    }
}

/// Whether a login form's username and password are the configured
/// dashboard credentials.
pub fn credentials_match(username: &str, password: &str, user: &str, pass: &str) -> (res: bool)
    ensures
        res == (username@ == user@ && password@ == pass@),
{
    str_equal(username, user) && str_equal(password, pass)
}

/// Whether two strings hold the same characters.
pub fn str_equal(a: &str, b: &str) -> (res: bool)
    ensures
        res == (a@ == b@),
{
    let n = a.unicode_len();
    if n != b.unicode_len() {
        return false;
    }
    let mut i: usize = 0;
    while i < n
        invariant
            n == a@.len(),
            n == b@.len(),
            i <= n,
            forall|j: int| 0 <= j < i ==> a@[j] == b@[j],
        decreases n - i,
    {
        if a.get_char(i) != b.get_char(i) {
            return false;
        }
        i = i + 1;
    }
    proof {
        assert(a@ =~= b@);
    }
    true
}

/// The status a response of status `status` would go out with if error
/// answers were hidden: client and server errors (4xx and 5xx) become 200,
/// every other status stays. The server does not apply this rewrite: its
/// documented answers (404 for an unknown endpoint, 413 for a body over the
/// limit) keep their error statuses, so nothing calls this function there.
pub fn forced_status(status: u16) -> (res: u16)
    ensures
        res == if 400 <= status && status <= 599 { 200 } else { status },
        !(400 <= res && res <= 599),
{
    if 400 <= status && status <= 599 {
        200
    } else {
        status
    }
}

} // verus!
