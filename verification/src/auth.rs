//! The door before the protected pages: one shared password, remembered
//! in a cookie.

use vstd::prelude::*;
use crate::text::{optional_str, text_eq};

verus! {

/// The form that a login posts.
#[derive(Debug)]
pub struct LoginForm {
    password: String,
}

impl View for LoginForm {
    type V = Seq<char>;

    /// The password that was typed in.
    closed spec fn view(&self) -> Seq<char> {
        self.password@
    }
}

impl LoginForm {
    pub fn new(password: String) -> (r: LoginForm)
        ensures
            r@ == password@,
    {
        LoginForm { password: password }
    }

    pub fn password(&self) -> (r: &str)
        ensures
            r@ == self@,
    {
        self.password.as_str()
    }
}

/// Whether a login is accepted: the form holds the configured password.
pub fn login(form: &LoginForm, configured: &str) -> (r: bool)
    ensures
        r == (form@ == configured@),
{
    text_eq(form.password(), configured)
}

/// Whether a password is asked for at all: one is configured.
pub fn password_required(configured: &str) -> (r: bool)
    ensures
        r == (configured@.len() > 0),
{
    configured.unicode_len() > 0
}

/// Who is let in: everyone where no password is configured, else
/// whoever carries the cookie that a login hands out, with the value `1`.
pub open spec fn admitted(configured: Seq<char>, cookie: Option<Seq<char>>) -> bool {
    configured.len() == 0 || cookie == Some("1"@)
}

/// Whether a request with the given `auth` cookie may see the protected
/// page.
pub fn master_protection(configured: &str, cookie: Option<&str>) -> (r: bool)
    ensures
        r == admitted(configured@, optional_str(cookie)),
{
    if !password_required(configured) {
        return true;
    }
    match cookie {
        Some(c) => text_eq(c, "1"),
        None => false,
    }
}

} // verus!
