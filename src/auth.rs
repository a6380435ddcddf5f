use vstd::prelude::*;
use crate::domain::User;
use crate::text::{decimal_string, decimal_text, has_prefix, join_text, starts_with, text_after};

verus! {

/// Configuration of the bearer-token guard.
#[derive(Clone, Copy)]
pub struct AuthState {
    /// If false, a token of the `demo-token-<id>` form is required.
    pub allow_any_token: bool,
}

/// Credentials of a login.
pub struct LoginRequest {
    pub name: String,
    pub password: String,
}

/// The user part of a login answer.
pub struct LoginUser {
    pub id: i64,
    pub name: String,
    pub realname: String,
    pub cellphone: String,
    pub enable: i32,
}

/// A login answer: the credential to present and the user it belongs to.
pub struct LoginResponse {
    pub token: String,
    pub user: LoginUser,
}

/// The token of an `Authorization: Bearer <token>` header value: the text
/// after the `Bearer ` prefix, when that text is not empty.
pub open spec fn bearer_token(value: Seq<char>) -> Option<Seq<char>> {
    let p = "Bearer "@;
    if has_prefix(value, p) && value.len() > p.len() {
        Some(value.subrange(p.len() as int, value.len() as int))
    } else {
        None
    }
}

/// The view of an optional text.
pub open spec fn text_of(o: Option<String>) -> Option<Seq<char>> {
    match o {
        Some(s) => Some(s@),
        None => None,
    }
}

/// Extracts the token of an `Authorization` header value.
pub fn parse_bearer(value: &str) -> (r: Option<String>)
    ensures
        text_of(r) == bearer_token(value@),
{
    let prefix = "Bearer ";
    if starts_with(value, prefix) {
        let rest = text_after(value, prefix.unicode_len());
        if rest.as_str().unicode_len() > 0 {
            return Some(rest);
        }
    }
    None
}

/// A token the guard accepts when it does not allow any token.
pub open spec fn demo_token_form(token: Seq<char>) -> bool {
    has_prefix(token, "demo-token-"@)
}

impl AuthState {
    /// Whether a request carrying `token` (the parsed bearer token, if any)
    /// may pass the guard.
    pub fn admits(&self, token: &Option<String>) -> (r: bool)
        ensures
            r == (self.allow_any_token || (token is Some && demo_token_form(token->0@))),
    {
        if self.allow_any_token {
            return true;
        }
        match token {
            Some(t) => starts_with(t.as_str(), "demo-token-"),
            None => false,
        }
    }
}

impl LoginRequest {
    /// Name and password are both given (non-empty).
    pub fn has_credentials(&self) -> (r: bool)
        ensures
            r == (self.name@.len() > 0 && self.password@.len() > 0),
    {
        self.name.as_str().unicode_len() > 0 && self.password.as_str().unicode_len() > 0
    }
}

/// The credential issued to user `id`: `Bearer demo-token-<id>`.
pub fn demo_token(id: i64) -> (r: String)
    ensures
        r@ == "Bearer demo-token-"@ + decimal_text(id as int),
{
    let digits = decimal_string(id);
    join_text("Bearer demo-token-", digits.as_str())
}

/// The answer to a successful login of `user`; a missing cellphone is
/// given as empty text.
pub fn login_response(user: User) -> (r: LoginResponse)
    ensures
        r.token@ == "Bearer demo-token-"@ + decimal_text(user.id as int),
        r.user.id == user.id,
        r.user.name == user.name,
        r.user.realname == user.realname,
        r.user.cellphone@ == match user.cellphone {
            Some(c) => c@,
            None => Seq::<char>::empty(),
        },
        r.user.enable == user.enable,
{
    let token = demo_token(user.id);
    let cellphone = match user.cellphone {
        Some(c) => c,
        None => String::new(),
    };
    LoginResponse {
        token,
        user: LoginUser {
            id: user.id,
            name: user.name,
            realname: user.realname,
            cellphone,
            enable: user.enable,
        },
    }
}

} // verus!
