use vstd::prelude::*;
use vstd::string::StringExecFns;
use crate::text::join_text;

verus! {

/// The failures that the API reports to its callers.
#[derive(Debug, Clone, PartialEq, Eq)]
pub enum DomainError {
    NotFound,
    Unauthorized,
    InvalidInput(String),
    Conflict(String),
    Internal(String),
}

/// The HTTP status (and envelope code) that each failure maps to.
pub open spec fn spec_status_code(e: DomainError) -> i32 {
    match e {
        DomainError::NotFound => 404,
        DomainError::Unauthorized => 401,
        DomainError::InvalidInput(_) => 400,
        DomainError::Conflict(_) => 409,
        DomainError::Internal(_) => 500,
    }
}

/// The message of an error response.
pub open spec fn spec_message(e: DomainError) -> Seq<char> {
    match e {
        DomainError::NotFound => "not found"@,
        DomainError::Unauthorized => "unauthorized"@,
        DomainError::InvalidInput(m) => "invalid input: "@ + m@,
        DomainError::Conflict(m) => "conflict: "@ + m@,
        DomainError::Internal(_) => "internal error"@,
    }
}

/// `r` is an `InvalidInput` failure carrying the message `msg`.
pub open spec fn rejects<T>(r: Result<T, DomainError>, msg: Seq<char>) -> bool {
    &&& r is Err
    &&& r->Err_0 is InvalidInput
    &&& r->Err_0->InvalidInput_0@ == msg
}

/// An `InvalidInput` failure with the message `msg`.
pub fn invalid_input(msg: &str) -> (e: DomainError)
    ensures
        e is InvalidInput,
        e->InvalidInput_0@ == msg@,
{
    DomainError::InvalidInput(String::from_str(msg))
}

impl DomainError {
    /// The status code of the error response.
    pub fn status_code(&self) -> (r: i32)
        ensures
            r == spec_status_code(*self),
    {
        match self {
            DomainError::NotFound => 404,
            DomainError::Unauthorized => 401,
            DomainError::InvalidInput(_) => 400,
            DomainError::Conflict(_) => 409,
            DomainError::Internal(_) => 500,
        }
    }

    /// The message of the error response; the detail of an internal error
    /// is not shown.
    pub fn message(&self) -> (r: String)
        ensures
            r@ == spec_message(*self),
    {
        match self {
            DomainError::NotFound => String::from_str("not found"),
            DomainError::Unauthorized => String::from_str("unauthorized"),
            DomainError::InvalidInput(m) => join_text("invalid input: ", m.as_str()),
            DomainError::Conflict(m) => join_text("conflict: ", m.as_str()),
            DomainError::Internal(_) => String::from_str("internal error"),
        }
    }
}

} // verus!
