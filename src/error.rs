//! Errors reported by the ring and the discovery engine.

use vstd::prelude::*;
use vstd::string::*;

verus! {

/// An error with a human-readable message.
#[derive(Debug)]
pub enum ErrorResponse {
    /// An invariant of the core could not be met (no member to route to).
    Internal(String),
    /// The caller's input violates a contract (unknown namespace or member).
    BadRequest(String),
}

impl ErrorResponse {
    /// An internal error carrying exactly the message `msg`.
    pub open spec fn is_internal_with(&self, msg: Seq<char>) -> bool {
        self matches ErrorResponse::Internal(m) && m@ == msg
    }

    /// A bad-request error carrying exactly the message `msg`.
    pub open spec fn is_bad_request_with(&self, msg: Seq<char>) -> bool {
        self matches ErrorResponse::BadRequest(m) && m@ == msg
    }

    /// The display form: a prefix naming the kind, then the message.
    pub open spec fn display_view(&self) -> Seq<char> {
        match self {
            ErrorResponse::Internal(m) => "internal error: "@ + m@,
            ErrorResponse::BadRequest(m) => "bad request: "@ + m@,
        }
    }

    /// Renders the error as shown to callers.
    pub fn to_string(&self) -> (r: String)
        ensures
            r@ == self.display_view(),
    {
        match self {
            ErrorResponse::Internal(m) => String::from_str("internal error: ").concat(m.as_str()),
            ErrorResponse::BadRequest(m) => String::from_str("bad request: ").concat(m.as_str()),
        }
    }
}

} // verus!
