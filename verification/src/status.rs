//! HTTP status codes.
use vstd::prelude::*;

verus! {

/// Represents a status code, a number between 100 and 599.
#[derive(Debug, Clone, Copy, PartialEq, Eq, PartialOrd, Ord, Hash)]
pub struct StatusCode(u16);

impl View for StatusCode {
    type V = u16;

    closed spec fn view(&self) -> u16 {
        self.0
    }
}

impl StatusCode {
    /// Well-formedness: the code lies between 100 and 599.
    pub open spec fn wf(&self) -> bool {
        100 <= self@ <= 599
    }

    /// Whether the status is a client error, `4xx`.
    pub open spec fn is_client_error_spec(&self) -> bool {
        400 <= self@ < 500
    }

    /// Whether the status is a server error, `5xx` and up.
    pub open spec fn is_server_error_spec(&self) -> bool {
        self@ >= 500
    }

    /// Constructs a status code; the code must lie between 100 and 599.
    pub fn new(status: u16) -> (r: Self)
        requires
            100 <= status <= 599,
        ensures
            r@ == status,
            r.wf(),
    {
        StatusCode(status)
    }

    /// Returns the status as `u16`.
    pub fn as_u16(&self) -> (r: u16)
        ensures
            r == self@,
    {
        self.0
    }

    /// Whether if this status is a redirections status code.
    pub fn is_redirection(&self) -> (r: bool)
        ensures
            r == (300 <= self@ < 400),
    {
        self.0 >= 300 && self.0 < 400
    }

    /// Whether if this status is a client error status code.
    pub fn is_client_error(&self) -> (r: bool)
        ensures
            r == (400 <= self@ < 500),
    {
        self.0 >= 400 && self.0 < 500
    }

    /// Whether if this status is a server error status code.
    pub fn is_server_error(&self) -> (r: bool)
        ensures
            r == (self@ >= 500),
    {
        self.0 >= 500
    }

    /// The default status code, `200 OK`.
    pub fn ok() -> (r: Self)
        ensures
            r@ == 200,
    {
        StatusCode(200)
    }
}

} // verus!
