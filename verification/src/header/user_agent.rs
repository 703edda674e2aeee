//! The `User-Agent` header.
use vstd::prelude::*;
use crate::error_response::ErrorStatusCode;
use crate::header::FromHeaders;
use crate::headers::Headers;

verus! {

/// The name of the `User-Agent` header.
pub const USER_AGENT: &'static str = "User-Agent";

/// The raw value of the `User-Agent` header.
#[derive(Debug, Clone, PartialEq, Eq)]
pub struct RawUserAgent(pub String);

impl RawUserAgent {
    /// The value of the header.
    pub fn into_inner(self) -> (r: String)
        ensures
            r@ == self.0@,
    {
        self.0
    }
}

impl FromHeaders for RawUserAgent {
    type Rejection = ErrorStatusCode;

    open spec fn made_from(headers: Headers, r: Result<RawUserAgent, ErrorStatusCode>) -> bool {
        match headers.spec_get(USER_AGENT@) {
            Some(v) => r matches Ok(a) && a.0@ == v,
            None => r == Err::<RawUserAgent, ErrorStatusCode>(ErrorStatusCode::BadRequest),
        }
    }

    /// The first value of `User-Agent`; a request without one is a bad request.
    fn from_headers(headers: &Headers) -> (r: Result<RawUserAgent, ErrorStatusCode>)
        ensures
            match headers.spec_get(USER_AGENT@) {
                Some(v) => r matches Ok(a) && a.0@ == v,
                None => r == Err::<RawUserAgent, ErrorStatusCode>(ErrorStatusCode::BadRequest),
            },
    {
        match headers.get(USER_AGENT) {
            Some(value) => Ok(RawUserAgent(crate::text::copy_string(value))),
            None => Err(ErrorStatusCode::BadRequest),
        }
    }
}

} // verus!
