//! The `Authorization` header.
use vstd::prelude::*;
use crate::error_response::ErrorStatusCode;
use crate::header::FromHeaders;
use crate::headers::Headers;

verus! {

/// The name of the `Authorization` header.
pub const AUTHORIZATION: &'static str = "Authorization";

/// The raw value of the `Authorization` header.
#[derive(Debug, Clone, PartialEq, Eq, Hash)]
pub struct Authorization(pub String);

impl Authorization {
    /// The value of the header.
    pub fn into_inner(self) -> (r: String)
        ensures
            r@ == self.0@,
    {
        self.0
    }
}

impl FromHeaders for Authorization {
    type Rejection = ErrorStatusCode;

    open spec fn made_from(headers: Headers, r: Result<Authorization, ErrorStatusCode>) -> bool {
        match headers.spec_get(AUTHORIZATION@) {
            Some(v) => r matches Ok(a) && a.0@ == v,
            None => r == Err::<Authorization, ErrorStatusCode>(ErrorStatusCode::Unauthorized),
        }
    }

    /// The first value of `Authorization`; a request without one is unauthorized.
    fn from_headers(headers: &Headers) -> (r: Result<Authorization, ErrorStatusCode>)
        ensures
            match headers.spec_get(AUTHORIZATION@) {
                Some(v) => r matches Ok(a) && a.0@ == v,
                None => r == Err::<Authorization, ErrorStatusCode>(ErrorStatusCode::Unauthorized),
            },
    {
        match headers.get(AUTHORIZATION) {
            Some(value) => Ok(Authorization(crate::text::copy_string(value))),
            None => Err(ErrorStatusCode::Unauthorized),
        }
    }
}

} // verus!
