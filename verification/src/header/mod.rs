//! Typed request headers.
use vstd::prelude::*;
use crate::headers::Headers;

pub mod authorization;
pub mod basic_auth;
pub mod entity;
pub mod host;
pub mod user_agent;

pub use authorization::Authorization;
pub use basic_auth::BasicAuth;
pub use entity::IfMatch;
pub use host::{Host, Referer};
pub use user_agent::RawUserAgent;

verus! {

/// Values made from the headers of a request.
pub trait FromHeaders: Sized {
    /// What a request without a fitting header is answered with.
    type Rejection;

    /// Whether `r` is what these headers make: the value or the rejection.
    spec fn made_from(headers: Headers, r: Result<Self, Self::Rejection>) -> bool;

    /// Makes a value from the headers.
    fn from_headers(headers: &Headers) -> (r: Result<Self, Self::Rejection>)
        ensures
            Self::made_from(*headers, r),
    ;
}

/// A value made from the headers of a request.
#[derive(Debug, Clone, Copy, PartialEq, Eq)]
pub struct GetHeader<H: FromHeaders>(pub H);

impl<H: FromHeaders> GetHeader<H> {
    /// Makes the value from the headers.
    pub fn from_headers(headers: &Headers) -> (r: Result<GetHeader<H>, H::Rejection>)
        ensures
            match r {
                Ok(g) => H::made_from(*headers, Ok(g.0)),
                Err(e) => H::made_from(*headers, Err(e)),
            },
    {
        match H::from_headers(headers) {
            Ok(h) => Ok(GetHeader(h)),
            Err(e) => Err(e),
        }
    }

    /// The value.
    pub fn into_inner(self) -> (r: H)
        ensures
            r == self.0,
    {
        self.0
    }
}

} // verus!
