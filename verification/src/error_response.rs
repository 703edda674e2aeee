//! Error statuses that handlers and extractors answer with.
use vstd::prelude::*;
use crate::status::StatusCode;

verus! {

/// A client or server error status.
#[allow(clippy::upper_case_acronyms)]
#[derive(Debug, Clone, Copy, PartialEq, Eq, Structural)]
pub enum ErrorStatusCode {
    BadRequest,
    Unauthorized,
    PaymentRequired,
    Forbidden,
    NotFound,
    MethodNotAllowed,
    NotAcceptable,
    ProxyAuthenticationRequired,
    RequestTimeout,
    Conflict,
    Gone,
    LengthRequired,
    PreconditionFailed,
    PayloadTooLarge,
    URITooLong,
    UnsupportedMediaType,
    RangeNotSatisfiable,
    ExpectationFailed,
    ImATeapot,
    MisdirectedRequest,
    UnprocessableContent,
    Locked,
    FailedDependency,
    UpgradeRequired,
    PreconditionRequired,
    TooManyRequests,
    RequestHeaderFieldsTooLarge,
    UnavailableForLegalReasons,
    InternalServerError,
    NotImplemented,
    BadGateway,
    ServiceUnavailable,
    GatewayTimeout,
    HTTPVersionNotSupported,
    VariantAlsoNegotiates,
    InsufficientStorage,
    LoopDetected,
    NotExtended,
    NetworkAuthenticationRequired,
}

/// The number of an error status.
pub open spec fn error_code(e: ErrorStatusCode) -> u16 {
    match e {
        ErrorStatusCode::BadRequest => 400,
        ErrorStatusCode::Unauthorized => 401,
        ErrorStatusCode::PaymentRequired => 402,
        ErrorStatusCode::Forbidden => 403,
        ErrorStatusCode::NotFound => 404,
        ErrorStatusCode::MethodNotAllowed => 405,
        ErrorStatusCode::NotAcceptable => 406,
        ErrorStatusCode::ProxyAuthenticationRequired => 407,
        ErrorStatusCode::RequestTimeout => 408,
        ErrorStatusCode::Conflict => 409,
        ErrorStatusCode::Gone => 410,
        ErrorStatusCode::LengthRequired => 411,
        ErrorStatusCode::PreconditionFailed => 412,
        ErrorStatusCode::PayloadTooLarge => 413,
        ErrorStatusCode::URITooLong => 414,
        ErrorStatusCode::UnsupportedMediaType => 415,
        ErrorStatusCode::RangeNotSatisfiable => 416,
        ErrorStatusCode::ExpectationFailed => 417,
        ErrorStatusCode::ImATeapot => 418,
        ErrorStatusCode::MisdirectedRequest => 421,
        ErrorStatusCode::UnprocessableContent => 422,
        ErrorStatusCode::Locked => 423,
        ErrorStatusCode::FailedDependency => 424,
        ErrorStatusCode::UpgradeRequired => 426,
        ErrorStatusCode::PreconditionRequired => 428,
        ErrorStatusCode::TooManyRequests => 429,
        ErrorStatusCode::RequestHeaderFieldsTooLarge => 431,
        ErrorStatusCode::UnavailableForLegalReasons => 451,
        ErrorStatusCode::InternalServerError => 500,
        ErrorStatusCode::NotImplemented => 501,
        ErrorStatusCode::BadGateway => 502,
        ErrorStatusCode::ServiceUnavailable => 503,
        ErrorStatusCode::GatewayTimeout => 504,
        ErrorStatusCode::HTTPVersionNotSupported => 505,
        ErrorStatusCode::VariantAlsoNegotiates => 506,
        ErrorStatusCode::InsufficientStorage => 507,
        ErrorStatusCode::LoopDetected => 508,
        ErrorStatusCode::NotExtended => 510,
        ErrorStatusCode::NetworkAuthenticationRequired => 511,
    }
}

impl ErrorStatusCode {
    /// The number of this status.
    pub fn code(&self) -> (r: u16)
        ensures
            r == error_code(*self),
            400 <= r <= 511,
    {
        match self {
            ErrorStatusCode::BadRequest => 400,
            ErrorStatusCode::Unauthorized => 401,
            ErrorStatusCode::PaymentRequired => 402,
            ErrorStatusCode::Forbidden => 403,
            ErrorStatusCode::NotFound => 404,
            ErrorStatusCode::MethodNotAllowed => 405,
            ErrorStatusCode::NotAcceptable => 406,
            ErrorStatusCode::ProxyAuthenticationRequired => 407,
            ErrorStatusCode::RequestTimeout => 408,
            ErrorStatusCode::Conflict => 409,
            ErrorStatusCode::Gone => 410,
            ErrorStatusCode::LengthRequired => 411,
            ErrorStatusCode::PreconditionFailed => 412,
            ErrorStatusCode::PayloadTooLarge => 413,
            ErrorStatusCode::URITooLong => 414,
            ErrorStatusCode::UnsupportedMediaType => 415,
            ErrorStatusCode::RangeNotSatisfiable => 416,
            ErrorStatusCode::ExpectationFailed => 417,
            ErrorStatusCode::ImATeapot => 418,
            ErrorStatusCode::MisdirectedRequest => 421,
            ErrorStatusCode::UnprocessableContent => 422,
            ErrorStatusCode::Locked => 423,
            ErrorStatusCode::FailedDependency => 424,
            ErrorStatusCode::UpgradeRequired => 426,
            ErrorStatusCode::PreconditionRequired => 428,
            ErrorStatusCode::TooManyRequests => 429,
            ErrorStatusCode::RequestHeaderFieldsTooLarge => 431,
            ErrorStatusCode::UnavailableForLegalReasons => 451,
            ErrorStatusCode::InternalServerError => 500,
            ErrorStatusCode::NotImplemented => 501,
            ErrorStatusCode::BadGateway => 502,
            ErrorStatusCode::ServiceUnavailable => 503,
            ErrorStatusCode::GatewayTimeout => 504,
            ErrorStatusCode::HTTPVersionNotSupported => 505,
            ErrorStatusCode::VariantAlsoNegotiates => 506,
            ErrorStatusCode::InsufficientStorage => 507,
            ErrorStatusCode::LoopDetected => 508,
            ErrorStatusCode::NotExtended => 510,
            ErrorStatusCode::NetworkAuthenticationRequired => 511,
        }
    }

    /// This status as a status code.
    pub fn as_status_code(&self) -> (r: StatusCode)
        ensures
            r@ == error_code(*self),
            r.is_client_error_spec() || r.is_server_error_spec(),
    {
        StatusCode::new(self.code())
    }
}

} // verus!
