//! The `Host` and `Referer` headers.
use vstd::prelude::*;
use crate::error_response::ErrorStatusCode;
use crate::header::FromHeaders;
use crate::headers::Headers;
use crate::uri::uri::{Uri, UriView, InvalidUriView, spec_parse_uri, uri_parse_defined};

verus! {

/// The name of the `Host` header.
pub const HOST: &'static str = "Host";

/// The name of the `Referer` header.
pub const REFERER: &'static str = "Referer";

/// What reading a URI header gives: its URI when the value parses as one, else a bad request; a
/// value that the URI reading cannot take apart is a bad request too.
pub open spec fn uri_header(value: Option<Seq<char>>) -> Result<UriView, ErrorStatusCode> {
    match value {
        Some(v) => if uri_parse_defined(v) {
            match spec_parse_uri(v) {
                Ok(u) => Ok(u),
                Err(_) => Err(ErrorStatusCode::BadRequest),
            }
        } else {
            Err(ErrorStatusCode::BadRequest)
        },
        None => Err(ErrorStatusCode::BadRequest),
    }
}

fn read_uri_header(headers: &Headers, name: &str) -> (r: Result<Uri, ErrorStatusCode>)
    ensures
        match r {
            Ok(u) => uri_header(headers.spec_get(name@)) == Ok::<UriView, ErrorStatusCode>(u@),
            Err(e) => uri_header(headers.spec_get(name@)) == Err::<UriView, ErrorStatusCode>(e),
        },
{
    match headers.get(name) {
        Some(value) => match Uri::parse(value) {
            Some(Ok(uri)) => Ok(uri),
            Some(Err(_)) => Err(ErrorStatusCode::BadRequest),
            None => Err(ErrorStatusCode::BadRequest),
        },
        None => Err(ErrorStatusCode::BadRequest),
    }
}

/// The URI of the `Host` header.
#[derive(Debug)]
pub struct Host(pub Uri);

impl Host {
    /// The URI.
    pub fn into_inner(self) -> (r: Uri)
        ensures
            r@ == self.0@,
    {
        self.0
    }
}

impl FromHeaders for Host {
    type Rejection = ErrorStatusCode;

    open spec fn made_from(headers: Headers, r: Result<Host, ErrorStatusCode>) -> bool {
        match r {
            Ok(h) => uri_header(headers.spec_get(HOST@)) == Ok::<UriView, ErrorStatusCode>(h.0@),
            Err(e) => uri_header(headers.spec_get(HOST@)) == Err::<UriView, ErrorStatusCode>(e),
        }
    }

    /// The URI of the first value of `Host`.
    fn from_headers(headers: &Headers) -> (r: Result<Host, ErrorStatusCode>)
        ensures
            match r {
                Ok(h) => uri_header(headers.spec_get(HOST@)) == Ok::<UriView, ErrorStatusCode>(h.0@),
                Err(e) => uri_header(headers.spec_get(HOST@)) == Err::<UriView, ErrorStatusCode>(e),
            },
    {
        match read_uri_header(headers, HOST) {
            Ok(u) => Ok(Host(u)),
            Err(e) => Err(e),
        }
    }
}

/// The URI of the `Referer` header.
#[derive(Debug)]
pub struct Referer(pub Uri);

impl Referer {
    /// The URI.
    pub fn into_inner(self) -> (r: Uri)
        ensures
            r@ == self.0@,
    {
        self.0
    }
}

impl FromHeaders for Referer {
    type Rejection = ErrorStatusCode;

    open spec fn made_from(headers: Headers, r: Result<Referer, ErrorStatusCode>) -> bool {
        match r {
            Ok(h) => uri_header(headers.spec_get(REFERER@)) == Ok::<UriView, ErrorStatusCode>(h.0@),
            Err(e) => uri_header(headers.spec_get(REFERER@)) == Err::<UriView, ErrorStatusCode>(e),
        }
    }

    /// The URI of the first value of `Referer`.
    fn from_headers(headers: &Headers) -> (r: Result<Referer, ErrorStatusCode>)
        ensures
            match r {
                Ok(h) => uri_header(headers.spec_get(REFERER@)) == Ok::<UriView, ErrorStatusCode>(h.0@),
                Err(e) => uri_header(headers.spec_get(REFERER@)) == Err::<UriView, ErrorStatusCode>(e),
            },
    {
        match read_uri_header(headers, REFERER) {
            Ok(u) => Ok(Referer(u)),
            Err(e) => Err(e),
        }
    }
}

} // verus!
