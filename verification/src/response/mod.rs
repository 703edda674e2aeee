//! HTTP responses.
use vstd::prelude::*;

use crate::headers::Headers;
use crate::json::map::OrderedMap;
use crate::status::StatusCode;
use crate::version::Version;

verus! {

/// Named values attached to a message, besides its headers.
#[derive(Debug)]
pub struct AnyMap {
    values: OrderedMap<String, String>,
}

impl AnyMap {
    /// The attached values, as names with their values in insertion order.
    pub closed spec fn entries(&self) -> Seq<(Seq<char>, Seq<char>)> {
        Seq::new(
            self.values.key_seq().len(),
            |i: int| (self.values.key_seq()[i]@, self.values.value_seq()[i]@),
        )
    }

    pub closed spec fn wf(&self) -> bool {
        self.values.wf()
    }

    /// The value attached under a name.
    pub closed spec fn spec_get(&self, name: Seq<char>) -> Option<String> {
        self.values.spec_get(name)
    }

    /// An empty map.
    pub fn new() -> (r: Self)
        ensures
            r.wf(),
            r.entries() == Seq::<(Seq<char>, Seq<char>)>::empty(),
    {
        let r = AnyMap { values: OrderedMap::new() };
        assert(r.entries() =~= Seq::<(Seq<char>, Seq<char>)>::empty());
        r
    }

    /// Number of attached values.
    pub fn len(&self) -> (r: usize)
        requires
            self.wf(),
        ensures
            r == self.entries().len(),
    {
        self.values.len()
    }

    /// Attaches a value under a name, replacing an earlier one.
    pub fn insert(&mut self, name: String, value: String)
        requires
            old(self).wf(),
        ensures
            final(self).wf(),
            final(self).spec_get(name@) == Some(value),
    {
        self.values.insert(name, value);
    }

    /// The value attached under a name.
    pub fn get(&self, name: &String) -> (r: Option<&String>)
        requires
            self.wf(),
        ensures
            match r {
                Some(v) => self.spec_get(name@) == Some(*v),
                None => self.spec_get(name@) is None,
            },
    {
        self.values.get(name)
    }
}

/// Represents an HTTP response: a status code, headers, extensions and a body.
#[derive(Debug)]
pub struct Response<T> {
    status: StatusCode,
    headers: Headers,
    extensions: AnyMap,
    body: T,
}

impl<T> Response<T> {
    pub closed spec fn spec_status(&self) -> StatusCode {
        self.status
    }

    pub closed spec fn spec_headers(&self) -> Headers {
        self.headers
    }

    pub closed spec fn spec_extensions(&self) -> AnyMap {
        self.extensions
    }

    pub closed spec fn spec_body(&self) -> T {
        self.body
    }

    /// Creates a new `Response` with the given status code and body, empty headers and no
    /// extensions.
    pub fn new(status: StatusCode, body: T) -> (r: Self)
        ensures
            r.spec_status() == status,
            r.spec_body() == body,
            r.spec_headers()@ == Seq::<(Seq<char>, Seq<char>)>::empty(),
            r.spec_extensions().wf(),
            r.spec_extensions().entries() == Seq::<(Seq<char>, Seq<char>)>::empty(),
    {
        Response { status, body, headers: Headers::new(), extensions: AnyMap::new() }
    }

    /// Returns the status code of the response.
    pub fn status(&self) -> (r: StatusCode)
        ensures
            r == self.spec_status(),
    {
        self.status
    }

    /// Returns a mutable reference to the status code of the response.
    pub fn status_mut(&mut self) -> (r: &mut StatusCode)
        ensures
            *r == old(self).spec_status(),
            final(self).spec_status() == *final(r),
            final(self).spec_headers() == old(self).spec_headers(),
            final(self).spec_body() == old(self).spec_body(),
            final(self).spec_extensions() == old(self).spec_extensions(),
    {
        &mut self.status
    }

    /// Returns a reference to the response headers.
    pub fn headers(&self) -> (r: &Headers)
        ensures
            *r == self.spec_headers(),
    {
        &self.headers
    }

    /// Returns a mutable reference to the response headers.
    pub fn headers_mut(&mut self) -> (r: &mut Headers)
        ensures
            *r == old(self).spec_headers(),
            final(self).spec_headers() == *final(r),
            final(self).spec_status() == old(self).spec_status(),
            final(self).spec_body() == old(self).spec_body(),
            final(self).spec_extensions() == old(self).spec_extensions(),
    {
        &mut self.headers
    }

    /// Returns the HTTP version of the response, always `HTTP/1.1`.
    pub fn version(&self) -> (r: Version)
        ensures
            r == Version::Http1_1,
    {
        Version::Http1_1
    }

    /// Returns a reference to the response body.
    pub fn body(&self) -> (r: &T)
        ensures
            *r == self.spec_body(),
    {
        &self.body
    }

    /// Returns a mutable reference to the response body.
    pub fn body_mut(&mut self) -> (r: &mut T)
        ensures
            *r == old(self).spec_body(),
            final(self).spec_body() == *final(r),
            final(self).spec_status() == old(self).spec_status(),
            final(self).spec_headers() == old(self).spec_headers(),
            final(self).spec_extensions() == old(self).spec_extensions(),
    {
        &mut self.body
    }

    /// Returns a reference to the response extensions.
    pub fn extensions(&self) -> (r: &AnyMap)
        ensures
            *r == self.spec_extensions(),
    {
        &self.extensions
    }

    /// Returns a mutable reference to the response extensions.
    pub fn extensions_mut(&mut self) -> (r: &mut AnyMap)
        ensures
            *r == old(self).spec_extensions(),
            final(self).spec_extensions() == *final(r),
            final(self).spec_status() == old(self).spec_status(),
            final(self).spec_headers() == old(self).spec_headers(),
            final(self).spec_body() == old(self).spec_body(),
    {
        &mut self.extensions
    }

    /// Maps this response body, keeping status, headers and extensions.
    pub fn map_body<F: FnOnce(T) -> R, R>(self, f: F) -> (r: Response<R>)
        requires
            f.requires((self.spec_body(),)),
        ensures
            f.ensures((self.spec_body(),), r.spec_body()),
            r.spec_status() == self.spec_status(),
            r.spec_headers() == self.spec_headers(),
            r.spec_extensions() == self.spec_extensions(),
    {
        let Response { status, headers, extensions, body } = self;
        let new_body = f(body);
        Response { body: new_body, headers, status, extensions }
    }

    /// Consumes the response and splits it into its status code, headers and body.
    pub fn into_parts(self) -> (r: (StatusCode, Headers, T))
        ensures
            r.0 == self.spec_status(),
            r.1 == self.spec_headers(),
            r.2 == self.spec_body(),
    {
        let Response { status, headers, body, extensions: _ } = self;
        (status, headers, body)
    }
}

impl Response<()> {
    /// Returns a `Builder` to construct a new `Response`.
    pub fn builder() -> (r: Builder)
        ensures
            r.spec_status()@ == 200,
            r.spec_headers()@ == Seq::<(Seq<char>, Seq<char>)>::empty(),
    {
        Builder::new()
    }
}

/// A builder for constructing `Response` objects.
pub struct Builder {
    status: StatusCode,
    headers: Headers,
    extensions: AnyMap,
}

impl Builder {
    pub closed spec fn spec_status(&self) -> StatusCode {
        self.status
    }

    pub closed spec fn spec_headers(&self) -> Headers {
        self.headers
    }

    pub closed spec fn spec_extensions(&self) -> AnyMap {
        self.extensions
    }

    /// Creates a new `Builder` with a status code of `200 OK` and empty headers.
    pub fn new() -> (r: Self)
        ensures
            r.spec_status()@ == 200,
            r.spec_headers()@ == Seq::<(Seq<char>, Seq<char>)>::empty(),
            r.spec_extensions().wf(),
            r.spec_extensions().entries() == Seq::<(Seq<char>, Seq<char>)>::empty(),
    {
        Builder { status: StatusCode::ok(), headers: Headers::new(), extensions: AnyMap::new() }
    }

    /// Sets the status code for the response.
    pub fn status(self, status: StatusCode) -> (r: Self)
        ensures
            r.spec_status() == status,
            r.spec_headers() == self.spec_headers(),
            r.spec_extensions() == self.spec_extensions(),
    {
        let mut b = self;
        b.status = status;
        b
    }

    /// Returns a reference to the headers being set.
    pub fn headers(&self) -> (r: &Headers)
        ensures
            *r == self.spec_headers(),
    {
        &self.headers
    }

    /// Returns a mutable reference to the headers being set.
    pub fn headers_mut(&mut self) -> (r: &mut Headers)
        ensures
            *r == old(self).spec_headers(),
            final(self).spec_headers() == *final(r),
            final(self).spec_status() == old(self).spec_status(),
            final(self).spec_extensions() == old(self).spec_extensions(),
    {
        &mut self.headers
    }

    /// Returns a reference to the extensions being set.
    pub fn extensions(&self) -> (r: &AnyMap)
        ensures
            *r == self.spec_extensions(),
    {
        &self.extensions
    }

    /// Returns a mutable reference to the extensions being set.
    pub fn extensions_mut(&mut self) -> (r: &mut AnyMap)
        ensures
            *r == old(self).spec_extensions(),
            final(self).spec_extensions() == *final(r),
            final(self).spec_status() == old(self).spec_status(),
            final(self).spec_headers() == old(self).spec_headers(),
    {
        &mut self.extensions
    }

    /// Sets a header, replacing its earlier values.
    pub fn insert_header(self, key: String, value: String) -> (r: Self)
        ensures
            r.spec_headers()@ == crate::headers::without_name(self.spec_headers()@, key@).push((key@, value@)),
            r.spec_status() == self.spec_status(),
            r.spec_extensions() == self.spec_extensions(),
    {
        let mut b = self;
        b.headers.insert(key, value);
        b
    }

    /// Appends a value to a header.
    pub fn append_header(self, key: String, value: String) -> (r: Self)
        ensures
            r.spec_headers()@ == self.spec_headers()@.push((key@, value@)),
            r.spec_status() == self.spec_status(),
            r.spec_extensions() == self.spec_extensions(),
    {
        let mut b = self;
        b.headers.append(key, value);
        b
    }

    /// Builds the final `Response` with the provided body.
    pub fn build<T>(self, body: T) -> (r: Response<T>)
        ensures
            r.spec_status() == self.spec_status(),
            r.spec_headers() == self.spec_headers(),
            r.spec_extensions() == self.spec_extensions(),
            r.spec_body() == body,
    {
        let Builder { status, headers, extensions } = self;
        Response { status, headers, extensions, body }
    }
}

} // verus!
