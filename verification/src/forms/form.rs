//! `application/x-www-form-urlencoded` forms.
use vstd::prelude::*;
use vstd::utf8::{decode_utf8, valid_utf8};
use crate::headers::Headers;
use crate::text::{str_eq, str_to_chars, string_from_utf8};
use crate::uri::convert::{decode_uri_component, spec_decode_uri_component, InvalidUriComponent};
use crate::uri::path_query::{
    query_map_entries, query_pairs, split_chars, split_chars_from, PathAndQuery, QueryMap, QueryValueView,
};

verus! {

/// The media type of an url-encoded form.
pub const WWW_FORM_URLENCODED: &'static str = "application/x-www-form-urlencoded";

/// A value read from an url-encoded form.
#[derive(Debug, Clone, Copy, PartialEq, Eq, PartialOrd, Ord, Hash)]
pub struct Form<T>(pub T);

impl<T> Form<T> {
    /// The value.
    pub fn into_inner(self) -> (r: T)
        ensures
            r == self.0,
    {
        self.0
    }
}

/// Why a request does not hold an url-encoded form.
#[derive(Debug)]
pub enum RejectFormError {
    /// The request has no content type.
    NoContentType,
    /// The content type is not `application/x-www-form-urlencoded`.
    InvalidContentType(String),
    /// The body could not be read.
    FailedReadForm(String),
    /// The body is not UTF-8.
    Utf8Error,
    /// The body is not a valid percent-encoding.
    InvalidUriComponent(InvalidUriComponent),
    /// The decoded form could not be read as a value.
    DeserializationError(String),
}

/// The abstract value of a [`RejectFormError`].
pub enum RejectFormErrorView {
    NoContentType,
    InvalidContentType(Seq<char>),
    FailedReadForm(Seq<char>),
    Utf8Error,
    InvalidUriComponent,
    DeserializationError(Seq<char>),
}

impl View for RejectFormError {
    type V = RejectFormErrorView;

    open spec fn view(&self) -> RejectFormErrorView {
        match self {
            RejectFormError::NoContentType => RejectFormErrorView::NoContentType,
            RejectFormError::InvalidContentType(s) => RejectFormErrorView::InvalidContentType(s@),
            RejectFormError::FailedReadForm(s) => RejectFormErrorView::FailedReadForm(s@),
            RejectFormError::Utf8Error => RejectFormErrorView::Utf8Error,
            RejectFormError::InvalidUriComponent(_) => RejectFormErrorView::InvalidUriComponent,
            RejectFormError::DeserializationError(s) => RejectFormErrorView::DeserializationError(s@),
        }
    }
}

/// The entries of the form in a request: the media type (the content type up to its first `;`)
/// must be `application/x-www-form-urlencoded`, the body UTF-8 and percent-decodable; the
/// decoded text is read as a query: `name=value` pairs between `&`.
pub open spec fn form_entries(content_type: Option<Seq<char>>, body: Seq<u8>) -> Result<
    Seq<(Seq<char>, QueryValueView)>,
    RejectFormErrorView,
> {
    match content_type {
        None => Err(RejectFormErrorView::NoContentType),
        Some(ct) => {
            let mime = split_chars(ct, ';')[0];
            if mime != WWW_FORM_URLENCODED@ {
                Err(RejectFormErrorView::InvalidContentType(mime))
            } else if !valid_utf8(body) {
                Err(RejectFormErrorView::Utf8Error)
            } else {
                match spec_decode_uri_component(decode_utf8(body)) {
                    None => Err(RejectFormErrorView::InvalidUriComponent),
                    Some(q) => Ok(query_map_entries(query_pairs(split_chars(q, '&')))),
                }
            }
        },
    }
}

/// The query map of the url-encoded form of a request.
pub fn read_form(headers: &Headers, body: Vec<u8>) -> (r: Result<QueryMap, RejectFormError>)
    ensures
        match r {
            Ok(m) => form_entries(headers.spec_get("Content-Type"@), body@) == Ok::<
                Seq<(Seq<char>, QueryValueView)>,
                RejectFormErrorView,
            >(m@),
            Err(e) => form_entries(headers.spec_get("Content-Type"@), body@) == Err::<
                Seq<(Seq<char>, QueryValueView)>,
                RejectFormErrorView,
            >(e@),
        },
{
    let content_type = match headers.get("Content-Type") {
        Some(v) => v,
        None => {
            return Err(RejectFormError::NoContentType);
        },
    };
    let cs = str_to_chars(content_type);
    let parts = split_chars_from(cs.as_slice(), 0, ';');
    proof {
        assert(cs@.subrange(0, cs@.len() as int) =~= content_type@);
        crate::uri::path_query::lemma_split_chars_nonempty(content_type@, ';');
        assert(parts@[0]@ == crate::text::string_views(parts@)[0]);
    }
    if !str_eq(parts[0].as_str(), WWW_FORM_URLENCODED) {
        return Err(RejectFormError::InvalidContentType(parts[0].clone()));
    }
    let text = match string_from_utf8(body) {
        Some(t) => t,
        None => {
            return Err(RejectFormError::Utf8Error);
        },
    };
    let q = match decode_uri_component(text.as_str()) {
        Ok(q) => q,
        Err(e) => {
            return Err(RejectFormError::InvalidUriComponent(e));
        },
    };
    proof {
        reveal_strlit("/");
    }
    let pq = PathAndQuery::new("/".to_owned(), Some(q), None);
    Ok(pq.query_map())
}

} // verus!
