//! The `If-Match` header.
use vstd::prelude::*;
use crate::error_response::ErrorStatusCode;
use crate::header::FromHeaders;
use crate::headers::Headers;
use crate::text::{string_views, str_to_chars, trim, trim_string};
use crate::uri::path_query::{split_chars, split_chars_from};

verus! {

/// The name of the `If-Match` header.
pub const IF_MATCH: &'static str = "If-Match";

/// The entity tags of the `If-Match` header.
#[derive(Debug, Clone)]
pub struct IfMatch(Vec<String>);

/// The entity tags of an `If-Match` value: the parts between commas, trimmed.
pub open spec fn entity_tags(value: Seq<char>) -> Seq<Seq<char>> {
    split_chars(value, ',').map_values(|p: Seq<char>| trim(p))
}

impl IfMatch {
    /// The entity tags.
    pub closed spec fn tags(&self) -> Seq<Seq<char>> {
        string_views(self.0@)
    }

    /// The tags of a header value.
    pub fn from_value(value: &str) -> (r: IfMatch)
        ensures
            r.tags() == entity_tags(value@),
    {
        let cs = str_to_chars(value);
        let parts = split_chars_from(cs.as_slice(), 0, ',');
        assert(cs@.subrange(0, cs@.len() as int) =~= value@);
        let ghost ps = string_views(parts@);
        let mut out: Vec<String> = Vec::new();
        let mut i: usize = 0;
        while i < parts.len()
            invariant
                ps == string_views(parts@),
                ps == split_chars(value@, ','),
                i <= parts@.len(),
                string_views(out@) == ps.take(i as int).map_values(|p: Seq<char>| trim(p)),
            decreases parts@.len() - i,
        {
            let ghost before = out@;
            let pc = str_to_chars(parts[i].as_str());
            let t = trim_string(pc.as_slice());
            out.push(t);
            proof {
                crate::text::lemma_string_views_push(before, t);
                assert(ps[i as int] == parts@[i as int]@);
                assert(ps.take(i + 1).map_values(|p: Seq<char>| trim(p)) =~= ps.take(i as int).map_values(|p: Seq<char>| trim(p)).push(trim(ps[i as int])));
            }
            i = i + 1;
        }
        assert(ps.take(parts@.len() as int) =~= ps);
        IfMatch(out)
    }

    /// Whether a tag is among the tags.
    pub fn contains(&self, value: &str) -> (r: bool)
        ensures
            r == self.tags().contains(value@),
    {
        let ghost ts = self.tags();
        let mut i: usize = 0;
        while i < self.0.len()
            invariant
                ts == string_views(self.0@),
                i <= self.0@.len(),
                forall|j: int| 0 <= j < i ==> ts[j] != value@,
            decreases self.0@.len() - i,
        {
            assert(ts[i as int] == self.0@[i as int]@);
            if crate::text::str_eq(self.0[i].as_str(), value) {
                return true;
            }
            i = i + 1;
        }
        false
    }

    /// The tags.
    pub fn into_inner(self) -> (r: Vec<String>)
        ensures
            string_views(r@) == self.tags(),
    {
        self.0
    }
}

impl FromHeaders for IfMatch {
    type Rejection = ErrorStatusCode;

    open spec fn made_from(headers: Headers, r: Result<IfMatch, ErrorStatusCode>) -> bool {
        match headers.spec_get(IF_MATCH@) {
            Some(v) => r matches Ok(m) && m.tags() == entity_tags(v),
            None => r == Err::<IfMatch, ErrorStatusCode>(ErrorStatusCode::BadRequest),
        }
    }

    /// The tags of the first value of `If-Match`; a request without one is a bad request.
    fn from_headers(headers: &Headers) -> (r: Result<IfMatch, ErrorStatusCode>)
        ensures
            match headers.spec_get(IF_MATCH@) {
                Some(v) => r matches Ok(m) && m.tags() == entity_tags(v),
                None => r == Err::<IfMatch, ErrorStatusCode>(ErrorStatusCode::BadRequest),
            },
    {
        match headers.get(IF_MATCH) {
            Some(value) => Ok(IfMatch::from_value(value)),
            None => Err(ErrorStatusCode::BadRequest),
        }
    }
}

} // verus!
