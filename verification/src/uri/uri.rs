//! URIs: `[scheme://][authority][path][?query][#fragment]`.
use vstd::prelude::*;

use super::authority::{authority_display, authority_parse_defined, authority_writable, law_authority_round_trip, parse_authority_chars, spec_parse_authority, Authority, AuthorityView};
use super::path_query::{lacks, law_path_query_round_trip, path_query_display, path_query_writable, parse_path_query_chars, spec_parse_path_query, starts_with_slash, PathAndQuery, PathAndQueryView};
use super::scheme::{http_chars, https_chars, spec_scheme_from, spec_scheme_str, Scheme, SchemeView};
use crate::text::{
    char_index_at_byte, chars_utf8_len, copy_chars, find_char_index_at_byte, is_whitespace,
    lemma_char_index_at_ascii_prefix, lemma_trim_end, lemma_trim_start, lemma_utf8_len_ascii,
    is_ascii_chars, ascii_lowercase, ascii_lower, eq_ignore_ascii_case, str_to_chars,
    subrange_to_string, trim, trim_bounds, trim_end_index, trim_start_index, utf8_len,
};

verus! {

/// Errors when parsing a URI.
#[derive(Debug, PartialEq, Eq)]
pub enum InvalidUri {
    DecodeError,
    InvalidScheme,
    InvalidHost,
    InvalidPath,
    InvalidQuery,
    EmptyHost,
    InvalidPort(String),
    EmptyUri,
}

/// The abstract value of a URI error.
pub enum InvalidUriView {
    DecodeError,
    InvalidScheme,
    InvalidHost,
    InvalidPath,
    InvalidQuery,
    EmptyHost,
    InvalidPort(Seq<char>),
    EmptyUri,
}

/// The message of a URI error.
pub open spec fn invalid_uri_message(e: InvalidUriView) -> Seq<char> {
    match e {
        InvalidUriView::DecodeError => "Failed to decode URI"@,
        InvalidUriView::InvalidScheme => "Invalid URI scheme"@,
        InvalidUriView::InvalidHost => "Invalid URI host"@,
        InvalidUriView::InvalidPath => "Invalid URI path"@,
        InvalidUriView::InvalidQuery => "Invalid URI query"@,
        InvalidUriView::EmptyHost => "Empty host in URI"@,
        InvalidUriView::InvalidPort(p) => "Invalid port in URI: "@ + p,
        InvalidUriView::EmptyUri => "Empty URI"@,
    }
}

impl InvalidUri {
    /// The message of this error.
    pub fn to_string(&self) -> (r: String)
        ensures
            r@ == invalid_uri_message(self@),
    {
        let mut out = String::new();
        match self {
            InvalidUri::DecodeError => crate::text::push_str(&mut out, "Failed to decode URI"),
            InvalidUri::InvalidScheme => crate::text::push_str(&mut out, "Invalid URI scheme"),
            InvalidUri::InvalidHost => crate::text::push_str(&mut out, "Invalid URI host"),
            InvalidUri::InvalidPath => crate::text::push_str(&mut out, "Invalid URI path"),
            InvalidUri::InvalidQuery => crate::text::push_str(&mut out, "Invalid URI query"),
            InvalidUri::EmptyHost => crate::text::push_str(&mut out, "Empty host in URI"),
            InvalidUri::InvalidPort(p) => {
                crate::text::push_str(&mut out, "Invalid port in URI: ");
                crate::text::push_str(&mut out, p.as_str());
            },
            InvalidUri::EmptyUri => crate::text::push_str(&mut out, "Empty URI"),
        }
        assert(out@ =~= invalid_uri_message(self@));
        out
    }
}

impl View for InvalidUri {
    type V = InvalidUriView;

    open spec fn view(&self) -> InvalidUriView {
        match self {
            InvalidUri::DecodeError => InvalidUriView::DecodeError,
            InvalidUri::InvalidScheme => InvalidUriView::InvalidScheme,
            InvalidUri::InvalidHost => InvalidUriView::InvalidHost,
            InvalidUri::InvalidPath => InvalidUriView::InvalidPath,
            InvalidUri::InvalidQuery => InvalidUriView::InvalidQuery,
            InvalidUri::EmptyHost => InvalidUriView::EmptyHost,
            InvalidUri::InvalidPort(p) => InvalidUriView::InvalidPort(p@),
            InvalidUri::EmptyUri => InvalidUriView::EmptyUri,
        }
    }
}


/// A URI: `[scheme://][authority][path][?query][#fragment]`.
#[derive(Debug, PartialEq, Eq, PartialOrd, Ord, Hash)]
pub struct Uri {
    scheme: Option<Scheme>,
    authority: Option<Authority>,
    path_query: PathAndQuery,
}

/// The abstract value of a URI.
pub struct UriView {
    pub scheme: Option<SchemeView>,
    pub authority: Option<AuthorityView>,
    pub path_query: PathAndQueryView,
}

pub open spec fn opt_scheme_view(s: Option<Scheme>) -> Option<SchemeView> {
    match s {
        Some(x) => Some(x@),
        None => None,
    }
}

pub open spec fn opt_authority_view(a: Option<Authority>) -> Option<AuthorityView> {
    match a {
        Some(x) => Some(x@),
        None => None,
    }
}

impl View for Uri {
    type V = UriView;

    closed spec fn view(&self) -> UriView {
        UriView {
            scheme: opt_scheme_view(self.scheme),
            authority: opt_authority_view(self.authority),
            path_query: self.path_query@,
        }
    }
}

/// Index of the first `://` in `cs[from..]`.
pub open spec fn scheme_sep_index(cs: Seq<char>, from: int) -> Option<int>
    decreases cs.len() - from,
{
    if from < 0 || from + 3 > cs.len() {
        None
    } else if cs[from] == ':' && cs[from + 1] == '/' && cs[from + 2] == '/' {
        Some(from)
    } else {
        scheme_sep_index(cs, from + 1)
    }
}

/// The scheme (if `://` occurs) and the text after it. The text resumes at the byte offset given
/// by the length of the scheme's own text plus three; `None` when that offset is not a character
/// boundary of the input.
pub open spec fn uri_after_scheme(s: Seq<char>) -> Option<(Option<SchemeView>, Seq<char>)> {
    match scheme_sep_index(s, 0) {
        None => Some((None, s)),
        Some(idx) => {
            let sch = spec_scheme_from(s.subrange(0, idx));
            match char_index_at_byte(s, (utf8_len(spec_scheme_str(sch)) + 3) as int) {
                Some(k) => Some((Some(sch), s.subrange(k, s.len() as int))),
                None => None,
            }
        },
    }
}

pub open spec fn is_path_delimiter(c: char) -> bool {
    c == '#' || c == '?' || c == '/'
}

/// Index of the first `#`, `?` or `/` in `cs[from..]`.
pub open spec fn path_delimiter_index(cs: Seq<char>, from: int) -> Option<int>
    decreases cs.len() - from,
{
    if from < 0 || from >= cs.len() {
        None
    } else if is_path_delimiter(cs[from]) {
        Some(from)
    } else {
        path_delimiter_index(cs, from + 1)
    }
}

/// The authority text: none when the rest starts with `/`; else everything before the first
/// `#`, `?` or `/`, or the whole rest when that delimiter is missing or comes first.
pub open spec fn authority_text(r: Seq<char>) -> Option<Seq<char>> {
    if starts_with_slash(r) {
        None
    } else {
        match path_delimiter_index(r, 0) {
            Some(i) => if i > 0 {
                Some(r.subrange(0, i))
            } else {
                Some(r)
            },
            None => Some(r),
        }
    }
}

/// The path-and-query text that follows the authority, with a leading `/` added when missing.
pub open spec fn path_query_text(r: Seq<char>) -> Seq<char> {
    let pq = match authority_text(r) {
        Some(a) => r.subrange(a.len() as int, r.len() as int),
        None => r,
    };
    if starts_with_slash(pq) {
        pq
    } else {
        seq!['/'] + pq
    }
}

/// Whether parsing the text after the scheme stays within character boundaries.
pub open spec fn rest_parse_defined(r: Seq<char>) -> bool {
    match authority_text(r) {
        Some(a) => authority_parse_defined(a),
        None => true,
    }
}

/// Whether parsing the text as a URI stays within character boundaries.
pub open spec fn uri_parse_defined(s: Seq<char>) -> bool {
    trim(s).len() != 0 ==> match uri_after_scheme(s) {
        None => false,
        Some((_, r)) => rest_parse_defined(r),
    }
}

/// The URI made of a scheme and the text after it.
pub open spec fn spec_parse_rest(scheme: Option<SchemeView>, r: Seq<char>) -> Result<UriView, InvalidUriView> {
    let auth: Result<Option<AuthorityView>, InvalidUriView> = match authority_text(r) {
        Some(a) => match spec_parse_authority(a) {
            Ok(av) => Ok(Some(av)),
            Err(e) => Err(e),
        },
        None => Ok(None),
    };
    match auth {
        Err(e) => Err(e),
        Ok(authority) => match spec_parse_path_query(path_query_text(r)) {
            Ok(pq) => Ok(UriView { scheme, authority, path_query: pq }),
            Err(e) => Err(e),
        },
    }
}

/// The URI written by a text.
pub open spec fn spec_parse_uri(s: Seq<char>) -> Result<UriView, InvalidUriView> {
    if trim(s).len() == 0 {
        Err(InvalidUriView::EmptyUri)
    } else {
        spec_parse_rest(uri_after_scheme(s).unwrap().0, uri_after_scheme(s).unwrap().1)
    }
}

fn find_scheme_sep(cs: &[char]) -> (r: Option<usize>)
    ensures
        match r {
            Some(i) => scheme_sep_index(cs@, 0) == Some(i as int) && i + 3 <= cs@.len(),
            None => scheme_sep_index(cs@, 0) is None,
        },
{
    let mut i: usize = 0;
    let n = cs.len();
    while i < n && n - i >= 3
        invariant
            n == cs@.len(),
            scheme_sep_index(cs@, 0) == scheme_sep_index(cs@, i as int),
        decreases n - i,
    {
        if cs[i] == ':' && cs[i + 1] == '/' && cs[i + 2] == '/' {
            return Some(i);
        }
        i = i + 1;
    }
    None
}

fn find_path_delimiter(cs: &[char]) -> (r: Option<usize>)
    ensures
        match r {
            Some(i) => path_delimiter_index(cs@, 0) == Some(i as int) && i < cs@.len(),
            None => path_delimiter_index(cs@, 0) is None,
        },
{
    let mut i: usize = 0;
    let n = cs.len();
    while i < n
        invariant
            n == cs@.len(),
            path_delimiter_index(cs@, 0) == path_delimiter_index(cs@, i as int),
        decreases n - i,
    {
        let c = cs[i];
        if c == '#' || c == '?' || c == '/' {
            return Some(i);
        }
        i = i + 1;
    }
    None
}

fn split_scheme(cs: &[char]) -> (r: Option<(Option<Scheme>, Vec<char>)>)
    ensures
        match r {
            None => uri_after_scheme(cs@) is None,
            Some((sch, rest)) => uri_after_scheme(cs@) == Some((opt_scheme_view(sch), rest@)),
        },
{
    match find_scheme_sep(cs) {
        None => {
            assert(cs@.subrange(0, cs@.len() as int) =~= cs@);
            Some((None, copy_chars(cs, 0, cs.len())))
        },
        Some(idx) => {
            let prefix = subrange_to_string(cs, 0, idx);
            let sch = Scheme::from(prefix.as_str());
            let sc = str_to_chars(sch.as_str());
            let m = sc.len();
            assert(sc@.len() == m);
            let off = chars_utf8_len(sc.as_slice()) + 3;
            match find_char_index_at_byte(cs, off) {
                None => None,
                Some(k) => Some((Some(sch), copy_chars(cs, k, cs.len()))),
            }
        },
    }
}

/// End of the authority text in `rest`, as [`authority_text`] defines it.
fn authority_end(rest: &[char]) -> (r: Option<usize>)
    ensures
        match r {
            None => authority_text(rest@) is None,
            Some(e) => e <= rest@.len() && authority_text(rest@) == Some(rest@.subrange(0, e as int)),
        },
{
    let n = rest.len();
    if n > 0 && rest[0] == '/' {
        None
    } else {
        assert(rest@.subrange(0, n as int) =~= rest@);
        match find_path_delimiter(rest) {
            Some(i) => if i > 0 {
                Some(i)
            } else {
                Some(n)
            },
            None => Some(n),
        }
    }
}

/// The path-and-query text after the authority, with `/` added in front when missing.
fn path_query_chars(rest: &[char], pq_start: usize) -> (pq: Vec<char>)
    requires
        pq_start <= rest@.len(),
    ensures
        pq@ == (if starts_with_slash(rest@.subrange(pq_start as int, rest@.len() as int)) {
            rest@.subrange(pq_start as int, rest@.len() as int)
        } else {
            seq!['/'] + rest@.subrange(pq_start as int, rest@.len() as int)
        }),
{
    let n = rest.len();
    let mut pq: Vec<char> = Vec::new();
    if !(pq_start < n && rest[pq_start] == '/') {
        pq.push('/');
    }
    let mut i = pq_start;
    let ghost base = pq@;
    while i < n
        invariant
            pq_start <= i <= n,
            n == rest@.len(),
            pq@ == base + rest@.subrange(pq_start as int, i as int),
        decreases n - i,
    {
        pq.push(rest[i]);
        i = i + 1;
        assert(pq@ =~= base + rest@.subrange(pq_start as int, i as int));
    }
    assert(pq@ =~= base + rest@.subrange(pq_start as int, n as int));
    pq
}

fn parse_rest(scheme: Option<Scheme>, rest: &[char]) -> (r: Option<Result<Uri, InvalidUri>>)
    ensures
        match r {
            None => !rest_parse_defined(rest@),
            Some(Ok(u)) => rest_parse_defined(rest@) && spec_parse_rest(opt_scheme_view(scheme), rest@) == Ok::<UriView, InvalidUriView>(u@),
            Some(Err(e)) => rest_parse_defined(rest@) && spec_parse_rest(opt_scheme_view(scheme), rest@) == Err::<UriView, InvalidUriView>(e@),
        },
{
    let ghost sv = opt_scheme_view(scheme);
    let (authority, pq_start) = match authority_end(rest) {
        None => (None, 0),
        Some(e) => {
            let achars = copy_chars(rest, 0, e);
            if !crate::uri::authority::exec_authority_parse_defined(achars.as_slice()) {
                return None;
            }
            match parse_authority_chars(achars.as_slice()) {
                Ok(av) => (Some(av), e),
                Err(err) => {
                    return Some(Err(err));
                },
            }
        },
    };
    let pq = path_query_chars(rest, pq_start);
    assert(pq@ == path_query_text(rest@));
    match parse_path_query_chars(pq.as_slice()) {
        Ok(p) => Some(Ok(Uri { scheme, authority, path_query: p })),
        Err(e) => Some(Err(e)),
    }
}

/// The text of a URI: the scheme and `://`, the authority, then the path and query.
pub open spec fn uri_display(u: UriView) -> Seq<char> {
    (match u.scheme {
        Some(s) => spec_scheme_str(s) + seq![':', '/', '/'],
        None => Seq::<char>::empty(),
    }) + (match u.authority {
        Some(a) => authority_display(a),
        None => Seq::<char>::empty(),
    }) + path_query_display(u.path_query)
}

impl Uri {
    /// The text of this URI.
    pub fn to_string(&self) -> (r: String)
        ensures
            r@ == uri_display(self@),
    {
        let mut out = String::new();
        if let Some(scheme) = &self.scheme {
            crate::text::push_str(&mut out, scheme.as_str());
            crate::text::string_push(&mut out, ':');
            crate::text::string_push(&mut out, '/');
            crate::text::string_push(&mut out, '/');
        }
        if let Some(a) = &self.authority {
            a.write_to(&mut out);
        }
        self.path_query.write_to(&mut out);
        assert(out@ =~= uri_display(self@));
        out
    }

    /// Constructs a URI from its parts.
    pub fn new(scheme: Option<Scheme>, authority: Option<Authority>, path_query: PathAndQuery) -> (r: Self)
        ensures
            r@ == (UriView {
                scheme: opt_scheme_view(scheme),
                authority: opt_authority_view(authority),
                path_query: path_query@,
            }),
    {
        Uri { scheme, authority, path_query }
    }

    /// The scheme, if any.
    pub fn scheme(&self) -> (r: Option<&Scheme>)
        ensures
            match r {
                Some(s) => self@.scheme == Some(s@),
                None => self@.scheme is None,
            },
    {
        match &self.scheme {
            Some(s) => Some(s),
            None => None,
        }
    }

    /// The authority, if any.
    pub fn authority(&self) -> (r: Option<&Authority>)
        ensures
            match r {
                Some(a) => self@.authority == Some(a@),
                None => self@.authority is None,
            },
    {
        match &self.authority {
            Some(a) => Some(a),
            None => None,
        }
    }

    /// The path and query.
    pub fn path_and_query(&self) -> (r: &PathAndQuery)
        ensures
            r@ == self@.path_query,
    {
        &self.path_query
    }

    /// Parses a URI, or returns `None` when the text after the scheme would have to be cut
    /// inside a character (the lower-cased scheme changes the byte length of the scheme).
    pub fn parse(s: &str) -> (r: Option<Result<Uri, InvalidUri>>)
        ensures
            match r {
                None => !uri_parse_defined(s@),
                Some(Ok(u)) => uri_parse_defined(s@) && spec_parse_uri(s@) == Ok::<UriView, InvalidUriView>(u@),
                Some(Err(e)) => uri_parse_defined(s@) && spec_parse_uri(s@) == Err::<UriView, InvalidUriView>(e@),
            },
    {
        let cs = str_to_chars(s);
        let (a, b) = trim_bounds(cs.as_slice());
        if a == b {
            return Some(Err(InvalidUri::EmptyUri));
        }
        match split_scheme(cs.as_slice()) {
            None => None,
            Some((scheme, rest)) => parse_rest(scheme, rest.as_slice()),
        }
    }

    /// Parses a URI from a text on which parsing is defined.
    pub fn from_str(s: &str) -> (r: Result<Uri, InvalidUri>)
        requires
            uri_parse_defined(s@),
        ensures
            match r {
                Ok(u) => spec_parse_uri(s@) == Ok::<UriView, InvalidUriView>(u@),
                Err(e) => spec_parse_uri(s@) == Err::<UriView, InvalidUriView>(e@),
            },
    {
        match Uri::parse(s) {
            Some(r) => r,
            None => Err(InvalidUri::EmptyUri),
        }
    }
}

proof fn lemma_scheme_sep_at(cs: Seq<char>, from: int, k: int)
    requires
        0 <= from <= k,
        k + 3 <= cs.len(),
        cs[k] == ':' && cs[k + 1] == '/' && cs[k + 2] == '/',
        forall|j: int| from <= j < k ==> cs[j] != ':',
    ensures
        scheme_sep_index(cs, from) == Some(k),
    decreases k - from,
{
    if from < k {
        lemma_scheme_sep_at(cs, from + 1, k);
    }
}

proof fn lemma_path_delimiter_at(cs: Seq<char>, from: int, k: int)
    requires
        0 <= from <= k < cs.len(),
        is_path_delimiter(cs[k]),
        forall|j: int| from <= j < k ==> !is_path_delimiter(cs[j]),
    ensures
        path_delimiter_index(cs, from) == Some(k),
    decreases k - from,
{
    if from < k {
        lemma_path_delimiter_at(cs, from + 1, k);
    }
}

/// Whether a scheme can be written and read back: `http`, `https`, or another name made of ASCII
/// characters that is already lower-case, holds no `:`, and is neither `http` nor `https`.
pub open spec fn scheme_writable(s: SchemeView) -> bool {
    match s {
        SchemeView::Http => true,
        SchemeView::Https => true,
        SchemeView::Other(x) => is_ascii_chars(x) && ascii_lowercase(x) == x && lacks(x, ':') && x
            != http_chars() && x != https_chars(),
    }
}

/// Whether a URI can be written and read back: a scheme that can be (see [`scheme_writable`]),
/// an authority that can be (see [`authority_writable`]) or none, and a path and query that can
/// be (see [`path_query_writable`]).
pub open spec fn uri_writable(u: UriView) -> bool {
    &&& (u.scheme matches Some(s) && scheme_writable(s))
    &&& (u.authority matches Some(a) ==> authority_writable(a))
    &&& path_query_writable(u.path_query)
}

proof fn lemma_scheme_reads_back(sv: SchemeView)
    requires
        scheme_writable(sv),
    ensures
        spec_scheme_from(spec_scheme_str(sv)) == sv,
        is_ascii_chars(spec_scheme_str(sv)),
        lacks(spec_scheme_str(sv), ':'),
{
    let sch = spec_scheme_str(sv);
    match sv {
        SchemeView::Http => {},
        SchemeView::Https => {
            assert(!(sch.len() == http_chars().len()));
        },
        SchemeView::Other(x) => {
            assert forall|i: int| 0 <= i < x.len() implies #[trigger] ascii_lower(x[i]) == x[i] by {
                assert(ascii_lowercase(x)[i] == ascii_lower(x[i]));
            }
            if eq_ignore_ascii_case(x, http_chars()) {
                assert(x =~= http_chars());
            }
            if eq_ignore_ascii_case(x, https_chars()) {
                assert(x =~= https_chars());
            }
        },
    }
}

/// Reading the text of a URI gives it back: `scheme://[userinfo@]host[:port]path[?query][#fragment]`
/// parses to the same scheme, authority, path, query and fragment, when the scheme is `http`,
/// `https` or another lower-case ASCII name, and no part holds a delimiter that would end it
/// early (see [`uri_writable`]).
pub proof fn law_uri_round_trip(u: UriView)
    requires
        uri_writable(u),
    ensures
        uri_parse_defined(uri_display(u)),
        spec_parse_uri(uri_display(u)) == Ok::<UriView, InvalidUriView>(u),
{
    let sv = u.scheme.unwrap();
    let sch = spec_scheme_str(sv);
    let l = sch.len() as int;
    lemma_scheme_reads_back(sv);
    let a_text = match u.authority {
        Some(a) => authority_display(a),
        None => Seq::<char>::empty(),
    };
    let p_text = path_query_display(u.path_query);
    let rest = a_text + p_text;
    let text = uri_display(u);
    assert(text =~= sch + seq![':', '/', '/'] + rest);
    law_path_query_round_trip(u.path_query);
    assert(p_text[0] == '/');
    // The scheme and `://` are ASCII.
    let head = sch + seq![':', '/', '/'];
    assert(forall|j: int| 0 <= j < l + 3 ==> (#[trigger] text[j] as u32) < 0x80) by {
        assert forall|j: int| 0 <= j < l + 3 implies (#[trigger] text[j] as u32) < 0x80 by {
            assert(text[j] == head[j]);
            if j < l {
                assert(head[j] == sch[j]);
            }
        }
    }
    // The text is not blank: the `:` after the scheme is not whitespace.
    assert(text[l] == ':');
    assert(!is_whitespace(text[l]));
    lemma_trim_start(text, 0);
    lemma_trim_end(text, text.len() as int);
    assert(trim_start_index(text, 0) <= l);
    assert(trim_end_index(text, text.len() as int) > l);
    assert(trim(text).len() != 0);
    // The scheme separator.
    assert forall|j: int| 0 <= j < l implies text[j] != ':' by {
        assert(text[j] == sch[j]);
    }
    lemma_scheme_sep_at(text, 0, l);
    assert(text.subrange(0, l) =~= sch);
    lemma_utf8_len_ascii(sch, l);
    assert(sch.take(l) =~= sch);
    lemma_char_index_at_ascii_prefix(text, l + 3);
    assert(text.subrange(l + 3, text.len() as int) =~= rest);
    assert(uri_after_scheme(text) == Some((Some(sv), rest)));
    match u.authority {
        Some(a) => {
            law_authority_round_trip(a);
            let n = a_text.len() as int;
            assert(rest[0] == a_text[0]);
            assert(rest[n] == '/');
            assert forall|j: int| 0 <= j < n implies !is_path_delimiter(#[trigger] rest[j]) by {
                assert(rest[j] == a_text[j]);
            }
            lemma_path_delimiter_at(rest, 0, n);
            assert(rest.subrange(0, n) =~= a_text);
            assert(authority_text(rest) == Some(a_text));
            assert(rest.subrange(n, rest.len() as int) =~= p_text);
            assert(path_query_text(rest) == p_text);
        },
        None => {
            assert(rest =~= p_text);
            assert(authority_text(rest) is None);
            assert(path_query_text(rest) == p_text);
        },
    }
}

} // verus!
