//! HTTP cookies: reading them from `Cookie` headers, writing `Set-Cookie` values, and a jar of
//! the cookies of a request.
use vstd::prelude::*;
use vstd::utf8::encode_utf8;
use crate::headers::{header_values, Headers};
use crate::text::{
    chars_eq_ignore_ascii_case, decimal_chars, eq_ignore_ascii_case, find_char, first_index, parse_u64,
    parse_u64_chars, push_decimal_chars, push_str, str_to_chars, string_push, string_views, subrange_to_string,
    trim, trim_string,
};
use crate::uri::convert::{encode_byte, encode_bytes, encode_uri_component_with, Alphabet, CookieCharset};
use crate::uri::path_query::{lacks, lemma_split_chars_nonempty, split_chars, split_chars_from};
use crate::text::{
    is_whitespace, lemma_first_index_from, lemma_first_index_is, lemma_first_index_none, lemma_trim_end,
    lemma_trim_start, trim_end_index, trim_start_index, ascii_lower,
};

verus! {

/// The `SameSite` attribute of a cookie.
#[derive(Debug, Clone, Copy, PartialEq, Eq, PartialOrd, Ord, Hash, Structural)]
pub enum SameSite {
    Strict,
    Lax,
    /// The value written `None`: the cookie is sent in every context.
    NoRestriction,
}

/// The name of a `SameSite` value.
pub open spec fn same_site_name(s: SameSite) -> Seq<char> {
    match s {
        SameSite::Strict => "Strict"@,
        SameSite::Lax => "Lax"@,
        SameSite::NoRestriction => "None"@,
    }
}

/// The `SameSite` value a text names, in any ASCII case.
pub open spec fn spec_same_site(s: Seq<char>) -> Option<SameSite> {
    if eq_ignore_ascii_case(s, "strict"@) {
        Some(SameSite::Strict)
    } else if eq_ignore_ascii_case(s, "lax"@) {
        Some(SameSite::Lax)
    } else if eq_ignore_ascii_case(s, "none"@) {
        Some(SameSite::NoRestriction)
    } else {
        None
    }
}

/// The text does not name a `SameSite` value.
#[derive(Debug, Clone, Copy, PartialEq, Eq)]
pub struct SameSiteParseError;

fn eq_ic(cs: &Vec<char>, word: &str) -> (r: bool)
    ensures
        r == eq_ignore_ascii_case(cs@, word@),
{
    let w = str_to_chars(word);
    chars_eq_ignore_ascii_case(cs.as_slice(), w.as_slice())
}

impl SameSite {
    /// The name of this value.
    pub fn to_string(&self) -> (r: String)
        ensures
            r@ == same_site_name(*self),
    {
        let mut out = String::new();
        match self {
            SameSite::Strict => push_str(&mut out, "Strict"),
            SameSite::Lax => push_str(&mut out, "Lax"),
            SameSite::NoRestriction => push_str(&mut out, "None"),
        }
        assert(out@ =~= same_site_name(*self));
        out
    }

    /// The value a text names: `strict`, `lax` or `none`, in any ASCII case.
    pub fn from_str(s: &str) -> (r: Result<SameSite, SameSiteParseError>)
        ensures
            match r {
                Ok(x) => spec_same_site(s@) == Some(x),
                Err(_) => spec_same_site(s@) is None,
            },
    {
        let cs = str_to_chars(s);
        if eq_ic(&cs, "strict") {
            Ok(SameSite::Strict)
        } else if eq_ic(&cs, "lax") {
            Ok(SameSite::Lax)
        } else if eq_ic(&cs, "none") {
            Ok(SameSite::NoRestriction)
        } else {
            Err(SameSiteParseError)
        }
    }
}

/// A cookie, with the attributes of a `Set-Cookie` header.
#[derive(Debug, Clone, PartialEq, Eq)]
pub struct Cookie {
    name: String,
    value: String,
    http_only: bool,
    secure: bool,
    partitioned: bool,
    path: Option<String>,
    domain: Option<String>,
    max_age: Option<u64>,
    expires: Option<String>,
    same_site: Option<SameSite>,
}

/// The abstract value of a cookie. The expiry date is kept as its text.
pub struct CookieView {
    pub name: Seq<char>,
    pub value: Seq<char>,
    pub http_only: bool,
    pub secure: bool,
    pub partitioned: bool,
    pub path: Option<Seq<char>>,
    pub domain: Option<Seq<char>>,
    pub max_age: Option<u64>,
    pub expires: Option<Seq<char>>,
    pub same_site: Option<SameSite>,
}

/// The text of an optional string.
pub open spec fn opt_chars(s: Option<String>) -> Option<Seq<char>> {
    match s {
        Some(t) => Some(t@),
        None => None,
    }
}

impl View for Cookie {
    type V = CookieView;

    closed spec fn view(&self) -> CookieView {
        CookieView {
            name: self.name@,
            value: self.value@,
            http_only: self.http_only,
            secure: self.secure,
            partitioned: self.partitioned,
            path: opt_chars(self.path),
            domain: opt_chars(self.domain),
            max_age: self.max_age,
            expires: opt_chars(self.expires),
            same_site: self.same_site,
        }
    }
}

/// A cookie with a name and a value and no attribute.
pub open spec fn plain_cookie(name: Seq<char>, value: Seq<char>) -> CookieView {
    CookieView {
        name,
        value,
        http_only: false,
        secure: false,
        partitioned: false,
        path: None,
        domain: None,
        max_age: None,
        expires: None,
        same_site: None,
    }
}

/// The percent-encoding of a text for a cookie.
pub open spec fn cookie_encode(s: Seq<char>) -> Seq<char> {
    encode_bytes(&CookieCharset, encode_utf8(s))
}

/// A flag attribute, present or not.
pub open spec fn flag_text(on: bool, text: Seq<char>) -> Seq<char> {
    if on {
        text
    } else {
        Seq::empty()
    }
}

/// An attribute with a value, present or not.
pub open spec fn attr_text(v: Option<Seq<char>>, prefix: Seq<char>) -> Seq<char> {
    match v {
        Some(x) => prefix + x,
        None => Seq::empty(),
    }
}

/// The `Set-Cookie` text of a cookie: the encoded name and value, then `HttpOnly`, the encoded
/// path and domain, the max age, the expiry date, `Secure` and `Partitioned`, each after `; `
/// when present. `SameSite` is not written.
pub open spec fn cookie_text(c: CookieView) -> Seq<char> {
    cookie_encode(c.name) + seq!['='] + cookie_encode(c.value) + flag_text(c.http_only, "; HttpOnly"@)
        + attr_text(
        match c.path {
            Some(p) => Some(cookie_encode(p)),
            None => None,
        },
        "; Path="@,
    ) + attr_text(
        match c.domain {
            Some(d) => Some(cookie_encode(d)),
            None => None,
        },
        "; Domain="@,
    ) + attr_text(
        match c.max_age {
            Some(m) => Some(decimal_chars(m as nat)),
            None => None,
        },
        "; Max-Age="@,
    ) + attr_text(c.expires, "; Expires="@) + flag_text(c.secure, "; Secure"@) + flag_text(
        c.partitioned,
        "; Partitioned"@,
    )
}

/// Why a text is not a cookie.
#[derive(Debug, Clone, Copy, PartialEq, Eq, Structural)]
pub enum CookieParseError {
    InvalidCookie,
    InvalidMaxAge,
    InvalidExpires,
    InvalidSameSite,
}

impl CookieParseError {
    /// The message of this error.
    pub fn to_string(&self) -> (r: String)
        ensures
            r@ == match *self {
                CookieParseError::InvalidCookie => "invalid cookie format"@,
                CookieParseError::InvalidMaxAge => "invalid cookie max-age"@,
                CookieParseError::InvalidExpires => "invalid cookie expires date"@,
                CookieParseError::InvalidSameSite => "invalid cookie same site"@,
            },
    {
        let mut out = String::new();
        match self {
            CookieParseError::InvalidCookie => push_str(&mut out, "invalid cookie format"),
            CookieParseError::InvalidMaxAge => push_str(&mut out, "invalid cookie max-age"),
            CookieParseError::InvalidExpires => push_str(&mut out, "invalid cookie expires date"),
            CookieParseError::InvalidSameSite => push_str(&mut out, "invalid cookie same site"),
        }
        assert(out@ =~= match *self {
            CookieParseError::InvalidCookie => "invalid cookie format"@,
            CookieParseError::InvalidMaxAge => "invalid cookie max-age"@,
            CookieParseError::InvalidExpires => "invalid cookie expires date"@,
            CookieParseError::InvalidSameSite => "invalid cookie same site"@,
        });
        out
    }
}

/// Whether `s` starts with `p`.
pub open spec fn chars_starts_with(s: Seq<char>, p: Seq<char>) -> bool {
    s.len() >= p.len() && s.subrange(0, p.len() as int) == p
}

/// One attribute of a cookie text applied to the cookie read so far: the flags in any ASCII
/// case, the valued attributes by their lower-case prefix; other attributes are ignored.
pub open spec fn apply_attr(c: CookieView, attr: Seq<char>) -> Result<CookieView, CookieParseError> {
    if eq_ignore_ascii_case(attr, "httponly"@) {
        Ok(CookieView { http_only: true, ..c })
    } else if eq_ignore_ascii_case(attr, "secure"@) {
        Ok(CookieView { secure: true, ..c })
    } else if eq_ignore_ascii_case(attr, "partitioned"@) {
        Ok(CookieView { partitioned: true, ..c })
    } else if chars_starts_with(attr, "path="@) {
        Ok(CookieView { path: Some(attr.skip(5)), ..c })
    } else if chars_starts_with(attr, "domain="@) {
        Ok(CookieView { domain: Some(attr.skip(7)), ..c })
    } else if chars_starts_with(attr, "max-age="@) {
        match parse_u64(attr.skip(8)) {
            Some(m) => Ok(CookieView { max_age: Some(m), ..c }),
            None => Err(CookieParseError::InvalidMaxAge),
        }
    } else if chars_starts_with(attr, "expires="@) {
        Ok(CookieView { expires: Some(attr.skip(8)), ..c })
    } else if chars_starts_with(attr, "samesite="@) {
        match spec_same_site(attr.skip(9)) {
            Some(x) => Ok(CookieView { same_site: Some(x), ..c }),
            None => Err(CookieParseError::InvalidSameSite),
        }
    } else {
        Ok(c)
    }
}

/// The parts of a cookie text: split at `;` and trimmed.
pub open spec fn cookie_parts(s: Seq<char>) -> Seq<Seq<char>> {
    let raw = split_chars(s, ';');
    Seq::new(raw.len(), |i: int| trim(raw[i]))
}

/// The cookie read from the first `k` parts: `name=value` (split at the first `=`), then the
/// attributes in order.
pub open spec fn parse_cookie_parts(parts: Seq<Seq<char>>, k: int) -> Result<CookieView, CookieParseError>
    decreases k,
{
    if k <= 1 {
        match first_index(parts[0], '=') {
            Some(i) => Ok(plain_cookie(parts[0].subrange(0, i), parts[0].subrange(i + 1, parts[0].len() as int))),
            None => Err(CookieParseError::InvalidCookie),
        }
    } else {
        match parse_cookie_parts(parts, k - 1) {
            Ok(c) => apply_attr(c, parts[k - 1]),
            Err(e) => Err(e),
        }
    }
}

/// The cookie of a `Cookie` header value: `name=value` and then attributes, separated by `;`.
pub open spec fn parse_cookie(s: Seq<char>) -> Result<CookieView, CookieParseError> {
    let parts = cookie_parts(s);
    parse_cookie_parts(parts, parts.len() as int)
}

proof fn lemma_parse_cookie_err(parts: Seq<Seq<char>>, k: int, j: int)
    requires
        parse_cookie_parts(parts, k) is Err,
        1 <= k <= j,
    ensures
        parse_cookie_parts(parts, j) == parse_cookie_parts(parts, k),
    decreases j - k,
{
    if j > k {
        lemma_parse_cookie_err(parts, k, j - 1);
    }
}

fn starts_with_chars(cs: &Vec<char>, p: &str) -> (r: bool)
    ensures
        r == chars_starts_with(cs@, p@),
{
    let pc = str_to_chars(p);
    if cs.len() < pc.len() {
        return false;
    }
    let mut i: usize = 0;
    while i < pc.len()
        invariant
            pc@ == p@,
            cs@.len() >= pc@.len(),
            i <= pc@.len(),
            forall|j: int| 0 <= j < i ==> cs@[j] == pc@[j],
        decreases pc@.len() - i,
    {
        if cs[i] != pc[i] {
            assert(cs@.subrange(0, pc@.len() as int)[i as int] != pc@[i as int]);
            return false;
        }
        i = i + 1;
    }
    assert(cs@.subrange(0, pc@.len() as int) =~= pc@);
    true
}

/// A cookie under construction.
#[derive(Debug, Clone)]
pub struct Builder(Cookie);

impl View for Builder {
    type V = CookieView;

    closed spec fn view(&self) -> CookieView {
        self.0@
    }
}

impl Builder {
    /// A cookie with a name and a value and no attribute.
    pub fn new(name: &str, value: &str) -> (r: Self)
        ensures
            r@ == plain_cookie(name@, value@),
    {
        Builder(Cookie {
            name: name.to_owned(),
            value: value.to_owned(),
            http_only: false,
            secure: false,
            partitioned: false,
            path: None,
            domain: None,
            max_age: None,
            expires: None,
            same_site: None,
        })
    }

    /// Sets the value.
    pub fn value(self, value: &str) -> (r: Self)
        ensures
            r@ == (CookieView { value: value@, ..self@ }),
    {
        let mut c = self.0;
        c.value = value.to_owned();
        Builder(c)
    }

    /// Sets the `HttpOnly` flag.
    pub fn http_only(self, http_only: bool) -> (r: Self)
        ensures
            r@ == (CookieView { http_only, ..self@ }),
    {
        let mut c = self.0;
        c.http_only = http_only;
        Builder(c)
    }

    /// Sets the `Secure` flag.
    pub fn secure(self, secure: bool) -> (r: Self)
        ensures
            r@ == (CookieView { secure, ..self@ }),
    {
        let mut c = self.0;
        c.secure = secure;
        Builder(c)
    }

    /// Sets the `Partitioned` flag.
    pub fn partitioned(self, partitioned: bool) -> (r: Self)
        ensures
            r@ == (CookieView { partitioned, ..self@ }),
    {
        let mut c = self.0;
        c.partitioned = partitioned;
        Builder(c)
    }

    /// Sets the path.
    pub fn path(self, path: &str) -> (r: Self)
        ensures
            r@ == (CookieView { path: Some(path@), ..self@ }),
    {
        let mut c = self.0;
        c.path = Some(path.to_owned());
        Builder(c)
    }

    /// Sets the domain.
    pub fn domain(self, domain: &str) -> (r: Self)
        ensures
            r@ == (CookieView { domain: Some(domain@), ..self@ }),
    {
        let mut c = self.0;
        c.domain = Some(domain.to_owned());
        Builder(c)
    }

    /// Sets the max age, in seconds.
    pub fn max_age(self, max_age: u64) -> (r: Self)
        ensures
            r@ == (CookieView { max_age: Some(max_age), ..self@ }),
    {
        let mut c = self.0;
        c.max_age = Some(max_age);
        Builder(c)
    }

    /// Sets the expiry date, given as its RFC 1123 text.
    pub fn expires(self, expires: &str) -> (r: Self)
        ensures
            r@ == (CookieView { expires: Some(expires@), ..self@ }),
    {
        let mut c = self.0;
        c.expires = Some(expires.to_owned());
        Builder(c)
    }

    /// Sets the `SameSite` attribute.
    pub fn same_site(self, same_site: SameSite) -> (r: Self)
        ensures
            r@ == (CookieView { same_site: Some(same_site), ..self@ }),
    {
        let mut c = self.0;
        c.same_site = Some(same_site);
        Builder(c)
    }

    /// The cookie.
    pub fn build(self) -> (r: Cookie)
        ensures
            r@ == self@,
    {
        self.0
    }
}

fn copy_opt(s: &Option<String>) -> (r: Option<String>)
    ensures
        opt_chars(r) == opt_chars(*s),
{
    match s {
        Some(t) => Some(t.clone()),
        None => None,
    }
}

fn push_encoded(out: &mut String, s: &str)
    ensures
        final(out)@ == old(out)@ + cookie_encode(s@),
{
    let e = encode_uri_component_with(s, CookieCharset);
    push_str(out, e.as_str());
}

impl Cookie {
    /// A builder of a cookie with a name and a value.
    pub fn new(name: &str, value: &str) -> (r: Builder)
        ensures
            r@ == plain_cookie(name@, value@),
    {
        Builder::new(name, value)
    }

    /// The name.
    pub fn name(&self) -> (r: &str)
        ensures
            r@ == self@.name,
    {
        self.name.as_str()
    }

    /// The value.
    pub fn value(&self) -> (r: &str)
        ensures
            r@ == self@.value,
    {
        self.value.as_str()
    }

    /// Whether the cookie is `HttpOnly`.
    pub fn is_http_only(&self) -> (r: bool)
        ensures
            r == self@.http_only,
    {
        self.http_only
    }

    /// Whether the cookie is `Secure`.
    pub fn is_secure(&self) -> (r: bool)
        ensures
            r == self@.secure,
    {
        self.secure
    }

    /// Whether the cookie is `Partitioned`.
    pub fn is_partitioned(&self) -> (r: bool)
        ensures
            r == self@.partitioned,
    {
        self.partitioned
    }

    /// The path, if any.
    pub fn path(&self) -> (r: Option<&str>)
        ensures
            match r {
                Some(p) => self@.path == Some(p@),
                None => self@.path is None,
            },
    {
        match &self.path {
            Some(p) => Some(p.as_str()),
            None => None,
        }
    }

    /// The domain, if any.
    pub fn domain(&self) -> (r: Option<&str>)
        ensures
            match r {
                Some(d) => self@.domain == Some(d@),
                None => self@.domain is None,
            },
    {
        match &self.domain {
            Some(d) => Some(d.as_str()),
            None => None,
        }
    }

    /// The max age in seconds, if any.
    pub fn max_age(&self) -> (r: Option<u64>)
        ensures
            r == self@.max_age,
    {
        self.max_age
    }

    /// The expiry date as its text, if any.
    pub fn expires(&self) -> (r: Option<&str>)
        ensures
            match r {
                Some(e) => self@.expires == Some(e@),
                None => self@.expires is None,
            },
    {
        match &self.expires {
            Some(e) => Some(e.as_str()),
            None => None,
        }
    }

    /// The `SameSite` attribute, if any.
    pub fn same_site(&self) -> (r: Option<SameSite>)
        ensures
            r == self@.same_site,
    {
        self.same_site
    }

    /// A copy of this cookie.
    pub fn duplicate(&self) -> (r: Cookie)
        ensures
            r@ == self@,
    {
        Cookie {
            name: self.name.clone(),
            value: self.value.clone(),
            http_only: self.http_only,
            secure: self.secure,
            partitioned: self.partitioned,
            path: copy_opt(&self.path),
            domain: copy_opt(&self.domain),
            max_age: self.max_age,
            expires: copy_opt(&self.expires),
            same_site: self.same_site,
        }
    }

    fn push_head(&self, out: &mut String)
        ensures
            final(out)@ == old(out)@ + cookie_encode(self@.name) + seq!['='] + cookie_encode(self@.value)
                + flag_text(self@.http_only, "; HttpOnly"@) + attr_text(
                match self@.path {
                    Some(p) => Some(cookie_encode(p)),
                    None => None,
                },
                "; Path="@,
            ) + attr_text(
                match self@.domain {
                    Some(d) => Some(cookie_encode(d)),
                    None => None,
                },
                "; Domain="@,
            ),
    {
        let ghost c = self@;
        let ghost s0 = out@;
        push_encoded(out, self.name.as_str());
        string_push(out, '=');
        push_encoded(out, self.value.as_str());
        assert(out@ =~= s0 + cookie_encode(c.name) + seq!['='] + cookie_encode(c.value));
        let ghost s1 = out@;
        if self.http_only {
            push_str(out, "; HttpOnly");
        }
        assert(out@ =~= s1 + flag_text(c.http_only, "; HttpOnly"@));
        let ghost s2 = out@;
        if let Some(p) = &self.path {
            push_str(out, "; Path=");
            push_encoded(out, p.as_str());
        }
        assert(out@ =~= s2 + attr_text(
            match c.path {
                Some(p) => Some(cookie_encode(p)),
                None => None,
            },
            "; Path="@,
        ));
        let ghost s3 = out@;
        if let Some(d) = &self.domain {
            push_str(out, "; Domain=");
            push_encoded(out, d.as_str());
        }
        assert(out@ =~= s3 + attr_text(
            match c.domain {
                Some(d) => Some(cookie_encode(d)),
                None => None,
            },
            "; Domain="@,
        ));
    }

    fn push_tail(&self, out: &mut String)
        ensures
            final(out)@ == old(out)@ + attr_text(
                match self@.max_age {
                    Some(m) => Some(decimal_chars(m as nat)),
                    None => None,
                },
                "; Max-Age="@,
            ) + attr_text(self@.expires, "; Expires="@) + flag_text(self@.secure, "; Secure"@) + flag_text(
                self@.partitioned,
                "; Partitioned"@,
            ),
    {
        let ghost c = self@;
        let ghost s4 = out@;
        if let Some(m) = self.max_age {
            push_str(out, "; Max-Age=");
            push_decimal_chars(out, m as u128);
        }
        assert(out@ =~= s4 + attr_text(
            match c.max_age {
                Some(m) => Some(decimal_chars(m as nat)),
                None => None,
            },
            "; Max-Age="@,
        ));
        let ghost s5 = out@;
        if let Some(e) = &self.expires {
            push_str(out, "; Expires=");
            push_str(out, e.as_str());
        }
        assert(out@ =~= s5 + attr_text(c.expires, "; Expires="@));
        let ghost s6 = out@;
        if self.secure {
            push_str(out, "; Secure");
        }
        assert(out@ =~= s6 + flag_text(c.secure, "; Secure"@));
        let ghost s7 = out@;
        if self.partitioned {
            push_str(out, "; Partitioned");
        }
        assert(out@ =~= s7 + flag_text(c.partitioned, "; Partitioned"@));
    }

    /// The `Set-Cookie` text of this cookie.
    pub fn to_string(&self) -> (r: String)
        ensures
            r@ == cookie_text(self@),
    {
        let mut out = String::new();
        self.push_head(&mut out);
        self.push_tail(&mut out);
        assert(out@ =~= cookie_text(self@));
        out
    }

    /// Reads a cookie from a `Cookie` header value.
    pub fn from_str(s: &str) -> (r: Result<Cookie, CookieParseError>)
        ensures
            match r {
                Ok(c) => parse_cookie(s@) == Ok::<CookieView, CookieParseError>(c@),
                Err(e) => parse_cookie(s@) == Err::<CookieView, CookieParseError>(e),
            },
    {
        let cs = str_to_chars(s);
        let raw = split_chars_from(cs.as_slice(), 0, ';');
        let ghost rawv = split_chars(s@, ';');
        let ghost parts = cookie_parts(s@);
        proof {
            assert(cs@.subrange(0, cs@.len() as int) =~= s@);
            crate::uri::path_query::lemma_split_chars_nonempty(s@, ';');
        }
        let mut trimmed: Vec<Vec<char>> = Vec::new();
        let mut i: usize = 0;
        while i < raw.len()
            invariant
                string_views(raw@) == rawv,
                rawv == split_chars(s@, ';'),
                parts == cookie_parts(s@),
                i <= raw@.len(),
                trimmed@.len() == i,
                forall|j: int| 0 <= j < i ==> (#[trigger] trimmed@[j])@ == parts[j],
            decreases raw@.len() - i,
        {
            assert(raw@[i as int]@ == rawv[i as int]);
            let rc = str_to_chars(raw[i].as_str());
            let t = trim_string(rc.as_slice());
            let tc = str_to_chars(t.as_str());
            trimmed.push(tc);
            i = i + 1;
        }
        let first = &trimmed[0];
        let eq = match find_char(first.as_slice(), '=') {
            Some(k) => k,
            None => {
                proof {
                    assert(parts[0] == first@);
                    lemma_parse_cookie_err(parts, 1, parts.len() as int);
                }
                return Err(CookieParseError::InvalidCookie);
            },
        };
        let flen = first.len();
        let name = subrange_to_string(first.as_slice(), 0, eq);
        let value = subrange_to_string(first.as_slice(), eq + 1, flen);
        let mut c = Builder::new(name.as_str(), value.as_str()).build();
        proof {
            reveal_strlit("path=");
            reveal_strlit("domain=");
            reveal_strlit("max-age=");
            reveal_strlit("expires=");
            reveal_strlit("samesite=");
        }
        let mut k: usize = 1;
        while k < trimmed.len()
            invariant
                trimmed@.len() == parts.len(),
                parts.len() >= 1,
                forall|j: int| 0 <= j < trimmed@.len() ==> (#[trigger] trimmed@[j])@ == parts[j],
                parts == cookie_parts(s@),
                1 <= k <= trimmed@.len(),
                parse_cookie_parts(parts, k as int) == Ok::<CookieView, CookieParseError>(c@),
                "path="@.len() == 5,
                "domain="@.len() == 7,
                "max-age="@.len() == 8,
                "expires="@.len() == 8,
                "samesite="@.len() == 9,
            decreases trimmed@.len() - k,
        {
            let a = &trimmed[k];
            let n = a.len();
            assert(parts[k as int] == a@);
            if eq_ic(a, "httponly") {
                c.http_only = true;
            } else if eq_ic(a, "secure") {
                c.secure = true;
            } else if eq_ic(a, "partitioned") {
                c.partitioned = true;
            } else if starts_with_chars(a, "path=") {
                let v = subrange_to_string(a.as_slice(), 5, n);
                assert(v@ =~= a@.skip(5));
                c.path = Some(v);
            } else if starts_with_chars(a, "domain=") {
                let v = subrange_to_string(a.as_slice(), 7, n);
                assert(v@ =~= a@.skip(7));
                c.domain = Some(v);
            } else if starts_with_chars(a, "max-age=") {
                match parse_u64_chars(a.as_slice(), 8) {
                    Some(m) => {
                        assert(a@.subrange(8, n as int) =~= a@.skip(8));
                        c.max_age = Some(m);
                    },
                    None => {
                        assert(a@.subrange(8, n as int) =~= a@.skip(8));
                        proof {
                            lemma_parse_cookie_err(parts, k + 1, parts.len() as int);
                        }
                        return Err(CookieParseError::InvalidMaxAge);
                    },
                }
            } else if starts_with_chars(a, "expires=") {
                let v = subrange_to_string(a.as_slice(), 8, n);
                assert(v@ =~= a@.skip(8));
                c.expires = Some(v);
            } else if starts_with_chars(a, "samesite=") {
                let v = subrange_to_string(a.as_slice(), 9, n);
                assert(v@ =~= a@.skip(9));
                match SameSite::from_str(v.as_str()) {
                    Ok(x) => {
                        c.same_site = Some(x);
                    },
                    Err(_) => {
                        proof {
                            lemma_parse_cookie_err(parts, k + 1, parts.len() as int);
                        }
                        return Err(CookieParseError::InvalidSameSite);
                    },
                }
            }
            k = k + 1;
        }
        Ok(c)
    }
}


/// The abstract value of a jar of cookies: its cookies, and the cookies removed from it.
pub struct CookiesView {
    pub cookies: Seq<CookieView>,
    pub removed: Seq<CookieView>,
}

/// The abstract values of cookies.
pub open spec fn cookie_views(v: Seq<Cookie>) -> Seq<CookieView> {
    v.map_values(|c: Cookie| c@)
}

/// Index of the first cookie named `name` at or after `from`.
pub open spec fn named_index(s: Seq<CookieView>, name: Seq<char>, from: int) -> Option<int>
    decreases s.len() - from,
{
    if from < 0 || from >= s.len() {
        None
    } else if s[from].name == name {
        Some(from)
    } else {
        named_index(s, name, from + 1)
    }
}

proof fn lemma_named_index(s: Seq<CookieView>, name: Seq<char>, from: int)
    requires
        0 <= from,
    ensures
        match named_index(s, name, from) {
            Some(i) => from <= i < s.len() && s[i].name == name && forall|j: int| from <= j < i ==> #[trigger] s[j].name != name,
            None => forall|j: int| from <= j < s.len() ==> #[trigger] s[j].name != name,
        },
    decreases s.len() - from,
{
    if from < s.len() && s[from].name != name {
        lemma_named_index(s, name, from + 1);
    }
}

/// The cookies without the first one named `name`.
pub open spec fn without_first_named(s: Seq<CookieView>, name: Seq<char>) -> Seq<CookieView> {
    match named_index(s, name, 0) {
        Some(p) => s.remove(p),
        None => s,
    }
}

/// The cookies not named `name`.
pub open spec fn not_named(s: Seq<CookieView>, name: Seq<char>) -> Seq<CookieView> {
    s.filter(|c: CookieView| c.name != name)
}

/// The cookies named `name`.
pub open spec fn named(s: Seq<CookieView>, name: Seq<char>) -> Seq<CookieView> {
    s.filter(|c: CookieView| c.name == name)
}

/// `set`: the cookie is added last, and a removed cookie of the same name is forgotten.
pub open spec fn set_spec(j: CookiesView, c: CookieView) -> CookiesView {
    CookiesView { cookies: j.cookies.push(c), removed: without_first_named(j.removed, c.name) }
}

/// The text of the start of the Unix epoch, as an RFC 1123 date.
pub open spec fn epoch_text() -> Seq<char> {
    "Thu, 01 Jan 1970 00:00:00 GMT"@
}

/// A deleted cookie: its value emptied and its expiry date set to the start of the epoch.
pub open spec fn deleted_cookie(c: CookieView) -> CookieView {
    CookieView { value: Seq::empty(), expires: Some(epoch_text()), ..c }
}

/// The jar read from `Cookie` header values, in order; values that are not cookies are skipped.
pub open spec fn jar_from_values(values: Seq<Seq<char>>) -> CookiesView
    decreases values.len(),
{
    if values.len() == 0 {
        CookiesView { cookies: Seq::empty(), removed: Seq::empty() }
    } else {
        let j = jar_from_values(values.drop_last());
        match parse_cookie(values.last()) {
            Ok(c) => set_spec(j, c),
            Err(_) => j,
        }
    }
}

/// The cookies of a request, and the ones removed while handling it.
#[derive(Debug, Clone)]
pub struct Cookies {
    cookies: Vec<Cookie>,
    removed_cookies: Vec<Cookie>,
}

impl View for Cookies {
    type V = CookiesView;

    closed spec fn view(&self) -> CookiesView {
        CookiesView { cookies: cookie_views(self.cookies@), removed: cookie_views(self.removed_cookies@) }
    }
}

impl Default for Cookies {
    fn default() -> (r: Self)
        ensures
            r@.cookies.len() == 0,
            r@.removed.len() == 0,
    {
        Cookies::new()
    }
}

fn position(v: &Vec<Cookie>, name: &str) -> (r: Option<usize>)
    ensures
        match r {
            Some(i) => named_index(cookie_views(v@), name@, 0) == Some(i as int) && i < v@.len(),
            None => named_index(cookie_views(v@), name@, 0) is None,
        },
{
    proof {
        lemma_named_index(cookie_views(v@), name@, 0);
    }
    let mut i: usize = 0;
    while i < v.len()
        invariant
            i <= v@.len(),
            forall|j: int| 0 <= j < i ==> #[trigger] cookie_views(v@)[j].name != name@,
        decreases v@.len() - i,
    {
        assert(cookie_views(v@)[i as int] == v@[i as int]@);
        if crate::text::str_eq(v[i].name(), name) {
            proof {
                lemma_named_index(cookie_views(v@), name@, 0);
            }
            return Some(i);
        }
        i = i + 1;
    }
    None
}

impl Cookies {
    /// An empty jar.
    pub fn new() -> (r: Self)
        ensures
            r@.cookies == Seq::<CookieView>::empty(),
            r@.removed == Seq::<CookieView>::empty(),
    {
        let r = Cookies { cookies: Vec::new(), removed_cookies: Vec::new() };
        assert(r@.cookies =~= Seq::<CookieView>::empty());
        assert(r@.removed =~= Seq::<CookieView>::empty());
        r
    }

    /// Number of cookies, the removed ones not counted.
    pub fn len(&self) -> (r: usize)
        ensures
            r == self@.cookies.len(),
    {
        self.cookies.len()
    }

    /// Whether the jar has no cookie, the removed ones not counted.
    pub fn is_empty(&self) -> (r: bool)
        ensures
            r == (self@.cookies.len() == 0),
    {
        self.cookies.len() == 0
    }

    /// Adds a cookie; a removed cookie of the same name is forgotten.
    pub fn set(&mut self, cookie: Cookie)
        ensures
            final(self)@ == set_spec(old(self)@, cookie@),
    {
        let ghost c = cookie@;
        if let Some(pos) = position(&self.removed_cookies, cookie.name()) {
            let ghost before = self.removed_cookies@;
            self.removed_cookies.remove(pos);
            assert(cookie_views(self.removed_cookies@) =~= cookie_views(before).remove(pos as int));
        }
        let ghost before = self.cookies@;
        self.cookies.push(cookie);
        assert(cookie_views(self.cookies@) =~= cookie_views(before).push(c));
    }

    /// Replaces the cookies of the same name by this one.
    pub fn replace(&mut self, cookie: Cookie)
        ensures
            final(self)@ == set_spec(
                CookiesView { cookies: not_named(old(self)@.cookies, cookie@.name), removed: old(self)@.removed },
                cookie@,
            ),
    {
        let ghost old_view = self@.cookies;
        let ghost name = cookie@.name;
        let mut kept: Vec<Cookie> = Vec::new();
        let mut i: usize = 0;
        let n = self.cookies.len();
        while i < n
            invariant
                n == self.cookies@.len(),
                i <= n,
                old_view == cookie_views(self.cookies@),
                name == cookie@.name,
                cookie_views(kept@) == not_named(old_view.take(i as int), name),
            decreases n - i,
        {
            let ghost before = kept@;
            proof {
                assert(old_view.take(i + 1) =~= old_view.take(i as int).push(old_view[i as int]));
                old_view.take(i as int).lemma_filter_push(old_view[i as int], |c: CookieView| c.name != name);
            }
            assert(old_view[i as int] == self.cookies@[i as int]@);
            if !crate::text::str_eq(self.cookies[i].name(), cookie.name()) {
                let c = self.cookies[i].duplicate();
                kept.push(c);
                assert(cookie_views(kept@) =~= cookie_views(before).push(old_view[i as int]));
            }
            i = i + 1;
        }
        assert(old_view.take(n as int) =~= old_view);
        self.cookies = kept;
        self.set(cookie);
    }

    /// Removes the first cookie of a name: it is kept among the removed cookies with an empty
    /// value and an expiry date at the start of the epoch, and returned.
    pub fn del(&mut self, name: &str) -> (r: Option<&Cookie>)
        ensures
            match named_index(old(self)@.cookies, name@, 0) {
                Some(p) => r matches Some(d) && d@ == deleted_cookie(old(self)@.cookies[p]) && final(self)@ == (
                CookiesView {
                    cookies: old(self)@.cookies.remove(p),
                    removed: old(self)@.removed.push(deleted_cookie(old(self)@.cookies[p])),
                }),
                None => r is None && final(self)@ == old(self)@,
            },
    {
        match position(&self.cookies, name) {
            Some(pos) => {
                let ghost before = self.cookies@;
                let ghost before_removed = self.removed_cookies@;
                let c = self.cookies.remove(pos);
                assert(cookie_views(self.cookies@) =~= cookie_views(before).remove(pos as int));
                assert(cookie_views(before)[pos as int] == c@);
                let mut d = c;
                d.value = String::new();
                d.expires = Some("Thu, 01 Jan 1970 00:00:00 GMT".to_owned());
                assert(d@ == deleted_cookie(cookie_views(before)[pos as int]));
                self.removed_cookies.push(d);
                assert(cookie_views(self.removed_cookies@) =~= cookie_views(before_removed).push(
                    deleted_cookie(cookie_views(before)[pos as int]),
                ));
                let n = self.removed_cookies.len();
                Some(&self.removed_cookies[n - 1])
            },
            None => None,
        }
    }

    /// Removes every cookie: they are kept among the removed cookies.
    pub fn clear(&mut self)
        ensures
            final(self)@.cookies.len() == 0,
            final(self)@.removed == old(self)@.removed + old(self)@.cookies,
    {
        let ghost a = self.removed_cookies@;
        let ghost b = self.cookies@;
        self.removed_cookies.append(&mut self.cookies);
        assert(cookie_views(self.removed_cookies@) =~= cookie_views(a) + cookie_views(b));
        assert(cookie_views(self.cookies@) =~= Seq::<CookieView>::empty());
    }

    /// The first cookie of a name.
    pub fn get(&self, name: &str) -> (r: Option<&Cookie>)
        ensures
            match named_index(self@.cookies, name@, 0) {
                Some(p) => r matches Some(c) && c@ == self@.cookies[p],
                None => r is None,
            },
    {
        match position(&self.cookies, name) {
            Some(pos) => {
                assert(cookie_views(self.cookies@)[pos as int] == self.cookies@[pos as int]@);
                Some(&self.cookies[pos])
            },
            None => None,
        }
    }

    /// The cookies of a name, in order.
    pub fn get_all(&self, name: &str) -> (r: Vec<&Cookie>)
        ensures
            r@.map_values(|c: &Cookie| c@) == named(self@.cookies, name@),
    {
        let ghost all = self@.cookies;
        let mut out: Vec<&Cookie> = Vec::new();
        let mut i: usize = 0;
        let n = self.cookies.len();
        while i < n
            invariant
                n == self.cookies@.len(),
                i <= n,
                all == cookie_views(self.cookies@),
                out@.map_values(|c: &Cookie| c@) == named(all.take(i as int), name@),
            decreases n - i,
        {
            let ghost before = out@;
            proof {
                assert(all.take(i + 1) =~= all.take(i as int).push(all[i as int]));
                all.take(i as int).lemma_filter_push(all[i as int], |c: CookieView| c.name == name@);
            }
            assert(all[i as int] == self.cookies@[i as int]@);
            if crate::text::str_eq(self.cookies[i].name(), name) {
                out.push(&self.cookies[i]);
                assert(out@.map_values(|c: &Cookie| c@) =~= before.map_values(|c: &Cookie| c@).push(all[i as int]));
            }
            i = i + 1;
        }
        assert(all.take(n as int) =~= all);
        out
    }

    /// Every cookie: the cookies, then the removed ones.
    pub fn iter(&self) -> (r: Vec<&Cookie>)
        ensures
            r@.map_values(|c: &Cookie| c@) == self@.cookies + self@.removed,
    {
        let ghost whole = self@.cookies + self@.removed;
        let mut out: Vec<&Cookie> = Vec::new();
        let mut i: usize = 0;
        while i < self.cookies.len()
            invariant
                i <= self.cookies@.len(),
                whole == self@.cookies + self@.removed,
                out@.map_values(|c: &Cookie| c@) == whole.take(i as int),
            decreases self.cookies@.len() - i,
        {
            let ghost before = out@;
            assert(whole[i as int] == self.cookies@[i as int]@);
            out.push(&self.cookies[i]);
            assert(out@.map_values(|c: &Cookie| c@) =~= before.map_values(|c: &Cookie| c@).push(whole[i as int]));
            assert(whole.take(i + 1) =~= whole.take(i as int).push(whole[i as int]));
            i = i + 1;
        }
        let mut k: usize = 0;
        let m = self.cookies.len();
        while k < self.removed_cookies.len()
            invariant
                m == self.cookies@.len(),
                k <= self.removed_cookies@.len(),
                whole == self@.cookies + self@.removed,
                out@.map_values(|c: &Cookie| c@) == whole.take(m + k),
            decreases self.removed_cookies@.len() - k,
        {
            let ghost before = out@;
            assert(whole[m + k] == self.removed_cookies@[k as int]@);
            out.push(&self.removed_cookies[k]);
            assert(out@.map_values(|c: &Cookie| c@) =~= before.map_values(|c: &Cookie| c@).push(whole[m + k]));
            assert(whole.take(m + k + 1) =~= whole.take(m + k).push(whole[m + k]));
            k = k + 1;
        }
        assert(whole.take(m + k) =~= whole);
        out
    }

    /// The cookies, the removed ones left out.
    pub fn into_iter(self) -> (r: Vec<Cookie>)
        ensures
            cookie_views(r@) == self@.cookies,
    {
        self.cookies
    }

    /// The cookies of the `Cookie` header values, in order; a value that is not a cookie is
    /// skipped.
    pub fn from_headers(headers: &Headers) -> (r: Cookies)
        ensures
            r@ == jar_from_values(header_values(headers@, "Cookie"@)),
    {
        let values = headers.get_all("Cookie");
        let ghost vs = header_values(headers@, "Cookie"@);
        let mut jar = Cookies::new();
        assert(vs.take(0) =~= Seq::<Seq<char>>::empty());
        let mut i: usize = 0;
        while i < values.len()
            invariant
                string_views(values@) == vs,
                i <= values@.len(),
                jar@ == jar_from_values(vs.take(i as int)),
            decreases values@.len() - i,
        {
            assert(vs.take(i + 1).drop_last() =~= vs.take(i as int));
            assert(values@[i as int]@ == vs[i as int]);
            match Cookie::from_str(values[i].as_str()) {
                Ok(c) => jar.set(c),
                Err(_) => {},
            }
            i = i + 1;
        }
        assert(vs.take(values@.len() as int) =~= vs);
        jar
    }

    /// A `Set-Cookie` header for each cookie, in order; the removed cookies are left out.
    pub fn into_headers(self) -> (r: Headers)
        ensures
            r@ == Seq::new(self@.cookies.len(), |i: int| ("Set-Cookie"@, cookie_text(self@.cookies[i]))),
    {
        let ghost cs = self@.cookies;
        let mut headers = Headers::new();
        let mut i: usize = 0;
        while i < self.cookies.len()
            invariant
                i <= self.cookies@.len(),
                cs == cookie_views(self.cookies@),
                headers@ == Seq::new(i as nat, |j: int| ("Set-Cookie"@, cookie_text(cs[j]))),
            decreases self.cookies@.len() - i,
        {
            assert(cs[i as int] == self.cookies@[i as int]@);
            let text = self.cookies[i].to_string();
            headers.append("Set-Cookie".to_owned(), text);
            i = i + 1;
            assert(headers@ =~= Seq::new(i as nat, |j: int| ("Set-Cookie"@, cookie_text(cs[j]))));
        }
        headers
    }
}


/// After a cookie replaces the cookies of its name, it is the only cookie of that name in the
/// jar, it is the last cookie, and looking the name up finds it.
pub proof fn law_replace_leaves_one(j: CookiesView, c: CookieView)
    ensures
        ({
            let after = set_spec(CookiesView { cookies: not_named(j.cookies, c.name), removed: j.removed }, c);
            &&& named(after.cookies, c.name) == seq![c]
            &&& named_index(after.cookies, c.name, 0) == Some((after.cookies.len() - 1) as int)
            &&& after.cookies.last() == c
        }),
{
    let pred = |x: CookieView| x.name != c.name;
    let kept = j.cookies.filter(pred);
    assert forall|i: int| 0 <= i < kept.len() implies #[trigger] kept[i].name != c.name by {
        j.cookies.lemma_filter_pred(pred, i);
    }
    let after = kept.push(c);
    lemma_named_index(after, c.name, 0);
    assert(after[kept.len() as int] == c);
    kept.lemma_filter_push(c, |x: CookieView| x.name == c.name);
    assert(named(kept, c.name) =~= Seq::<CookieView>::empty()) by {
        lemma_named_empty(kept, c.name);
    }
    assert(named(after, c.name) =~= seq![c]);
}

proof fn lemma_named_empty(s: Seq<CookieView>, name: Seq<char>)
    requires
        forall|i: int| 0 <= i < s.len() ==> #[trigger] s[i].name != name,
    ensures
        named(s, name).len() == 0,
    decreases s.len(),
{
    if s.len() > 0 {
        let p = |x: CookieView| x.name == name;
        lemma_named_empty(s.drop_last(), name);
        assert(s =~= s.drop_last().push(s.last()));
        s.drop_last().lemma_filter_push(s.last(), p);
    }
}

/// Whether one of the attribute parts `1..k` equals `flag` in any ASCII case.
pub open spec fn has_flag_part(parts: Seq<Seq<char>>, k: int, flag: Seq<char>) -> bool {
    exists|j: int| 1 <= j < k && j < parts.len() && eq_ignore_ascii_case(#[trigger] parts[j], flag)
}

proof fn lemma_parse_flags(parts: Seq<Seq<char>>, k: int)
    requires
        1 <= k <= parts.len(),
    ensures
        parse_cookie_parts(parts, k) matches Ok(c) ==> {
            &&& c.http_only == has_flag_part(parts, k, "httponly"@)
            &&& c.secure == has_flag_part(parts, k, "secure"@)
            &&& c.partitioned == has_flag_part(parts, k, "partitioned"@)
        },
    decreases k,
{
    reveal_strlit("httponly");
    reveal_strlit("secure");
    reveal_strlit("partitioned");
    if k > 1 {
        lemma_parse_flags(parts, k - 1);
        let a = parts[k - 1];
        match parse_cookie_parts(parts, k - 1) {
            Ok(c) => {
                assert forall|f: Seq<char>| #![auto] has_flag_part(parts, k, f) == (has_flag_part(parts, k - 1, f)
                    || eq_ignore_ascii_case(a, f)) by {
                    if has_flag_part(parts, k, f) {
                        let j = choose|j: int| 1 <= j < k && j < parts.len() && eq_ignore_ascii_case(#[trigger] parts[j], f);
                        if j < k - 1 {
                            assert(has_flag_part(parts, k - 1, f));
                        }
                    }
                    if eq_ignore_ascii_case(a, f) {
                        assert(eq_ignore_ascii_case(parts[k - 1], f));
                    }
                }
                assert(!(eq_ignore_ascii_case(a, "httponly"@) && eq_ignore_ascii_case(a, "secure"@)));
                assert(!(eq_ignore_ascii_case(a, "httponly"@) && eq_ignore_ascii_case(a, "partitioned"@)));
                assert(!(eq_ignore_ascii_case(a, "secure"@) && eq_ignore_ascii_case(a, "partitioned"@)));
            },
            Err(_) => {},
        }
    } else {
        assert(!has_flag_part(parts, k, "httponly"@));
        assert(!has_flag_part(parts, k, "secure"@));
        assert(!has_flag_part(parts, k, "partitioned"@));
    }
}

/// The flags of a parsed cookie are exactly the flag attributes of its text: whenever a cookie
/// text parses, the cookie is `HttpOnly`, `Secure` or `Partitioned` exactly when one of the
/// `;`-separated attributes after `name=value` is that word, in any ASCII case.
pub proof fn law_parsed_flags_follow_attributes(s: Seq<char>)
    ensures
        parse_cookie(s) matches Ok(c) ==> {
            &&& c.http_only == has_flag_part(cookie_parts(s), cookie_parts(s).len() as int, "httponly"@)
            &&& c.secure == has_flag_part(cookie_parts(s), cookie_parts(s).len() as int, "secure"@)
            &&& c.partitioned == has_flag_part(cookie_parts(s), cookie_parts(s).len() as int, "partitioned"@)
        },
{
    let parts = cookie_parts(s);
    lemma_split_chars_nonempty(s, ';');
    if parts.len() >= 1 {
        lemma_parse_flags(parts, parts.len() as int);
    }
}

/// Texts joined after a `;` each.
pub open spec fn join_after_semicolons(segs: Seq<Seq<char>>) -> Seq<char>
    decreases segs.len(),
{
    if segs.len() == 0 {
        Seq::empty()
    } else {
        seq![';'] + segs[0] + join_after_semicolons(segs.drop_first())
    }
}

proof fn lemma_join_concat(a: Seq<Seq<char>>, b: Seq<Seq<char>>)
    ensures
        join_after_semicolons(a + b) == join_after_semicolons(a) + join_after_semicolons(b),
    decreases a.len(),
{
    if a.len() == 0 {
        assert(a + b =~= b);
        assert(Seq::<char>::empty() + join_after_semicolons(b) =~= join_after_semicolons(b));
    } else {
        assert((a + b).drop_first() =~= a.drop_first() + b);
        lemma_join_concat(a.drop_first(), b);
        assert(seq![';'] + a[0] + join_after_semicolons(a.drop_first() + b) =~= seq![';'] + a[0]
            + join_after_semicolons(a.drop_first()) + join_after_semicolons(b));
    }
}

proof fn lemma_split_join(x: Seq<char>, segs: Seq<Seq<char>>)
    requires
        lacks(x, ';'),
        forall|i: int| 0 <= i < segs.len() ==> lacks(#[trigger] segs[i], ';'),
    ensures
        split_chars(x + join_after_semicolons(segs), ';') == seq![x] + segs,
    decreases segs.len(),
{
    let t = x + join_after_semicolons(segs);
    if segs.len() == 0 {
        assert(t =~= x);
        lemma_first_index_none(t, ';');
    } else {
        let rest = segs.drop_first();
        assert(t =~= x + seq![';'] + (segs[0] + join_after_semicolons(rest)));
        assert(t[x.len() as int] == ';');
        assert forall|j: int| 0 <= j < x.len() implies t[j] != ';' by {
            assert(t[j] == x[j]);
        }
        lemma_first_index_is(t, ';', x.len() as int);
        assert(t.subrange(0, x.len() as int) =~= x);
        assert(t.subrange(x.len() as int + 1, t.len() as int) =~= segs[0] + join_after_semicolons(rest));
        assert forall|i: int| 0 <= i < rest.len() implies lacks(#[trigger] rest[i], ';') by {
            assert(rest[i] == segs[i + 1]);
        }
        lemma_split_join(segs[0], rest);
        assert(seq![x] + (seq![segs[0]] + rest) =~= seq![x] + segs);
    }
}

/// A segment when a flag is set, else none.
pub open spec fn flag_segment(on: bool, seg: Seq<char>) -> Seq<Seq<char>> {
    if on {
        seq![seg]
    } else {
        Seq::empty()
    }
}

/// A `key` segment with the value, when there is one.
pub open spec fn value_segment(v: Option<Seq<char>>, key: Seq<char>) -> Seq<Seq<char>> {
    match v {
        Some(x) => seq![key + x],
        None => Seq::empty(),
    }
}

/// The text of a cookie's name and value, as `Set-Cookie` writes them.
pub open spec fn name_value_text(c: CookieView) -> Seq<char> {
    cookie_encode(c.name) + seq!['='] + cookie_encode(c.value)
}

/// The attributes of a cookie's `Set-Cookie` text, each as written after its `;`.
pub open spec fn attribute_segments(c: CookieView) -> Seq<Seq<char>> {
    flag_segment(c.http_only, seq![' ', 'H', 't', 't', 'p', 'O', 'n', 'l', 'y']) + value_segment(
        match c.path {
            Some(p) => Some(cookie_encode(p)),
            None => None,
        },
        seq![' ', 'P', 'a', 't', 'h', '='],
    ) + value_segment(
        match c.domain {
            Some(d) => Some(cookie_encode(d)),
            None => None,
        },
        seq![' ', 'D', 'o', 'm', 'a', 'i', 'n', '='],
    ) + value_segment(
        match c.max_age {
            Some(m) => Some(decimal_chars(m as nat)),
            None => None,
        },
        seq![' ', 'M', 'a', 'x', '-', 'A', 'g', 'e', '='],
    ) + value_segment(c.expires, seq![' ', 'E', 'x', 'p', 'i', 'r', 'e', 's', '='])
        + flag_segment(c.secure, seq![' ', 'S', 'e', 'c', 'u', 'r', 'e'])
        + flag_segment(c.partitioned, seq![' ', 'P', 'a', 'r', 't', 'i', 't', 'i', 'o', 'n', 'e', 'd'])
}

proof fn lemma_join_one(seg: Seq<char>)
    ensures
        join_after_semicolons(seq![seg]) == seq![';'] + seg,
{
    assert(seq![seg].drop_first() =~= Seq::<Seq<char>>::empty());
    assert(join_after_semicolons(Seq::<Seq<char>>::empty()) == Seq::<char>::empty());
    assert(seq![seg][0] == seg);
    assert(seq![';'] + seg + Seq::<char>::empty() =~= seq![';'] + seg);
}

proof fn lemma_flag_join(on: bool, seg: Seq<char>, text: Seq<char>)
    requires
        text == seq![';'] + seg,
    ensures
        flag_text(on, text) == join_after_semicolons(flag_segment(on, seg)),
{
    lemma_join_one(seg);
}

proof fn lemma_value_join(v: Option<Seq<char>>, key: Seq<char>, prefix: Seq<char>)
    requires
        prefix == seq![';'] + key,
    ensures
        attr_text(v, prefix) == join_after_semicolons(value_segment(v, key)),
{
    match v {
        Some(x) => {
            lemma_join_one(key + x);
            assert(prefix + x =~= seq![';'] + (key + x));
        },
        None => {},
    }
}

proof fn lemma_cookie_literals()
    ensures
        "; HttpOnly"@ == seq![';'] + seq![' ', 'H', 't', 't', 'p', 'O', 'n', 'l', 'y'],
        "; Path="@ == seq![';'] + seq![' ', 'P', 'a', 't', 'h', '='],
        "; Domain="@ == seq![';'] + seq![' ', 'D', 'o', 'm', 'a', 'i', 'n', '='],
        "; Max-Age="@ == seq![';'] + seq![' ', 'M', 'a', 'x', '-', 'A', 'g', 'e', '='],
        "; Expires="@ == seq![';'] + seq![' ', 'E', 'x', 'p', 'i', 'r', 'e', 's', '='],
        "; Secure"@ == seq![';'] + seq![' ', 'S', 'e', 'c', 'u', 'r', 'e'],
        "; Partitioned"@ == seq![';'] + seq![' ', 'P', 'a', 'r', 't', 'i', 't', 'i', 'o', 'n', 'e', 'd'],
{
    reveal_strlit("; HttpOnly");
    reveal_strlit("; Path=");
    reveal_strlit("; Domain=");
    reveal_strlit("; Max-Age=");
    reveal_strlit("; Expires=");
    reveal_strlit("; Secure");
    reveal_strlit("; Partitioned");
    assert("; HttpOnly"@ =~= seq![';'] + seq![' ', 'H', 't', 't', 'p', 'O', 'n', 'l', 'y']);
    assert("; Path="@ =~= seq![';'] + seq![' ', 'P', 'a', 't', 'h', '=']);
    assert("; Domain="@ =~= seq![';'] + seq![' ', 'D', 'o', 'm', 'a', 'i', 'n', '=']);
    assert("; Max-Age="@ =~= seq![';'] + seq![' ', 'M', 'a', 'x', '-', 'A', 'g', 'e', '=']);
    assert("; Expires="@ =~= seq![';'] + seq![' ', 'E', 'x', 'p', 'i', 'r', 'e', 's', '=']);
    assert("; Secure"@ =~= seq![';'] + seq![' ', 'S', 'e', 'c', 'u', 'r', 'e']);
    assert("; Partitioned"@ =~= seq![';'] + seq![' ', 'P', 'a', 'r', 't', 'i', 't', 'i', 'o', 'n', 'e', 'd']);
}

proof fn lemma_assoc8(n: Seq<char>, a: Seq<char>, b: Seq<char>, c: Seq<char>, d: Seq<char>, e: Seq<char>, f: Seq<char>, g: Seq<char>)
    ensures
        n + ((((((a + b) + c) + d) + e) + f) + g) == ((((((n + a) + b) + c) + d) + e) + f) + g,
{
    assert(n + ((((((a + b) + c) + d) + e) + f) + g) =~= ((((((n + a) + b) + c) + d) + e) + f) + g);
}

/// The `Set-Cookie` text of a cookie is its name and value followed by its attribute segments,
/// each after a `;`.
proof fn lemma_cookie_text_segments(c: CookieView)
    ensures
        cookie_text(c) == name_value_text(c) + join_after_semicolons(attribute_segments(c)),
{
    lemma_cookie_literals();
    let pv = match c.path {
        Some(p) => Some(cookie_encode(p)),
        None => None,
    };
    let dv = match c.domain {
        Some(d) => Some(cookie_encode(d)),
        None => None,
    };
    let mv = match c.max_age {
        Some(m) => Some(decimal_chars(m as nat)),
        None => None,
    };
    let f1 = flag_segment(c.http_only, seq![' ', 'H', 't', 't', 'p', 'O', 'n', 'l', 'y']);
    let v1 = value_segment(pv, seq![' ', 'P', 'a', 't', 'h', '=']);
    let v2 = value_segment(dv, seq![' ', 'D', 'o', 'm', 'a', 'i', 'n', '=']);
    let v3 = value_segment(mv, seq![' ', 'M', 'a', 'x', '-', 'A', 'g', 'e', '=']);
    let v4 = value_segment(c.expires, seq![' ', 'E', 'x', 'p', 'i', 'r', 'e', 's', '=']);
    let f2 = flag_segment(c.secure, seq![' ', 'S', 'e', 'c', 'u', 'r', 'e']);
    let f3 = flag_segment(c.partitioned, seq![' ', 'P', 'a', 'r', 't', 'i', 't', 'i', 'o', 'n', 'e', 'd']);
    lemma_flag_join(c.http_only, seq![' ', 'H', 't', 't', 'p', 'O', 'n', 'l', 'y'], "; HttpOnly"@);
    lemma_value_join(pv, seq![' ', 'P', 'a', 't', 'h', '='], "; Path="@);
    lemma_value_join(dv, seq![' ', 'D', 'o', 'm', 'a', 'i', 'n', '='], "; Domain="@);
    lemma_value_join(mv, seq![' ', 'M', 'a', 'x', '-', 'A', 'g', 'e', '='], "; Max-Age="@);
    lemma_value_join(c.expires, seq![' ', 'E', 'x', 'p', 'i', 'r', 'e', 's', '='], "; Expires="@);
    lemma_flag_join(c.secure, seq![' ', 'S', 'e', 'c', 'u', 'r', 'e'], "; Secure"@);
    lemma_flag_join(c.partitioned, seq![' ', 'P', 'a', 'r', 't', 'i', 't', 'i', 'o', 'n', 'e', 'd'], "; Partitioned"@);
    lemma_join_concat(f1, v1);
    lemma_join_concat(f1 + v1, v2);
    lemma_join_concat(f1 + v1 + v2, v3);
    lemma_join_concat(f1 + v1 + v2 + v3, v4);
    lemma_join_concat(f1 + v1 + v2 + v3 + v4, f2);
    lemma_join_concat(f1 + v1 + v2 + v3 + v4 + f2, f3);
    assert(attribute_segments(c) == f1 + v1 + v2 + v3 + v4 + f2 + f3);
    lemma_assoc8(
        name_value_text(c),
        join_after_semicolons(f1),
        join_after_semicolons(v1),
        join_after_semicolons(v2),
        join_after_semicolons(v3),
        join_after_semicolons(v4),
        join_after_semicolons(f2),
        join_after_semicolons(f3),
    );
}

proof fn lemma_trim_segment(seg: Seq<char>, m: int)
    requires
        2 <= m <= seg.len(),
        seg[0] == ' ',
        forall|i: int| 1 <= i < m ==> !is_whitespace(#[trigger] seg[i]),
    ensures
        trim(seg).len() >= m - 1,
        forall|i: int| 0 <= i < m - 1 ==> #[trigger] trim(seg)[i] == seg[i + 1],
        m == seg.len() ==> trim(seg) == seg.subrange(1, m),
{
    lemma_trim_start(seg, 0);
    lemma_trim_end(seg, seg.len() as int);
    let st = trim_start_index(seg, 0);
    let en = trim_end_index(seg, seg.len() as int);
    assert(is_whitespace(seg[0]));
    assert(!is_whitespace(seg[1]));
    if st > 1 {
        assert(is_whitespace(seg[1]));
    }
    assert(st == 1);
    if en < m {
        assert(is_whitespace(seg[m - 1]));
    }
    assert(en >= m);
}

/// Whether some attribute segment, trimmed, equals `w` in any ASCII case.
pub open spec fn segments_have_flag(segs: Seq<Seq<char>>, w: Seq<char>) -> bool {
    exists|i: int| 0 <= i < segs.len() && eq_ignore_ascii_case(trim(#[trigger] segs[i]), w)
}

proof fn lemma_segments_concat(a: Seq<Seq<char>>, b: Seq<Seq<char>>, w: Seq<char>)
    ensures
        segments_have_flag(a + b, w) == (segments_have_flag(a, w) || segments_have_flag(b, w)),
{
    let ab = a + b;
    if segments_have_flag(ab, w) {
        let i = choose|i: int| 0 <= i < ab.len() && eq_ignore_ascii_case(trim(#[trigger] ab[i]), w);
        if i < a.len() {
            assert(ab[i] == a[i]);
        } else {
            assert(ab[i] == b[i - a.len()]);
        }
    }
    if segments_have_flag(a, w) {
        let i = choose|i: int| 0 <= i < a.len() && eq_ignore_ascii_case(trim(#[trigger] a[i]), w);
        assert(ab[i] == a[i]);
    }
    if segments_have_flag(b, w) {
        let i = choose|i: int| 0 <= i < b.len() && eq_ignore_ascii_case(trim(#[trigger] b[i]), w);
        assert(ab[i + a.len()] == b[i]);
    }
}

proof fn lemma_not_a_flag(t: Seq<char>)
    requires
        t.len() >= 4,
        ascii_lower(t[0]) != 'h' && ascii_lower(t[0]) != 's' && (ascii_lower(t[0]) != 'p' || ascii_lower(t[3])
            != 't'),
    ensures
        !eq_ignore_ascii_case(t, "httponly"@),
        !eq_ignore_ascii_case(t, "secure"@),
        !eq_ignore_ascii_case(t, "partitioned"@),
{
    reveal_strlit("httponly");
    reveal_strlit("secure");
    reveal_strlit("partitioned");
    assert(ascii_lower("httponly"@[0]) == 'h');
    assert(ascii_lower("secure"@[0]) == 's');
    assert(ascii_lower("partitioned"@[0]) == 'p');
    assert(ascii_lower("partitioned"@[3]) == 't');
}

/// A segment written for a valued attribute is never read as a flag, and starts with an
/// upper-case letter.
proof fn lemma_value_segment_words(v: Option<Seq<char>>, key: Seq<char>)
    requires
        key.len() >= 5,
        key[0] == ' ',
        forall|i: int| 1 <= i < key.len() ==> !is_whitespace(#[trigger] key[i]),
        'A' <= key[1] <= 'Z',
        ascii_lower(key[1]) != 'h' && ascii_lower(key[1]) != 's' && (ascii_lower(key[1]) != 'p' || ascii_lower(key[4])
            != 't'),
    ensures
        !segments_have_flag(value_segment(v, key), "httponly"@),
        !segments_have_flag(value_segment(v, key), "secure"@),
        !segments_have_flag(value_segment(v, key), "partitioned"@),
        forall|i: int| 0 <= i < value_segment(v, key).len() ==> trim(#[trigger] value_segment(v, key)[i]).len() > 0
            && 'A' <= trim(value_segment(v, key)[i])[0] <= 'Z',
{
    match v {
        Some(x) => {
            let seg = key + x;
            assert forall|i: int| 1 <= i < key.len() implies !is_whitespace(#[trigger] seg[i]) by {
                assert(seg[i] == key[i]);
            }
            lemma_trim_segment(seg, key.len() as int);
            let t = trim(seg);
            assert(t[0] == seg[1] && seg[1] == key[1]);
            assert(t[3] == seg[4] && seg[4] == key[4]);
            lemma_not_a_flag(t);
            assert(value_segment(v, key)[0] == seg);
        },
        None => {},
    }
}

/// A segment written for a flag reads back as exactly that flag, when the flag is set.
proof fn lemma_flag_segment_words(on: bool, seg: Seq<char>, w: Seq<char>, o1: Seq<char>, o2: Seq<char>)
    requires
        seg.len() >= 2,
        seg[0] == ' ',
        forall|i: int| 1 <= i < seg.len() ==> !is_whitespace(#[trigger] seg[i]),
        'A' <= seg[1] <= 'Z',
        eq_ignore_ascii_case(seg.subrange(1, seg.len() as int), w),
        seg.len() - 1 != o1.len(),
        seg.len() - 1 != o2.len(),
    ensures
        segments_have_flag(flag_segment(on, seg), w) == on,
        !segments_have_flag(flag_segment(on, seg), o1),
        !segments_have_flag(flag_segment(on, seg), o2),
        forall|i: int| 0 <= i < flag_segment(on, seg).len() ==> trim(#[trigger] flag_segment(on, seg)[i]).len() > 0
            && 'A' <= trim(flag_segment(on, seg)[i])[0] <= 'Z',
{
    lemma_trim_segment(seg, seg.len() as int);
    if on {
        assert(flag_segment(on, seg)[0] == seg);
        assert(trim(seg)[0] == seg[1]);
    }
}

/// Whether every segment, trimmed, is non-empty and starts with an upper-case ASCII letter.
pub open spec fn upper_trimmed(segs: Seq<Seq<char>>) -> bool {
    forall|i: int| 0 <= i < segs.len() ==> trim(#[trigger] segs[i]).len() > 0 && 'A' <= trim(segs[i])[0] <= 'Z'
}

proof fn lemma_upper_concat(a: Seq<Seq<char>>, b: Seq<Seq<char>>)
    requires
        upper_trimmed(a),
        upper_trimmed(b),
    ensures
        upper_trimmed(a + b),
{
    assert forall|i: int| 0 <= i < (a + b).len() implies trim(#[trigger] (a + b)[i]).len() > 0 && 'A' <= trim((a + b)[i])[0]
        <= 'Z' by {
        if i < a.len() {
            assert((a + b)[i] == a[i]);
        } else {
            assert((a + b)[i] == b[i - a.len()]);
        }
    }
}

proof fn lemma_flags7(
    f1: Seq<Seq<char>>,
    v1: Seq<Seq<char>>,
    v2: Seq<Seq<char>>,
    v3: Seq<Seq<char>>,
    v4: Seq<Seq<char>>,
    f2: Seq<Seq<char>>,
    f3: Seq<Seq<char>>,
    w: Seq<char>,
)
    ensures
        segments_have_flag(f1 + v1 + v2 + v3 + v4 + f2 + f3, w) == (segments_have_flag(f1, w) || segments_have_flag(v1, w)
            || segments_have_flag(v2, w) || segments_have_flag(v3, w) || segments_have_flag(v4, w)
            || segments_have_flag(f2, w) || segments_have_flag(f3, w)),
{
    lemma_segments_concat(f1, v1, w);
    lemma_segments_concat(f1 + v1, v2, w);
    lemma_segments_concat(f1 + v1 + v2, v3, w);
    lemma_segments_concat(f1 + v1 + v2 + v3, v4, w);
    lemma_segments_concat(f1 + v1 + v2 + v3 + v4, f2, w);
    lemma_segments_concat(f1 + v1 + v2 + v3 + v4 + f2, f3, w);
}

proof fn lemma_flag_literals()
    ensures
        eq_ignore_ascii_case(seq![' ', 'H', 't', 't', 'p', 'O', 'n', 'l', 'y'].subrange(1, 9), "httponly"@),
        eq_ignore_ascii_case(seq![' ', 'S', 'e', 'c', 'u', 'r', 'e'].subrange(1, 7), "secure"@),
        eq_ignore_ascii_case(seq![' ', 'P', 'a', 'r', 't', 'i', 't', 'i', 'o', 'n', 'e', 'd'].subrange(1, 12), "partitioned"@),
        "httponly"@.len() == 8,
        "secure"@.len() == 6,
        "partitioned"@.len() == 11,
{
    reveal_strlit("httponly");
    reveal_strlit("secure");
    reveal_strlit("partitioned");
    assert(seq![' ', 'H', 't', 't', 'p', 'O', 'n', 'l', 'y'].subrange(1, 9) =~= seq!['H', 't', 't', 'p', 'O', 'n', 'l', 'y']);
    assert(seq![' ', 'S', 'e', 'c', 'u', 'r', 'e'].subrange(1, 7) =~= seq!['S', 'e', 'c', 'u', 'r', 'e']);
    assert(seq![' ', 'P', 'a', 'r', 't', 'i', 't', 'i', 'o', 'n', 'e', 'd'].subrange(1, 12) =~= seq![
        'P',
        'a',
        'r',
        't',
        'i',
        't',
        'i',
        'o',
        'n',
        'e',
        'd',
    ]);
}

#[verifier::rlimit(40)]
proof fn lemma_attribute_words(c: CookieView)
    ensures
        segments_have_flag(attribute_segments(c), "httponly"@) == c.http_only,
        segments_have_flag(attribute_segments(c), "secure"@) == c.secure,
        segments_have_flag(attribute_segments(c), "partitioned"@) == c.partitioned,
        upper_trimmed(attribute_segments(c)),
{
    let hk = seq![' ', 'H', 't', 't', 'p', 'O', 'n', 'l', 'y'];
    let pk = seq![' ', 'P', 'a', 't', 'h', '='];
    let dk = seq![' ', 'D', 'o', 'm', 'a', 'i', 'n', '='];
    let mk = seq![' ', 'M', 'a', 'x', '-', 'A', 'g', 'e', '='];
    let ek = seq![' ', 'E', 'x', 'p', 'i', 'r', 'e', 's', '='];
    let sk = seq![' ', 'S', 'e', 'c', 'u', 'r', 'e'];
    let tk = seq![' ', 'P', 'a', 'r', 't', 'i', 't', 'i', 'o', 'n', 'e', 'd'];
    let pv = match c.path {
        Some(p) => Some(cookie_encode(p)),
        None => None,
    };
    let dv = match c.domain {
        Some(d) => Some(cookie_encode(d)),
        None => None,
    };
    let mv = match c.max_age {
        Some(m) => Some(decimal_chars(m as nat)),
        None => None,
    };
    let f1 = flag_segment(c.http_only, hk);
    let v1 = value_segment(pv, pk);
    let v2 = value_segment(dv, dk);
    let v3 = value_segment(mv, mk);
    let v4 = value_segment(c.expires, ek);
    let f2 = flag_segment(c.secure, sk);
    let f3 = flag_segment(c.partitioned, tk);
    lemma_flag_literals();
    lemma_flag_segment_words(c.http_only, hk, "httponly"@, "secure"@, "partitioned"@);
    lemma_flag_segment_words(c.secure, sk, "secure"@, "httponly"@, "partitioned"@);
    lemma_flag_segment_words(c.partitioned, tk, "partitioned"@, "httponly"@, "secure"@);
    lemma_value_segment_words(pv, pk);
    lemma_value_segment_words(dv, dk);
    lemma_value_segment_words(mv, mk);
    lemma_value_segment_words(c.expires, ek);
    assert(attribute_segments(c) == f1 + v1 + v2 + v3 + v4 + f2 + f3);
    lemma_flags7(f1, v1, v2, v3, v4, f2, f3, "httponly"@);
    lemma_flags7(f1, v1, v2, v3, v4, f2, f3, "secure"@);
    lemma_flags7(f1, v1, v2, v3, v4, f2, f3, "partitioned"@);
    lemma_upper_concat(f1, v1);
    lemma_upper_concat(f1 + v1, v2);
    lemma_upper_concat(f1 + v1 + v2, v3);
    lemma_upper_concat(f1 + v1 + v2 + v3, v4);
    lemma_upper_concat(f1 + v1 + v2 + v3 + v4, f2);
    lemma_upper_concat(f1 + v1 + v2 + v3 + v4 + f2, f3);
}

/// Whether a character can stand in a written cookie text without ending a part: it is not `;`
/// and not whitespace.
pub open spec fn part_char(ch: char) -> bool {
    ch != ';' && !is_whitespace(ch)
}

proof fn lemma_cookie_encode_chars(bytes: Seq<u8>)
    ensures
        forall|i: int| 0 <= i < encode_bytes(&CookieCharset, bytes).len() ==> part_char(
            #[trigger] encode_bytes(&CookieCharset, bytes)[i],
        ),
    decreases bytes.len(),
{
    if bytes.len() > 0 {
        lemma_cookie_encode_chars(bytes.drop_last());
        let prev = encode_bytes(&CookieCharset, bytes.drop_last());
        let b = bytes.last();
        let e = encode_byte(&CookieCharset, b);
        crate::uri::convert::law_cookie_bytes_allowed();
        if CookieCharset.spec_contains(b) {
            assert((b as char) as u32 == b as u32);
            assert(part_char(b as char));
        } else {
            let hi = b / 16;
            let lo = b % 16;
            assert(((48 + hi) as u8) as char as u32 == (48 + hi) as u32);
            assert(((55 + hi) as u8) as char as u32 == (55 + hi) as u32);
            assert(((48 + lo) as u8) as char as u32 == (48 + lo) as u32);
            assert(((55 + lo) as u8) as char as u32 == (55 + lo) as u32);
            assert(part_char(e[1]));
            assert(part_char(e[2]));
            assert(part_char(e[0]));
        }
        let all = encode_bytes(&CookieCharset, bytes);
        assert(all == prev + e);
        assert forall|i: int| 0 <= i < all.len() implies part_char(#[trigger] all[i]) by {
            if i < prev.len() {
                assert(all[i] == prev[i]);
            } else {
                assert(all[i] == e[i - prev.len()]);
            }
        }
    }
}

/// Whether no segment holds a `;`.
pub open spec fn no_semicolons(segs: Seq<Seq<char>>) -> bool {
    forall|i: int| 0 <= i < segs.len() ==> lacks(#[trigger] segs[i], ';')
}

proof fn lemma_no_semicolons_concat(a: Seq<Seq<char>>, b: Seq<Seq<char>>)
    requires
        no_semicolons(a),
        no_semicolons(b),
    ensures
        no_semicolons(a + b),
{
    assert forall|i: int| 0 <= i < (a + b).len() implies lacks(#[trigger] (a + b)[i], ';') by {
        if i < a.len() {
            assert((a + b)[i] == a[i]);
        } else {
            assert((a + b)[i] == b[i - a.len()]);
        }
    }
}

proof fn lemma_value_segment_no_semicolon(v: Option<Seq<char>>, key: Seq<char>)
    requires
        lacks(key, ';'),
        v matches Some(x) ==> lacks(x, ';'),
    ensures
        no_semicolons(value_segment(v, key)),
{
    match v {
        Some(x) => {
            let seg = key + x;
            assert forall|i: int| 0 <= i < seg.len() implies seg[i] != ';' by {
                if i < key.len() {
                    assert(seg[i] == key[i]);
                } else {
                    assert(seg[i] == x[i - key.len()]);
                }
            }
            assert(value_segment(v, key)[0] == seg);
        },
        None => {},
    }
}

proof fn lemma_flag_segment_no_semicolon(on: bool, seg: Seq<char>)
    requires
        lacks(seg, ';'),
    ensures
        no_semicolons(flag_segment(on, seg)),
{
    if on {
        assert(flag_segment(on, seg)[0] == seg);
    }
}

proof fn lemma_encoded_lacks_semicolon(s: Seq<char>)
    ensures
        lacks(cookie_encode(s), ';'),
        forall|i: int| 0 <= i < cookie_encode(s).len() ==> !is_whitespace(#[trigger] cookie_encode(s)[i]),
{
    lemma_cookie_encode_chars(encode_utf8(s));
    assert forall|i: int| 0 <= i < cookie_encode(s).len() implies cookie_encode(s)[i] != ';' by {
        assert(part_char(cookie_encode(s)[i]));
    }
    assert forall|i: int| 0 <= i < cookie_encode(s).len() implies !is_whitespace(#[trigger] cookie_encode(s)[i]) by {
        assert(part_char(cookie_encode(s)[i]));
    }
}

#[verifier::rlimit(40)]
proof fn lemma_attribute_no_semicolons(c: CookieView)
    requires
        c.expires matches Some(e) ==> lacks(e, ';'),
    ensures
        no_semicolons(attribute_segments(c)),
{
    let hk = seq![' ', 'H', 't', 't', 'p', 'O', 'n', 'l', 'y'];
    let pk = seq![' ', 'P', 'a', 't', 'h', '='];
    let dk = seq![' ', 'D', 'o', 'm', 'a', 'i', 'n', '='];
    let mk = seq![' ', 'M', 'a', 'x', '-', 'A', 'g', 'e', '='];
    let ek = seq![' ', 'E', 'x', 'p', 'i', 'r', 'e', 's', '='];
    let sk = seq![' ', 'S', 'e', 'c', 'u', 'r', 'e'];
    let tk = seq![' ', 'P', 'a', 'r', 't', 'i', 't', 'i', 'o', 'n', 'e', 'd'];
    let pv = match c.path {
        Some(p) => Some(cookie_encode(p)),
        None => None,
    };
    let dv = match c.domain {
        Some(d) => Some(cookie_encode(d)),
        None => None,
    };
    let mv = match c.max_age {
        Some(m) => Some(decimal_chars(m as nat)),
        None => None,
    };
    match c.path {
        Some(p) => lemma_encoded_lacks_semicolon(p),
        None => {},
    }
    match c.domain {
        Some(d) => lemma_encoded_lacks_semicolon(d),
        None => {},
    }
    match c.max_age {
        Some(m) => {
            crate::text::lemma_decimal_chars(m as nat);
            assert forall|i: int| 0 <= i < decimal_chars(m as nat).len() implies decimal_chars(m as nat)[i] != ';' by {
                assert(crate::text::is_digit(decimal_chars(m as nat)[i]));
            }
        },
        None => {},
    }
    let f1 = flag_segment(c.http_only, hk);
    let v1 = value_segment(pv, pk);
    let v2 = value_segment(dv, dk);
    let v3 = value_segment(mv, mk);
    let v4 = value_segment(c.expires, ek);
    let f2 = flag_segment(c.secure, sk);
    let f3 = flag_segment(c.partitioned, tk);
    lemma_flag_segment_no_semicolon(c.http_only, hk);
    lemma_flag_segment_no_semicolon(c.secure, sk);
    lemma_flag_segment_no_semicolon(c.partitioned, tk);
    lemma_value_segment_no_semicolon(pv, pk);
    lemma_value_segment_no_semicolon(dv, dk);
    lemma_value_segment_no_semicolon(mv, mk);
    lemma_value_segment_no_semicolon(c.expires, ek);
    assert(attribute_segments(c) == f1 + v1 + v2 + v3 + v4 + f2 + f3);
    lemma_no_semicolons_concat(f1, v1);
    lemma_no_semicolons_concat(f1 + v1, v2);
    lemma_no_semicolons_concat(f1 + v1 + v2, v3);
    lemma_no_semicolons_concat(f1 + v1 + v2 + v3, v4);
    lemma_no_semicolons_concat(f1 + v1 + v2 + v3 + v4, f2);
    lemma_no_semicolons_concat(f1 + v1 + v2 + v3 + v4 + f2, f3);
}

proof fn lemma_parse_succeeds(parts: Seq<Seq<char>>, k: int)
    requires
        1 <= k <= parts.len(),
        first_index(parts[0], '=') is Some,
        forall|j: int| 1 <= j < parts.len() ==> (#[trigger] parts[j]).len() > 0 && 'A' <= parts[j][0] <= 'Z',
    ensures
        parse_cookie_parts(parts, k) is Ok,
    decreases k,
{
    if k > 1 {
        lemma_parse_succeeds(parts, k - 1);
        reveal_strlit("max-age=");
        reveal_strlit("samesite=");
        let a = parts[k - 1];
        assert(a.len() > 0 && 'A' <= a[0] <= 'Z');
        if chars_starts_with(a, "max-age="@) {
            assert(a.subrange(0, 8)[0] == a[0]);
        }
        if chars_starts_with(a, "samesite="@) {
            assert(a.subrange(0, 9)[0] == a[0]);
        }
    }
}

/// Parsing the `Set-Cookie` text written for a cookie gives back its flags: the cookie read from
/// `cookie_text(c)` is `HttpOnly`, `Secure` and `Partitioned` exactly when `c` is, for every
/// cookie whose expiry text holds no `;`.
pub proof fn law_written_flags_read_back(c: CookieView)
    requires
        c.expires matches Some(e) ==> lacks(e, ';'),
    ensures
        parse_cookie(cookie_text(c)) matches Ok(p) && p.http_only == c.http_only && p.secure == c.secure
            && p.partitioned == c.partitioned,
{
    let n = name_value_text(c);
    let segs = attribute_segments(c);
    let text = cookie_text(c);
    lemma_cookie_text_segments(c);
    lemma_attribute_no_semicolons(c);
    lemma_attribute_words(c);
    lemma_encoded_lacks_semicolon(c.name);
    lemma_encoded_lacks_semicolon(c.value);
    let en = cookie_encode(c.name);
    let ev = cookie_encode(c.value);
    assert(n == en + seq!['='] + ev);
    assert forall|i: int| 0 <= i < n.len() implies n[i] != ';' && !is_whitespace(#[trigger] n[i]) by {
        if i < en.len() {
            assert(n[i] == en[i]);
        } else if i > en.len() {
            assert(n[i] == ev[i - en.len() - 1]);
        }
    }
    assert(lacks(n, ';'));
    lemma_split_join(n, segs);
    let raw = split_chars(text, ';');
    assert(raw == seq![n] + segs);
    let parts = cookie_parts(text);
    assert(parts.len() == segs.len() + 1);
    // The name-value part is untouched by trimming and holds `=`.
    lemma_trim_start(n, 0);
    lemma_trim_end(n, n.len() as int);
    assert(!is_whitespace(n[0]));
    assert(!is_whitespace(n[n.len() - 1]));
    assert(trim_start_index(n, 0) == 0);
    if trim_end_index(n, n.len() as int) < n.len() {
        assert(is_whitespace(n[n.len() - 1]));
    }
    assert(n.subrange(0, n.len() as int) =~= n);
    assert(parts[0] == trim(raw[0]));
    assert(raw[0] == n);
    assert(parts[0] == n);
    assert(n[en.len() as int] == '=');
    lemma_first_index_from(n, '=', 0);
    assert forall|j: int| 1 <= j < parts.len() implies #[trigger] parts[j] == trim(segs[j - 1]) by {
        assert(raw[j] == segs[j - 1]);
    }
    assert forall|j: int| 1 <= j < parts.len() implies (#[trigger] parts[j]).len() > 0 && 'A' <= parts[j][0] <= 'Z' by {
        assert(parts[j] == trim(segs[j - 1]));
    }
    lemma_parse_succeeds(parts, parts.len() as int);
    law_parsed_flags_follow_attributes(text);
    let k = parts.len() as int;
    assert forall|w: Seq<char>| #![auto] has_flag_part(parts, k, w) == segments_have_flag(segs, w) by {
        if has_flag_part(parts, k, w) {
            let j = choose|j: int| 1 <= j < k && j < parts.len() && eq_ignore_ascii_case(#[trigger] parts[j], w);
            assert(parts[j] == trim(segs[j - 1]));
            assert(eq_ignore_ascii_case(trim(segs[j - 1]), w));
        }
        if segments_have_flag(segs, w) {
            let i = choose|i: int| 0 <= i < segs.len() && eq_ignore_ascii_case(trim(#[trigger] segs[i]), w);
            assert(parts[i + 1] == trim(segs[i]));
            assert(eq_ignore_ascii_case(parts[i + 1], w));
        }
    }
    assert(has_flag_part(parts, k, "httponly"@) == c.http_only);
    assert(has_flag_part(parts, k, "secure"@) == c.secure);
    assert(has_flag_part(parts, k, "partitioned"@) == c.partitioned);
}

} // verus!
