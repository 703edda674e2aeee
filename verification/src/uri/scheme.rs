//! URI schemes.
use vstd::prelude::*;

use crate::text::{
    ascii_lowercase, chars_eq_ignore_ascii_case, eq_ignore_ascii_case, is_ascii_chars, str_lowercase, str_to_chars, to_lowercase,
};

verus! {

/// Any other scheme: ftp, mysql, etc... Holds the lower-cased scheme name.
#[derive(Debug, PartialEq, Eq, PartialOrd, Ord, Hash)]
pub struct AnyScheme(pub String);

/// Represents an URI scheme.
#[derive(Debug, PartialEq, Eq, PartialOrd, Ord, Hash)]
pub enum Scheme {
    /// HTTP scheme.
    Http,
    /// HTTPS scheme.
    Https,
    /// Any other scheme: ftp, mysql, etc...
    Other(AnyScheme),
}

/// The abstract value of a scheme.
pub enum SchemeView {
    Http,
    Https,
    Other(Seq<char>),
}

impl View for Scheme {
    type V = SchemeView;

    open spec fn view(&self) -> SchemeView {
        match self {
            Scheme::Http => SchemeView::Http,
            Scheme::Https => SchemeView::Https,
            Scheme::Other(s) => SchemeView::Other(s.0@),
        }
    }
}

pub open spec fn http_chars() -> Seq<char> {
    seq!['h', 't', 't', 'p']
}

pub open spec fn https_chars() -> Seq<char> {
    seq!['h', 't', 't', 'p', 's']
}

/// The scheme named by a text: `http` and `https` in any ASCII case, else the lower-cased text
/// (for an ASCII text, its ASCII letters lower-cased).
pub open spec fn spec_scheme_from(value: Seq<char>) -> SchemeView {
    if eq_ignore_ascii_case(value, http_chars()) {
        SchemeView::Http
    } else if eq_ignore_ascii_case(value, https_chars()) {
        SchemeView::Https
    } else if is_ascii_chars(value) {
        SchemeView::Other(ascii_lowercase(value))
    } else {
        SchemeView::Other(str_lowercase(value))
    }
}

/// The text of a scheme.
pub open spec fn spec_scheme_str(s: SchemeView) -> Seq<char> {
    match s {
        SchemeView::Http => http_chars(),
        SchemeView::Https => https_chars(),
        SchemeView::Other(x) => x,
    }
}

impl Scheme {
    /// Returns the str representation of this scheme.
    pub fn as_str(&self) -> (r: &str)
        ensures
            r@ == spec_scheme_str(self@),
    {
        match self {
            Scheme::Http => {
                proof {
                    reveal_strlit("http");
                }
                "http"
            },
            Scheme::Https => {
                proof {
                    reveal_strlit("https");
                }
                "https"
            },
            Scheme::Other(s) => s.0.as_str(),
        }
    }

    /// Parses a scheme from its name: `http` and `https` are recognized without regard to ASCII
    /// case, any other name is kept lower-cased.
    pub fn from(value: &str) -> (r: Scheme)
        ensures
            r@ == spec_scheme_from(value@),
            is_ascii_chars(value@) ==> spec_scheme_str(r@) == ascii_lowercase(value@),
    {
        let cs = str_to_chars(value);
        let http: [char; 4] = ['h', 't', 't', 'p'];
        let https: [char; 5] = ['h', 't', 't', 'p', 's'];
        assert(http@ =~= http_chars());
        assert(https@ =~= https_chars());
        if chars_eq_ignore_ascii_case(cs.as_slice(), http.as_slice()) {
            assert(ascii_lowercase(value@) =~= http_chars());
            Scheme::Http
        } else if chars_eq_ignore_ascii_case(cs.as_slice(), https.as_slice()) {
            assert(ascii_lowercase(value@) =~= https_chars());
            Scheme::Https
        } else {
            Scheme::Other(AnyScheme(to_lowercase(value)))
        }
    }

    /// The text of this scheme.
    pub fn to_string(&self) -> (r: String)
        ensures
            r@ == spec_scheme_str(self@),
    {
        let mut out = String::new();
        crate::text::push_str(&mut out, self.as_str());
        assert(out@ =~= spec_scheme_str(self@));
        out
    }

    /// A copy of this scheme.
    pub fn duplicate(&self) -> (r: Scheme)
        ensures
            r@ == self@,
    {
        match self {
            Scheme::Http => Scheme::Http,
            Scheme::Https => Scheme::Https,
            Scheme::Other(s) => Scheme::Other(AnyScheme(s.0.clone())),
        }
    }
}

} // verus!
