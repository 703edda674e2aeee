//! HTTP protocol versions.
use vstd::prelude::*;

use crate::text::{chars_eq_ignore_ascii_case, eq_ignore_ascii_case, str_to_chars};

verus! {

/// Represents the http protocol version.
#[derive(Debug, Copy, Clone, PartialEq, Eq, PartialOrd, Ord, Hash)]
pub enum Version {
    /// HTTP/1.1 version.
    Http1_1,
}

pub open spec fn http11_chars() -> Seq<char> {
    seq!['H', 'T', 'T', 'P', '/', '1', '.', '1']
}

///  An error when fails to parse the version.
#[derive(Debug)]
pub struct InvalidVersion {
    _priv: (),
}

impl Version {
    /// Gets the version as `str`.
    pub fn as_str(&self) -> (r: &str)
        ensures
            r@ == http11_chars(),
    {
        proof {
            reveal_strlit("HTTP/1.1");
        }
        "HTTP/1.1"
    }

    /// Parses `HTTP/1.1`, without regard to ASCII case.
    pub fn from_str(s: &str) -> (r: Result<Version, InvalidVersion>)
        ensures
            r is Ok <==> eq_ignore_ascii_case(s@, http11_chars()),
    {
        let cs = str_to_chars(s);
        let v: [char; 8] = ['H', 'T', 'T', 'P', '/', '1', '.', '1'];
        assert(v@ =~= http11_chars());
        if chars_eq_ignore_ascii_case(cs.as_slice(), v.as_slice()) {
            Ok(Version::Http1_1)
        } else {
            Err(InvalidVersion { _priv: () })
        }
    }
}

} // verus!
