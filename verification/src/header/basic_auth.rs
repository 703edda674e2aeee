//! The `Basic` credentials of the `Authorization` header: `Basic ` and the base64 encoding of
//! `username:password`.
use vstd::prelude::*;
use vstd::utf8::{decode_utf8, valid_utf8};
use crate::header::authorization::AUTHORIZATION;
use crate::header::FromHeaders;
use crate::headers::Headers;
use crate::text::{find_char, first_index, str_to_chars, string_from_utf8, subrange_to_string};

verus! {

/// The value of a base64 digit of the standard alphabet: `A-Z`, `a-z`, `0-9`, `+` and `/`.
pub open spec fn b64_digit(c: char) -> Option<nat> {
    if 'A' <= c <= 'Z' {
        Some((c as u32 - 65) as nat)
    } else if 'a' <= c <= 'z' {
        Some((c as u32 - 97 + 26) as nat)
    } else if '0' <= c <= '9' {
        Some((c as u32 - 48 + 52) as nat)
    } else if c == '+' {
        Some(62)
    } else if c == '/' {
        Some(63)
    } else {
        None
    }
}

/// The three bytes of four base64 digits.
pub open spec fn b64_bytes(a: nat, b: nat, c: nat, d: nat) -> Seq<u8> {
    seq![(a * 4 + b / 16) as u8, ((b % 16) * 16 + c / 4) as u8, ((c % 4) * 64 + d) as u8]
}

/// The bytes of a group of four characters: four digits give three bytes; at the end of the
/// text, three digits and `=` give two bytes, two digits and `==` one byte.
pub open spec fn b64_group(g: Seq<char>, last: bool) -> Option<Seq<u8>> {
    match (b64_digit(g[0]), b64_digit(g[1]), b64_digit(g[2]), b64_digit(g[3])) {
        (Some(a), Some(b), Some(c), Some(d)) => Some(b64_bytes(a, b, c, d)),
        (Some(a), Some(b), Some(c), None) => if last && g[3] == '=' {
            Some(b64_bytes(a, b, c, 0).take(2))
        } else {
            None
        },
        (Some(a), Some(b), None, None) => if last && g[2] == '=' && g[3] == '=' {
            Some(b64_bytes(a, b, 0, 0).take(1))
        } else {
            None
        },
        _ => None,
    }
}

/// Standard base64 decoding: groups of four characters, `=` padding only in the last group.
pub open spec fn b64_decode(cs: Seq<char>) -> Option<Seq<u8>>
    decreases cs.len(),
{
    if cs.len() == 0 {
        Some(Seq::empty())
    } else if cs.len() < 4 {
        None
    } else {
        match b64_group(cs.take(4), cs.len() == 4) {
            None => None,
            Some(g) => match b64_decode(cs.skip(4)) {
                None => None,
                Some(rest) => Some(g + rest),
            },
        }
    }
}

fn digit(c: char) -> (r: Option<u32>)
    ensures
        match r {
            Some(v) => b64_digit(c) == Some(v as nat) && v < 64,
            None => b64_digit(c) is None,
        },
{
    if 'A' <= c && c <= 'Z' {
        Some(c as u32 - 65)
    } else if 'a' <= c && c <= 'z' {
        Some(c as u32 - 97 + 26)
    } else if '0' <= c && c <= '9' {
        Some(c as u32 - 48 + 52)
    } else if c == '+' {
        Some(62)
    } else if c == '/' {
        Some(63)
    } else {
        None
    }
}

fn push_group(out: &mut Vec<u8>, a: u32, b: u32, c: u32, d: u32, n: usize)
    requires
        a < 64,
        b < 64,
        c < 64,
        d < 64,
        1 <= n <= 3,
    ensures
        final(out)@ == old(out)@ + b64_bytes(a as nat, b as nat, c as nat, d as nat).take(n as int),
{
    let ghost full = b64_bytes(a as nat, b as nat, c as nat, d as nat);
    out.push((a * 4 + b / 16) as u8);
    if n >= 2 {
        out.push(((b % 16) * 16 + c / 4) as u8);
    }
    if n >= 3 {
        out.push(((c % 4) * 64 + d) as u8);
    }
    assert(out@ =~= old(out)@ + full.take(n as int));
}

/// Decodes standard base64 text.
pub fn base64_decode(s: &str) -> (r: Option<Vec<u8>>)
    ensures
        match r {
            Some(b) => b64_decode(s@) == Some(b@),
            None => b64_decode(s@) is None,
        },
{
    let cs = str_to_chars(s);
    let n = cs.len();
    let mut out: Vec<u8> = Vec::new();
    let mut i: usize = 0;
    assert(cs@.skip(0) =~= cs@);
    while i < n
        invariant
            n == cs@.len(),
            cs@ == s@,
            i <= n,
            match b64_decode(cs@.skip(i as int)) {
                Some(rest) => b64_decode(cs@) == Some(out@ + rest),
                None => b64_decode(cs@) is None,
            },
        decreases n - i,
    {
        let ghost tail = cs@.skip(i as int);
        if n - i < 4 {
            return None;
        }
        let last = n - i == 4;
        assert(tail.take(4) =~= cs@.subrange(i as int, i + 4));
        assert(tail.skip(4) =~= cs@.skip(i + 4));
        let c0 = cs[i];
        let c1 = cs[i + 1];
        let c2 = cs[i + 2];
        let c3 = cs[i + 3];
        assert(tail.take(4)[0] == c0 && tail.take(4)[1] == c1 && tail.take(4)[2] == c2 && tail.take(4)[3] == c3);
        let ghost before = out@;
        match (digit(c0), digit(c1), digit(c2), digit(c3)) {
            (Some(a), Some(b), Some(c), Some(d)) => {
                push_group(&mut out, a, b, c, d, 3);
                assert(b64_bytes(a as nat, b as nat, c as nat, d as nat).take(3) =~= b64_bytes(a as nat, b as nat, c as nat, d as nat));
            },
            (Some(a), Some(b), Some(c), None) => {
                if last && c3 == '=' {
                    push_group(&mut out, a, b, c, 0, 2);
                } else {
                    return None;
                }
            },
            (Some(a), Some(b), None, None) => {
                if last && c2 == '=' && c3 == '=' {
                    push_group(&mut out, a, b, 0, 0, 1);
                } else {
                    return None;
                }
            },
            _ => {
                return None;
            },
        }
        proof {
            match b64_decode(cs@.skip(i + 4)) {
                Some(rest) => {
                    assert(before + (out@.skip(before.len() as int)) + rest =~= out@ + rest);
                    assert(out@ =~= before + out@.skip(before.len() as int));
                },
                None => {},
            }
        }
        i = i + 4;
    }
    assert(cs@.skip(n as int) =~= Seq::<char>::empty());
    assert(out@ + Seq::<u8>::empty() =~= out@);
    Some(out)
}

/// The credentials of an `Authorization` value: after `Basic `, the base64 encoding of UTF-8
/// text, split at its first `:` into the username and the password.
pub open spec fn basic_credentials(value: Option<Seq<char>>) -> Option<(Seq<char>, Seq<char>)> {
    match value {
        None => None,
        Some(v) => if v.len() < 6 || v.take(6) != "Basic "@ {
            None
        } else {
            match b64_decode(v.skip(6)) {
                None => None,
                Some(bytes) => if !valid_utf8(bytes) {
                    None
                } else {
                    let t = decode_utf8(bytes);
                    match first_index(t, ':') {
                        None => None,
                        Some(i) => Some((t.take(i), t.skip(i + 1))),
                    }
                },
            }
        },
    }
}

/// Username and password of the `Basic` authentication scheme.
#[derive(Debug, Clone, PartialEq, Eq)]
pub struct BasicAuth {
    pub username: String,
    pub password: String,
}

/// The answer to a request without valid `Basic` credentials: `401 Unauthorized`.
#[derive(Debug, Clone, Copy, PartialEq, Eq)]
pub struct Unauthorized;

impl FromHeaders for BasicAuth {
    type Rejection = Unauthorized;

    open spec fn made_from(headers: Headers, r: Result<BasicAuth, Unauthorized>) -> bool {
        match basic_credentials(headers.spec_get(AUTHORIZATION@)) {
            Some((u, p)) => r matches Ok(a) && a.username@ == u && a.password@ == p,
            None => r is Err,
        }
    }

    /// The credentials of the first `Authorization` value.
    fn from_headers(headers: &Headers) -> (r: Result<BasicAuth, Unauthorized>)
        ensures
            match basic_credentials(headers.spec_get(AUTHORIZATION@)) {
                Some((u, p)) => r matches Ok(a) && a.username@ == u && a.password@ == p,
                None => r is Err,
            },
    {
        let value = match headers.get(AUTHORIZATION) {
            Some(v) => v,
            None => {
                return Err(Unauthorized);
            },
        };
        let cs = str_to_chars(value);
        let prefix = str_to_chars("Basic ");
        proof {
            reveal_strlit("Basic ");
        }
        assert(prefix@.len() == 6);
        if cs.len() < 6 {
            return Err(Unauthorized);
        }
        let mut k: usize = 0;
        while k < 6
            invariant
                prefix@ == "Basic "@,
                prefix@.len() == 6,
                cs@ == value@,
                headers.spec_get(AUTHORIZATION@) == Some(value@),
                cs@.len() >= 6,
                k <= 6,
                forall|j: int| 0 <= j < k ==> cs@[j] == prefix@[j],
            decreases 6 - k,
        {
            if cs[k] != prefix[k] {
                assert(cs@.take(6)[k as int] != "Basic "@[k as int]);
                return Err(Unauthorized);
            }
            k = k + 1;
        }
        assert(cs@.take(6) =~= "Basic "@);
        let rest = subrange_to_string(cs.as_slice(), 6, cs.len());
        assert(rest@ =~= value@.skip(6));
        let bytes = match base64_decode(rest.as_str()) {
            Some(b) => b,
            None => {
                return Err(Unauthorized);
            },
        };
        let text = match string_from_utf8(bytes) {
            Some(t) => t,
            None => {
                return Err(Unauthorized);
            },
        };
        let tc = str_to_chars(text.as_str());
        let tlen = tc.len();
        match find_char(tc.as_slice(), ':') {
            None => Err(Unauthorized),
            Some(i) => {
                let username = subrange_to_string(tc.as_slice(), 0, i);
                let password = subrange_to_string(tc.as_slice(), i + 1, tlen);
                assert(username@ =~= tc@.take(i as int));
                assert(password@ =~= tc@.skip(i + 1));
                Ok(BasicAuth { username, password })
            },
        }
    }
}

} // verus!
