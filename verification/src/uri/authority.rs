//! The authority part of a URI: `[user_info@]host[:port]`.
use vstd::prelude::*;

use super::uri::{InvalidUri, InvalidUriView};
use super::path_query::lacks;
use crate::text::{
    decimal_chars, is_digit, lemma_decimal_chars, lemma_first_index_is, lemma_first_index_none,
    lemma_parse_u16_decimal, copy_chars, find_char, find_char_from, first_index, first_index_from, parse_u16,
    parse_u16_chars, str_to_chars, subrange_to_string,
};

verus! {

/// The `[user_info@]host[:port]` part of a URI.
#[derive(Debug, PartialEq, Eq, PartialOrd, Ord, Hash)]
pub struct Authority {
    user_info: Option<String>,
    host: String,
    port: Option<u16>,
}

/// The abstract value of an authority.
pub struct AuthorityView {
    pub user_info: Option<Seq<char>>,
    pub host: Seq<char>,
    pub port: Option<u16>,
}

pub open spec fn opt_string_view(s: Option<String>) -> Option<Seq<char>> {
    match s {
        Some(x) => Some(x@),
        None => None,
    }
}

impl View for Authority {
    type V = AuthorityView;

    closed spec fn view(&self) -> AuthorityView {
        AuthorityView {
            user_info: opt_string_view(self.user_info),
            host: self.host@,
            port: self.port,
        }
    }
}

/// Host and port of `host[:port]`, or of `[ipv6][:port]` where the one character after `]` is
/// skipped before the port.
pub open spec fn spec_parse_host_port(s: Seq<char>) -> Result<(Seq<char>, Option<u16>), InvalidUriView> {
    if s.len() > 0 && s[0] == '[' {
        match first_index(s, ']') {
            None => Err(InvalidUriView::InvalidHost),
            Some(i) => {
                let host = s.subrange(1, i);
                let port_str = s.subrange(i + 1, s.len() as int);
                if port_str.len() == 0 {
                    Ok((host, None))
                } else {
                    let ps = port_str.drop_first();
                    match parse_u16(ps) {
                        Some(p) => Ok((host, Some(p))),
                        None => Err(InvalidUriView::InvalidPort(ps)),
                    }
                }
            },
        }
    } else {
        match first_index(s, ':') {
            Some(i) => {
                let ps = s.subrange(i + 1, s.len() as int);
                match parse_u16(ps) {
                    Some(p) => Ok((s.subrange(0, i), Some(p))),
                    None => Err(InvalidUriView::InvalidPort(ps)),
                }
            },
            None => Ok((s, None)),
        }
    }
}

/// Whether parsing `host[:port]` stays within character boundaries: after a bracketed host the
/// one skipped character must be a single byte.
pub open spec fn host_port_parse_defined(s: Seq<char>) -> bool {
    s.len() > 0 && s[0] == '[' ==> match first_index(s, ']') {
        Some(i) => i + 1 < s.len() ==> (s[i + 1] as u32) < 0x80,
        None => true,
    }
}

/// Decides whether parsing `host[:port]` in `cs[from..]` stays within character boundaries.
fn exec_host_port_parse_defined(cs: &[char], from: usize) -> (r: bool)
    requires
        from <= cs@.len(),
    ensures
        r == host_port_parse_defined(cs@.subrange(from as int, cs@.len() as int)),
{
    let rest = copy_chars(cs, from, cs.len());
    if rest.len() > 0 && rest[0] == '[' {
        match find_char(rest.as_slice(), ']') {
            Some(i) => {
                if i + 1 < rest.len() {
                    (rest[i + 1] as u32) < 0x80
                } else {
                    true
                }
            },
            None => true,
        }
    } else {
        true
    }
}

/// Decides [`authority_parse_defined`].
pub fn exec_authority_parse_defined(cs: &[char]) -> (r: bool)
    ensures
        r == authority_parse_defined(cs@),
{
    match find_char(cs, '@') {
        None => {
            assert(cs@.subrange(0, cs@.len() as int) =~= cs@);
            exec_host_port_parse_defined(cs, 0)
        },
        Some(i) => {
            let n = cs.len();
            assert(i < n);
            exec_host_port_parse_defined(cs, i + 1)
        },
    }
}

/// The part of an authority after the first `@` (or all of it).
pub open spec fn authority_rest(s: Seq<char>) -> Seq<char> {
    match first_index(s, '@') {
        None => s,
        Some(i) => s.subrange(i + 1, s.len() as int),
    }
}

pub open spec fn authority_parse_defined(s: Seq<char>) -> bool {
    host_port_parse_defined(authority_rest(s))
}

/// The authority written by a text: user info before the first `@`, then host and port.
pub open spec fn spec_parse_authority(s: Seq<char>) -> Result<AuthorityView, InvalidUriView> {
    let user_info = match first_index(s, '@') {
        None => None,
        Some(i) => Some(s.subrange(0, i)),
    };
    match spec_parse_host_port(authority_rest(s)) {
        Ok((host, port)) => Ok(AuthorityView { user_info, host, port }),
        Err(e) => Err(e),
    }
}

fn parse_host_port(cs: &[char], from: usize) -> (r: Result<(String, Option<u16>), InvalidUri>)
    requires
        from <= cs@.len(),
        host_port_parse_defined(cs@.subrange(from as int, cs@.len() as int)),
    ensures
        match r {
            Ok((h, p)) => spec_parse_host_port(cs@.subrange(from as int, cs@.len() as int)) == Ok::<
                (Seq<char>, Option<u16>),
                InvalidUriView,
            >((h@, p)),
            Err(e) => spec_parse_host_port(cs@.subrange(from as int, cs@.len() as int)) == Err::<
                (Seq<char>, Option<u16>),
                InvalidUriView,
            >(e@),
        },
{
    let ghost s = cs@.subrange(from as int, cs@.len() as int);
    let rest = copy_chars(cs, from, cs.len());
    assert(rest@ == s);
    if rest.len() > 0 && rest[0] == '[' {
        match find_char(rest.as_slice(), ']') {
            None => Err(InvalidUri::InvalidHost),
            Some(i) => {
                proof {
                    crate::text::lemma_first_index_from(s, ']', 0);
                }
                let host = subrange_to_string(rest.as_slice(), 1, i);
                if i + 1 == rest.len() {
                    return Ok((host, None));
                }
                assert(s.subrange(i + 1, s.len() as int).drop_first() =~= rest@.subrange(
                    i + 2,
                    rest@.len() as int,
                ));
                match parse_u16_chars(rest.as_slice(), i + 2) {
                    Some(p) => Ok((host, Some(p))),
                    None => Err(InvalidUri::InvalidPort(subrange_to_string(rest.as_slice(), i + 2, rest.len()))),
                }
            },
        }
    } else {
        match find_char(rest.as_slice(), ':') {
            Some(i) => {
                proof {
                    crate::text::lemma_first_index_from(s, ':', 0);
                }
                match parse_u16_chars(rest.as_slice(), i + 1) {
                    Some(p) => Ok((subrange_to_string(rest.as_slice(), 0, i), Some(p))),
                    None => Err(InvalidUri::InvalidPort(subrange_to_string(rest.as_slice(), i + 1, rest.len()))),
                }
            },
            None => {
                assert(rest@.subrange(0, rest@.len() as int) =~= s);
                Ok((subrange_to_string(rest.as_slice(), 0, rest.len()), None))
            },
        }
    }
}

/// Parses an authority from characters.
pub fn parse_authority_chars(cs: &[char]) -> (r: Result<Authority, InvalidUri>)
    requires
        authority_parse_defined(cs@),
    ensures
        match r {
            Ok(a) => spec_parse_authority(cs@) == Ok::<AuthorityView, InvalidUriView>(a@),
            Err(e) => spec_parse_authority(cs@) == Err::<AuthorityView, InvalidUriView>(e@),
        },
{
    let (user_info, from) = match find_char(cs, '@') {
        None => {
            assert(cs@.subrange(0, cs@.len() as int) =~= cs@);
            (None, 0)
        },
        Some(i) => {
            proof {
                crate::text::lemma_first_index_from(cs@, '@', 0);
            }
            let n = cs.len();
            assert(i < n);
            (Some(subrange_to_string(cs, 0, i)), i + 1)
        },
    };
    match parse_host_port(cs, from) {
        Ok((host, port)) => Ok(Authority { user_info, host, port }),
        Err(e) => Err(e),
    }
}

/// The text of an authority, `[user_info "@"] host [":" port]`: its user info and `@` when it
/// has one, its host, and `:` and its port when it has one.
pub open spec fn authority_display(a: AuthorityView) -> Seq<char> {
    (match a.user_info {
        Some(u) => u + seq!['@'],
        None => Seq::<char>::empty(),
    }) + a.host + (match a.port {
        Some(p) => seq![':'] + crate::text::decimal_chars(p as nat),
        None => Seq::<char>::empty(),
    })
}

impl Authority {
    /// Appends the text of this authority.
    pub fn write_to(&self, out: &mut String)
        ensures
            final(out)@ == old(out)@ + authority_display(self@),
    {
        if let Some(u) = &self.user_info {
            crate::text::push_str(out, u.as_str());
            crate::text::string_push(out, '@');
        }
        crate::text::push_str(out, self.host.as_str());
        if let Some(p) = self.port {
            crate::text::string_push(out, ':');
            crate::text::push_decimal_chars(out, p as u128);
        }
        assert(out@ =~= old(out)@ + authority_display(self@));
    }

    /// The text of this authority.
    pub fn to_string(&self) -> (r: String)
        ensures
            r@ == authority_display(self@),
    {
        let mut out = String::new();
        self.write_to(&mut out);
        assert(out@ =~= authority_display(self@));
        out
    }

    /// Constructs an authority from its parts.
    pub fn new(user_info: Option<String>, host: String, port: Option<u16>) -> (r: Self)
        ensures
            r@ == (AuthorityView { user_info: opt_string_view(user_info), host: host@, port }),
    {
        Authority { user_info, host, port }
    }

    /// The user information, if any.
    pub fn user_info(&self) -> (r: Option<&str>)
        ensures
            match r {
                Some(s) => self@.user_info == Some(s@),
                None => self@.user_info is None,
            },
    {
        match &self.user_info {
            Some(s) => Some(s.as_str()),
            None => None,
        }
    }

    /// The host.
    pub fn host(&self) -> (r: &str)
        ensures
            r@ == self@.host,
    {
        self.host.as_str()
    }

    /// The port, if any.
    pub fn port(&self) -> (r: Option<u16>)
        ensures
            r == self@.port,
    {
        self.port
    }

    /// Parses `[user_info@]host[:port]`.
    pub fn from_str(s: &str) -> (r: Result<Authority, InvalidUri>)
        requires
            authority_parse_defined(s@),
        ensures
            match r {
                Ok(a) => spec_parse_authority(s@) == Ok::<AuthorityView, InvalidUriView>(a@),
                Err(e) => spec_parse_authority(s@) == Err::<AuthorityView, InvalidUriView>(e@),
            },
    {
        let cs = str_to_chars(s);
        parse_authority_chars(cs.as_slice())
    }

    /// A copy of this authority.
    pub fn duplicate(&self) -> (r: Authority)
        ensures
            r@ == self@,
    {
        let user_info = match &self.user_info {
            Some(s) => Some(s.clone()),
            None => None,
        };
        Authority { user_info, host: self.host.clone(), port: self.port }
    }
}

/// Whether an authority can be written and read back: its user info holds no `@`, `/`, `?` or
/// `#`; its host is not empty, does not start with `[`, and holds no `:`, `@`, `/`, `?` or `#`.
pub open spec fn authority_writable(a: AuthorityView) -> bool {
    &&& (a.user_info matches Some(u) ==> lacks(u, '@') && lacks(u, '/') && lacks(u, '?') && lacks(u, '#'))
    &&& a.host.len() > 0 && a.host[0] != '['
    &&& lacks(a.host, ':') && lacks(a.host, '@') && lacks(a.host, '/') && lacks(a.host, '?')
        && lacks(a.host, '#')
}

/// The host and port part of the text of an authority.
pub open spec fn host_port_display(a: AuthorityView) -> Seq<char> {
    a.host + (match a.port {
        Some(p) => seq![':'] + decimal_chars(p as nat),
        None => Seq::<char>::empty(),
    })
}

proof fn lemma_host_port_display(a: AuthorityView)
    requires
        authority_writable(a),
    ensures
        spec_parse_host_port(host_port_display(a)) == Ok::<(Seq<char>, Option<u16>), InvalidUriView>((a.host, a.port)),
        host_port_parse_defined(host_port_display(a)),
        lacks(host_port_display(a), '@') && lacks(host_port_display(a), '/') && lacks(host_port_display(a), '?')
            && lacks(host_port_display(a), '#'),
        host_port_display(a)[0] != '/',
{
    let hp = host_port_display(a);
    assert(hp[0] == a.host[0]);
    match a.port {
        Some(p) => {
            let ds = decimal_chars(p as nat);
            lemma_decimal_chars(p as nat);
            lemma_parse_u16_decimal(p);
            let n = a.host.len() as int;
            assert(hp[n] == ':');
            lemma_first_index_is(hp, ':', n);
            assert(hp.subrange(0, n) =~= a.host);
            assert(hp.subrange(n + 1, hp.len() as int) =~= ds);
            assert forall|i: int| 0 <= i < hp.len() implies hp[i] != '@' && hp[i] != '/' && hp[i] != '?'
                && hp[i] != '#' by {
                if i > n {
                    assert(hp[i] == ds[i - n - 1]);
                    assert(is_digit(ds[i - n - 1]));
                }
            }
        },
        None => {
            assert(hp =~= a.host);
            lemma_first_index_none(hp, ':');
        },
    }
}

/// Reading the text of an authority gives it back, for user info without `@`, `/`, `?` or `#` and
/// a non-empty host that does not start with `[` and holds none of `:`, `@`, `/`, `?`, `#`. The
/// text holds no `/`, `?` or `#`, and parsing it stays within character boundaries.
pub proof fn law_authority_round_trip(a: AuthorityView)
    requires
        authority_writable(a),
    ensures
        spec_parse_authority(authority_display(a)) == Ok::<AuthorityView, InvalidUriView>(a),
        authority_parse_defined(authority_display(a)),
        lacks(authority_display(a), '/') && lacks(authority_display(a), '?') && lacks(authority_display(a), '#'),
        authority_display(a).len() > 0 && authority_display(a)[0] != '/',
{
    let hp = host_port_display(a);
    lemma_host_port_display(a);
    let t = authority_display(a);
    match a.user_info {
        Some(u) => {
            let n = u.len() as int;
            assert(t =~= u + seq!['@'] + hp);
            assert(t[n] == '@');
            lemma_first_index_is(t, '@', n);
            assert(t.subrange(0, n) =~= u);
            assert(t.subrange(n + 1, t.len() as int) =~= hp);
            assert(authority_rest(t) == hp);
            assert forall|i: int| 0 <= i < t.len() implies t[i] != '/' && t[i] != '?' && t[i] != '#' by {
                if i > n {
                    assert(t[i] == hp[i - n - 1]);
                }
            }
        },
        None => {
            assert(t =~= hp);
            lemma_first_index_none(t, '@');
        },
    }
}

} // verus!
