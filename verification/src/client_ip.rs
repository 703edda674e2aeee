//! The address of the client of a request, as proxies report it in headers.
use vstd::prelude::*;
use crate::headers::{Headers, header_index, header_values};
use crate::text::{ascii_lower, str_to_chars, string_views};

verus! {

/// The header in which proxies list the addresses a request came through.
pub const X_FORWARDED_FOR: &'static str = "X-Forwarded-For";

/// The header in which a proxy gives the client address.
pub const X_REAL_IP: &'static str = "X-Real-IP";

/// Another header in which a proxy gives the client address.
pub const X_CLIENT_IP: &'static str = "X-Client-IP";

/// The standard header in which proxies describe a forwarded request.
pub const FORWARDED: &'static str = "Forwarded";

/// An IP address: four octets, or eight 16-bit segments.
#[derive(Debug, Clone, Copy, PartialEq, Eq)]
pub enum IpAddress {
    V4([u8; 4]),
    V6([u16; 8]),
}

/// The address `str::parse::<IpAddr>` reads from a text, if it is one.
pub uninterp spec fn ip_addr_parse(s: Seq<char>) -> Option<IpAddress>;

/// `str::parse::<IpAddr>`: the IPv4 or IPv6 address a text spells, in the forms the standard
/// library accepts, as octets or segments; the result is named, not stated.
#[verifier::external_body]
fn parse_ip_addr(s: &str) -> (r: Option<IpAddress>)
    ensures
        r == ip_addr_parse(s@),
{
    match s.parse::<core::net::IpAddr>() {
        Ok(core::net::IpAddr::V4(a)) => Some(IpAddress::V4(a.octets())),
        Ok(core::net::IpAddr::V6(a)) => Some(IpAddress::V6(a.segments())),
        Err(_) => None,
    }
}

/// The address of a client: one address, or the list a proxy header gave.
#[derive(Debug)]
pub enum ClientIp {
    Ip(IpAddress),
    List(Vec<IpAddress>),
}

/// The abstract value of a [`ClientIp`].
pub enum ClientIpView {
    Ip(IpAddress),
    List(Seq<IpAddress>),
}

impl View for ClientIp {
    type V = ClientIpView;

    open spec fn view(&self) -> ClientIpView {
        match self {
            ClientIp::Ip(a) => ClientIpView::Ip(*a),
            ClientIp::List(v) => ClientIpView::List(v@),
        }
    }
}

/// The addresses that the texts spell, skipping those that are not addresses.
pub open spec fn parsed_ips(vals: Seq<Seq<char>>) -> Seq<IpAddress>
    decreases vals.len(),
{
    if vals.len() == 0 {
        Seq::empty()
    } else {
        let prev = parsed_ips(vals.drop_last());
        match ip_addr_parse(vals.last()) {
            Some(a) => prev.push(a),
            None => prev,
        }
    }
}

/// Whether `s` agrees with `p`, ignoring ASCII case, on the characters they both have.
pub open spec fn starts_ci(s: Seq<char>, p: Seq<char>) -> bool {
    forall|i: int| 0 <= i < s.len() && i < p.len() ==> ascii_lower(s[i]) == ascii_lower(p[i])
}

/// The text `for=`.
pub open spec fn for_prefix() -> Seq<char> {
    seq!['f', 'o', 'r', '=']
}

/// A text without the quotes around it, if it has them.
pub open spec fn unquote(raw: Seq<char>) -> Seq<char> {
    if raw.len() >= 2 && raw[0] == '"' && raw.last() == '"' {
        raw.subrange(1, raw.len() - 1)
    } else {
        raw
    }
}

/// A `Forwarded` value that the reading cannot take apart: it agrees with `for=` but is shorter,
/// or it is `for="`.
pub open spec fn forwarded_malformed(v: Seq<char>) -> bool {
    starts_ci(v, for_prefix()) && (v.len() < 4 || v.skip(4) == seq!['"'])
}

/// The address of a `Forwarded` value of the form `for=address` (the address maybe quoted).
pub open spec fn forwarded_ip(v: Seq<char>) -> Option<IpAddress> {
    if starts_ci(v, for_prefix()) {
        ip_addr_parse(unquote(v.skip(4)))
    } else {
        None
    }
}

/// The addresses of `Forwarded` values, skipping values without one.
pub open spec fn forwarded_ips(vals: Seq<Seq<char>>) -> Seq<IpAddress>
    decreases vals.len(),
{
    if vals.len() == 0 {
        Seq::empty()
    } else {
        let prev = forwarded_ips(vals.drop_last());
        match forwarded_ip(vals.last()) {
            Some(a) => prev.push(a),
            None => prev,
        }
    }
}

/// The first value of a header, if any.
pub open spec fn first_value(h: Seq<(Seq<char>, Seq<char>)>, name: Seq<char>) -> Option<Seq<char>> {
    match header_index(h, name, 0) {
        Some(i) => Some(h[i].1),
        None => None,
    }
}

/// The address of a single-address header, if it holds one.
pub open spec fn single_ip(h: Seq<(Seq<char>, Seq<char>)>, name: Seq<char>) -> Option<IpAddress> {
    match first_value(h, name) {
        Some(v) => ip_addr_parse(v),
        None => None,
    }
}

/// The addresses of `X-Forwarded-For`, when it is present.
pub open spec fn x_forwarded_ips(h: Seq<(Seq<char>, Seq<char>)>) -> Seq<IpAddress> {
    parsed_ips(header_values(h, X_FORWARDED_FOR@))
}

/// Whether the reading gets as far as the `Forwarded` header: no other header gave an address.
pub open spec fn reaches_forwarded(h: Seq<(Seq<char>, Seq<char>)>) -> bool {
    &&& !(header_index(h, X_FORWARDED_FOR@, 0) is Some && x_forwarded_ips(h).len() > 0)
    &&& single_ip(h, X_REAL_IP@) is None
    &&& single_ip(h, X_CLIENT_IP@) is None
}

/// Whether the reading can take the headers apart: when it gets to `Forwarded`, no value of it
/// is malformed.
pub open spec fn client_ip_readable(h: Seq<(Seq<char>, Seq<char>)>) -> bool {
    reaches_forwarded(h) ==> forall|i: int|
        0 <= i < header_values(h, FORWARDED@).len() ==> !forwarded_malformed(
            #[trigger] header_values(h, FORWARDED@)[i],
        )
}

/// The client address the headers give: the addresses of `X-Forwarded-For` if any is valid, else
/// the address of `X-Real-IP`, else of `X-Client-IP`, else the addresses of `Forwarded`.
pub open spec fn client_ip_of(h: Seq<(Seq<char>, Seq<char>)>) -> Option<ClientIpView> {
    if header_index(h, X_FORWARDED_FOR@, 0) is Some && x_forwarded_ips(h).len() > 0 {
        Some(ClientIpView::List(x_forwarded_ips(h)))
    } else if single_ip(h, X_REAL_IP@) is Some {
        Some(ClientIpView::Ip(single_ip(h, X_REAL_IP@).unwrap()))
    } else if single_ip(h, X_CLIENT_IP@) is Some {
        Some(ClientIpView::Ip(single_ip(h, X_CLIENT_IP@).unwrap()))
    } else {
        let fwd = forwarded_ips(header_values(h, FORWARDED@));
        if header_index(h, FORWARDED@, 0) is Some && fwd.len() > 0 {
            Some(ClientIpView::List(fwd))
        } else {
            None
        }
    }
}

fn parse_all(vals: &Vec<String>) -> (r: Vec<IpAddress>)
    ensures
        r@ == parsed_ips(string_views(vals@)),
{
    let ghost vs = string_views(vals@);
    let mut out: Vec<IpAddress> = Vec::new();
    let mut i: usize = 0;
    assert(vs.take(0) =~= Seq::<Seq<char>>::empty());
    while i < vals.len()
        invariant
            vs == string_views(vals@),
            i <= vals@.len(),
            out@ == parsed_ips(vs.take(i as int)),
        decreases vals@.len() - i,
    {
        assert(vs.take(i + 1).drop_last() =~= vs.take(i as int));
        assert(vs[i as int] == vals@[i as int]@);
        match parse_ip_addr(vals[i].as_str()) {
            Some(a) => {
                out.push(a);
            },
            None => {},
        }
        i = i + 1;
    }
    assert(vs.take(vals@.len() as int) =~= vs);
    out
}

fn starts_with_case_insensitive(s: &[char], prefix: &[char]) -> (r: bool)
    ensures
        r == starts_ci(s@, prefix@),
{
    let mut i: usize = 0;
    while i < s.len() && i < prefix.len()
        invariant
            i <= s@.len(),
            i <= prefix@.len(),
            forall|j: int| 0 <= j < i ==> ascii_lower(s@[j]) == ascii_lower(prefix@[j]),
        decreases s@.len() - i,
    {
        if crate::text::exec_ascii_lower(s[i]) != crate::text::exec_ascii_lower(prefix[i]) {
            return false;
        }
        i = i + 1;
    }
    true
}

fn forwarded_value_ip(v: &str) -> (r: Option<IpAddress>)
    requires
        !forwarded_malformed(v@),
    ensures
        r == forwarded_ip(v@),
{
    let cs = str_to_chars(v);
    let prefix = ['f', 'o', 'r', '='];
    assert(prefix@ =~= for_prefix());
    if !starts_with_case_insensitive(cs.as_slice(), &prefix) {
        return None;
    }
    let n = cs.len();
    let quoted = n >= 6 && cs[4] == '"' && cs[n - 1] == '"';
    let text = if quoted {
        crate::text::subrange_to_string(cs.as_slice(), 5, n - 1)
    } else {
        crate::text::subrange_to_string(cs.as_slice(), 4, n)
    };
    proof {
        let raw = v@.skip(4);
        assert(raw =~= cs@.subrange(4, n as int));
        if quoted {
            assert(raw.subrange(1, raw.len() - 1) =~= cs@.subrange(5, n - 1));
        } else {
            if raw.len() >= 2 && raw[0] == '"' && raw.last() == '"' {
                assert(raw[0] == cs@[4]);
                assert(raw.last() == cs@[n - 1]);
            }
            if raw.len() == 1 && raw[0] == '"' {
                assert(raw =~= seq!['"']);
            }
        }
    }
    parse_ip_addr(text.as_str())
}

fn forwarded_all(vals: &Vec<String>) -> (r: Vec<IpAddress>)
    requires
        forall|i: int| 0 <= i < vals@.len() ==> !forwarded_malformed(#[trigger] string_views(vals@)[i]),
    ensures
        r@ == forwarded_ips(string_views(vals@)),
{
    let ghost vs = string_views(vals@);
    let mut out: Vec<IpAddress> = Vec::new();
    let mut i: usize = 0;
    assert(vs.take(0) =~= Seq::<Seq<char>>::empty());
    while i < vals.len()
        invariant
            vs == string_views(vals@),
            forall|j: int| 0 <= j < vals@.len() ==> !forwarded_malformed(#[trigger] vs[j]),
            i <= vals@.len(),
            out@ == forwarded_ips(vs.take(i as int)),
        decreases vals@.len() - i,
    {
        assert(vs.take(i + 1).drop_last() =~= vs.take(i as int));
        assert(vs[i as int] == vals@[i as int]@);
        match forwarded_value_ip(vals[i].as_str()) {
            Some(a) => {
                out.push(a);
            },
            None => {},
        }
        i = i + 1;
    }
    assert(vs.take(vals@.len() as int) =~= vs);
    out
}

fn single_header_ip(headers: &Headers, name: &str) -> (r: Option<IpAddress>)
    ensures
        r == single_ip(headers@, name@),
{
    match headers.get(name) {
        Some(v) => parse_ip_addr(v),
        None => None,
    }
}

/// Finds the client address in the headers of a request: the valid addresses of
/// `X-Forwarded-For` if there are any, else the address of `X-Real-IP`, else of `X-Client-IP`,
/// else the addresses given as `for=` in `Forwarded`.
pub fn get_ip_from_headers(headers: &Headers) -> (r: Option<ClientIp>)
    requires
        client_ip_readable(headers@),
    ensures
        match r {
            Some(c) => client_ip_of(headers@) == Some(c@),
            None => client_ip_of(headers@) is None,
        },
{
    if headers.contains_key(X_FORWARDED_FOR) {
        let vals = headers.get_all(X_FORWARDED_FOR);
        let addrs = parse_all(&vals);
        if addrs.len() > 0 {
            return Some(ClientIp::List(addrs));
        }
    }
    let vals = headers.get_all(X_FORWARDED_FOR);
    let addrs = parse_all(&vals);
    assert(addrs@ == x_forwarded_ips(headers@));
    match single_header_ip(headers, X_REAL_IP) {
        Some(a) => {
            return Some(ClientIp::Ip(a));
        },
        None => {},
    }
    match single_header_ip(headers, X_CLIENT_IP) {
        Some(a) => {
            return Some(ClientIp::Ip(a));
        },
        None => {},
    }
    if headers.contains_key(FORWARDED) {
        let fwd_vals = headers.get_all(FORWARDED);
        let fwd = forwarded_all(&fwd_vals);
        if fwd.len() > 0 {
            return Some(ClientIp::List(fwd));
        }
    }
    None
}

/// A `Forwarded` value could not be taken apart: it agrees with `for=` but is shorter, or it is
/// `for="`.
#[derive(Debug, Clone, Copy, PartialEq, Eq, Structural)]
pub struct MalformedForwarded;

/// Like [`get_ip_from_headers`], but first checks that the headers can be taken apart, and
/// refuses them when the reading would get to a malformed `Forwarded` value.
pub fn try_get_ip_from_headers(headers: &Headers) -> (r: Result<Option<ClientIp>, MalformedForwarded>)
    ensures
        match r {
            Ok(Some(c)) => client_ip_readable(headers@) && client_ip_of(headers@) == Some(c@),
            Ok(None) => client_ip_readable(headers@) && client_ip_of(headers@) is None,
            Err(_) => !client_ip_readable(headers@),
        },
{
    let xff_present = headers.contains_key(X_FORWARDED_FOR);
    let vals = headers.get_all(X_FORWARDED_FOR);
    let addrs = parse_all(&vals);
    let reaches = !(xff_present && addrs.len() > 0) && single_header_ip(headers, X_REAL_IP).is_none()
        && single_header_ip(headers, X_CLIENT_IP).is_none();
    if reaches {
        let fwd_vals = headers.get_all(FORWARDED);
        assert(reaches_forwarded(headers@));
        let mut i: usize = 0;
        while i < fwd_vals.len()
            invariant
                reaches_forwarded(headers@),
                i <= fwd_vals@.len(),
                string_views(fwd_vals@) == header_values(headers@, FORWARDED@),
                forall|j: int| 0 <= j < i ==> !forwarded_malformed(#[trigger] header_values(headers@, FORWARDED@)[j]),
            decreases fwd_vals@.len() - i,
        {
            let cs = str_to_chars(fwd_vals[i].as_str());
            let prefix = ['f', 'o', 'r', '='];
            assert(prefix@ =~= for_prefix());
            assert(string_views(fwd_vals@)[i as int] == fwd_vals@[i as int]@);
            if starts_with_case_insensitive(cs.as_slice(), &prefix) {
                if cs.len() < 4 || (cs.len() == 5 && cs[4] == '"') {
                    proof {
                        if cs@.len() == 5 {
                            assert(cs@.skip(4) =~= seq!['"']);
                        }
                        assert(forwarded_malformed(header_values(headers@, FORWARDED@)[i as int]));
                    }
                    return Err(MalformedForwarded);
                }
                proof {
                    let v = cs@;
                    if v.skip(4) == seq!['"'] {
                        assert(v.skip(4).len() == 1);
                        assert(v.skip(4)[0] == v[4]);
                    }
                }
            }
            i = i + 1;
        }
    }
    Ok(get_ip_from_headers(headers))
}

impl ClientIp {
    /// The client address: the first one of a list.
    pub fn ip(&self) -> (r: IpAddress)
        requires
            self@ matches ClientIpView::List(v) ==> v.len() > 0,
        ensures
            r == match self@ {
                ClientIpView::Ip(a) => a,
                ClientIpView::List(v) => v[0],
            },
    {
        match self {
            ClientIp::Ip(a) => *a,
            ClientIp::List(v) => v[0],
        }
    }

    /// All the addresses of the client.
    pub fn addrs(&self) -> (r: Vec<IpAddress>)
        ensures
            r@ == match self@ {
                ClientIpView::Ip(a) => seq![a],
                ClientIpView::List(v) => v,
            },
    {
        match self {
            ClientIp::Ip(a) => {
                let mut out: Vec<IpAddress> = Vec::new();
                out.push(*a);
                assert(out@ =~= seq![*a]);
                out
            },
            ClientIp::List(v) => v.clone(),
        }
    }
}

proof fn lemma_parsed_ips_empty(vals: Seq<Seq<char>>)
    requires
        vals.len() == 0,
    ensures
        parsed_ips(vals).len() == 0,
{
}

/// `X-Forwarded-For` comes first: whenever it holds at least one valid address, the client
/// address is the list of its valid addresses, in order, whatever the other headers say; two
/// header lists with the same `X-Forwarded-For` values give the same answer.
pub proof fn law_forwarded_for_wins(h: Seq<(Seq<char>, Seq<char>)>, other: Seq<(Seq<char>, Seq<char>)>)
    requires
        parsed_ips(header_values(h, X_FORWARDED_FOR@)).len() > 0,
    ensures
        client_ip_of(h) == Some(ClientIpView::List(parsed_ips(header_values(h, X_FORWARDED_FOR@)))),
        header_values(other, X_FORWARDED_FOR@) == header_values(h, X_FORWARDED_FOR@) ==> client_ip_of(other)
            == client_ip_of(h),
{
    if header_values(h, X_FORWARDED_FOR@).len() == 0 {
        lemma_parsed_ips_empty(header_values(h, X_FORWARDED_FOR@));
    }
    crate::headers::lemma_values_mean_present(h, X_FORWARDED_FOR@);
    if header_values(other, X_FORWARDED_FOR@) == header_values(h, X_FORWARDED_FOR@) {
        crate::headers::lemma_values_mean_present(other, X_FORWARDED_FOR@);
    }
}

} // verus!
