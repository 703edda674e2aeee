//! Percent-encoding and decoding of URI components.
use vstd::prelude::*;
use vstd::utf8::*;

use crate::text::{string_from_utf8, string_push, str_to_chars};

verus! {

/// Alphabet used for percent encoding.
pub trait Alphabet {
    /// The set of bytes this alphabet lets through unencoded.
    spec fn spec_contains(&self, value: u8) -> bool;

    /// Whether if this alphabet contains the given value.
    fn contains(&self, value: u8) -> (r: bool)
        ensures
            r == self.spec_contains(value),
    ;
}

/// Unreserved URI characters: `A-Z a-z 0-9 - _ . ~`.
pub open spec fn is_unreserved(b: u8) -> bool {
    (65u8 <= b <= 90u8) || (97u8 <= b <= 122u8) || (48u8 <= b <= 57u8) || b == 45u8 || b == 95u8
        || b == 46u8 || b == 126u8
}

/// Percent encode alphabet.
pub struct UrlComponentEncode;

impl Alphabet for UrlComponentEncode {
    open spec fn spec_contains(&self, value: u8) -> bool {
        is_unreserved(value)
    }

    fn contains(&self, value: u8) -> (r: bool) {
        (65u8 <= value && value <= 90u8) || (97u8 <= value && value <= 122u8) || (48u8 <= value
            && value <= 57u8) || value == 45u8 || value == 95u8 || value == 46u8 || value == 126u8
    }
}

/// The characters allowed in a cookie value.
pub struct CookieCharset;

/// Bytes written unencoded in a cookie: unreserved characters and `( ) < > @ : / [ ] ? = { }`.
/// The `Set-Cookie` rules forbid controls, whitespace, `"`, `,`, `;` and `\\` in a cookie value,
/// so those are always percent-encoded.
pub open spec fn is_cookie_byte(b: u8) -> bool {
    is_unreserved(b) || b == 40u8 || b == 41u8 || b == 60u8 || b == 62u8 || b == 64u8 || b == 58u8
        || b == 47u8 || b == 91u8 || b == 93u8 || b == 63u8 || b == 61u8 || b == 123u8 || b == 125u8
}

impl Alphabet for CookieCharset {
    open spec fn spec_contains(&self, value: u8) -> bool {
        is_cookie_byte(value)
    }

    fn contains(&self, value: u8) -> (r: bool) {
        let u = UrlComponentEncode;
        u.contains(value) || value == 40u8 || value == 41u8 || value == 60u8 || value == 62u8
            || value == 64u8 || value == 58u8 || value == 47u8 || value == 91u8 || value == 93u8
            || value == 63u8 || value == 61u8 || value == 123u8 || value == 125u8
    }
}

/// The upper-case hexadecimal digit for `n < 16`.
pub open spec fn spec_hex_upper(n: u8) -> char {
    if n < 10 {
        ((48 + n) as u8) as char
    } else {
        ((55 + n) as u8) as char
    }
}

fn hex_upper(n: u8) -> (c: char)
    requires
        n < 16,
    ensures
        c == spec_hex_upper(n),
{
    if n < 10 {
        (48 + n) as char
    } else {
        (55 + n) as char
    }
}

/// The encoding of one byte: itself if the alphabet holds it, else `%XY` in upper-case hex.
pub open spec fn encode_byte<A: Alphabet>(alphabet: &A, b: u8) -> Seq<char> {
    if alphabet.spec_contains(b) {
        seq![b as char]
    } else {
        seq!['%', spec_hex_upper(b / 16), spec_hex_upper(b % 16)]
    }
}

/// The encoding of a sequence of bytes, byte by byte.
pub open spec fn encode_bytes<A: Alphabet>(alphabet: &A, bytes: Seq<u8>) -> Seq<char>
    decreases bytes.len(),
{
    if bytes.len() == 0 {
        Seq::empty()
    } else {
        encode_bytes(alphabet, bytes.drop_last()) + encode_byte(alphabet, bytes.last())
    }
}

/// Encodes a URI component by using the `UrlComponentEncode` alphabet for percent-encoding.
pub fn encode_uri_component(input: &str) -> (r: String)
    ensures
        r@ == encode_bytes(&UrlComponentEncode, encode_utf8(input@)),
{
    encode_uri_component_with(input, UrlComponentEncode)
}

/// Encodes a URI component using a custom alphabet: each UTF-8 byte of the input that is not in
/// the alphabet becomes `%XY` with `XY` its upper-case hex value.
pub fn encode_uri_component_with<A: Alphabet>(input: &str, alphabet: A) -> (r: String)
    ensures
        r@ == encode_bytes(&alphabet, encode_utf8(input@)),
{
    let bytes = input.as_bytes();
    let mut encoded = String::new();
    let mut i: usize = 0;
    while i < bytes.len()
        invariant
            i <= bytes@.len(),
            bytes@ == encode_utf8(input@),
            encoded@ == encode_bytes(&alphabet, bytes@.take(i as int)),
        decreases bytes@.len() - i,
    {
        let byte = bytes[i];
        let ghost prev = encoded@;
        if alphabet.contains(byte) {
            string_push(&mut encoded, byte as char);
        } else {
            string_push(&mut encoded, '%');
            string_push(&mut encoded, hex_upper(byte / 16));
            string_push(&mut encoded, hex_upper(byte % 16));
        }
        assert(bytes@.take(i + 1).drop_last() =~= bytes@.take(i as int));
        i = i + 1;
        assert(encoded@ =~= prev + encode_byte(&alphabet, byte));
    }
    assert(bytes@.take(bytes@.len() as int) =~= bytes@);
    encoded
}

/// An error type used when URI component decoding fails.
#[derive(Debug)]
pub struct InvalidUriComponent;

/// The value of a hexadecimal digit (either case).
pub open spec fn hex_value(c: char) -> Option<u8> {
    if '0' <= c <= '9' {
        Some((c as u32 - 48) as u8)
    } else if 'a' <= c <= 'f' {
        Some((c as u32 - 87) as u8)
    } else if 'A' <= c <= 'F' {
        Some((c as u32 - 55) as u8)
    } else {
        None
    }
}

/// The byte that the two characters after `%` denote, read as a base-16 `u8` number: either two
/// hex digits, or a `+` sign followed by one hex digit.
pub open spec fn hex_pair(c1: char, c2: char) -> Option<u8> {
    if c1 == '+' {
        hex_value(c2)
    } else {
        match (hex_value(c1), hex_value(c2)) {
            (Some(h), Some(l)) => Some((h * 16 + l) as u8),
            _ => None,
        }
    }
}

/// The bytes a percent-encoded text stands for: `%XY` is the byte `XY`, `+` is a space, and any
/// other character contributes its own UTF-8 bytes. `None` when a `%` is not followed by a valid
/// pair.
pub open spec fn percent_decode(cs: Seq<char>) -> Option<Seq<u8>>
    decreases cs.len(),
{
    if cs.len() == 0 {
        Some(Seq::empty())
    } else if cs[0] == '%' {
        if cs.len() < 3 {
            None
        } else {
            match hex_pair(cs[1], cs[2]) {
                Some(b) => match percent_decode(cs.subrange(3, cs.len() as int)) {
                    Some(rest) => Some(seq![b] + rest),
                    None => None,
                },
                None => None,
            }
        }
    } else if cs[0] == '+' {
        match percent_decode(cs.subrange(1, cs.len() as int)) {
            Some(rest) => Some(seq![32u8] + rest),
            None => None,
        }
    } else {
        match percent_decode(cs.subrange(1, cs.len() as int)) {
            Some(rest) => Some(encode_scalar(cs[0] as u32) + rest),
            None => None,
        }
    }
}

/// The result of decoding a URI component.
pub open spec fn spec_decode_uri_component(cs: Seq<char>) -> Option<Seq<char>> {
    match percent_decode(cs) {
        Some(bytes) => if valid_utf8(bytes) {
            Some(decode_utf8(bytes))
        } else {
            None
        },
        None => None,
    }
}

fn exec_hex_value(c: char) -> (r: Option<u8>)
    ensures
        r == hex_value(c),
{
    if '0' <= c && c <= '9' {
        Some((c as u32 - 48) as u8)
    } else if 'a' <= c && c <= 'f' {
        Some((c as u32 - 87) as u8)
    } else if 'A' <= c && c <= 'F' {
        Some((c as u32 - 55) as u8)
    } else {
        None
    }
}

fn exec_hex_pair(c1: char, c2: char) -> (r: Option<u8>)
    ensures
        r == hex_pair(c1, c2),
{
    if c1 == '+' {
        exec_hex_value(c2)
    } else {
        match (exec_hex_value(c1), exec_hex_value(c2)) {
            (Some(h), Some(l)) => Some(h * 16 + l),
            _ => None,
        }
    }
}

/// Appends the UTF-8 bytes of a character.
fn push_scalar(out: &mut Vec<u8>, c: char)
    ensures
        final(out)@ == old(out)@ + encode_scalar(c as u32),
{
    let v = c as u32;
    proof {
        char_is_scalar(c);
    }
    if v <= 0x7F {
        out.push((v & 0x7F) as u8);
    } else if v <= 0x7FF {
        out.push(0xC0 | ((v >> 6) & 0x1F) as u8);
        out.push(0x80 | (v & 0x3F) as u8);
    } else if v <= 0xFFFF {
        out.push(0xE0 | ((v >> 12) & 0x0F) as u8);
        out.push(0x80 | ((v >> 6) & 0x3F) as u8);
        out.push(0x80 | (v & 0x3F) as u8);
    } else {
        out.push(0xF0 | ((v >> 18) & 0x7) as u8);
        out.push(0x80 | ((v >> 12) & 0x3F) as u8);
        out.push(0x80 | ((v >> 6) & 0x3F) as u8);
        out.push(0x80 | (v & 0x3F) as u8);
    }
    assert(final(out)@ =~= old(out)@ + encode_scalar(c as u32));
}

/// Decodes a URI component that may contain percent-encoded characters back into a plain string.
pub fn decode_uri_component(input: &str) -> (r: Result<String, InvalidUriComponent>)
    ensures
        match r {
            Ok(s) => spec_decode_uri_component(input@) == Some(s@),
            Err(_) => spec_decode_uri_component(input@) is None,
        },
{
    let cs = str_to_chars(input);
    let mut decoded: Vec<u8> = Vec::new();
    let mut i: usize = 0;
    assert(cs@.subrange(0, cs@.len() as int) =~= cs@);
    assert(forall|x: Seq<u8>| #![auto] decoded@ + x =~= x);
    while i < cs.len()
        invariant
            i <= cs@.len(),
            cs@ == input@,
            match percent_decode(cs@.subrange(i as int, cs@.len() as int)) {
                Some(rest) => percent_decode(cs@) == Some(decoded@ + rest),
                None => percent_decode(cs@) is None,
            },
        decreases cs@.len() - i,
    {
        let ghost tail = cs@.subrange(i as int, cs@.len() as int);
        let c = cs[i];
        if c == '%' {
            if cs.len() - i < 3 {
                assert(tail.len() < 3);
                return Err(InvalidUriComponent);
            }
            match exec_hex_pair(cs[i + 1], cs[i + 2]) {
                Some(byte) => {
                    assert(tail.subrange(3, tail.len() as int) =~= cs@.subrange(i + 3, cs@.len() as int));
                    decoded.push(byte);
                    i = i + 3;
                    assert(decoded@ =~= decoded@.drop_last() + seq![byte]);
                },
                None => {
                    return Err(InvalidUriComponent);
                },
            }
        } else {
            assert(tail.subrange(1, tail.len() as int) =~= cs@.subrange(i + 1, cs@.len() as int));
            if c == '+' {
                decoded.push(32u8);
            } else {
                let ghost before = decoded@;
                push_scalar(&mut decoded, c);
                assert(forall|r: Seq<u8>| #![auto] decoded@ + r =~= before + (encode_scalar(c as u32) + r));
            }
            i = i + 1;
        }
        assert(forall|a: Seq<u8>, b: Seq<u8>, x: u8| #![auto] (a.push(x)) + b =~= a + (seq![x] + b));
    }
    assert(cs@.subrange(i as int, cs@.len() as int) =~= Seq::<char>::empty());
    assert(decoded@ + Seq::<u8>::empty() =~= decoded@);
    match string_from_utf8(decoded) {
        Some(s) => Ok(s),
        None => Err(InvalidUriComponent),
    }
}

proof fn lemma_hex_upper_value(n: u8)
    requires
        n < 16,
    ensures
        hex_value(spec_hex_upper(n)) == Some(n),
        spec_hex_upper(n) != '+',
{
    assert(((48 + n) as u8) as char as u32 == (48 + n) as u32);
    assert(((55 + n) as u8) as char as u32 == (55 + n) as u32);
}

proof fn lemma_encode_bytes_concat<A: Alphabet>(alphabet: &A, a: Seq<u8>, b: Seq<u8>)
    ensures
        encode_bytes(alphabet, a + b) == encode_bytes(alphabet, a) + encode_bytes(alphabet, b),
    decreases b.len(),
{
    if b.len() == 0 {
        assert(a + b =~= a);
        assert(encode_bytes(alphabet, a) + Seq::<char>::empty() =~= encode_bytes(alphabet, a));
    } else {
        lemma_encode_bytes_concat(alphabet, a, b.drop_last());
        assert((a + b).drop_last() =~= a + b.drop_last());
        assert((a + b).last() == b.last());
        assert(encode_bytes(alphabet, a) + encode_bytes(alphabet, b.drop_last()) + encode_byte(
            alphabet,
            b.last(),
        ) =~= encode_bytes(alphabet, a) + (encode_bytes(alphabet, b.drop_last()) + encode_byte(
            alphabet,
            b.last(),
        )));
    }
}

proof fn lemma_decode_encoded_byte<A: Alphabet>(alphabet: &A, b: u8, rest: Seq<char>)
    requires
        forall|x: u8| #[trigger] alphabet.spec_contains(x) ==> x < 128u8 && x != 37u8 && x != 43u8,
    ensures
        percent_decode(encode_byte(alphabet, b) + rest) == match percent_decode(rest) {
            Some(r) => Some(seq![b] + r),
            None => None::<Seq<u8>>,
        },
{
    let cs = encode_byte(alphabet, b) + rest;
    if alphabet.spec_contains(b) {
        assert((b as char) as u32 == b as u32);
        assert(cs[0] == b as char);
        let v = b as u32;
        assert(v < 128 ==> (v & 0x7F) as u8 == b) by (bit_vector)
            requires
                v == b as u32;
        assert(encode_scalar(v) =~= seq![b]);
        assert(cs.subrange(1, cs.len() as int) =~= rest);
    } else {
        lemma_hex_upper_value(b / 16);
        lemma_hex_upper_value(b % 16);
        assert(cs[0] == '%');
        assert(cs[1] == spec_hex_upper(b / 16));
        assert(cs[2] == spec_hex_upper(b % 16));
        assert(cs.subrange(3, cs.len() as int) =~= rest);
        assert(((b / 16) * 16 + b % 16) as u8 == b);
    }
}

proof fn lemma_percent_decode_encoded<A: Alphabet>(alphabet: &A, bytes: Seq<u8>)
    requires
        forall|x: u8| #[trigger] alphabet.spec_contains(x) ==> x < 128u8 && x != 37u8 && x != 43u8,
    ensures
        percent_decode(encode_bytes(alphabet, bytes)) == Some(bytes),
    decreases bytes.len(),
{
    if bytes.len() == 0 {
        assert(encode_bytes(alphabet, bytes) =~= Seq::<char>::empty());
    } else {
        let first = bytes[0];
        let tail = bytes.drop_first();
        assert(bytes =~= seq![first] + tail);
        lemma_encode_bytes_concat(alphabet, seq![first], tail);
        assert(seq![first].drop_last() =~= Seq::<u8>::empty());
        assert(encode_bytes(alphabet, Seq::<u8>::empty()) =~= Seq::<char>::empty());
        assert(encode_bytes(alphabet, seq![first]) =~= encode_byte(alphabet, first));
        lemma_percent_decode_encoded(alphabet, tail);
        lemma_decode_encoded_byte(alphabet, first, encode_bytes(alphabet, tail));
    }
}

/// Decoding undoes encoding: for every string, and every alphabet that lets through unencoded
/// only ASCII bytes other than `%` and `+`, decoding the percent-encoded text gives the string
/// back.
pub proof fn law_decode_undoes_encode<A: Alphabet>(alphabet: &A, s: Seq<char>)
    requires
        forall|x: u8| #[trigger] alphabet.spec_contains(x) ==> x < 128u8 && x != 37u8 && x != 43u8,
    ensures
        spec_decode_uri_component(encode_bytes(alphabet, encode_utf8(s))) == Some(s),
{
    lemma_percent_decode_encoded(alphabet, encode_utf8(s));
    encode_utf8_valid_utf8(s);
    encode_utf8_decode_utf8(s);
}

/// The component alphabet and the cookie alphabet let through only ASCII bytes, and neither `%`
/// nor `+`.
pub proof fn lemma_alphabets_keep_escapes()
    ensures
        forall|x: u8| #[trigger] UrlComponentEncode.spec_contains(x) ==> x < 128u8 && x != 37u8 && x != 43u8,
        forall|x: u8| #[trigger] CookieCharset.spec_contains(x) ==> x < 128u8 && x != 37u8 && x != 43u8,
{
}

/// A text that holds no `%` and no `+` decodes to its own UTF-8 bytes.
proof fn lemma_percent_decode_plain(cs: Seq<char>)
    requires
        forall|i: int| 0 <= i < cs.len() ==> cs[i] != '%' && cs[i] != '+',
    ensures
        percent_decode(cs) == Some(encode_utf8(cs)),
    decreases cs.len(),
{
    if cs.len() > 0 {
        let tail = cs.subrange(1, cs.len() as int);
        assert(tail =~= cs.drop_first());
        lemma_percent_decode_plain(tail);
    }
}

/// Characters that are not escapes come back as they are: decoding a text that holds no `%`
/// and no `+` gives the text itself.
pub proof fn law_plain_text_decodes_to_itself(s: Seq<char>)
    requires
        forall|i: int| 0 <= i < s.len() ==> s[i] != '%' && s[i] != '+',
    ensures
        spec_decode_uri_component(s) == Some(s),
{
    lemma_percent_decode_plain(s);
    encode_utf8_valid_utf8(s);
    encode_utf8_decode_utf8(s);
}

/// Every byte the cookie alphabet lets through is printable ASCII other than `"`, `,`, `;` and
/// `\\`, as the `Set-Cookie` rules ask of a cookie value.
pub proof fn law_cookie_bytes_allowed()
    ensures
        forall|x: u8| #[trigger] CookieCharset.spec_contains(x) ==> 0x21u8 <= x <= 0x7Eu8 && x != 34u8
            && x != 44u8 && x != 59u8 && x != 92u8,
{
}

/// The lower-case hexadecimal digits, in order of value.
pub open spec fn lower_hex_digits() -> Seq<char> {
    seq!['0', '1', '2', '3', '4', '5', '6', '7', '8', '9', 'a', 'b', 'c', 'd', 'e', 'f']
}

/// The upper-case hexadecimal digits, in order of value.
pub open spec fn upper_hex_digits() -> Seq<char> {
    seq!['0', '1', '2', '3', '4', '5', '6', '7', '8', '9', 'A', 'B', 'C', 'D', 'E', 'F']
}

proof fn lemma_hex_digit_values(n: int)
    requires
        0 <= n < 16,
    ensures
        hex_value(lower_hex_digits()[n]) == Some(n as u8),
        hex_value(upper_hex_digits()[n]) == Some(n as u8),
        lower_hex_digits()[n] != '+',
        upper_hex_digits()[n] != '+',
{
    let l = lower_hex_digits();
    let u = upper_hex_digits();
    if n == 0 { assert(l[0] == '0' && u[0] == '0'); }
    else if n == 1 { assert(l[1] == '1' && u[1] == '1'); }
    else if n == 2 { assert(l[2] == '2' && u[2] == '2'); }
    else if n == 3 { assert(l[3] == '3' && u[3] == '3'); }
    else if n == 4 { assert(l[4] == '4' && u[4] == '4'); }
    else if n == 5 { assert(l[5] == '5' && u[5] == '5'); }
    else if n == 6 { assert(l[6] == '6' && u[6] == '6'); }
    else if n == 7 { assert(l[7] == '7' && u[7] == '7'); }
    else if n == 8 { assert(l[8] == '8' && u[8] == '8'); }
    else if n == 9 { assert(l[9] == '9' && u[9] == '9'); }
    else if n == 10 { assert(l[10] == 'a' && u[10] == 'A'); }
    else if n == 11 { assert(l[11] == 'b' && u[11] == 'B'); }
    else if n == 12 { assert(l[12] == 'c' && u[12] == 'C'); }
    else if n == 13 { assert(l[13] == 'd' && u[13] == 'D'); }
    else if n == 14 { assert(l[14] == 'e' && u[14] == 'E'); }
    else { assert(l[15] == 'f' && u[15] == 'F'); }
}

/// A percent escape stands for the byte its two hex digits spell, in either case: for every byte
/// `b`, decoding `%` followed by the lower-case or the upper-case hex digits of `b` gives `b`.
pub proof fn law_percent_escape_decodes_to_its_byte(b: u8)
    ensures
        percent_decode(seq!['%', lower_hex_digits()[(b / 16) as int], lower_hex_digits()[(b % 16) as int]]) == Some(seq![b]),
        percent_decode(seq!['%', upper_hex_digits()[(b / 16) as int], upper_hex_digits()[(b % 16) as int]]) == Some(seq![b]),
{
    let hi = (b / 16) as int;
    let lo = (b % 16) as int;
    lemma_hex_digit_values(hi);
    lemma_hex_digit_values(lo);
    assert(((hi as u8) * 16 + (lo as u8)) as u8 == b);
    let cl = seq!['%', lower_hex_digits()[hi], lower_hex_digits()[lo]];
    let cu = seq!['%', upper_hex_digits()[hi], upper_hex_digits()[lo]];
    assert(cl.subrange(3, 3) =~= Seq::<char>::empty());
    assert(cu.subrange(3, 3) =~= Seq::<char>::empty());
    assert(percent_decode(Seq::<char>::empty()) == Some(Seq::<u8>::empty()));
    assert(cl[0] == '%' && cl[1] == lower_hex_digits()[hi] && cl[2] == lower_hex_digits()[lo]);
    assert(cu[0] == '%' && cu[1] == upper_hex_digits()[hi] && cu[2] == upper_hex_digits()[lo]);
    assert(hex_pair(cl[1], cl[2]) == Some(b));
    assert(hex_pair(cu[1], cu[2]) == Some(b));
    assert(seq![b] + Seq::<u8>::empty() =~= seq![b]);
}

} // verus!
