//! Reading JSON values from bytes.
//!
//! The reader works on one byte of look-ahead, the way a streaming reader does: a token is
//! recognised by its first byte, and some tokens consume the byte that ends them.
use vstd::prelude::*;
use crate::json::map::OrderedMap;
use crate::text::string_push;

verus! {

/// Why reading a JSON value failed.
#[derive(Debug, Clone, Copy, PartialEq, Eq, Structural)]
pub enum DeError {
    /// A sign, point or exponent mark came after the first two characters of a number.
    ExpectedNumberSign,
    /// A number had a second decimal point.
    InvalidDecimalNumber,
    /// The text of a number is not an integer that fits the integer reading.
    InvalidInteger,
    /// The text of a number with a point or an exponent is not a floating point literal.
    InvalidFloat,
    /// A string did not start with a quote.
    ExpectedStartOfString,
    /// The input ended inside a string.
    ExpectedStringChar,
    /// A backslash in a string was followed by this byte, which starts no known escape.
    InvalidEscape(u8),
    /// The input ended right after a backslash in a string.
    ExpectedEscapedChar,
    /// A value started with this byte, which starts no JSON value.
    UnexpectedToken(u8),
    /// The input had no value left.
    EmptyValue,
    /// The bytes were not `null`.
    ExpectedNull,
    /// The bytes were not a boolean.
    ExpectedBool,
    /// The byte `expected` was required; `found` is what came instead, if anything.
    ExpectedByte { expected: u8, found: Option<u8> },
    /// An array element was followed by this byte instead of `,` or `]`.
    InvalidArrayToken(u8),
    /// The input ended after an array element.
    EmptyArrayElement,
    /// An object entry was followed by this byte instead of `,` or `}`.
    InvalidObjectToken(u8),
    /// The input ended after an object entry.
    EmptyObjectElement,
    /// The value read does not fit the requested type.
    TypeMismatch,
    /// A character was requested and the string was empty.
    ExpectedCharButEmpty,
    /// A character was requested and the string was longer than one byte.
    ExpectedSingleChar,
}

/// A JSON number as read.
#[derive(Debug, Clone, PartialEq, Eq)]
pub enum Number {
    /// An integer read as unsigned.
    UInteger(u128),
    /// An integer read as signed.
    Integer(i128),
    /// A number with a fraction or an exponent, kept as its literal text; turning it into a
    /// binary floating point value is left to the caller.
    Float(String),
}

/// The abstract value of a [`Number`].
pub enum NumberView {
    UInteger(u128),
    Integer(i128),
    Float(Seq<char>),
}

impl View for Number {
    type V = NumberView;

    open spec fn view(&self) -> NumberView {
        match self {
            Number::UInteger(u) => NumberView::UInteger(*u),
            Number::Integer(i) => NumberView::Integer(*i),
            Number::Float(s) => NumberView::Float(s@),
        }
    }
}

/// A JSON value.
#[derive(Debug, PartialEq)]
pub enum JsonValue {
    Null,
    Bool(bool),
    Number(Number),
    String(String),
    Array(Vec<JsonValue>),
    Object(OrderedMap<String, JsonValue>),
}

/// The abstract value of a [`JsonValue`]; an object is its entries in order.
pub enum JsonView {
    Null,
    Bool(bool),
    Number(NumberView),
    Str(Seq<char>),
    Array(Seq<JsonView>),
    Object(Seq<(Seq<char>, JsonView)>),
}

impl JsonValue {
    /// The abstract value of this JSON value.
    pub closed spec fn json_view(&self) -> JsonView
        decreases self,
    {
        match self {
            JsonValue::Null => JsonView::Null,
            JsonValue::Bool(b) => JsonView::Bool(*b),
            JsonValue::Number(n) => JsonView::Number(n@),
            JsonValue::String(s) => JsonView::Str(s@),
            JsonValue::Array(items) => JsonView::Array(
                Seq::new(
                    items@.len(),
                    |i: int|
                        if 0 <= i < items@.len() {
                            items@[i].json_view()
                        } else {
                            JsonView::Null
                        },
                ),
            ),
            JsonValue::Object(map) => JsonView::Object(
                Seq::new(
                    map.keys@.len(),
                    |i: int|
                        if 0 <= i < map.keys@.len() && i < map.values@.len() {
                            (map.keys@[i]@, map.values@[i].json_view())
                        } else if 0 <= i < map.keys@.len() {
                            (map.keys@[i]@, JsonView::Null)
                        } else {
                            (Seq::empty(), JsonView::Null)
                        },
                ),
            ),
        }
    }
}

} // verus!

verus! {

impl View for JsonValue {
    type V = JsonView;

    open spec fn view(&self) -> JsonView {
        self.json_view()
    }
}

/// What the abstract value of a JSON value is made of.
pub(crate) proof fn lemma_json_view(v: &JsonValue)
    ensures
        match v {
            JsonValue::Null => v@ == JsonView::Null,
            JsonValue::Bool(b) => v@ == JsonView::Bool(*b),
            JsonValue::Number(n) => v@ == JsonView::Number(n@),
            JsonValue::String(s) => v@ == JsonView::Str(s@),
            JsonValue::Array(items) => v@ matches JsonView::Array(xs) && xs.len() == items@.len() && forall|i: int|
                0 <= i < xs.len() ==> #[trigger] xs[i] == items@[i]@,
            JsonValue::Object(map) => v@ matches JsonView::Object(es) && es.len() == map.keys@.len() && forall|i: int|
                0 <= i < es.len() ==> #[trigger] es[i] == (
                    map.keys@[i]@,
                    if i < map.values@.len() {
                        map.values@[i]@
                    } else {
                        JsonView::Null
                    },
                ),
        },
{
}

impl JsonValue {
    /// Whether this is `null`.
    pub fn is_null(&self) -> (r: bool)
        ensures
            r == (self@ is Null),
    {
        proof {
            lemma_json_view(self);
        }
        match self {
            JsonValue::Null => true,
            _ => false,
        }
    }

    /// Whether this is an array.
    pub fn is_array(&self) -> (r: bool)
        ensures
            r == (self@ is Array),
    {
        proof {
            lemma_json_view(self);
        }
        match self {
            JsonValue::Array(_) => true,
            _ => false,
        }
    }

    /// The text of a string.
    pub fn as_str(&self) -> (r: Option<&str>)
        ensures
            match self@ {
                JsonView::Str(s) => r matches Some(t) && t@ == s,
                _ => r is None,
            },
    {
        proof {
            lemma_json_view(self);
        }
        match self {
            JsonValue::String(s) => Some(s.as_str()),
            _ => None,
        }
    }

    /// The number of a number.
    pub fn as_number(&self) -> (r: Option<&Number>)
        ensures
            match self@ {
                JsonView::Number(n) => r matches Some(x) && x@ == n,
                _ => r is None,
            },
    {
        proof {
            lemma_json_view(self);
        }
        match self {
            JsonValue::Number(n) => Some(n),
            _ => None,
        }
    }

    /// The value of a boolean.
    pub fn as_bool(&self) -> (r: Option<bool>)
        ensures
            r == match self@ {
                JsonView::Bool(b) => Some(b),
                _ => None,
            },
    {
        proof {
            lemma_json_view(self);
        }
        match self {
            JsonValue::Bool(b) => Some(*b),
            _ => None,
        }
    }

    /// The elements of an array.
    pub fn as_array(&self) -> (r: Option<&Vec<JsonValue>>)
        ensures
            match self@ {
                JsonView::Array(xs) => r matches Some(v) && v@.len() == xs.len() && forall|i: int|
                    0 <= i < xs.len() ==> #[trigger] xs[i] == v@[i]@,
                _ => r is None,
            },
    {
        proof {
            lemma_json_view(self);
        }
        match self {
            JsonValue::Array(items) => Some(items),
            _ => None,
        }
    }

    /// The entries of an object.
    pub fn as_map(&self) -> (r: Option<&OrderedMap<String, JsonValue>>)
        ensures
            match self@ {
                JsonView::Object(es) => r matches Some(m) && es.len() == m.key_seq().len() && forall|i: int|
                    0 <= i < es.len() ==> (#[trigger] es[i]).0 == m.key_seq()[i]@ && (i < m.value_seq().len() ==> es[i].1
                        == m.value_seq()[i]@),
                _ => r is None,
            },
    {
        proof {
            lemma_json_view(self);
        }
        match self {
            JsonValue::Object(map) => {
                proof {
                    map.lemma_seqs();
                }
                Some(map)
            },
            _ => None,
        }
    }
}

/// The text of a number: its decimal digits with a `-` before a negative one, or the literal
/// text of a number with a fraction or an exponent.
pub open spec fn number_chars(n: NumberView) -> Seq<char> {
    match n {
        NumberView::UInteger(u) => crate::text::decimal_chars(u as nat),
        NumberView::Integer(i) => if i < 0 {
            seq!['-'] + crate::text::decimal_chars((-i) as nat)
        } else {
            crate::text::decimal_chars(i as nat)
        },
        NumberView::Float(s) => s,
    }
}

impl Number {
    /// The text of this number.
    pub fn to_string(&self) -> (r: String)
        ensures
            r@ == number_chars(self@),
    {
        let mut out = String::new();
        match self {
            Number::UInteger(u) => crate::text::push_decimal_chars(&mut out, *u),
            Number::Integer(i) => {
                if *i < 0 {
                    crate::text::string_push(&mut out, '-');
                    let m: u128 = ((-(*i + 1)) as u128) + 1;
                    crate::text::push_decimal_chars(&mut out, m);
                } else {
                    crate::text::push_decimal_chars(&mut out, *i as u128);
                }
            },
            Number::Float(s) => crate::text::push_str(&mut out, s.as_str()),
        }
        assert(out@ =~= number_chars(self@));
        out
    }
}

/// The abstract value of a read result.
pub open spec fn result_view<T: View>(r: Result<T, DeError>) -> Result<T::V, DeError> {
    match r {
        Ok(v) => Ok(v@),
        Err(e) => Err(e),
    }
}

/// ASCII whitespace, as `u8::is_ascii_whitespace` has it.
pub open spec fn is_ascii_ws(b: u8) -> bool {
    b == 0x20 || b == 0x09 || b == 0x0A || b == 0x0C || b == 0x0D
}

/// An ASCII digit.
pub open spec fn is_digit_byte(b: u8) -> bool {
    0x30 <= b <= 0x39
}

/// The byte at `pos`, if there is one.
pub open spec fn byte_at(inp: Seq<u8>, pos: int) -> Option<u8> {
    if 0 <= pos < inp.len() {
        Some(inp[pos])
    } else {
        None
    }
}

/// The number of bytes left from `pos` on.
pub open spec fn remaining(inp: Seq<u8>, pos: int) -> nat {
    if 0 <= pos < inp.len() {
        (inp.len() - pos) as nat
    } else {
        0
    }
}

/// The length of the run of whitespace that starts at `pos`.
pub open spec fn ws_run(inp: Seq<u8>, pos: int) -> nat
    decreases inp.len() - pos,
{
    if 0 <= pos < inp.len() && is_ascii_ws(inp[pos]) {
        1 + ws_run(inp, pos + 1)
    } else {
        0
    }
}

/// The bytes a read of up to `n` bytes at `pos` gets: all of them when that many are left.
pub open spec fn take_bytes(inp: Seq<u8>, pos: int, n: int) -> Seq<u8> {
    if pos + n <= inp.len() {
        inp.subrange(pos, pos + n)
    } else {
        inp.subrange(pos, inp.len() as int)
    }
}

/// Reading `null` at `pos`: four bytes are read, and they must be `null`.
pub open spec fn spec_parse_null(inp: Seq<u8>, pos: int) -> (Result<(), DeError>, nat) {
    let t = take_bytes(inp, pos, 4);
    (
        if t == seq![0x6eu8, 0x75u8, 0x6cu8, 0x6cu8] {
            Ok(())
        } else {
            Err(DeError::ExpectedNull)
        },
        t.len(),
    )
}

/// Reading a boolean at `pos`: five bytes are read; `true` is recognised only when exactly four
/// were left, `false` when all five are `false`.
pub open spec fn spec_parse_bool(inp: Seq<u8>, pos: int) -> (Result<bool, DeError>, nat) {
    let t = take_bytes(inp, pos, 5);
    (
        if t == seq![0x74u8, 0x72u8, 0x75u8, 0x65u8] {
            Ok(true)
        } else if t == seq![0x66u8, 0x61u8, 0x6cu8, 0x73u8, 0x65u8] {
            Ok(false)
        } else {
            Err(DeError::ExpectedBool)
        },
        t.len(),
    )
}

/// The character a backslash escape stands for.
pub open spec fn unescape(e: u8) -> char {
    if e == 0x6e {
        '\n'
    } else if e == 0x74 {
        '\t'
    } else {
        e as char
    }
}

/// Whether a byte after a backslash starts a known escape: `\"`, `\\`, `\n` or `\t`.
pub open spec fn is_escape(e: u8) -> bool {
    e == 0x22 || e == 0x5c || e == 0x6e || e == 0x74
}

/// The rest of a string from `pos`, after `text` was read; each other byte stands for the
/// character with its value. Returns the text and the bytes consumed.
pub open spec fn scan_string(inp: Seq<u8>, pos: int, text: Seq<char>) -> (Result<Seq<char>, DeError>, nat)
    decreases inp.len() - pos,
{
    if pos < 0 || pos >= inp.len() {
        (Err(DeError::ExpectedStringChar), 0)
    } else if inp[pos] == 0x5c {
        if pos + 1 >= inp.len() {
            (Err(DeError::ExpectedEscapedChar), 1)
        } else if is_escape(inp[pos + 1]) {
            let (r, n) = scan_string(inp, pos + 2, text.push(unescape(inp[pos + 1])));
            (r, n + 2)
        } else {
            (Err(DeError::InvalidEscape(inp[pos + 1])), 2)
        }
    } else if inp[pos] == 0x22 {
        (Ok(text), 1)
    } else {
        let (r, n) = scan_string(inp, pos + 1, text.push(inp[pos] as char));
        (r, n + 1)
    }
}

/// Reading a string at `pos`: it must start with a quote; whitespace is not skipped.
pub open spec fn spec_parse_string(inp: Seq<u8>, pos: int) -> (Result<Seq<char>, DeError>, nat) {
    if byte_at(inp, pos) == Some(0x22u8) {
        let (r, n) = scan_string(inp, pos + 1, Seq::empty());
        (r, n + 1)
    } else {
        (Err(DeError::ExpectedStartOfString), 0)
    }
}

/// The bytes of a number from `pos`, after `text` was read. A sign, point or exponent mark is
/// taken only while at most one byte has been read; the byte that ends the number is consumed.
pub open spec fn scan_number(inp: Seq<u8>, pos: int, text: Seq<u8>) -> (Result<Seq<u8>, DeError>, nat)
    decreases inp.len() - pos,
{
    if pos < 0 || pos >= inp.len() {
        (Ok(text), 0)
    } else {
        let b = inp[pos];
        if b == 0x2d || b == 0x2e || b == 0x65 {
            if text.len() > 1 {
                (Err(DeError::ExpectedNumberSign), 1)
            } else if b == 0x2e && text.contains(0x2eu8) {
                (Err(DeError::InvalidDecimalNumber), 1)
            } else {
                let (r, n) = scan_number(inp, pos + 1, text.push(b));
                (r, n + 1)
            }
        } else if is_digit_byte(b) {
            let (r, n) = scan_number(inp, pos + 1, text.push(b));
            (r, n + 1)
        } else {
            (Ok(text), 1)
        }
    }
}

/// Whether all bytes are digits.
pub open spec fn all_digits(s: Seq<u8>) -> bool {
    forall|i: int| 0 <= i < s.len() ==> is_digit_byte(#[trigger] s[i])
}

/// The value of a run of decimal digits.
pub open spec fn digits_value(s: Seq<u8>) -> nat
    decreases s.len(),
{
    if s.len() == 0 {
        0
    } else {
        digits_value(s.drop_last()) * 10 + (s.last() - 0x30) as nat
    }
}

/// The index of the first occurrence of `b`, if any.
pub open spec fn index_of_byte(s: Seq<u8>, b: u8) -> Option<int>
    decreases s.len(),
{
    if s.len() == 0 {
        None
    } else if s[0] == b {
        Some(0)
    } else {
        match index_of_byte(s.drop_first(), b) {
            Some(i) => Some(i + 1),
            None => None,
        }
    }
}

/// A mantissa of a floating point literal: digits, with at most one point and at least one digit.
pub open spec fn valid_mantissa(m: Seq<u8>) -> bool {
    match index_of_byte(m, 0x2e) {
        None => m.len() > 0 && all_digits(m),
        Some(p) => m.len() >= 2 && all_digits(m.take(p)) && all_digits(m.skip(p + 1)),
    }
}

/// An exponent of a floating point literal: an optional sign and at least one digit.
pub open spec fn valid_exponent(x: Seq<u8>) -> bool {
    let d = if x.len() > 0 && (x[0] == 0x2d || x[0] == 0x2b) {
        x.drop_first()
    } else {
        x
    };
    d.len() > 0 && all_digits(d)
}

/// Whether a text of digits, `-`, `.` and `e` is a decimal floating point literal as
/// `f64::from_str` accepts it: an optional sign, a mantissa and an optional exponent.
pub open spec fn is_float_literal(s: Seq<u8>) -> bool {
    let body = if s.len() > 0 && s[0] == 0x2d {
        s.drop_first()
    } else {
        s
    };
    match index_of_byte(body, 0x65) {
        None => valid_mantissa(body),
        Some(p) => valid_mantissa(body.take(p)) && valid_exponent(body.skip(p + 1)),
    }
}

/// The characters of ASCII bytes.
pub open spec fn ascii_chars(s: Seq<u8>) -> Seq<char> {
    Seq::new(s.len(), |i: int| s[i] as char)
}

/// The number a number's text stands for: with a point or an exponent it is a floating point
/// literal; otherwise a text starting with `-` is refused (it is read as an unsigned integer),
/// and the rest must be digits of a value that fits `i128`.
pub open spec fn number_from_text(s: Seq<u8>) -> Result<NumberView, DeError> {
    if s.contains(0x2eu8) || s.contains(0x65u8) {
        if is_float_literal(s) {
            Ok(NumberView::Float(ascii_chars(s)))
        } else {
            Err(DeError::InvalidFloat)
        }
    } else if s.len() > 0 && s[0] == 0x2d {
        Err(DeError::InvalidInteger)
    } else if s.len() > 0 && all_digits(s) && digits_value(s) <= i128::MAX {
        Ok(NumberView::Integer(digits_value(s) as i128))
    } else {
        Err(DeError::InvalidInteger)
    }
}

/// Reading a number at `pos`.
pub open spec fn spec_parse_number(inp: Seq<u8>, pos: int) -> (Result<NumberView, DeError>, nat) {
    let (r, n) = scan_number(inp, pos, Seq::empty());
    match r {
        Ok(s) => (number_from_text(s), n),
        Err(e) => (Err(e), n),
    }
}

} // verus!

verus! {

/// Reads JSON values from bytes, one byte of look-ahead at a time.
pub struct JsonDeserializer {
    input: Vec<u8>,
    pos: usize,
}

impl JsonDeserializer {
    /// All the bytes of the input.
    pub closed spec fn input(&self) -> Seq<u8> {
        self.input@
    }

    /// How many bytes of the input have been consumed.
    pub closed spec fn position(&self) -> int {
        self.pos as int
    }

    /// The position lies within the input.
    pub closed spec fn wf(&self) -> bool {
        self.pos <= self.input@.len()
    }

    /// A reader at the start of the given bytes.
    pub fn new(input: &[u8]) -> (r: Self)
        ensures
            r.wf(),
            r.input() == input@,
            r.position() == 0,
    {
        JsonDeserializer { input: vstd::slice::slice_to_vec(input), pos: 0 }
    }

    /// The next byte, without consuming it.
    pub fn peek(&self) -> (r: Option<u8>)
        requires
            self.wf(),
        ensures
            r == byte_at(self.input(), self.position()),
    {
        if self.pos < self.input.len() {
            Some(self.input[self.pos])
        } else {
            None
        }
    }

    /// Consumes the next byte.
    pub fn read_byte(&mut self) -> (r: Option<u8>)
        requires
            old(self).wf(),
        ensures
            final(self).wf(),
            final(self).input() == old(self).input(),
            r == byte_at(old(self).input(), old(self).position()),
            final(self).position() == old(self).position() + if r is Some { 1int } else { 0int },
    {
        if self.pos < self.input.len() {
            let b = self.input[self.pos];
            self.pos = self.pos + 1;
            Some(b)
        } else {
            None
        }
    }

    /// Consumes whitespace and returns the byte after it, without consuming that byte.
    pub fn read_until_next_non_whitespace(&mut self) -> (r: Option<u8>)
        requires
            old(self).wf(),
        ensures
            final(self).wf(),
            final(self).input() == old(self).input(),
            final(self).position() == old(self).position() + ws_run(
                old(self).input(),
                old(self).position(),
            ),
            r == byte_at(final(self).input(), final(self).position()),
            r matches Some(b) ==> !is_ascii_ws(b),
    {
        let ghost inp = self.input@;
        let ghost p0 = self.pos as int;
        loop
            invariant
                self.wf(),
                self.input@ == inp,
                inp == old(self).input@,
                p0 == old(self).pos,
                p0 <= self.pos,
                p0 + ws_run(inp, p0) == self.pos + ws_run(inp, self.pos as int),
            decreases self.input@.len() - self.pos,
        {
            match self.peek() {
                Some(b) => {
                    if !(b == 0x20 || b == 0x09 || b == 0x0A || b == 0x0C || b == 0x0D) {
                        return Some(b);
                    }
                    let _ = self.read_byte();
                },
                None => {
                    return None;
                },
            }
        }
    }

    /// Consumes whitespace and checks that the next byte is `expected`, without consuming it.
    pub fn read_until_byte(&mut self, expected: u8) -> (r: Result<u8, DeError>)
        requires
            old(self).wf(),
        ensures
            final(self).wf(),
            final(self).input() == old(self).input(),
            final(self).position() == old(self).position() + ws_run(
                old(self).input(),
                old(self).position(),
            ),
            r == match byte_at(final(self).input(), final(self).position()) {
                Some(b) => if b == expected {
                    Ok(b)
                } else {
                    Err(DeError::ExpectedByte { expected, found: Some(b) })
                },
                None => Err(DeError::ExpectedByte { expected, found: None }),
            },
    {
        match self.read_until_next_non_whitespace() {
            Some(b) => {
                if b == expected {
                    Ok(b)
                } else {
                    Err(DeError::ExpectedByte { expected, found: Some(b) })
                }
            },
            None => Err(DeError::ExpectedByte { expected, found: None }),
        }
    }

    /// Consumes up to `n` bytes and returns them.
    pub fn read(&mut self, n: usize) -> (r: Vec<u8>)
        requires
            old(self).wf(),
        ensures
            final(self).wf(),
            final(self).input() == old(self).input(),
            r@ == take_bytes(old(self).input(), old(self).position(), n as int),
            final(self).position() == old(self).position() + r@.len(),
    {
        let mut out: Vec<u8> = Vec::new();
        let ghost p0 = self.pos as int;
        while out.len() < n && self.pos < self.input.len()
            invariant
                self.wf(),
                self.input@ == old(self).input@,
                p0 == old(self).pos,
                out@.len() <= n,
                self.pos == p0 + out@.len(),
                out@ == self.input@.subrange(p0, self.pos as int),
            decreases n - out@.len(),
        {
            out.push(self.input[self.pos]);
            self.pos = self.pos + 1;
            assert(out@ =~= self.input@.subrange(p0, self.pos as int));
        }
        out
    }

    /// Reads `null`.
    pub fn parse_null(&mut self) -> (r: Result<(), DeError>)
        requires
            old(self).wf(),
        ensures
            final(self).wf(),
            final(self).input() == old(self).input(),
            final(self).position() >= old(self).position(),
            (r, (final(self).position() - old(self).position()) as nat) == spec_parse_null(
                old(self).input(),
                old(self).position(),
            ),
    {
        let buf = self.read(4);
        if buf.len() == 4 && buf[0] == 0x6e && buf[1] == 0x75 && buf[2] == 0x6c && buf[3] == 0x6c {
            assert(buf@ =~= seq![0x6eu8, 0x75u8, 0x6cu8, 0x6cu8]);
            Ok(())
        } else {
            Err(DeError::ExpectedNull)
        }
    }

    /// Reads a boolean.
    pub fn parse_bool(&mut self) -> (r: Result<bool, DeError>)
        requires
            old(self).wf(),
        ensures
            final(self).wf(),
            final(self).input() == old(self).input(),
            final(self).position() >= old(self).position(),
            (r, (final(self).position() - old(self).position()) as nat) == spec_parse_bool(
                old(self).input(),
                old(self).position(),
            ),
    {
        let buf = self.read(5);
        if buf.len() == 4 && buf[0] == 0x74 && buf[1] == 0x72 && buf[2] == 0x75 && buf[3] == 0x65 {
            assert(buf@ =~= seq![0x74u8, 0x72u8, 0x75u8, 0x65u8]);
            Ok(true)
        } else if buf.len() == 5 && buf[0] == 0x66 && buf[1] == 0x61 && buf[2] == 0x6c && buf[3]
            == 0x73 && buf[4] == 0x65 {
            assert(buf@ =~= seq![0x66u8, 0x61u8, 0x6cu8, 0x73u8, 0x65u8]);
            Ok(false)
        } else {
            Err(DeError::ExpectedBool)
        }
    }
}

} // verus!

verus! {

/// A read result with `k` more bytes consumed.
pub open spec fn shifted<T>(x: (T, nat), k: int) -> (T, nat) {
    (x.0, (x.1 + k) as nat)
}

proof fn lemma_index_of_byte(s: Seq<u8>, b: u8)
    ensures
        match index_of_byte(s, b) {
            Some(i) => 0 <= i < s.len() && s[i] == b && forall|j: int| 0 <= j < i ==> s[j] != b,
            None => forall|j: int| 0 <= j < s.len() ==> s[j] != b,
        },
    decreases s.len(),
{
    if s.len() > 0 && s[0] != b {
        lemma_index_of_byte(s.drop_first(), b);
        assert forall|j: int| 0 < j < s.len() implies s[j] == s.drop_first()[j - 1] by {}
    }
}

proof fn lemma_digits_value_step(s: Seq<u8>, i: int)
    requires
        0 <= i < s.len(),
    ensures
        digits_value(s.take(i + 1)) == digits_value(s.take(i)) * 10 + (s[i] - 0x30) as nat,
{
    assert(s.take(i + 1).drop_last() =~= s.take(i));
}

proof fn lemma_digits_value_prefix(s: Seq<u8>, i: int)
    requires
        0 <= i <= s.len(),
    ensures
        digits_value(s.take(i)) <= digits_value(s),
    decreases s.len(),
{
    if i == s.len() {
        assert(s.take(i) =~= s);
    } else {
        lemma_digits_value_prefix(s.drop_last(), i);
        assert(s.drop_last().take(i) =~= s.take(i));
    }
}

fn contains_byte(s: &Vec<u8>, b: u8) -> (r: bool)
    ensures
        r == s@.contains(b),
{
    let mut i: usize = 0;
    while i < s.len()
        invariant
            i <= s@.len(),
            forall|j: int| 0 <= j < i ==> s@[j] != b,
        decreases s@.len() - i,
    {
        if s[i] == b {
            return true;
        }
        i = i + 1;
    }
    false
}

fn index_of(s: &Vec<u8>, b: u8) -> (r: Option<usize>)
    ensures
        match r {
            Some(i) => index_of_byte(s@, b) == Some(i as int) && i < s@.len(),
            None => index_of_byte(s@, b) is None,
        },
{
    proof {
        lemma_index_of_byte(s@, b);
    }
    let mut i: usize = 0;
    while i < s.len()
        invariant
            i <= s@.len(),
            forall|j: int| 0 <= j < i ==> s@[j] != b,
            match index_of_byte(s@, b) {
                Some(k) => 0 <= k < s@.len() && s@[k] == b && forall|j: int| 0 <= j < k ==> s@[j] != b,
                None => forall|j: int| 0 <= j < s@.len() ==> s@[j] != b,
            },
        decreases s@.len() - i,
    {
        if s[i] == b {
            return Some(i);
        }
        i = i + 1;
    }
    None
}

fn is_all_digits(s: &Vec<u8>) -> (r: bool)
    ensures
        r == all_digits(s@),
{
    let mut i: usize = 0;
    while i < s.len()
        invariant
            i <= s@.len(),
            forall|j: int| 0 <= j < i ==> is_digit_byte(s@[j]),
        decreases s@.len() - i,
    {
        if !(0x30 <= s[i] && s[i] <= 0x39) {
            return false;
        }
        i = i + 1;
    }
    true
}

fn sub_bytes(s: &Vec<u8>, from: usize, to: usize) -> (r: Vec<u8>)
    requires
        from <= to <= s@.len(),
    ensures
        r@ == s@.subrange(from as int, to as int),
{
    let mut out: Vec<u8> = Vec::new();
    let mut i = from;
    while i < to
        invariant
            from <= i <= to <= s@.len(),
            out@ == s@.subrange(from as int, i as int),
        decreases to - i,
    {
        out.push(s[i]);
        i = i + 1;
        assert(out@ =~= s@.subrange(from as int, i as int));
    }
    out
}

fn check_mantissa(m: &Vec<u8>) -> (r: bool)
    ensures
        r == valid_mantissa(m@),
{
    match index_of(m, 0x2e) {
        None => m.len() > 0 && is_all_digits(m),
        Some(p) => {
            let n = m.len();
            let before = sub_bytes(m, 0, p);
            let after = sub_bytes(m, p + 1, n);
            assert(before@ =~= m@.take(p as int));
            assert(after@ =~= m@.skip(p + 1));
            m.len() >= 2 && is_all_digits(&before) && is_all_digits(&after)
        },
    }
}

fn check_exponent(x: &Vec<u8>) -> (r: bool)
    ensures
        r == valid_exponent(x@),
{
    let d = if x.len() > 0 && (x[0] == 0x2d || x[0] == 0x2b) {
        let d = sub_bytes(x, 1, x.len());
        assert(d@ =~= x@.drop_first());
        d
    } else {
        sub_bytes(x, 0, x.len())
    };
    assert(x.len() > 0 && (x@[0] == 0x2d || x@[0] == 0x2b) || d@ =~= x@);
    d.len() > 0 && is_all_digits(&d)
}

fn check_float_literal(s: &Vec<u8>) -> (r: bool)
    ensures
        r == is_float_literal(s@),
{
    let body = if s.len() > 0 && s[0] == 0x2d {
        let b = sub_bytes(s, 1, s.len());
        assert(b@ =~= s@.drop_first());
        b
    } else {
        let b = sub_bytes(s, 0, s.len());
        assert(b@ =~= s@);
        b
    };
    match index_of(&body, 0x65) {
        None => check_mantissa(&body),
        Some(p) => {
            let m = sub_bytes(&body, 0, p);
            let x = sub_bytes(&body, p + 1, body.len());
            assert(m@ =~= body@.take(p as int));
            assert(x@ =~= body@.skip(p + 1));
            check_mantissa(&m) && check_exponent(&x)
        },
    }
}

fn ascii_string(s: &Vec<u8>) -> (r: String)
    ensures
        r@ == ascii_chars(s@),
{
    let mut out = String::new();
    let mut i: usize = 0;
    while i < s.len()
        invariant
            i <= s@.len(),
            out@ == ascii_chars(s@.take(i as int)),
        decreases s@.len() - i,
    {
        string_push(&mut out, s[i] as char);
        i = i + 1;
        assert(out@ =~= ascii_chars(s@.take(i as int)));
    }
    assert(s@.take(s@.len() as int) =~= s@);
    out
}

/// The number a number's text stands for.
pub fn number_from_bytes(s: &Vec<u8>) -> (r: Result<Number, DeError>)
    ensures
        result_view(r) == number_from_text(s@),
{
    if contains_byte(s, 0x2e) || contains_byte(s, 0x65) {
        if check_float_literal(s) {
            return Ok(Number::Float(ascii_string(s)));
        } else {
            return Err(DeError::InvalidFloat);
        }
    }
    if s.len() > 0 && s[0] == 0x2d {
        return Err(DeError::InvalidInteger);
    }
    if s.len() == 0 || !is_all_digits(s) {
        return Err(DeError::InvalidInteger);
    }
    let max: u128 = 0x7fff_ffff_ffff_ffff_ffff_ffff_ffff_ffff;
    let mut acc: u128 = 0;
    let mut i: usize = 0;
    assert(s@.take(0) =~= Seq::<u8>::empty());
    while i < s.len()
        invariant
            i <= s@.len(),
            all_digits(s@),
            max == i128::MAX,
            acc <= max,
            acc == digits_value(s@.take(i as int)),
        decreases s@.len() - i,
    {
        let d = (s[i] - 0x30) as u128;
        proof {
            lemma_digits_value_step(s@, i as int);
        }
        if acc > (max - d) / 10 {
            proof {
                lemma_digits_value_prefix(s@, i + 1);
            }
            return Err(DeError::InvalidInteger);
        }
        acc = acc * 10 + d;
        i = i + 1;
    }
    assert(s@.take(s@.len() as int) =~= s@);
    Ok(Number::Integer(acc as i128))
}

impl JsonDeserializer {
    /// Reads a string; it must start with a quote.
    pub fn parse_string(&mut self) -> (r: Result<String, DeError>)
        requires
            old(self).wf(),
        ensures
            final(self).wf(),
            final(self).input() == old(self).input(),
            final(self).position() >= old(self).position(),
            (result_view(r), (final(self).position() - old(self).position()) as nat)
                == spec_parse_string(old(self).input(), old(self).position()),
    {
        let ghost inp = self.input@;
        let ghost p0 = self.pos as int;
        match self.peek() {
            Some(b) => {
                if b != 0x22 {
                    return Err(DeError::ExpectedStartOfString);
                }
            },
            None => {
                return Err(DeError::ExpectedStartOfString);
            },
        }
        let _ = self.read_byte();
        let mut s = String::new();
        loop
            invariant
                self.wf(),
                self.input@ == inp,
                inp == old(self).input@,
                p0 == old(self).pos,
                p0 + 1 <= self.pos,
                spec_parse_string(inp, p0) == shifted(scan_string(inp, self.pos as int, s@), self.pos - p0),
            decreases self.input@.len() - self.pos,
        {
            match self.read_byte() {
                None => {
                    return Err(DeError::ExpectedStringChar);
                },
                Some(byte) => {
                    if byte == 0x5c {
                        match self.read_byte() {
                            Some(e) => {
                                if e == 0x22 {
                                    string_push(&mut s, '"');
                                } else if e == 0x5c {
                                    string_push(&mut s, '\\');
                                } else if e == 0x6e {
                                    string_push(&mut s, '\n');
                                } else if e == 0x74 {
                                    string_push(&mut s, '\t');
                                } else {
                                    return Err(DeError::InvalidEscape(e));
                                }
                            },
                            None => {
                                return Err(DeError::ExpectedEscapedChar);
                            },
                        }
                    } else if byte == 0x22 {
                        return Ok(s);
                    } else {
                        string_push(&mut s, byte as char);
                    }
                },
            }
        }
    }

    /// Reads a number. The byte that ends it is consumed.
    pub fn parse_number(&mut self) -> (r: Result<Number, DeError>)
        requires
            old(self).wf(),
        ensures
            final(self).wf(),
            final(self).input() == old(self).input(),
            final(self).position() >= old(self).position(),
            (result_view(r), (final(self).position() - old(self).position()) as nat)
                == spec_parse_number(old(self).input(), old(self).position()),
    {
        let ghost inp = self.input@;
        let ghost p0 = self.pos as int;
        let mut s: Vec<u8> = Vec::new();
        loop
            invariant_except_break
                scan_number(inp, p0, Seq::empty()) == shifted(scan_number(inp, self.pos as int, s@), self.pos - p0),
            invariant
                self.wf(),
                self.input@ == inp,
                inp == old(self).input@,
                p0 == old(self).pos,
                p0 <= self.pos,
            ensures
                self.wf(),
                self.input@ == inp,
                p0 <= self.pos,
                scan_number(inp, p0, Seq::empty()) == (Ok::<Seq<u8>, DeError>(s@), (self.pos - p0) as nat),
            decreases self.input@.len() - self.pos,
        {
            if self.peek().is_none() {
                break;
            }
            match self.read_byte() {
                None => {
                    break;
                },
                Some(byte) => {
                    if byte == 0x2d || byte == 0x2e || byte == 0x65 {
                        if s.len() > 1 {
                            return Err(DeError::ExpectedNumberSign);
                        }
                        if byte == 0x2e && contains_byte(&s, 0x2e) {
                            return Err(DeError::InvalidDecimalNumber);
                        }
                        s.push(byte);
                    } else if 0x30 <= byte && byte <= 0x39 {
                        s.push(byte);
                    } else {
                        break;
                    }
                },
            }
        }
        number_from_bytes(&s)
    }
}

} // verus!

verus! {

/// The abstract values of a sequence of JSON values.
pub open spec fn json_views(s: Seq<JsonValue>) -> Seq<JsonView> {
    Seq::new(s.len(), |i: int| s[i]@)
}

/// Reading an object at `pos`. After the opening brace a key string is read (whitespace before it
/// is not skipped), then whitespace up to the `:`; the `:` is left unread, so the reading of the
/// value starts at it and fails. No object is ever read in full.
pub open spec fn spec_parse_object(inp: Seq<u8>, pos: int) -> (Result<Seq<(Seq<char>, JsonView)>, DeError>, nat) {
    let w = ws_run(inp, pos);
    let p = pos + w;
    match byte_at(inp, p) {
        None => (Err(DeError::ExpectedByte { expected: 0x7b, found: None }), w),
        Some(b) => if b != 0x7b {
            (Err(DeError::ExpectedByte { expected: 0x7b, found: Some(b) }), w)
        } else {
            let (k, n) = spec_parse_string(inp, p + 1);
            match k {
                Err(e) => (Err(e), w + 1 + n),
                Ok(_) => {
                    let q = p + 1 + n;
                    let w2 = ws_run(inp, q);
                    match byte_at(inp, q + w2) {
                        None => (Err(DeError::ExpectedByte { expected: 0x3a, found: None }), w + 1 + n + w2),
                        Some(c) => if c != 0x3a {
                            (Err(DeError::ExpectedByte { expected: 0x3a, found: Some(c) }), w + 1 + n + w2)
                        } else {
                            (Err(DeError::UnexpectedToken(0x3a)), w + 1 + n + w2)
                        },
                    }
                },
            }
        },
    }
}

/// Reading any JSON value at `pos`: whitespace is skipped and the first byte picks the kind of
/// value. A number may start with `-` or the digits `0` to `8`.
pub open spec fn spec_parse_json(inp: Seq<u8>, pos: int) -> (Result<JsonView, DeError>, nat)
    decreases remaining(inp, pos), 1nat,
{
    let w = ws_run(inp, pos);
    let p = pos + w;
    if pos < 0 || p >= inp.len() {
        (Err(DeError::EmptyValue), w)
    } else {
        let b = inp[p];
        if b == 0x74 || b == 0x66 {
            let (r, n) = spec_parse_bool(inp, p);
            (
                match r {
                    Ok(v) => Ok(JsonView::Bool(v)),
                    Err(e) => Err(e),
                },
                w + n,
            )
        } else if b == 0x6e {
            let (r, n) = spec_parse_null(inp, p);
            (
                match r {
                    Ok(_) => Ok(JsonView::Null),
                    Err(e) => Err(e),
                },
                w + n,
            )
        } else if b == 0x2d || (0x30 <= b < 0x39) {
            let (r, n) = spec_parse_number(inp, p);
            (
                match r {
                    Ok(v) => Ok(JsonView::Number(v)),
                    Err(e) => Err(e),
                },
                w + n,
            )
        } else if b == 0x22 {
            let (r, n) = spec_parse_string(inp, p);
            (
                match r {
                    Ok(v) => Ok(JsonView::Str(v)),
                    Err(e) => Err(e),
                },
                w + n,
            )
        } else if b == 0x5b {
            let (r, n) = array_items(inp, p + 1, Seq::empty());
            (
                match r {
                    Ok(v) => Ok(JsonView::Array(v)),
                    Err(e) => Err(e),
                },
                w + 1 + n,
            )
        } else if b == 0x7b {
            let (r, n) = spec_parse_object(inp, p);
            (
                match r {
                    Ok(v) => Ok(JsonView::Object(v)),
                    Err(e) => Err(e),
                },
                w + n,
            )
        } else {
            (Err(DeError::UnexpectedToken(b)), w)
        }
    }
}

/// Reading the elements of an array from `pos`, after the elements `acc`: an element, then
/// whitespace and `,` for another element or `]` for the end.
pub open spec fn array_items(inp: Seq<u8>, pos: int, acc: Seq<JsonView>) -> (Result<Seq<JsonView>, DeError>, nat)
    decreases remaining(inp, pos), 2nat,
{
    if pos < 0 {
        (Err(DeError::EmptyValue), 0)
    } else {
        let (r, n) = spec_parse_json(inp, pos);
        match r {
            Err(e) => (Err(e), n),
            Ok(v) => {
                let q = pos + n;
                let w = ws_run(inp, q);
                let t = q + w;
                if t >= inp.len() {
                    (Err(DeError::EmptyArrayElement), n + w)
                } else if inp[t] == 0x2c {
                    let (r2, n2) = array_items(inp, t + 1, acc.push(v));
                    (r2, n + w + 1 + n2)
                } else if inp[t] == 0x5d {
                    (Ok(acc.push(v)), n + w + 1)
                } else {
                    (Err(DeError::InvalidArrayToken(inp[t])), n + w)
                }
            },
        }
    }
}

/// Reading an array at `pos`: whitespace, `[`, then the elements.
pub open spec fn spec_parse_array(inp: Seq<u8>, pos: int) -> (Result<Seq<JsonView>, DeError>, nat) {
    let w = ws_run(inp, pos);
    let p = pos + w;
    match byte_at(inp, p) {
        None => (Err(DeError::ExpectedByte { expected: 0x5b, found: None }), w),
        Some(b) => if b != 0x5b {
            (Err(DeError::ExpectedByte { expected: 0x5b, found: Some(b) }), w)
        } else {
            let (r, n) = array_items(inp, p + 1, Seq::empty());
            (r, w + 1 + n)
        },
    }
}

proof fn lemma_array_view(items: Vec<JsonValue>)
    ensures
        JsonValue::Array(items)@ == JsonView::Array(json_views(items@)),
{
    let j = JsonValue::Array(items).json_view();
    match j {
        JsonView::Array(s) => {
            assert(s =~= json_views(items@));
        },
        _ => {},
    }
}

impl JsonDeserializer {
    /// Reads any JSON value.
    pub fn parse_json(&mut self) -> (r: Result<JsonValue, DeError>)
        requires
            old(self).wf(),
        ensures
            final(self).wf(),
            final(self).input() == old(self).input(),
            final(self).position() >= old(self).position(),
            (result_view(r), (final(self).position() - old(self).position()) as nat)
                == spec_parse_json(old(self).input(), old(self).position()),
        decreases remaining(old(self).input(), old(self).position()), 1nat,
    {
        match self.read_until_next_non_whitespace() {
            Some(b) => {
                if b == 0x74 || b == 0x66 {
                    match self.parse_bool() {
                        Ok(v) => Ok(JsonValue::Bool(v)),
                        Err(e) => Err(e),
                    }
                } else if b == 0x6e {
                    match self.parse_null() {
                        Ok(_) => Ok(JsonValue::Null),
                        Err(e) => Err(e),
                    }
                } else if b == 0x2d || (0x30 <= b && b < 0x39) {
                    match self.parse_number() {
                        Ok(v) => Ok(JsonValue::Number(v)),
                        Err(e) => Err(e),
                    }
                } else if b == 0x22 {
                    match self.parse_string() {
                        Ok(v) => Ok(JsonValue::String(v)),
                        Err(e) => Err(e),
                    }
                } else if b == 0x5b {
                    match self.parse_array() {
                        Ok(v) => {
                            proof {
                                lemma_array_view(v);
                            }
                            Ok(JsonValue::Array(v))
                        },
                        Err(e) => Err(e),
                    }
                } else if b == 0x7b {
                    match self.parse_object() {
                        Ok(v) => Ok(JsonValue::Object(v)),
                        Err(e) => Err(e),
                    }
                } else {
                    Err(DeError::UnexpectedToken(b))
                }
            },
            None => Err(DeError::EmptyValue),
        }
    }

    /// Reads an array.
    pub fn parse_array(&mut self) -> (r: Result<Vec<JsonValue>, DeError>)
        requires
            old(self).wf(),
        ensures
            final(self).wf(),
            final(self).input() == old(self).input(),
            final(self).position() >= old(self).position(),
            (
                match r {
                    Ok(v) => Ok(json_views(v@)),
                    Err(e) => Err(e),
                },
                (final(self).position() - old(self).position()) as nat,
            ) == spec_parse_array(old(self).input(), old(self).position()),
        decreases remaining(old(self).input(), old(self).position()), 0nat,
    {
        let ghost inp = self.input@;
        let ghost p0 = self.pos as int;
        match self.read_until_byte(0x5b) {
            Ok(_) => {},
            Err(e) => {
                return Err(e);
            },
        }
        let _ = self.read_byte();
        let ghost p1 = self.pos as int;
        let mut vec: Vec<JsonValue> = Vec::new();
        assert(json_views(vec@) =~= Seq::<JsonView>::empty());
        loop
            invariant
                self.wf(),
                self.input@ == inp,
                inp == old(self).input@,
                p0 == old(self).pos,
                p0 < p1 <= self.pos,
                spec_parse_array(inp, p0) == shifted(array_items(inp, self.pos as int, json_views(vec@)), self.pos - p0),
            decreases self.input@.len() - self.pos,
        {
            let ghost before = self.pos as int;
            let item = match self.parse_json() {
                Ok(item) => item,
                Err(e) => {
                    return Err(e);
                },
            };
            let ghost acc = json_views(vec@);
            vec.push(item);
            assert(json_views(vec@) =~= acc.push(item@));
            match self.read_until_next_non_whitespace() {
                Some(b) => {
                    if b == 0x2c {
                        let _ = self.read_byte();
                    } else if b == 0x5d {
                        let _ = self.read_byte();
                        return Ok(vec);
                    } else {
                        return Err(DeError::InvalidArrayToken(b));
                    }
                },
                None => {
                    return Err(DeError::EmptyArrayElement);
                },
            }
        }
    }

    /// Reads an object. The `:` after a key is checked but not consumed, so reading the value
    /// that follows it fails: no object is ever read in full.
    pub fn parse_object(&mut self) -> (r: Result<OrderedMap<String, JsonValue>, DeError>)
        requires
            old(self).wf(),
        ensures
            final(self).wf(),
            final(self).input() == old(self).input(),
            final(self).position() >= old(self).position(),
            r is Err,
            (
                match r {
                    Ok(_) => Ok(Seq::<(Seq<char>, JsonView)>::empty()),
                    Err(e) => Err(e),
                },
                (final(self).position() - old(self).position()) as nat,
            ) == spec_parse_object(old(self).input(), old(self).position()),
        decreases remaining(old(self).input(), old(self).position()), 0nat,
    {
        let ghost inp = self.input@;
        let ghost p0 = self.pos as int;
        match self.read_until_byte(0x7b) {
            Ok(_) => {},
            Err(e) => {
                return Err(e);
            },
        }
        let _ = self.read_byte();
        let ghost p1 = self.pos as int;
        let mut map: OrderedMap<String, JsonValue> = OrderedMap::new();
        loop
            invariant
                self.wf(),
                map.wf(),
                self.input@ == inp,
                inp == old(self).input@,
                p0 == old(self).pos,
                p0 < p1 == self.pos,
                byte_at(inp, p1 - 1) == Some(0x7bu8),
                p1 - 1 == p0 + ws_run(inp, p0),
            decreases self.input@.len() - self.pos,
        {
            let key = match self.parse_string() {
                Ok(key) => key,
                Err(e) => {
                    return Err(e);
                },
            };
            match self.read_until_byte(0x3a) {
                Ok(_) => {},
                Err(e) => {
                    return Err(e);
                },
            }
            let value = match self.parse_json() {
                Ok(value) => value,
                Err(e) => {
                    return Err(e);
                },
            };
            map.insert(key, value);
            match self.read_until_next_non_whitespace() {
                Some(b) => {
                    if b == 0x2c {
                        let _ = self.read_byte();
                    } else if b == 0x7d {
                        let _ = self.read_byte();
                        return Ok(map);
                    } else {
                        return Err(DeError::InvalidObjectToken(b));
                    }
                },
                None => {
                    return Err(DeError::EmptyObjectElement);
                },
            }
        }
    }
}

} // verus!

verus! {

/// The integer a number stands for, if it is an integer.
pub open spec fn number_int(n: NumberView) -> Option<int> {
    match n {
        NumberView::UInteger(u) => Some(u as int),
        NumberView::Integer(i) => Some(i as int),
        NumberView::Float(_) => None,
    }
}

/// The integer a number stands for, if it is an integer between `lo` and `hi`.
pub open spec fn number_in_range(n: NumberView, lo: int, hi: int) -> Option<int> {
    match number_int(n) {
        Some(v) => if lo <= v <= hi {
            Some(v)
        } else {
            None
        },
        None => None,
    }
}

impl Number {
    /// Whether this is a number with a fraction or an exponent.
    pub fn is_float(&self) -> (r: bool)
        ensures
            r == self@ is Float,
    {
        match self {
            Number::Float(_) => true,
            _ => false,
        }
    }

    /// Whether this is an integer read as unsigned.
    pub fn is_unsigned_integer(&self) -> (r: bool)
        ensures
            r == self@ is UInteger,
    {
        match self {
            Number::UInteger(_) => true,
            _ => false,
        }
    }

    /// Whether this is an integer read as signed.
    pub fn is_signed_integer(&self) -> (r: bool)
        ensures
            r == self@ is Integer,
    {
        match self {
            Number::Integer(_) => true,
            _ => false,
        }
    }

    /// The value as a `u128`, if it is an integer that fits. A number with a fraction or an
    /// exponent gives none here.
    pub fn as_u128(&self) -> (r: Option<u128>)
        ensures
            match number_in_range(self@, 0, u128::MAX as int) {
                Some(v) => r == Some(v as u128),
                None => r is None,
            },
    {
        match self {
            Number::UInteger(u) => Some(*u),
            Number::Integer(i) => if *i >= 0 {
                Some(*i as u128)
            } else {
                None
            },
            Number::Float(_) => None,
        }
    }

    /// The value as an `i128`, if it is an integer that fits. A number with a fraction or an
    /// exponent gives none here.
    pub fn as_i128(&self) -> (r: Option<i128>)
        ensures
            match number_in_range(self@, i128::MIN as int, i128::MAX as int) {
                Some(v) => r == Some(v as i128),
                None => r is None,
            },
    {
        match self {
            Number::UInteger(u) => if *u <= 0x7fff_ffff_ffff_ffff_ffff_ffff_ffff_ffff {
                Some(*u as i128)
            } else {
                None
            },
            Number::Integer(i) => Some(*i),
            Number::Float(_) => None,
        }
    }

    /// The value as a `u8`, if it is an integer that fits.
    pub fn as_u8(&self) -> (r: Option<u8>)
        ensures
            match number_in_range(self@, 0, u8::MAX as int) {
                Some(v) => r == Some(v as u8),
                None => r is None,
            },
    {
        match self.as_u128() {
            Some(v) => if v <= 0xff {
                Some(v as u8)
            } else {
                None
            },
            None => None,
        }
    }

    /// The value as a `u16`, if it is an integer that fits.
    pub fn as_u16(&self) -> (r: Option<u16>)
        ensures
            match number_in_range(self@, 0, u16::MAX as int) {
                Some(v) => r == Some(v as u16),
                None => r is None,
            },
    {
        match self.as_u128() {
            Some(v) => if v <= 0xffff {
                Some(v as u16)
            } else {
                None
            },
            None => None,
        }
    }

    /// The value as a `u32`, if it is an integer that fits.
    pub fn as_u32(&self) -> (r: Option<u32>)
        ensures
            match number_in_range(self@, 0, u32::MAX as int) {
                Some(v) => r == Some(v as u32),
                None => r is None,
            },
    {
        match self.as_u128() {
            Some(v) => if v <= 0xffff_ffff {
                Some(v as u32)
            } else {
                None
            },
            None => None,
        }
    }

    /// The value as a `u64`, if it is an integer that fits.
    pub fn as_u64(&self) -> (r: Option<u64>)
        ensures
            match number_in_range(self@, 0, u64::MAX as int) {
                Some(v) => r == Some(v as u64),
                None => r is None,
            },
    {
        match self.as_u128() {
            Some(v) => if v <= 0xffff_ffff_ffff_ffff {
                Some(v as u64)
            } else {
                None
            },
            None => None,
        }
    }

    /// The value as an `i8`, if it is an integer that fits.
    pub fn as_i8(&self) -> (r: Option<i8>)
        ensures
            match number_in_range(self@, i8::MIN as int, i8::MAX as int) {
                Some(v) => r == Some(v as i8),
                None => r is None,
            },
    {
        match self.as_i128() {
            Some(v) => if -0x80 <= v && v <= 0x7f {
                Some(v as i8)
            } else {
                None
            },
            None => None,
        }
    }

    /// The value as an `i16`, if it is an integer that fits.
    pub fn as_i16(&self) -> (r: Option<i16>)
        ensures
            match number_in_range(self@, i16::MIN as int, i16::MAX as int) {
                Some(v) => r == Some(v as i16),
                None => r is None,
            },
    {
        match self.as_i128() {
            Some(v) => if -0x8000 <= v && v <= 0x7fff {
                Some(v as i16)
            } else {
                None
            },
            None => None,
        }
    }

    /// The value as an `i32`, if it is an integer that fits.
    pub fn as_i32(&self) -> (r: Option<i32>)
        ensures
            match number_in_range(self@, i32::MIN as int, i32::MAX as int) {
                Some(v) => r == Some(v as i32),
                None => r is None,
            },
    {
        match self.as_i128() {
            Some(v) => if -0x8000_0000 <= v && v <= 0x7fff_ffff {
                Some(v as i32)
            } else {
                None
            },
            None => None,
        }
    }

    /// The value as an `i64`, if it is an integer that fits.
    pub fn as_i64(&self) -> (r: Option<i64>)
        ensures
            match number_in_range(self@, i64::MIN as int, i64::MAX as int) {
                Some(v) => r == Some(v as i64),
                None => r is None,
            },
    {
        match self.as_i128() {
            Some(v) => if -0x8000_0000_0000_0000 <= v && v <= 0x7fff_ffff_ffff_ffff {
                Some(v as i64)
            } else {
                None
            },
            None => None,
        }
    }
}

/// Reading an integer between `lo` and `hi` at `pos`: a number is read, and it must be an
/// integer in that range.
pub open spec fn spec_read_integer(inp: Seq<u8>, pos: int, lo: int, hi: int) -> Result<int, DeError> {
    match spec_parse_number(inp, pos).0 {
        Err(e) => Err(e),
        Ok(n) => match number_in_range(n, lo, hi) {
            Some(v) => Ok(v),
            None => Err(DeError::TypeMismatch),
        },
    }
}

/// Values that can be read from JSON bytes.
pub trait Deserialize: Sized + View {
    /// What reading a value of this type from the bytes at `pos` gives.
    spec fn deserialize_spec(inp: Seq<u8>, pos: int) -> Result<Self::V, DeError>;

    /// Reads a value of this type.
    fn deserialize(de: &mut JsonDeserializer) -> (r: Result<Self, DeError>)
        requires
            old(de).wf(),
        ensures
            final(de).wf(),
            result_view(r) == Self::deserialize_spec(old(de).input(), old(de).position()),
    ;
}

impl Deserialize for () {
    open spec fn deserialize_spec(inp: Seq<u8>, pos: int) -> Result<(), DeError> {
        spec_parse_null(inp, pos).0
    }

    fn deserialize(de: &mut JsonDeserializer) -> (r: Result<(), DeError>) {
        de.parse_null()
    }
}

impl Deserialize for bool {
    open spec fn deserialize_spec(inp: Seq<u8>, pos: int) -> Result<bool, DeError> {
        spec_parse_bool(inp, pos).0
    }

    fn deserialize(de: &mut JsonDeserializer) -> (r: Result<bool, DeError>) {
        de.parse_bool()
    }
}

impl Deserialize for String {
    open spec fn deserialize_spec(inp: Seq<u8>, pos: int) -> Result<Seq<char>, DeError> {
        spec_parse_string(inp, pos).0
    }

    fn deserialize(de: &mut JsonDeserializer) -> (r: Result<String, DeError>) {
        de.parse_string()
    }
}

impl Deserialize for JsonValue {
    open spec fn deserialize_spec(inp: Seq<u8>, pos: int) -> Result<JsonView, DeError> {
        spec_parse_json(inp, pos).0
    }

    fn deserialize(de: &mut JsonDeserializer) -> (r: Result<JsonValue, DeError>) {
        de.parse_json()
    }
}

impl Deserialize for char {
    /// A string of exactly one character whose UTF-8 form is one byte.
    open spec fn deserialize_spec(inp: Seq<u8>, pos: int) -> Result<char, DeError> {
        match spec_parse_string(inp, pos).0 {
            Err(e) => Err(e),
            Ok(s) => if s.len() == 0 {
                Err(DeError::ExpectedCharButEmpty)
            } else if s.len() > 1 || (s[0] as u32) >= 0x80 {
                Err(DeError::ExpectedSingleChar)
            } else {
                Ok(s[0])
            },
        }
    }

    fn deserialize(de: &mut JsonDeserializer) -> (r: Result<char, DeError>) {
        match de.parse_string() {
            Err(e) => Err(e),
            Ok(s) => {
                let cs = crate::text::str_to_chars(s.as_str());
                if cs.len() == 0 {
                    Err(DeError::ExpectedCharButEmpty)
                } else if cs.len() > 1 || (cs[0] as u32) >= 0x80 {
                    Err(DeError::ExpectedSingleChar)
                } else {
                    Ok(cs[0])
                }
            },
        }
    }
}

} // verus!

verus! {
impl Deserialize for u8 {
    open spec fn deserialize_spec(inp: Seq<u8>, pos: int) -> Result<u8, DeError> {
        match spec_read_integer(inp, pos, 0, u8::MAX as int) {
            Ok(v) => Ok(v as u8),
            Err(e) => Err(e),
        }
    }

    fn deserialize(de: &mut JsonDeserializer) -> (r: Result<u8, DeError>) {
        match de.parse_number() {
            Ok(n) => match n.as_u8() {
                Some(v) => Ok(v),
                None => Err(DeError::TypeMismatch),
            },
            Err(e) => Err(e),
        }
    }
}

impl Deserialize for u16 {
    open spec fn deserialize_spec(inp: Seq<u8>, pos: int) -> Result<u16, DeError> {
        match spec_read_integer(inp, pos, 0, u16::MAX as int) {
            Ok(v) => Ok(v as u16),
            Err(e) => Err(e),
        }
    }

    fn deserialize(de: &mut JsonDeserializer) -> (r: Result<u16, DeError>) {
        match de.parse_number() {
            Ok(n) => match n.as_u16() {
                Some(v) => Ok(v),
                None => Err(DeError::TypeMismatch),
            },
            Err(e) => Err(e),
        }
    }
}

impl Deserialize for u32 {
    open spec fn deserialize_spec(inp: Seq<u8>, pos: int) -> Result<u32, DeError> {
        match spec_read_integer(inp, pos, 0, u32::MAX as int) {
            Ok(v) => Ok(v as u32),
            Err(e) => Err(e),
        }
    }

    fn deserialize(de: &mut JsonDeserializer) -> (r: Result<u32, DeError>) {
        match de.parse_number() {
            Ok(n) => match n.as_u32() {
                Some(v) => Ok(v),
                None => Err(DeError::TypeMismatch),
            },
            Err(e) => Err(e),
        }
    }
}

impl Deserialize for u64 {
    open spec fn deserialize_spec(inp: Seq<u8>, pos: int) -> Result<u64, DeError> {
        match spec_read_integer(inp, pos, 0, u64::MAX as int) {
            Ok(v) => Ok(v as u64),
            Err(e) => Err(e),
        }
    }

    fn deserialize(de: &mut JsonDeserializer) -> (r: Result<u64, DeError>) {
        match de.parse_number() {
            Ok(n) => match n.as_u64() {
                Some(v) => Ok(v),
                None => Err(DeError::TypeMismatch),
            },
            Err(e) => Err(e),
        }
    }
}

impl Deserialize for u128 {
    open spec fn deserialize_spec(inp: Seq<u8>, pos: int) -> Result<u128, DeError> {
        match spec_read_integer(inp, pos, 0, u128::MAX as int) {
            Ok(v) => Ok(v as u128),
            Err(e) => Err(e),
        }
    }

    fn deserialize(de: &mut JsonDeserializer) -> (r: Result<u128, DeError>) {
        match de.parse_number() {
            Ok(n) => match n.as_u128() {
                Some(v) => Ok(v),
                None => Err(DeError::TypeMismatch),
            },
            Err(e) => Err(e),
        }
    }
}

impl Deserialize for i8 {
    open spec fn deserialize_spec(inp: Seq<u8>, pos: int) -> Result<i8, DeError> {
        match spec_read_integer(inp, pos, i8::MIN as int, i8::MAX as int) {
            Ok(v) => Ok(v as i8),
            Err(e) => Err(e),
        }
    }

    fn deserialize(de: &mut JsonDeserializer) -> (r: Result<i8, DeError>) {
        match de.parse_number() {
            Ok(n) => match n.as_i8() {
                Some(v) => Ok(v),
                None => Err(DeError::TypeMismatch),
            },
            Err(e) => Err(e),
        }
    }
}

impl Deserialize for i16 {
    open spec fn deserialize_spec(inp: Seq<u8>, pos: int) -> Result<i16, DeError> {
        match spec_read_integer(inp, pos, i16::MIN as int, i16::MAX as int) {
            Ok(v) => Ok(v as i16),
            Err(e) => Err(e),
        }
    }

    fn deserialize(de: &mut JsonDeserializer) -> (r: Result<i16, DeError>) {
        match de.parse_number() {
            Ok(n) => match n.as_i16() {
                Some(v) => Ok(v),
                None => Err(DeError::TypeMismatch),
            },
            Err(e) => Err(e),
        }
    }
}

impl Deserialize for i32 {
    open spec fn deserialize_spec(inp: Seq<u8>, pos: int) -> Result<i32, DeError> {
        match spec_read_integer(inp, pos, i32::MIN as int, i32::MAX as int) {
            Ok(v) => Ok(v as i32),
            Err(e) => Err(e),
        }
    }

    fn deserialize(de: &mut JsonDeserializer) -> (r: Result<i32, DeError>) {
        match de.parse_number() {
            Ok(n) => match n.as_i32() {
                Some(v) => Ok(v),
                None => Err(DeError::TypeMismatch),
            },
            Err(e) => Err(e),
        }
    }
}

impl Deserialize for i64 {
    open spec fn deserialize_spec(inp: Seq<u8>, pos: int) -> Result<i64, DeError> {
        match spec_read_integer(inp, pos, i64::MIN as int, i64::MAX as int) {
            Ok(v) => Ok(v as i64),
            Err(e) => Err(e),
        }
    }

    fn deserialize(de: &mut JsonDeserializer) -> (r: Result<i64, DeError>) {
        match de.parse_number() {
            Ok(n) => match n.as_i64() {
                Some(v) => Ok(v),
                None => Err(DeError::TypeMismatch),
            },
            Err(e) => Err(e),
        }
    }
}

impl Deserialize for i128 {
    open spec fn deserialize_spec(inp: Seq<u8>, pos: int) -> Result<i128, DeError> {
        match spec_read_integer(inp, pos, i128::MIN as int, i128::MAX as int) {
            Ok(v) => Ok(v as i128),
            Err(e) => Err(e),
        }
    }

    fn deserialize(de: &mut JsonDeserializer) -> (r: Result<i128, DeError>) {
        match de.parse_number() {
            Ok(n) => match n.as_i128() {
                Some(v) => Ok(v),
                None => Err(DeError::TypeMismatch),
            },
            Err(e) => Err(e),
        }
    }
}

/// Reads a value of type `T` from the start of the bytes; bytes after the value are not looked at.
pub fn from_bytes<T: Deserialize>(bytes: &[u8]) -> (r: Result<T, DeError>)
    ensures
        result_view(r) == T::deserialize_spec(bytes@, 0),
{
    let mut de = JsonDeserializer::new(bytes);
    T::deserialize(&mut de)
}

/// Reads a value of type `T` from the start of the UTF-8 bytes of a text.
pub fn from_str<T: Deserialize>(s: &str) -> (r: Result<T, DeError>)
    ensures
        result_view(r) == T::deserialize_spec(vstd::utf8::encode_utf8(s@), 0),
{
    let bytes = s.as_bytes_vec();
    from_bytes(bytes.as_slice())
}

} // verus!
