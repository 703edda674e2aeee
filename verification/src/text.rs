//! Conversions between text and sequences of characters and bytes.
use vstd::prelude::*;
use vstd::utf8::*;

verus! {

/// `String::push` appends one character.
#[verifier::external_body]
pub(crate) fn string_push(s: &mut String, c: char)
    ensures
        final(s)@ == old(s)@.push(c),
{
    s.push(c);
}

/// `String::from_utf8`: succeeds exactly when the bytes are valid UTF-8, and then the
/// text is the decoding of the bytes.
#[verifier::external_body]
pub(crate) fn string_from_utf8(bytes: Vec<u8>) -> (r: Option<String>)
    ensures
        r is Some <==> valid_utf8(bytes@),
        r matches Some(s) ==> s@ == decode_utf8(bytes@),
{
    String::from_utf8(bytes).ok()
}

/// Appends characters to a string.
pub fn push_chars(out: &mut String, cs: &[char])
    ensures
        final(out)@ == old(out)@ + cs@,
{
    let mut i: usize = 0;
    while i < cs.len()
        invariant
            i <= cs@.len(),
            out@ == old(out)@ + cs@.take(i as int),
        decreases cs@.len() - i,
    {
        string_push(out, cs[i]);
        i = i + 1;
        assert(out@ =~= old(out)@ + cs@.take(i as int));
    }
    assert(cs@.take(cs@.len() as int) =~= cs@);
}

/// Appends a text to a string.
pub fn push_str(out: &mut String, s: &str)
    ensures
        final(out)@ == old(out)@ + s@,
{
    let cs = str_to_chars(s);
    push_chars(out, cs.as_slice());
}

/// The decimal digits of a number.
pub open spec fn decimal_chars(n: nat) -> Seq<char>
    decreases n,
{
    if n < 10 {
        seq![digit_char(n)]
    } else {
        decimal_chars(n / 10).push(digit_char(n % 10))
    }
}

/// The digit of a number below ten.
pub open spec fn digit_char(d: nat) -> char {
    if d == 0 { '0' } else if d == 1 { '1' } else if d == 2 { '2' } else if d == 3 { '3' } else if d == 4 {
        '4'
    } else if d == 5 { '5' } else if d == 6 { '6' } else if d == 7 { '7' } else if d == 8 { '8' } else { '9' }
}

fn exec_digit_char(d: u128) -> (c: char)
    requires
        d < 10,
    ensures
        c == digit_char(d as nat),
{
    if d == 0 { '0' } else if d == 1 { '1' } else if d == 2 { '2' } else if d == 3 { '3' } else if d == 4 {
        '4'
    } else if d == 5 { '5' } else if d == 6 { '6' } else if d == 7 { '7' } else if d == 8 { '8' } else { '9' }
}

/// Appends the decimal digits of a number.
pub fn push_decimal_chars(out: &mut String, n: u128)
    ensures
        final(out)@ == old(out)@ + decimal_chars(n as nat),
    decreases n,
{
    if n >= 10 {
        push_decimal_chars(out, n / 10);
    }
    let c = exec_digit_char(n % 10);
    string_push(out, c);
    assert(out@ =~= old(out)@ + decimal_chars(n as nat));
}

/// The characters of a string slice, in order.
pub fn str_to_chars(s: &str) -> (v: Vec<char>)
    ensures
        v@ == s@,
{
    let mut v: Vec<char> = Vec::new();
    for c in it: s.chars()
        invariant
            v@ == it.seq().take(it.index() as int),
            it.seq() == s@,
    {
        v.push(c);
    }
    v
}

/// Builds a string from a slice of characters.
pub fn chars_to_string(cs: &[char]) -> (s: String)
    ensures
        s@ == cs@,
{
    let mut s = String::new();
    let mut i: usize = 0;
    while i < cs.len()
        invariant
            i <= cs@.len(),
            s@ == cs@.take(i as int),
        decreases cs@.len() - i,
    {
        string_push(&mut s, cs[i]);
        i = i + 1;
        assert(cs@.take(i as int) =~= cs@.take((i - 1) as int).push(cs@[i - 1]));
    }
    assert(cs@.take(cs@.len() as int) =~= cs@);
    s
}

/// Builds a string from the characters `cs[from..to]`.
pub fn subrange_to_string(cs: &[char], from: usize, to: usize) -> (s: String)
    requires
        from <= to <= cs@.len(),
    ensures
        s@ == cs@.subrange(from as int, to as int),
{
    let mut s = String::new();
    let mut i: usize = from;
    while i < to
        invariant
            from <= i <= to <= cs@.len(),
            s@ == cs@.subrange(from as int, i as int),
        decreases to - i,
    {
        string_push(&mut s, cs[i]);
        i = i + 1;
        assert(cs@.subrange(from as int, i as int) =~= cs@.subrange(from as int, (i - 1) as int).push(cs@[i - 1]));
    }
    s
}

/// A copy of a string.
pub fn copy_string(s: &str) -> (r: String)
    ensures
        r@ == s@,
{
    s.to_owned()
}

/// Index of the first occurrence of `c` in `cs[from..]`.
pub open spec fn first_index_from(cs: Seq<char>, c: char, from: int) -> Option<int>
    decreases cs.len() - from,
{
    if from < 0 || from >= cs.len() {
        None
    } else if cs[from] == c {
        Some(from)
    } else {
        first_index_from(cs, c, from + 1)
    }
}

/// Index of the first occurrence of `c` in `cs`.
pub open spec fn first_index(cs: Seq<char>, c: char) -> Option<int> {
    first_index_from(cs, c, 0)
}

pub proof fn lemma_first_index_from(cs: Seq<char>, c: char, from: int)
    requires
        0 <= from,
    ensures
        match first_index_from(cs, c, from) {
            Some(i) => from <= i < cs.len() && cs[i] == c && forall|j: int| from <= j < i ==> cs[j] != c,
            None => forall|j: int| from <= j < cs.len() ==> cs[j] != c,
        },
    decreases cs.len() - from,
{
    if from < cs.len() && cs[from] != c {
        lemma_first_index_from(cs, c, from + 1);
    }
}

/// The first occurrence of `c` is at `i` when `cs[i]` is `c` and no earlier character is.
pub proof fn lemma_first_index_is(cs: Seq<char>, c: char, i: int)
    requires
        0 <= i < cs.len(),
        cs[i] == c,
        forall|j: int| 0 <= j < i ==> cs[j] != c,
    ensures
        first_index(cs, c) == Some(i),
{
    lemma_first_index_from(cs, c, 0);
}

/// `c` has no first occurrence when no character is `c`.
pub proof fn lemma_first_index_none(cs: Seq<char>, c: char)
    requires
        forall|j: int| 0 <= j < cs.len() ==> cs[j] != c,
    ensures
        first_index(cs, c) is None,
{
    lemma_first_index_from(cs, c, 0);
}

/// Finds the first occurrence of `c` in `cs[from..]`.
pub fn find_char_from(cs: &[char], c: char, from: usize) -> (r: Option<usize>)
    ensures
        match r {
            Some(i) => first_index_from(cs@, c, from as int) == Some(i as int) && from <= i
                < cs@.len() && cs@[i as int] == c,
            None => first_index_from(cs@, c, from as int) is None,
        },
{
    let mut i = from;
    proof { lemma_first_index_from(cs@, c, from as int); }
    while i < cs.len()
        invariant
            from <= i,
            forall|j: int| from <= j < i && j < cs@.len() ==> cs@[j] != c,
        decreases cs@.len() - i,
    {
        if cs[i] == c {
            proof { lemma_first_index_from(cs@, c, from as int); }
            return Some(i);
        }
        i = i + 1;
    }
    proof { lemma_first_index_from(cs@, c, from as int); }
    None
}

/// Finds the first occurrence of `c` in `cs`.
pub fn find_char(cs: &[char], c: char) -> (r: Option<usize>)
    ensures
        match r {
            Some(i) => first_index(cs@, c) == Some(i as int) && i < cs@.len() && cs@[i as int] == c,
            None => first_index(cs@, c) is None,
        },
{
    find_char_from(cs, c, 0)
}


/// ASCII lower-casing of one character.
pub open spec fn ascii_lower(c: char) -> char {
    if 'A' <= c <= 'Z' {
        ((c as u32 + 32) as u8) as char
    } else {
        c
    }
}

/// Two texts are equal when ASCII letters are compared without regard to case.
pub open spec fn eq_ignore_ascii_case(a: Seq<char>, b: Seq<char>) -> bool {
    a.len() == b.len() && forall|i: int| 0 <= i < a.len() ==> ascii_lower(#[trigger] a[i]) == ascii_lower(b[i])
}

pub(crate) fn exec_ascii_lower(c: char) -> (r: char)
    ensures
        r == ascii_lower(c),
{
    if 'A' <= c && c <= 'Z' {
        ((c as u32 + 32) as u8) as char
    } else {
        c
    }
}

/// Compares two character slices, ignoring the case of ASCII letters.
pub fn chars_eq_ignore_ascii_case(a: &[char], b: &[char]) -> (r: bool)
    ensures
        r == eq_ignore_ascii_case(a@, b@),
{
    if a.len() != b.len() {
        return false;
    }
    let mut i: usize = 0;
    while i < a.len()
        invariant
            a@.len() == b@.len(),
            i <= a@.len(),
            forall|j: int| 0 <= j < i ==> ascii_lower(#[trigger] a@[j]) == ascii_lower(b@[j]),
        decreases a@.len() - i,
    {
        if exec_ascii_lower(a[i]) != exec_ascii_lower(b[i]) {
            return false;
        }
        i = i + 1;
    }
    true
}

/// `char::is_whitespace`: the Unicode `White_Space` property.
pub open spec fn is_whitespace(c: char) -> bool {
    let u = c as u32;
    (0x09 <= u <= 0x0D) || u == 0x20 || u == 0x85 || u == 0xA0 || u == 0x1680 || (0x2000 <= u
        <= 0x200A) || u == 0x2028 || u == 0x2029 || u == 0x202F || u == 0x205F || u == 0x3000
}

pub fn exec_is_whitespace(c: char) -> (r: bool)
    ensures
        r == is_whitespace(c),
{
    let u = c as u32;
    (0x09 <= u && u <= 0x0D) || u == 0x20 || u == 0x85 || u == 0xA0 || u == 0x1680 || (0x2000
        <= u && u <= 0x200A) || u == 0x2028 || u == 0x2029 || u == 0x202F || u == 0x205F || u
        == 0x3000
}

/// Index of the first character of `cs` that is not whitespace (or `cs.len()`).
pub open spec fn trim_start_index(cs: Seq<char>, from: int) -> int
    decreases cs.len() - from,
{
    if from < 0 || from >= cs.len() {
        cs.len() as int
    } else if is_whitespace(cs[from]) {
        trim_start_index(cs, from + 1)
    } else {
        from
    }
}

/// One past the index of the last character of `cs[..end]` that is not whitespace (or 0).
pub open spec fn trim_end_index(cs: Seq<char>, end: int) -> int
    decreases end,
{
    if end <= 0 || end > cs.len() {
        0
    } else if is_whitespace(cs[end - 1]) {
        trim_end_index(cs, end - 1)
    } else {
        end
    }
}

/// `str::trim`: the text without leading and trailing whitespace.
pub open spec fn trim(cs: Seq<char>) -> Seq<char> {
    let start = trim_start_index(cs, 0);
    let end = trim_end_index(cs, cs.len() as int);
    if start >= end {
        Seq::empty()
    } else {
        cs.subrange(start, end)
    }
}

pub proof fn lemma_trim_start(cs: Seq<char>, from: int)
    requires
        0 <= from <= cs.len(),
    ensures
        from <= trim_start_index(cs, from) <= cs.len(),
        forall|j: int| from <= j < trim_start_index(cs, from) ==> is_whitespace(#[trigger] cs[j]),
        trim_start_index(cs, from) < cs.len() ==> !is_whitespace(cs[trim_start_index(cs, from)]),
    decreases cs.len() - from,
{
    if from < cs.len() && is_whitespace(cs[from]) {
        lemma_trim_start(cs, from + 1);
    }
}

pub proof fn lemma_trim_end(cs: Seq<char>, end: int)
    requires
        0 <= end <= cs.len(),
    ensures
        0 <= trim_end_index(cs, end) <= end,
        forall|j: int| trim_end_index(cs, end) <= j < end ==> is_whitespace(#[trigger] cs[j]),
        trim_end_index(cs, end) > 0 ==> !is_whitespace(cs[trim_end_index(cs, end) - 1]),
    decreases end,
{
    if end > 0 && is_whitespace(cs[end - 1]) {
        lemma_trim_end(cs, end - 1);
    }
}

/// Bounds of `trim(cs)` inside `cs`, as `(start, end)` with `start <= end`.
pub fn trim_bounds(cs: &[char]) -> (r: (usize, usize))
    ensures
        r.0 <= r.1 <= cs@.len(),
        trim(cs@) == cs@.subrange(r.0 as int, r.1 as int),
{
    proof {
        lemma_trim_start(cs@, 0);
        lemma_trim_end(cs@, cs@.len() as int);
    }
    let mut start: usize = 0;
    while start < cs.len() && exec_is_whitespace(cs[start])
        invariant
            start <= cs@.len(),
            trim_start_index(cs@, 0) == trim_start_index(cs@, start as int),
        decreases cs@.len() - start,
    {
        start = start + 1;
    }
    let mut end: usize = cs.len();
    while end > 0 && exec_is_whitespace(cs[end - 1])
        invariant
            end <= cs@.len(),
            trim_end_index(cs@, cs@.len() as int) == trim_end_index(cs@, end as int),
        decreases end,
    {
        end = end - 1;
    }
    if start >= end {
        (start, start)
    } else {
        (start, end)
    }
}

/// The trimmed text of `s`.
pub fn trim_string(cs: &[char]) -> (s: String)
    ensures
        s@ == trim(cs@),
{
    let (a, b) = trim_bounds(cs);
    subrange_to_string(cs, a, b)
}

/// The value of a decimal digit.
pub open spec fn digit_value(c: char) -> nat {
    (c as u32 - 48) as nat
}

pub open spec fn is_digit(c: char) -> bool {
    '0' <= c <= '9'
}

/// The number written by a sequence of decimal digits.
pub open spec fn decimal_value(ds: Seq<char>) -> nat
    decreases ds.len(),
{
    if ds.len() == 0 {
        0
    } else {
        decimal_value(ds.drop_last()) * 10 + digit_value(ds.last())
    }
}

/// The text without one leading `+`.
pub open spec fn strip_plus(cs: Seq<char>) -> Seq<char> {
    if cs.len() > 0 && cs[0] == '+' {
        cs.drop_first()
    } else {
        cs
    }
}

/// `u16::from_str`: an optional `+` sign, then at least one decimal digit, with a value that
/// fits in 16 bits.
pub open spec fn parse_u16(cs: Seq<char>) -> Option<u16> {
    let ds = strip_plus(cs);
    if ds.len() == 0 || !(forall|i: int| 0 <= i < ds.len() ==> is_digit(#[trigger] ds[i])) {
        None
    } else if decimal_value(ds) > 65535 {
        None
    } else {
        Some(decimal_value(ds) as u16)
    }
}

proof fn lemma_decimal_monotone(ds: Seq<char>, k: int)
    requires
        0 <= k <= ds.len(),
        forall|i: int| 0 <= i < ds.len() ==> is_digit(#[trigger] ds[i]),
    ensures
        decimal_value(ds.take(k)) <= decimal_value(ds),
    decreases ds.len() - k,
{
    if k < ds.len() {
        lemma_decimal_monotone(ds, k + 1);
        assert(ds.take(k + 1).drop_last() =~= ds.take(k));
    } else {
        assert(ds.take(k) =~= ds);
    }
}

/// Parses a port number, as `u16::from_str` does.
pub fn parse_u16_chars(cs: &[char], from: usize) -> (r: Option<u16>)
    requires
        from <= cs@.len(),
    ensures
        r == parse_u16(cs@.subrange(from as int, cs@.len() as int)),
{
    let ghost whole = cs@.subrange(from as int, cs@.len() as int);
    let mut i = from;
    if i < cs.len() && cs[i] == '+' {
        i = i + 1;
    }
    let ghost ds = cs@.subrange(i as int, cs@.len() as int);
    assert(ds =~= strip_plus(whole));
    if i >= cs.len() {
        return None;
    }
    let start = i;
    let mut value: u32 = 0;
    while i < cs.len()
        invariant
            start <= i <= cs@.len(),
            ds == cs@.subrange(start as int, cs@.len() as int),
            whole == cs@.subrange(from as int, cs@.len() as int),
            ds == strip_plus(whole),
            ds.len() > 0,
            forall|j: int| start <= j < i ==> is_digit(#[trigger] cs@[j]),
            value as nat == decimal_value(cs@.subrange(start as int, i as int)),
            value <= 65535,
        decreases cs@.len() - i,
    {
        let c = cs[i];
        if !('0' <= c && c <= '9') {
            assert(!is_digit(ds[i - start]));
            return None;
        }
        assert(cs@.subrange(start as int, i + 1).drop_last() =~= cs@.subrange(start as int, i as int));
        value = value * 10 + (c as u32 - 48);
        i = i + 1;
        if value > 65535 {
            proof {
                if forall|j: int| 0 <= j < ds.len() ==> is_digit(#[trigger] ds[j]) {
                    lemma_decimal_monotone(ds, (i - start) as int);
                    assert(ds.take((i - start) as int) =~= cs@.subrange(start as int, i as int));
                }
            }
            return None;
        }
    }
    assert(cs@.subrange(start as int, i as int) =~= ds);
    Some(value as u16)
}


/// `u64::from_str`: an optional `+` sign, then at least one decimal digit, with a value that
/// fits in 64 bits.
pub open spec fn parse_u64(cs: Seq<char>) -> Option<u64> {
    let ds = strip_plus(cs);
    if ds.len() == 0 || !(forall|i: int| 0 <= i < ds.len() ==> is_digit(#[trigger] ds[i])) {
        None
    } else if decimal_value(ds) > u64::MAX {
        None
    } else {
        Some(decimal_value(ds) as u64)
    }
}

/// Parses a number, as `u64::from_str` does.
pub fn parse_u64_chars(cs: &[char], from: usize) -> (r: Option<u64>)
    requires
        from <= cs@.len(),
    ensures
        r == parse_u64(cs@.subrange(from as int, cs@.len() as int)),
{
    let ghost whole = cs@.subrange(from as int, cs@.len() as int);
    let mut i = from;
    if i < cs.len() && cs[i] == '+' {
        i = i + 1;
    }
    let ghost ds = cs@.subrange(i as int, cs@.len() as int);
    assert(ds =~= strip_plus(whole));
    if i >= cs.len() {
        return None;
    }
    let start = i;
    let mut value: u128 = 0;
    while i < cs.len()
        invariant
            start <= i <= cs@.len(),
            ds == cs@.subrange(start as int, cs@.len() as int),
            whole == cs@.subrange(from as int, cs@.len() as int),
            ds == strip_plus(whole),
            ds.len() > 0,
            forall|j: int| start <= j < i ==> is_digit(#[trigger] cs@[j]),
            value as nat == decimal_value(cs@.subrange(start as int, i as int)),
            value <= u64::MAX,
        decreases cs@.len() - i,
    {
        let c = cs[i];
        if !('0' <= c && c <= '9') {
            assert(!is_digit(ds[i - start]));
            return None;
        }
        assert(cs@.subrange(start as int, i + 1).drop_last() =~= cs@.subrange(start as int, i as int));
        value = value * 10 + (c as u32 - 48) as u128;
        i = i + 1;
        if value > u64::MAX as u128 {
            proof {
                if forall|j: int| 0 <= j < ds.len() ==> is_digit(#[trigger] ds[j]) {
                    lemma_decimal_monotone(ds, (i - start) as int);
                    assert(ds.take((i - start) as int) =~= cs@.subrange(start as int, i as int));
                }
            }
            return None;
        }
    }
    assert(cs@.subrange(start as int, i as int) =~= ds);
    Some(value as u64)
}

/// A copy of the characters `cs[from..to]`.
pub fn copy_chars(cs: &[char], from: usize, to: usize) -> (v: Vec<char>)
    requires
        from <= to <= cs@.len(),
    ensures
        v@ == cs@.subrange(from as int, to as int),
{
    let mut v: Vec<char> = Vec::new();
    let mut i: usize = from;
    while i < to
        invariant
            from <= i <= to <= cs@.len(),
            v@ == cs@.subrange(from as int, i as int),
        decreases to - i,
    {
        v.push(cs[i]);
        i = i + 1;
        assert(v@ =~= cs@.subrange(from as int, i as int));
    }
    v
}

/// Unicode lower-casing of a text, as `str::to_lowercase` computes it.
pub uninterp spec fn str_lowercase(s: Seq<char>) -> Seq<char>;

/// Whether every character of a text is ASCII.
pub open spec fn is_ascii_chars(s: Seq<char>) -> bool {
    forall|i: int| 0 <= i < s.len() ==> (#[trigger] s[i] as u32) < 0x80
}

/// The text with its ASCII upper-case letters made lower-case.
pub open spec fn ascii_lowercase(s: Seq<char>) -> Seq<char> {
    s.map_values(|c: char| ascii_lower(c))
}

/// `str::to_lowercase`: the Unicode lower-case form of the text, named `str_lowercase`. The
/// Unicode lower-case mapping takes `A`-`Z` to `a`-`z` and keeps every other ASCII character, so
/// an ASCII text comes back with its ASCII letters lower-cased.
#[verifier::external_body]
pub(crate) fn to_lowercase(s: &str) -> (r: String)
    ensures
        r@ == str_lowercase(s@),
        is_ascii_chars(s@) ==> r@ == ascii_lowercase(s@),
{
    s.to_lowercase()
}

/// Number of bytes of the UTF-8 encoding of a character.
pub open spec fn utf8_width(c: char) -> nat {
    let u = c as u32;
    if u < 0x80 {
        1
    } else if u < 0x800 {
        2
    } else if u < 0x10000 {
        3
    } else {
        4
    }
}

/// Number of bytes of the UTF-8 encoding of a text.
pub open spec fn utf8_len(cs: Seq<char>) -> nat
    decreases cs.len(),
{
    if cs.len() == 0 {
        0
    } else {
        utf8_len(cs.drop_last()) + utf8_width(cs.last())
    }
}

fn exec_utf8_width(c: char) -> (r: u128)
    ensures
        r == utf8_width(c),
{
    let u = c as u32;
    if u < 0x80 {
        1
    } else if u < 0x800 {
        2
    } else if u < 0x10000 {
        3
    } else {
        4
    }
}

proof fn lemma_utf8_len_bound(cs: Seq<char>)
    ensures
        utf8_len(cs) <= 4 * cs.len(),
    decreases cs.len(),
{
    if cs.len() > 0 {
        lemma_utf8_len_bound(cs.drop_last());
    }
}

/// The UTF-8 byte length of a text.
pub fn chars_utf8_len(cs: &[char]) -> (r: u128)
    ensures
        r == utf8_len(cs@),
        r <= 4 * cs@.len(),
{
    proof {
        lemma_utf8_len_bound(cs@);
    }
    let mut acc: u128 = 0;
    let mut i: usize = 0;
    while i < cs.len()
        invariant
            i <= cs@.len(),
            acc == utf8_len(cs@.take(i as int)),
        decreases cs@.len() - i,
    {
        proof {
            lemma_utf8_len_bound(cs@.take(i as int));
            assert(cs@.take(i + 1).drop_last() =~= cs@.take(i as int));
        }
        acc = acc + exec_utf8_width(cs[i]);
        i = i + 1;
    }
    assert(cs@.take(cs@.len() as int) =~= cs@);
    acc
}

/// The character index at which the UTF-8 encoding of `cs` reaches `offset` bytes, when
/// `offset` falls on a character boundary.
pub open spec fn char_index_at_byte(cs: Seq<char>, offset: int) -> Option<int> {
    if exists|k: int| 0 <= k <= cs.len() && utf8_len(cs.take(k)) == offset {
        Some(choose|k: int| 0 <= k <= cs.len() && utf8_len(cs.take(k)) == offset)
    } else {
        None
    }
}

proof fn lemma_utf8_len_strict(cs: Seq<char>, a: int, b: int)
    requires
        0 <= a < b <= cs.len(),
    ensures
        utf8_len(cs.take(a)) < utf8_len(cs.take(b)),
    decreases b - a,
{
    assert(cs.take(b).drop_last() =~= cs.take(b - 1));
    if a < b - 1 {
        lemma_utf8_len_strict(cs, a, b - 1);
    }
}

/// Finds the character index whose prefix has the given UTF-8 byte length.
pub fn find_char_index_at_byte(cs: &[char], offset: u128) -> (r: Option<usize>)
    ensures
        match r {
            Some(k) => char_index_at_byte(cs@, offset as int) == Some(k as int),
            None => char_index_at_byte(cs@, offset as int) is None,
        },
{
    let mut acc: u128 = 0;
    let mut i: usize = 0;
    while i < cs.len() && acc < offset
        invariant
            i <= cs@.len(),
            acc == utf8_len(cs@.take(i as int)),
            i > 0 ==> utf8_len(cs@.take(i - 1)) < offset,
        decreases cs@.len() - i,
    {
        proof {
            lemma_utf8_len_bound(cs@.take(i as int));
            assert(cs@.take(i + 1).drop_last() =~= cs@.take(i as int));
        }
        acc = acc + exec_utf8_width(cs[i]);
        i = i + 1;
    }
    proof {
        assert forall|k: int| 0 <= k <= cs@.len() && k != i implies utf8_len(
            #[trigger] cs@.take(k),
        ) != utf8_len(cs@.take(i as int)) by {
            if k < i {
                lemma_utf8_len_strict(cs@, k, i as int);
            } else {
                lemma_utf8_len_strict(cs@, i as int, k);
            }
        };
    }
    if acc == offset {
        Some(i)
    } else {
        proof {
            assert forall|k: int| 0 <= k <= cs@.len() implies utf8_len(#[trigger] cs@.take(k))
                != offset by {
                if k < i - 1 {
                    lemma_utf8_len_strict(cs@, k, i - 1);
                } else if k > i {
                    lemma_utf8_len_strict(cs@, i as int, k);
                    if i < cs@.len() {
                        assert(acc >= offset);
                    }
                }
            };
        }
        None
    }
}


/// Whether two character slices are equal.
pub fn chars_eq(a: &[char], b: &[char]) -> (r: bool)
    ensures
        r == (a@ == b@),
{
    if a.len() != b.len() {
        return false;
    }
    let mut i: usize = 0;
    while i < a.len()
        invariant
            a@.len() == b@.len(),
            i <= a@.len(),
            forall|j: int| 0 <= j < i ==> a@[j] == b@[j],
        decreases a@.len() - i,
    {
        if a[i] != b[i] {
            return false;
        }
        i = i + 1;
    }
    assert(a@ =~= b@);
    true
}

/// Whether two texts are equal.
pub fn str_eq(a: &str, b: &str) -> (r: bool)
    ensures
        r == (a@ == b@),
{
    let ac = str_to_chars(a);
    let bc = str_to_chars(b);
    chars_eq(ac.as_slice(), bc.as_slice())
}

/// Views of a sequence of strings.
pub open spec fn string_views(v: Seq<String>) -> Seq<Seq<char>> {
    v.map_values(|s: String| s@)
}

pub proof fn lemma_string_views_push(v: Seq<String>, x: String)
    ensures
        string_views(v.push(x)) == string_views(v).push(x@),
{
    assert(string_views(v.push(x)) =~= string_views(v).push(x@));
}

pub proof fn lemma_string_views_take(v: Seq<String>, i: int)
    requires
        0 <= i < v.len(),
    ensures
        string_views(v.take(i + 1)) == string_views(v.take(i)).push(v[i]@),
{
    assert(v.take(i + 1) =~= v.take(i).push(v[i]));
    lemma_string_views_push(v.take(i), v[i]);
}

/// Views of a sequence of string slices.
pub open spec fn str_views(v: Seq<&str>) -> Seq<Seq<char>> {
    v.map_values(|s: &str| s@)
}

pub proof fn lemma_str_views_push(v: Seq<&str>, x: &str)
    ensures
        str_views(v.push(x)) == str_views(v).push(x@),
{
    assert(str_views(v.push(x)) =~= str_views(v).push(x@));
}

pub proof fn lemma_utf8_len_ascii(cs: Seq<char>, k: int)
    requires
        0 <= k <= cs.len(),
        forall|j: int| 0 <= j < k ==> (#[trigger] cs[j] as u32) < 0x80,
    ensures
        utf8_len(cs.take(k)) == k,
    decreases k,
{
    if k > 0 {
        assert(cs.take(k).drop_last() =~= cs.take(k - 1));
        lemma_utf8_len_ascii(cs, k - 1);
        assert((cs[k - 1] as u32) < 0x80);
    }
}

/// In a text whose first `k` characters are ASCII, byte offset `k` is character index `k`.
pub proof fn lemma_char_index_at_ascii_prefix(cs: Seq<char>, k: int)
    requires
        0 <= k <= cs.len(),
        forall|j: int| 0 <= j < k ==> (#[trigger] cs[j] as u32) < 0x80,
    ensures
        char_index_at_byte(cs, k) == Some(k),
{
    lemma_utf8_len_ascii(cs, k);
    let c = choose|c: int| 0 <= c <= cs.len() && utf8_len(cs.take(c)) == k;
    if c < k {
        lemma_utf8_len_ascii(cs, c);
    } else if c > k {
        lemma_utf8_len_strict(cs, k, c);
    }
}

proof fn lemma_digit_char(d: nat)
    requires
        d < 10,
    ensures
        is_digit(digit_char(d)),
        digit_value(digit_char(d)) == d,
{
}

/// The decimal text of a number is made of digits and reads back as that number.
pub proof fn lemma_decimal_chars(n: nat)
    ensures
        decimal_chars(n).len() > 0,
        forall|i: int| 0 <= i < decimal_chars(n).len() ==> is_digit(#[trigger] decimal_chars(n)[i]),
        decimal_value(decimal_chars(n)) == n,
    decreases n,
{
    if n < 10 {
        lemma_digit_char(n);
        assert(decimal_chars(n).drop_last() =~= Seq::<char>::empty());
        assert(decimal_value(Seq::<char>::empty()) == 0);
        assert(decimal_chars(n).last() == digit_char(n));
    } else {
        lemma_decimal_chars(n / 10);
        lemma_digit_char(n % 10);
        let ds = decimal_chars(n);
        assert(ds.drop_last() =~= decimal_chars(n / 10));
        assert(ds.last() == digit_char(n % 10));
        assert(decimal_value(ds) == decimal_value(decimal_chars(n / 10)) * 10 + digit_value(digit_char(n % 10)));
        assert((n / 10) * 10 + n % 10 == n);
        assert forall|i: int| 0 <= i < ds.len() implies is_digit(#[trigger] ds[i]) by {
            if i < ds.len() - 1 {
                assert(ds[i] == decimal_chars(n / 10)[i]);
            }
        }
    }
}

/// The decimal text of a port reads back as that port.
pub proof fn lemma_parse_u16_decimal(p: u16)
    ensures
        parse_u16(decimal_chars(p as nat)) == Some(p),
{
    lemma_decimal_chars(p as nat);
    let ds = decimal_chars(p as nat);
    assert(is_digit(ds[0]));
    assert(strip_plus(ds) == ds);
}

} // verus!
