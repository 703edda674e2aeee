//! Writing JSON tokens: compact, or pretty with indentation.
use vstd::prelude::*;
use crate::json::de::{Number, NumberView};
use crate::text::{str_to_chars, string_push};

verus! {

/// The decimal digits of a number, as ASCII bytes.
pub open spec fn decimal_text(n: nat) -> Seq<u8>
    decreases n,
{
    if n < 10 {
        seq![(0x30 + n) as u8]
    } else {
        decimal_text(n / 10).push((0x30 + n % 10) as u8)
    }
}

/// The decimal text of an integer, with a `-` before a negative one.
pub open spec fn int_text(i: int) -> Seq<u8> {
    if i < 0 {
        seq![0x2du8] + decimal_text((-i) as nat)
    } else {
        decimal_text(i as nat)
    }
}

/// The text of a number: its decimal digits, or the literal text of a number with a fraction or
/// an exponent.
pub open spec fn number_text(n: NumberView) -> Seq<u8> {
    match n {
        NumberView::UInteger(u) => decimal_text(u as nat),
        NumberView::Integer(i) => int_text(i as int),
        NumberView::Float(s) => vstd::utf8::encode_utf8(s),
    }
}

/// `true` or `false`.
pub open spec fn bool_text(b: bool) -> Seq<u8> {
    if b {
        seq![0x74u8, 0x72u8, 0x75u8, 0x65u8]
    } else {
        seq![0x66u8, 0x61u8, 0x6cu8, 0x73u8, 0x65u8]
    }
}

/// `null`.
pub open spec fn null_text() -> Seq<u8> {
    seq![0x6eu8, 0x75u8, 0x6cu8, 0x6cu8]
}

fn push_decimal(out: &mut Vec<u8>, n: u128)
    ensures
        final(out)@ == old(out)@ + decimal_text(n as nat),
    decreases n,
{
    if n >= 10 {
        push_decimal(out, n / 10);
    }
    out.push((0x30 + n % 10) as u8);
    assert(out@ =~= old(out)@ + decimal_text(n as nat));
}

fn push_bytes(out: &mut Vec<u8>, bytes: &[u8])
    ensures
        final(out)@ == old(out)@ + bytes@,
{
    let mut i: usize = 0;
    while i < bytes.len()
        invariant
            i <= bytes@.len(),
            out@ == old(out)@ + bytes@.take(i as int),
        decreases bytes@.len() - i,
    {
        out.push(bytes[i]);
        i = i + 1;
        assert(out@ =~= old(out)@ + bytes@.take(i as int));
    }
    assert(bytes@.take(bytes@.len() as int) =~= bytes@);
}

fn number_bytes(value: &Number) -> (r: Vec<u8>)
    ensures
        r@ == number_text(value@),
{
    let mut out: Vec<u8> = Vec::new();
    match value {
        Number::UInteger(u) => push_decimal(&mut out, *u),
        Number::Integer(i) => {
            if *i < 0 {
                out.push(0x2d);
                let m: u128 = ((-(*i + 1)) as u128) + 1;
                push_decimal(&mut out, m);
            } else {
                push_decimal(&mut out, *i as u128);
            }
        },
        Number::Float(s) => {
            let b = s.as_str().as_bytes_vec();
            push_bytes(&mut out, b.as_slice());
        },
    }
    assert(out@ =~= number_text(value@));
    out
}

fn bool_bytes(value: bool) -> (r: Vec<u8>)
    ensures
        r@ == bool_text(value),
{
    let mut out: Vec<u8> = Vec::new();
    if value {
        push_bytes(&mut out, &[0x74, 0x72, 0x75, 0x65]);
    } else {
        push_bytes(&mut out, &[0x66, 0x61, 0x6c, 0x73, 0x65]);
    }
    assert(out@ =~= bool_text(value));
    out
}

/// The text of a string as written compactly: between quotes, as is.
pub open spec fn compact_str(value: Seq<char>) -> Seq<u8> {
    seq![0x22u8] + vstd::utf8::encode_utf8(value) + seq![0x22u8]
}

/// Every `c` of a text replaced by `rep`.
pub open spec fn replace_char(s: Seq<char>, c: char, rep: Seq<char>) -> Seq<char>
    decreases s.len(),
{
    if s.len() == 0 {
        Seq::empty()
    } else {
        replace_char(s.drop_last(), c, rep) + if s.last() == c {
            rep
        } else {
            seq![s.last()]
        }
    }
}

/// The escaping of a string written pretty, one replacement after the other: `"` by `\"`, then
/// `\` by `\\` (also the ones just added), then newline, carriage return and tab by a backslash
/// and the same character, then backspace by `\b` and form feed by `\f`.
pub open spec fn pretty_escape(s: Seq<char>) -> Seq<char> {
    let s1 = replace_char(s, '"', seq!['\\', '"']);
    let s2 = replace_char(s1, '\\', seq!['\\', '\\']);
    let s3 = replace_char(s2, '\n', seq!['\\', '\n']);
    let s4 = replace_char(s3, '\r', seq!['\\', '\r']);
    let s5 = replace_char(s4, '\t', seq!['\\', '\t']);
    let s6 = replace_char(s5, '\x08', seq!['\\', 'b']);
    replace_char(s6, '\x0c', seq!['\\', 'f'])
}

fn replace_char_exec(s: &str, c: char, rep: &[char]) -> (r: String)
    ensures
        r@ == replace_char(s@, c, rep@),
{
    let cs = str_to_chars(s);
    let mut out = String::new();
    let mut i: usize = 0;
    assert(cs@.take(0) =~= Seq::<char>::empty());
    while i < cs.len()
        invariant
            cs@ == s@,
            i <= cs@.len(),
            out@ == replace_char(cs@.take(i as int), c, rep@),
        decreases cs@.len() - i,
    {
        let ghost before = out@;
        if cs[i] == c {
            let mut k: usize = 0;
            while k < rep.len()
                invariant
                    k <= rep@.len(),
                    out@ == before + rep@.take(k as int),
                decreases rep@.len() - k,
            {
                string_push(&mut out, rep[k]);
                k = k + 1;
                assert(out@ =~= before + rep@.take(k as int));
            }
            assert(rep@.take(rep@.len() as int) =~= rep@);
        } else {
            string_push(&mut out, cs[i]);
        }
        assert(cs@.take(i + 1).drop_last() =~= cs@.take(i as int));
        i = i + 1;
    }
    assert(cs@.take(cs@.len() as int) =~= s@);
    out
}

/// Writes JSON tokens without any whitespace.
#[derive(Debug, Clone, Copy)]
pub struct CompactFormatter;

impl CompactFormatter {
    /// Writes a number.
    pub fn write_number(&mut self, out: &mut Vec<u8>, value: &Number)
        ensures
            final(out)@ == old(out)@ + number_text(value@),
    {
        let b = number_bytes(value);
        push_bytes(out, b.as_slice());
    }

    /// Writes `true` or `false`.
    pub fn write_bool(&mut self, out: &mut Vec<u8>, value: bool)
        ensures
            final(out)@ == old(out)@ + bool_text(value),
    {
        let b = bool_bytes(value);
        push_bytes(out, b.as_slice());
    }

    /// Writes `null`.
    pub fn write_null(&mut self, out: &mut Vec<u8>)
        ensures
            final(out)@ == old(out)@ + null_text(),
    {
        push_bytes(out, &[0x6e, 0x75, 0x6c, 0x6c]);
    }

    /// Writes a string between quotes, as is.
    pub fn write_str(&mut self, out: &mut Vec<u8>, value: &str)
        ensures
            final(out)@ == old(out)@ + compact_str(value@),
    {
        out.push(0x22);
        let b = value.as_bytes_vec();
        push_bytes(out, b.as_slice());
        out.push(0x22);
        assert(out@ =~= old(out)@ + compact_str(value@));
    }

    /// Writes `{`.
    pub fn write_object_start(&mut self, out: &mut Vec<u8>)
        ensures
            final(out)@ == old(out)@.push(0x7b),
    {
        out.push(0x7b);
    }

    /// Writes `}`.
    pub fn write_object_end(&mut self, out: &mut Vec<u8>)
        ensures
            final(out)@ == old(out)@.push(0x7d),
    {
        out.push(0x7d);
    }

    /// Writes `[`.
    pub fn write_array_start(&mut self, out: &mut Vec<u8>)
        ensures
            final(out)@ == old(out)@.push(0x5b),
    {
        out.push(0x5b);
    }

    /// Writes `]`.
    pub fn write_array_end(&mut self, out: &mut Vec<u8>)
        ensures
            final(out)@ == old(out)@.push(0x5d),
    {
        out.push(0x5d);
    }

    /// Writes `,` before every element but the first.
    pub fn write_array_element_begin(&mut self, out: &mut Vec<u8>, first: bool)
        ensures
            final(out)@ == if first { old(out)@ } else { old(out)@.push(0x2c) },
    {
        if !first {
            out.push(0x2c);
        }
    }

    /// Writes `,` before every key but the first.
    pub fn write_object_key_begin(&mut self, out: &mut Vec<u8>, first: bool)
        ensures
            final(out)@ == if first { old(out)@ } else { old(out)@.push(0x2c) },
    {
        if !first {
            out.push(0x2c);
        }
    }

    /// Writes `:`.
    pub fn write_object_value_begin(&mut self, out: &mut Vec<u8>)
        ensures
            final(out)@ == old(out)@.push(0x3a),
    {
        out.push(0x3a);
    }
}

/// The indentation of a nesting level: the indent repeated.
pub open spec fn indent_text(indent: Seq<u8>, level: nat) -> Seq<u8>
    decreases level,
{
    if level == 0 {
        Seq::empty()
    } else {
        indent_text(indent, (level - 1) as nat) + indent
    }
}

/// Writes JSON tokens with newlines and indentation: every element of an array and every entry
/// of an object on a line of its own, indented one level deeper than its container, and the
/// closing bracket of a container with elements on a line of its own.
#[derive(Debug, Clone)]
pub struct PrettyFormatter {
    level: usize,
    indent: Vec<u8>,
    has_value: bool,
}

impl PrettyFormatter {
    /// The nesting level.
    pub closed spec fn spec_level(&self) -> nat {
        self.level as nat
    }

    /// The indent of one level.
    pub closed spec fn spec_indent(&self) -> Seq<u8> {
        self.indent@
    }

    /// Whether the innermost container written has an element yet.
    pub closed spec fn spec_has_value(&self) -> bool {
        self.has_value
    }

    /// A formatter that indents by two spaces per level.
    pub fn new() -> (r: Self)
        ensures
            r.spec_level() == 0,
            r.spec_indent() == seq![0x20u8, 0x20u8],
            !r.spec_has_value(),
    {
        let r = PrettyFormatter::with_indent(&[0x20, 0x20]);
        r
    }

    /// A formatter that indents by `indent` per level.
    pub fn with_indent(indent: &[u8]) -> (r: Self)
        ensures
            r.spec_level() == 0,
            r.spec_indent() == indent@,
            !r.spec_has_value(),
    {
        PrettyFormatter { level: 0, indent: vstd::slice::slice_to_vec(indent), has_value: false }
    }

    fn write_indent(&self, out: &mut Vec<u8>)
        ensures
            final(out)@ == old(out)@ + indent_text(self.spec_indent(), self.spec_level()),
    {
        let mut i: usize = 0;
        while i < self.level
            invariant
                i <= self.level,
                out@ == old(out)@ + indent_text(self.indent@, i as nat),
            decreases self.level - i,
        {
            push_bytes(out, self.indent.as_slice());
            i = i + 1;
            assert(out@ =~= old(out)@ + indent_text(self.indent@, i as nat));
        }
    }

    /// Writes a number.
    pub fn write_number(&mut self, out: &mut Vec<u8>, value: &Number)
        ensures
            *final(self) == *old(self),
            final(out)@ == old(out)@ + number_text(value@),
    {
        let b = number_bytes(value);
        push_bytes(out, b.as_slice());
    }

    /// Writes `true` or `false`.
    pub fn write_bool(&mut self, out: &mut Vec<u8>, value: bool)
        ensures
            *final(self) == *old(self),
            final(out)@ == old(out)@ + bool_text(value),
    {
        let b = bool_bytes(value);
        push_bytes(out, b.as_slice());
    }

    /// Writes `null`.
    pub fn write_null(&mut self, out: &mut Vec<u8>)
        ensures
            *final(self) == *old(self),
            final(out)@ == old(out)@ + null_text(),
    {
        push_bytes(out, &[0x6e, 0x75, 0x6c, 0x6c]);
        assert(out@ =~= old(out)@ + null_text());
    }

    /// Writes a string, escaped and between quotes.
    pub fn write_str(&mut self, out: &mut Vec<u8>, value: &str)
        ensures
            *final(self) == *old(self),
            final(out)@ == old(out)@ + compact_str(pretty_escape(value@)),
    {
        let s1 = replace_char_exec(value, '"', &['\\', '"']);
        let s2 = replace_char_exec(s1.as_str(), '\\', &['\\', '\\']);
        let s3 = replace_char_exec(s2.as_str(), '\n', &['\\', '\n']);
        let s4 = replace_char_exec(s3.as_str(), '\r', &['\\', '\r']);
        let s5 = replace_char_exec(s4.as_str(), '\t', &['\\', '\t']);
        let s6 = replace_char_exec(s5.as_str(), '\x08', &['\\', 'b']);
        let s7 = replace_char_exec(s6.as_str(), '\x0c', &['\\', 'f']);
        out.push(0x22);
        let b = s7.as_str().as_bytes_vec();
        push_bytes(out, b.as_slice());
        out.push(0x22);
        assert(out@ =~= old(out)@ + compact_str(pretty_escape(value@)));
    }

    /// Writes `[` and goes one level deeper.
    pub fn write_array_start(&mut self, out: &mut Vec<u8>)
        requires
            old(self).spec_level() < usize::MAX,
        ensures
            final(self).spec_level() == old(self).spec_level() + 1,
            final(self).spec_indent() == old(self).spec_indent(),
            !final(self).spec_has_value(),
            final(out)@ == old(out)@.push(0x5b),
    {
        out.push(0x5b);
        self.level = self.level + 1;
        self.has_value = false;
    }

    /// Goes one level up and writes `]`, on a line of its own when the array has elements.
    pub fn write_array_end(&mut self, out: &mut Vec<u8>)
        requires
            old(self).spec_level() > 0,
        ensures
            final(self).spec_level() == old(self).spec_level() - 1,
            final(self).spec_indent() == old(self).spec_indent(),
            final(self).spec_has_value() == old(self).spec_has_value(),
            final(out)@ == old(out)@ + (if old(self).spec_has_value() {
                seq![0x0au8] + indent_text(old(self).spec_indent(), (old(self).spec_level() - 1) as nat)
            } else {
                Seq::<u8>::empty()
            }) + seq![0x5du8],
    {
        self.level = self.level - 1;
        if self.has_value {
            out.push(0x0a);
            self.write_indent(out);
        }
        out.push(0x5d);
        assert(out@ =~= old(out)@ + (if old(self).spec_has_value() {
            seq![0x0au8] + indent_text(old(self).spec_indent(), (old(self).spec_level() - 1) as nat)
        } else {
            Seq::<u8>::empty()
        }) + seq![0x5du8]);
    }

    /// Starts a line for an element: a newline, after `,` for every element but the first, and
    /// the indentation.
    pub fn write_array_element_begin(&mut self, out: &mut Vec<u8>, first: bool)
        ensures
            *final(self) == *old(self),
            final(out)@ == old(out)@ + (if first { seq![0x0au8] } else { seq![0x2cu8, 0x0au8] }) + indent_text(
                old(self).spec_indent(),
                old(self).spec_level(),
            ),
    {
        if first {
            out.push(0x0a);
        } else {
            out.push(0x2c);
            out.push(0x0a);
        }
        self.write_indent(out);
        assert(out@ =~= old(out)@ + (if first { seq![0x0au8] } else { seq![0x2cu8, 0x0au8] }) + indent_text(
            old(self).spec_indent(),
            old(self).spec_level(),
        ));
    }

    /// Records that the innermost array has an element.
    pub fn write_array_element_end(&mut self, out: &mut Vec<u8>)
        ensures
            final(self).spec_level() == old(self).spec_level(),
            final(self).spec_indent() == old(self).spec_indent(),
            final(self).spec_has_value(),
            final(out)@ == old(out)@,
    {
        self.has_value = true;
    }

    /// Writes `{` and goes one level deeper.
    pub fn write_object_start(&mut self, out: &mut Vec<u8>)
        requires
            old(self).spec_level() < usize::MAX,
        ensures
            final(self).spec_level() == old(self).spec_level() + 1,
            final(self).spec_indent() == old(self).spec_indent(),
            !final(self).spec_has_value(),
            final(out)@ == old(out)@.push(0x7b),
    {
        out.push(0x7b);
        self.level = self.level + 1;
        self.has_value = false;
    }

    /// Goes one level up and writes `}`, on a line of its own when the object has entries.
    pub fn write_object_end(&mut self, out: &mut Vec<u8>)
        requires
            old(self).spec_level() > 0,
        ensures
            final(self).spec_level() == old(self).spec_level() - 1,
            final(self).spec_indent() == old(self).spec_indent(),
            final(self).spec_has_value() == old(self).spec_has_value(),
            final(out)@ == old(out)@ + (if old(self).spec_has_value() {
                seq![0x0au8] + indent_text(old(self).spec_indent(), (old(self).spec_level() - 1) as nat)
            } else {
                Seq::<u8>::empty()
            }) + seq![0x7du8],
    {
        self.level = self.level - 1;
        if self.has_value {
            out.push(0x0a);
            self.write_indent(out);
        }
        out.push(0x7d);
        assert(out@ =~= old(out)@ + (if old(self).spec_has_value() {
            seq![0x0au8] + indent_text(old(self).spec_indent(), (old(self).spec_level() - 1) as nat)
        } else {
            Seq::<u8>::empty()
        }) + seq![0x7du8]);
    }

    /// Starts a line for an entry, as [`PrettyFormatter::write_array_element_begin`] does.
    pub fn write_object_key_begin(&mut self, out: &mut Vec<u8>, first: bool)
        ensures
            *final(self) == *old(self),
            final(out)@ == old(out)@ + (if first { seq![0x0au8] } else { seq![0x2cu8, 0x0au8] }) + indent_text(
                old(self).spec_indent(),
                old(self).spec_level(),
            ),
    {
        self.write_array_element_begin(out, first);
    }

    /// Writes `: ` between a key and its value.
    pub fn write_object_value_begin(&mut self, out: &mut Vec<u8>)
        ensures
            *final(self) == *old(self),
            final(out)@ == old(out)@ + seq![0x3au8, 0x20u8],
    {
        out.push(0x3a);
        out.push(0x20);
        assert(out@ =~= old(out)@ + seq![0x3au8, 0x20u8]);
    }

    /// Records that the innermost object has an entry.
    pub fn write_object_value_end(&mut self, out: &mut Vec<u8>)
        ensures
            final(self).spec_level() == old(self).spec_level(),
            final(self).spec_indent() == old(self).spec_indent(),
            final(self).spec_has_value(),
            final(out)@ == old(out)@,
    {
        self.has_value = true;
    }
}

} // verus!
