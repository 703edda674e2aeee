//! Writing JSON values as text: compact, or pretty with indentation.
use vstd::prelude::*;
use vstd::utf8::{decode_utf8, encode_utf8, valid_utf8};
use crate::json::de::{lemma_json_view, scan_string, spec_parse_json, ws_run, JsonValue, JsonView, NumberView};
use crate::json::formatter::{
    bool_text, compact_str, decimal_text, indent_text, int_text, null_text, number_text, pretty_escape,
    CompactFormatter, PrettyFormatter,
};
use crate::text::string_from_utf8;

verus! {

/// The compact text of a JSON value: no whitespace, strings written as they are.
pub open spec fn compact_json(v: JsonView) -> Seq<u8>
    decreases v, 0int,
{
    match v {
        JsonView::Null => null_text(),
        JsonView::Bool(b) => bool_text(b),
        JsonView::Number(n) => number_text(n),
        JsonView::Str(s) => compact_str(s),
        JsonView::Array(xs) => seq![0x5bu8] + compact_items(xs, xs.len() as int) + seq![0x5du8],
        JsonView::Object(es) => seq![0x7bu8] + compact_entries(es, es.len() as int) + seq![0x7du8],
    }
}

/// The first `n` elements of an array, separated by `,`.
pub open spec fn compact_items(xs: Seq<JsonView>, n: int) -> Seq<u8>
    decreases xs, n,
{
    if n <= 0 || n > xs.len() {
        Seq::empty()
    } else {
        compact_items(xs, n - 1) + (if n > 1 { seq![0x2cu8] } else { Seq::<u8>::empty() }) + compact_json(xs[n - 1])
    }
}

/// The first `n` entries of an object, `key:value`, separated by `,`.
pub open spec fn compact_entries(es: Seq<(Seq<char>, JsonView)>, n: int) -> Seq<u8>
    decreases es, n,
{
    if n <= 0 || n > es.len() {
        Seq::empty()
    } else {
        compact_entries(es, n - 1) + (if n > 1 { seq![0x2cu8] } else { Seq::<u8>::empty() }) + compact_str(es[n - 1].0)
            + seq![0x3au8] + compact_json(es[n - 1].1)
    }
}

/// The pretty text of a JSON value nested `level` deep: every element and entry of a container
/// on a line of its own, indented one level deeper, the closing bracket of a non-empty container
/// on a line of its own; strings escaped.
pub open spec fn pretty_json(v: JsonView, indent: Seq<u8>, level: nat) -> Seq<u8>
    decreases v, 0int,
{
    match v {
        JsonView::Null => null_text(),
        JsonView::Bool(b) => bool_text(b),
        JsonView::Number(n) => number_text(n),
        JsonView::Str(s) => compact_str(pretty_escape(s)),
        JsonView::Array(xs) => seq![0x5bu8] + pretty_items(xs, xs.len() as int, indent, level + 1) + closing_line(
            xs.len() > 0,
            indent,
            level,
        ) + seq![0x5du8],
        JsonView::Object(es) => seq![0x7bu8] + pretty_entries(es, es.len() as int, indent, level + 1)
            + closing_line(es.len() > 0, indent, level) + seq![0x7du8],
    }
}

/// The line break before the closing bracket of a container with elements.
pub open spec fn closing_line(has_value: bool, indent: Seq<u8>, level: nat) -> Seq<u8> {
    if has_value {
        seq![0x0au8] + indent_text(indent, level)
    } else {
        Seq::empty()
    }
}

/// The start of the line of the `n`-th element: a newline, after `,` for every element but the
/// first, and the indentation.
pub open spec fn element_line(n: int, indent: Seq<u8>, level: nat) -> Seq<u8> {
    (if n > 1 { seq![0x2cu8, 0x0au8] } else { seq![0x0au8] }) + indent_text(indent, level)
}

/// The first `n` elements of an array, each on its own line.
pub open spec fn pretty_items(xs: Seq<JsonView>, n: int, indent: Seq<u8>, level: nat) -> Seq<u8>
    decreases xs, n,
{
    if n <= 0 || n > xs.len() {
        Seq::empty()
    } else {
        pretty_items(xs, n - 1, indent, level) + element_line(n, indent, level) + pretty_json(xs[n - 1], indent, level)
    }
}

/// The first `n` entries of an object, `"key": value`, each on its own line.
pub open spec fn pretty_entries(es: Seq<(Seq<char>, JsonView)>, n: int, indent: Seq<u8>, level: nat) -> Seq<u8>
    decreases es, n,
{
    if n <= 0 || n > es.len() {
        Seq::empty()
    } else {
        pretty_entries(es, n - 1, indent, level) + element_line(n, indent, level) + compact_str(
            pretty_escape(es[n - 1].0),
        ) + seq![0x3au8, 0x20u8] + pretty_json(es[n - 1].1, indent, level)
    }
}

/// How deeply containers nest in a JSON value.
pub open spec fn json_depth(v: JsonView) -> nat
    decreases v, 0int,
{
    match v {
        JsonView::Array(xs) => 1 + items_depth(xs, xs.len() as int),
        JsonView::Object(es) => 1 + entries_depth(es, es.len() as int),
        _ => 0,
    }
}

/// The deepest nesting among the first `n` elements.
pub open spec fn items_depth(xs: Seq<JsonView>, n: int) -> nat
    decreases xs, n,
{
    if n <= 0 || n > xs.len() {
        0
    } else {
        let a = items_depth(xs, n - 1);
        let b = json_depth(xs[n - 1]);
        if a < b { b } else { a }
    }
}

/// The deepest nesting among the values of the first `n` entries.
pub open spec fn entries_depth(es: Seq<(Seq<char>, JsonView)>, n: int) -> nat
    decreases es, n,
{
    if n <= 0 || n > es.len() {
        0
    } else {
        let a = entries_depth(es, n - 1);
        let b = json_depth(es[n - 1].1);
        if a < b { b } else { a }
    }
}

proof fn lemma_items_depth(xs: Seq<JsonView>, n: int, j: int)
    requires
        0 <= j < n <= xs.len(),
    ensures
        json_depth(xs[j]) <= items_depth(xs, n),
    decreases n,
{
    if j < n - 1 {
        lemma_items_depth(xs, n - 1, j);
    }
}

proof fn lemma_entries_depth(es: Seq<(Seq<char>, JsonView)>, n: int, j: int)
    requires
        0 <= j < n <= es.len(),
    ensures
        json_depth(es[j].1) <= entries_depth(es, n),
    decreases n,
{
    if j < n - 1 {
        lemma_entries_depth(es, n - 1, j);
    }
}

/// Why a value could not be written as JSON.
#[derive(Debug)]
pub enum JsonSerializationError {
    Other(String),
}

fn write_compact(f: &mut CompactFormatter, out: &mut Vec<u8>, v: &JsonValue)
    ensures
        final(out)@ == old(out)@ + compact_json(v@),
    decreases v,
{
    proof {
        lemma_json_view(v);
    }
    match v {
        JsonValue::Null => f.write_null(out),
        JsonValue::Bool(b) => f.write_bool(out, *b),
        JsonValue::Number(n) => f.write_number(out, n),
        JsonValue::String(s) => f.write_str(out, s.as_str()),
        JsonValue::Array(items) => {
            let ghost xs = v@->Array_0;
            f.write_array_start(out);
            let ghost start = out@;
            let mut i: usize = 0;
            while i < items.len()
                invariant
                    xs == v@->Array_0,
                    v matches JsonValue::Array(its) && its == items,
                    xs.len() == items@.len(),
                    forall|j: int| 0 <= j < xs.len() ==> #[trigger] xs[j] == items@[j]@,
                    i <= items@.len(),
                    out@ == start + compact_items(xs, i as int),
                decreases items@.len() - i,
            {
                f.write_array_element_begin(out, i == 0);
                write_compact(f, out, &items[i]);
                i = i + 1;
                assert(out@ =~= start + compact_items(xs, i as int));
            }
            f.write_array_end(out);
            assert(out@ =~= old(out)@ + compact_json(v@));
        },
        JsonValue::Object(map) => {
            let ghost es = v@->Object_0;
            f.write_object_start(out);
            let ghost start = out@;
            let n = map.keys.len();
            let mut i: usize = 0;
            while i < n
                invariant
                    es == v@->Object_0,
                    v matches JsonValue::Object(m) && m == map,
                    n == map.keys@.len(),
                    es.len() == n,
                    forall|j: int|
                        0 <= j < es.len() ==> #[trigger] es[j] == (
                            map.keys@[j]@,
                            if j < map.values@.len() {
                                map.values@[j]@
                            } else {
                                JsonView::Null
                            },
                        ),
                    i <= n,
                    out@ == start + compact_entries(es, i as int),
                decreases n - i,
            {
                let ghost e = es[i as int];
                let ghost before = out@;
                f.write_object_key_begin(out, i == 0);
                f.write_str(out, map.keys[i].as_str());
                f.write_object_value_begin(out);
                if i < map.values.len() {
                    write_compact(f, out, &map.values[i]);
                } else {
                    f.write_null(out);
                }
                assert(out@ =~= before + (if i > 0 { seq![0x2cu8] } else { Seq::<u8>::empty() }) + compact_str(e.0)
                    + seq![0x3au8] + compact_json(e.1));
                i = i + 1;
                assert(out@ =~= start + compact_entries(es, i as int));
            }
            f.write_object_end(out);
            assert(out@ =~= old(out)@ + compact_json(v@));
        },
    }
}

fn write_pretty(f: &mut PrettyFormatter, out: &mut Vec<u8>, v: &JsonValue)
    requires
        old(f).spec_level() + json_depth(v@) <= usize::MAX,
    ensures
        final(out)@ == old(out)@ + pretty_json(v@, old(f).spec_indent(), old(f).spec_level()),
        final(f).spec_level() == old(f).spec_level(),
        final(f).spec_indent() == old(f).spec_indent(),
    decreases v,
{
    proof {
        lemma_json_view(v);
    }
    let ghost level = f.spec_level();
    let ghost indent = f.spec_indent();
    match v {
        JsonValue::Null => f.write_null(out),
        JsonValue::Bool(b) => f.write_bool(out, *b),
        JsonValue::Number(n) => f.write_number(out, n),
        JsonValue::String(s) => f.write_str(out, s.as_str()),
        JsonValue::Array(items) => {
            let ghost xs = v@->Array_0;
            f.write_array_start(out);
            let ghost start = out@;
            let mut i: usize = 0;
            while i < items.len()
                invariant
                    xs == v@->Array_0,
                    v matches JsonValue::Array(its) && its == items,
                    xs.len() == items@.len(),
                    forall|j: int| 0 <= j < xs.len() ==> #[trigger] xs[j] == items@[j]@,
                    i <= items@.len(),
                    f.spec_level() == level + 1,
                    f.spec_indent() == indent,
                    f.spec_has_value() == (i > 0),
                    level + json_depth(v@) <= usize::MAX,
                    json_depth(v@) == 1 + items_depth(xs, xs.len() as int),
                    out@ == start + pretty_items(xs, i as int, indent, level + 1),
                decreases items@.len() - i,
            {
                proof {
                    lemma_items_depth(xs, xs.len() as int, i as int);
                }
                f.write_array_element_begin(out, i == 0);
                write_pretty(f, out, &items[i]);
                f.write_array_element_end(out);
                i = i + 1;
                assert(out@ =~= start + pretty_items(xs, i as int, indent, level + 1));
            }
            f.write_array_end(out);
            assert(out@ =~= old(out)@ + pretty_json(v@, indent, level));
        },
        JsonValue::Object(map) => {
            let ghost es = v@->Object_0;
            f.write_object_start(out);
            let ghost start = out@;
            let n = map.keys.len();
            let mut i: usize = 0;
            while i < n
                invariant
                    es == v@->Object_0,
                    v matches JsonValue::Object(m) && m == map,
                    n == map.keys@.len(),
                    es.len() == n,
                    forall|j: int|
                        0 <= j < es.len() ==> #[trigger] es[j] == (
                            map.keys@[j]@,
                            if j < map.values@.len() {
                                map.values@[j]@
                            } else {
                                JsonView::Null
                            },
                        ),
                    i <= n,
                    f.spec_level() == level + 1,
                    f.spec_indent() == indent,
                    f.spec_has_value() == (i > 0),
                    level + json_depth(v@) <= usize::MAX,
                    json_depth(v@) == 1 + entries_depth(es, es.len() as int),
                    out@ == start + pretty_entries(es, i as int, indent, level + 1),
                decreases n - i,
            {
                proof {
                    lemma_entries_depth(es, es.len() as int, i as int);
                }
                let ghost e = es[i as int];
                let ghost before = out@;
                f.write_object_key_begin(out, i == 0);
                f.write_str(out, map.keys[i].as_str());
                f.write_object_value_begin(out);
                if i < map.values.len() {
                    write_pretty(f, out, &map.values[i]);
                } else {
                    f.write_null(out);
                }
                f.write_object_value_end(out);
                assert(out@ =~= before + element_line(i + 1, indent, level + 1) + compact_str(pretty_escape(e.0))
                    + seq![0x3au8, 0x20u8] + pretty_json(e.1, indent, level + 1));
                i = i + 1;
                assert(out@ =~= start + pretty_entries(es, i as int, indent, level + 1));
            }
            f.write_object_end(out);
            assert(out@ =~= old(out)@ + pretty_json(v@, indent, level));
        },
    }
}

/// Appends the compact text of a value.
pub fn to_writer(writer: &mut Vec<u8>, value: &JsonValue) -> (r: Result<(), JsonSerializationError>)
    ensures
        r is Ok,
        final(writer)@ == old(writer)@ + compact_json(value@),
{
    let mut f = CompactFormatter;
    write_compact(&mut f, writer, value);
    Ok(())
}

/// Appends the pretty text of a value, indented by two spaces per level.
pub fn to_pretty_writer(writer: &mut Vec<u8>, value: &JsonValue) -> (r: Result<(), JsonSerializationError>)
    requires
        json_depth(value@) <= usize::MAX,
    ensures
        r is Ok,
        final(writer)@ == old(writer)@ + pretty_json(value@, seq![0x20u8, 0x20u8], 0),
{
    let mut f = PrettyFormatter::new();
    write_pretty(&mut f, writer, value);
    Ok(())
}

/// The compact text of a value.
pub fn to_bytes(value: &JsonValue) -> (r: Result<Vec<u8>, JsonSerializationError>)
    ensures
        r matches Ok(b) && b@ == compact_json(value@),
{
    let mut out: Vec<u8> = Vec::new();
    let _ = to_writer(&mut out, value);
    assert(out@ =~= compact_json(value@));
    Ok(out)
}

/// The pretty text of a value, indented by two spaces per level.
pub fn to_pretty_bytes(value: &JsonValue) -> (r: Result<Vec<u8>, JsonSerializationError>)
    requires
        json_depth(value@) <= usize::MAX,
    ensures
        r matches Ok(b) && b@ == pretty_json(value@, seq![0x20u8, 0x20u8], 0),
{
    let mut out: Vec<u8> = Vec::new();
    let _ = to_pretty_writer(&mut out, value);
    assert(out@ =~= pretty_json(value@, seq![0x20u8, 0x20u8], 0));
    Ok(out)
}

/// The compact text of a value, as a string.
pub fn to_string(value: &JsonValue) -> (r: Result<String, JsonSerializationError>)
    ensures
        r matches Ok(s) && valid_utf8(compact_json(value@)) && s@ == decode_utf8(compact_json(value@)),
{
    let bytes = match to_bytes(value) {
        Ok(b) => b,
        Err(e) => {
            return Err(e);
        },
    };
    proof {
        lemma_compact_valid(value@);
    }
    match string_from_utf8(bytes) {
        Some(s) => Ok(s),
        None => Err(JsonSerializationError::Other(String::new())),
    }
}

/// The pretty text of a value, as a string.
pub fn to_pretty_string(value: &JsonValue) -> (r: Result<String, JsonSerializationError>)
    requires
        json_depth(value@) <= usize::MAX,
    ensures
        r matches Ok(s) && valid_utf8(pretty_json(value@, seq![0x20u8, 0x20u8], 0)) && s@ == decode_utf8(
            pretty_json(value@, seq![0x20u8, 0x20u8], 0),
        ),
{
    let bytes = match to_pretty_bytes(value) {
        Ok(b) => b,
        Err(e) => {
            return Err(e);
        },
    };
    proof {
        lemma_ascii_valid(seq![0x20u8, 0x20u8]);
        lemma_pretty_valid(value@, seq![0x20u8, 0x20u8], 0);
    }
    match string_from_utf8(bytes) {
        Some(s) => Ok(s),
        None => Err(JsonSerializationError::Other(String::new())),
    }
}

proof fn lemma_ascii_valid(b: Seq<u8>)
    requires
        forall|i: int| 0 <= i < b.len() ==> b[i] < 0x80,
    ensures
        valid_utf8(b),
{
    let cs = Seq::new(b.len(), |i: int| b[i] as char);
    assert(vstd::utf8::is_ascii_chars(cs));
    vstd::utf8::is_ascii_chars_encode_utf8(cs);
    assert(encode_utf8(cs) =~= b);
    vstd::utf8::encode_utf8_valid_utf8(cs);
}

proof fn lemma_concat3(a: Seq<u8>, b: Seq<u8>, c: Seq<u8>)
    requires
        valid_utf8(a),
        valid_utf8(b),
        valid_utf8(c),
    ensures
        valid_utf8(a + b + c),
{
    vstd::utf8::valid_utf8_concat(a, b);
    vstd::utf8::valid_utf8_concat(a + b, c);
}

proof fn lemma_decimal_ascii(n: nat)
    ensures
        forall|i: int| 0 <= i < decimal_text(n).len() ==> decimal_text(n)[i] < 0x80,
    decreases n,
{
    if n >= 10 {
        lemma_decimal_ascii(n / 10);
        let d = decimal_text(n / 10);
        let x = (0x30 + n % 10) as u8;
        assert(x < 0x80);
        assert forall|i: int| 0 <= i < decimal_text(n).len() implies decimal_text(n)[i] < 0x80 by {
            if i < d.len() {
                assert(decimal_text(n)[i] == d[i]);
            } else {
                assert(decimal_text(n)[i] == x);
            }
        }
    } else {
        let x = (0x30 + n) as u8;
        assert(x < 0x80);
        assert(decimal_text(n) == seq![x]);
    }
}

proof fn lemma_number_valid(n: NumberView)
    ensures
        valid_utf8(number_text(n)),
{
    match n {
        NumberView::UInteger(u) => {
            lemma_decimal_ascii(u as nat);
            lemma_ascii_valid(decimal_text(u as nat));
        },
        NumberView::Integer(i) => {
            if i < 0 {
                lemma_decimal_ascii((-i) as nat);
                lemma_ascii_valid(decimal_text((-i) as nat));
                lemma_ascii_valid(seq![0x2du8]);
                vstd::utf8::valid_utf8_concat(seq![0x2du8], decimal_text((-i) as nat));
            } else {
                lemma_decimal_ascii(i as nat);
                lemma_ascii_valid(decimal_text(i as nat));
            }
        },
        NumberView::Float(s) => {
            vstd::utf8::encode_utf8_valid_utf8(s);
        },
    }
}

proof fn lemma_str_valid(s: Seq<char>)
    ensures
        valid_utf8(compact_str(s)),
{
    lemma_ascii_valid(seq![0x22u8]);
    vstd::utf8::encode_utf8_valid_utf8(s);
    lemma_concat3(seq![0x22u8], encode_utf8(s), seq![0x22u8]);
}

proof fn lemma_scalar_valid(v: JsonView)
    ensures
        !(v is Array) && !(v is Object) && !(v is Str) ==> valid_utf8(compact_json(v)),
{
    match v {
        JsonView::Null => {
            lemma_ascii_valid(null_text());
        },
        JsonView::Bool(b) => {
            lemma_ascii_valid(bool_text(b));
        },
        JsonView::Number(n) => {
            lemma_number_valid(n);
        },
        _ => {},
    }
}

proof fn lemma_compact_valid(v: JsonView)
    ensures
        valid_utf8(compact_json(v)),
    decreases v, 0int,
{
    lemma_scalar_valid(v);
    match v {
        JsonView::Str(s) => {
            lemma_str_valid(s);
        },
        JsonView::Array(xs) => {
            lemma_compact_items_valid(xs, xs.len() as int);
            lemma_ascii_valid(seq![0x5bu8]);
            lemma_ascii_valid(seq![0x5du8]);
            lemma_concat3(seq![0x5bu8], compact_items(xs, xs.len() as int), seq![0x5du8]);
        },
        JsonView::Object(es) => {
            lemma_compact_entries_valid(es, es.len() as int);
            lemma_ascii_valid(seq![0x7bu8]);
            lemma_ascii_valid(seq![0x7du8]);
            lemma_concat3(seq![0x7bu8], compact_entries(es, es.len() as int), seq![0x7du8]);
        },
        _ => {},
    }
}

proof fn lemma_compact_items_valid(xs: Seq<JsonView>, n: int)
    ensures
        valid_utf8(compact_items(xs, n)),
    decreases xs, n,
{
    if n <= 0 || n > xs.len() {
        lemma_ascii_valid(Seq::<u8>::empty());
    } else {
        lemma_compact_items_valid(xs, n - 1);
        lemma_compact_valid(xs[n - 1]);
        let sep = if n > 1 { seq![0x2cu8] } else { Seq::<u8>::empty() };
        lemma_ascii_valid(sep);
        lemma_concat3(compact_items(xs, n - 1), sep, compact_json(xs[n - 1]));
    }
}

proof fn lemma_compact_entries_valid(es: Seq<(Seq<char>, JsonView)>, n: int)
    ensures
        valid_utf8(compact_entries(es, n)),
    decreases es, n,
{
    if n <= 0 || n > es.len() {
        lemma_ascii_valid(Seq::<u8>::empty());
    } else {
        lemma_compact_entries_valid(es, n - 1);
        lemma_compact_valid(es[n - 1].1);
        let sep = if n > 1 { seq![0x2cu8] } else { Seq::<u8>::empty() };
        lemma_ascii_valid(sep);
        lemma_str_valid(es[n - 1].0);
        lemma_ascii_valid(seq![0x3au8]);
        lemma_concat3(compact_entries(es, n - 1), sep, compact_str(es[n - 1].0));
        lemma_concat3(compact_entries(es, n - 1) + sep + compact_str(es[n - 1].0), seq![0x3au8], compact_json(es[n - 1].1));
    }
}

proof fn lemma_indent_valid(indent: Seq<u8>, level: nat)
    requires
        valid_utf8(indent),
    ensures
        valid_utf8(indent_text(indent, level)),
    decreases level,
{
    if level == 0 {
        lemma_ascii_valid(Seq::<u8>::empty());
    } else {
        lemma_indent_valid(indent, (level - 1) as nat);
        vstd::utf8::valid_utf8_concat(indent_text(indent, (level - 1) as nat), indent);
    }
}

proof fn lemma_lines_valid(n: int, has_value: bool, indent: Seq<u8>, level: nat)
    requires
        valid_utf8(indent),
    ensures
        valid_utf8(element_line(n, indent, level)),
        valid_utf8(closing_line(has_value, indent, level)),
{
    lemma_indent_valid(indent, level);
    lemma_ascii_valid(seq![0x2cu8, 0x0au8]);
    lemma_ascii_valid(seq![0x0au8]);
    lemma_ascii_valid(Seq::<u8>::empty());
    vstd::utf8::valid_utf8_concat(seq![0x2cu8, 0x0au8], indent_text(indent, level));
    vstd::utf8::valid_utf8_concat(seq![0x0au8], indent_text(indent, level));
}

proof fn lemma_pretty_valid(v: JsonView, indent: Seq<u8>, level: nat)
    requires
        valid_utf8(indent),
    ensures
        valid_utf8(pretty_json(v, indent, level)),
    decreases v, 0int,
{
    lemma_scalar_valid(v);
    match v {
        JsonView::Str(s) => {
            lemma_str_valid(pretty_escape(s));
        },
        JsonView::Array(xs) => {
            lemma_pretty_items_valid(xs, xs.len() as int, indent, level + 1);
            lemma_lines_valid(0, xs.len() > 0, indent, level);
            lemma_ascii_valid(seq![0x5bu8]);
            lemma_ascii_valid(seq![0x5du8]);
            lemma_concat3(seq![0x5bu8], pretty_items(xs, xs.len() as int, indent, level + 1), closing_line(xs.len() > 0, indent, level));
            vstd::utf8::valid_utf8_concat(
                seq![0x5bu8] + pretty_items(xs, xs.len() as int, indent, level + 1) + closing_line(xs.len() > 0, indent, level),
                seq![0x5du8],
            );
        },
        JsonView::Object(es) => {
            lemma_pretty_entries_valid(es, es.len() as int, indent, level + 1);
            lemma_lines_valid(0, es.len() > 0, indent, level);
            lemma_ascii_valid(seq![0x7bu8]);
            lemma_ascii_valid(seq![0x7du8]);
            lemma_concat3(seq![0x7bu8], pretty_entries(es, es.len() as int, indent, level + 1), closing_line(es.len() > 0, indent, level));
            vstd::utf8::valid_utf8_concat(
                seq![0x7bu8] + pretty_entries(es, es.len() as int, indent, level + 1) + closing_line(es.len() > 0, indent, level),
                seq![0x7du8],
            );
        },
        _ => {},
    }
}

proof fn lemma_pretty_items_valid(xs: Seq<JsonView>, n: int, indent: Seq<u8>, level: nat)
    requires
        valid_utf8(indent),
    ensures
        valid_utf8(pretty_items(xs, n, indent, level)),
    decreases xs, n,
{
    if n <= 0 || n > xs.len() {
        lemma_ascii_valid(Seq::<u8>::empty());
    } else {
        lemma_pretty_items_valid(xs, n - 1, indent, level);
        lemma_pretty_valid(xs[n - 1], indent, level);
        lemma_lines_valid(n, false, indent, level);
        lemma_concat3(pretty_items(xs, n - 1, indent, level), element_line(n, indent, level), pretty_json(xs[n - 1], indent, level));
    }
}

proof fn lemma_pretty_entries_valid(es: Seq<(Seq<char>, JsonView)>, n: int, indent: Seq<u8>, level: nat)
    requires
        valid_utf8(indent),
    ensures
        valid_utf8(pretty_entries(es, n, indent, level)),
    decreases es, n,
{
    if n <= 0 || n > es.len() {
        lemma_ascii_valid(Seq::<u8>::empty());
    } else {
        lemma_pretty_entries_valid(es, n - 1, indent, level);
        lemma_pretty_valid(es[n - 1].1, indent, level);
        lemma_lines_valid(n, false, indent, level);
        lemma_str_valid(pretty_escape(es[n - 1].0));
        lemma_ascii_valid(seq![0x3au8, 0x20u8]);
        let a = pretty_entries(es, n - 1, indent, level) + element_line(n, indent, level);
        vstd::utf8::valid_utf8_concat(pretty_entries(es, n - 1, indent, level), element_line(n, indent, level));
        lemma_concat3(a, compact_str(pretty_escape(es[n - 1].0)), seq![0x3au8, 0x20u8]);
        vstd::utf8::valid_utf8_concat(a + compact_str(pretty_escape(es[n - 1].0)) + seq![0x3au8, 0x20u8], pretty_json(es[n - 1].1, indent, level));
    }
}

/// A text the reader gives back unchanged: ASCII without quotes and backslashes.
pub open spec fn plain_ascii(s: Seq<char>) -> bool {
    &&& vstd::utf8::is_ascii_chars(s)
    &&& forall|i: int| 0 <= i < s.len() ==> #[trigger] s[i] != '"' && s[i] != '\\'
}

proof fn lemma_scan_plain(inp: Seq<u8>, s: Seq<char>, i: int)
    requires
        plain_ascii(s),
        inp.len() == s.len() + 2,
        inp[s.len() as int + 1] == 0x22,
        forall|j: int| 0 <= j < s.len() ==> #[trigger] inp[j + 1] == s[j] as u8,
        0 <= i <= s.len(),
    ensures
        scan_string(inp, i + 1, s.take(i)) == (Ok::<Seq<char>, crate::json::de::DeError>(s), (s.len() - i + 1) as nat),
    decreases s.len() - i,
{
    if i < s.len() {
        let b = inp[i + 1];
        assert(b == s[i] as u8);
        assert('\0' <= s[i] <= '\u{7f}' && s[i] != '"' && s[i] != '\\');
        assert((b as char) == s[i]) by {
            vstd::utf8::char_u32_cast(s[i], s[i] as u32);
        }
        assert(s.take(i).push(b as char) =~= s.take(i + 1));
        lemma_scan_plain(inp, s, i + 1);
    } else {
        assert(s.take(i) =~= s);
    }
}

proof fn lemma_str_read_back(s: Seq<char>)
    requires
        plain_ascii(s),
    ensures
        spec_parse_json(compact_json(JsonView::Str(s)), 0).0 == Ok::<JsonView, crate::json::de::DeError>(JsonView::Str(s)),
{
    let inp = compact_json(JsonView::Str(s));
    vstd::utf8::is_ascii_chars_encode_utf8(s);
    let e = encode_utf8(s);
    assert(inp == seq![0x22u8] + e + seq![0x22u8]);
    assert forall|j: int| 0 <= j < s.len() implies #[trigger] inp[j + 1] == s[j] as u8 by {
        assert(inp[j + 1] == e[j]);
    }
    assert(ws_run(inp, 0) == 0);
    lemma_scan_plain(inp, s, 0);
    assert(s.take(0) =~= Seq::<char>::empty());
}

proof fn lemma_literal_read_back(v: JsonView)
    requires
        v is Null || v is Bool,
    ensures
        spec_parse_json(compact_json(v), 0).0 == Ok::<JsonView, crate::json::de::DeError>(v),
{
    let inp = compact_json(v);
    assert(ws_run(inp, 0) == 0);
    match v {
        JsonView::Null => {
            assert(inp.subrange(0, 4) =~= null_text());
        },
        JsonView::Bool(b) => {
            if b {
                assert(inp.subrange(0, 4) =~= inp);
            } else {
                assert(inp.subrange(0, 5) =~= inp);
            }
        },
        _ => {},
    }
}

/// A scalar written compactly reads back as the same value when it is the whole text: `null`,
/// `true`, `false`, and strings of ASCII characters other than quotes and backslashes.
pub proof fn law_scalar_read_back(v: JsonView)
    requires
        v is Null || v is Bool || (v matches JsonView::Str(s) && plain_ascii(s)),
    ensures
        spec_parse_json(compact_json(v), 0).0 == Ok::<JsonView, crate::json::de::DeError>(v),
{
    match v {
        JsonView::Str(s) => lemma_str_read_back(s),
        _ => lemma_literal_read_back(v),
    }
}

} // verus!
