//! Reading `multipart/form-data` bodies, as RFC 7578 lays them out.
use vstd::prelude::*;
use vstd::utf8::{encode_utf8, valid_utf8, decode_utf8};
use crate::forms::stream_reader::{
    byte_index_from, lemma_byte_index_from, StreamReader, StreamState, StreamError, stream_wf,
    read_until_loop, read_until_sequence_spec, read_until_sequence_defined, peek_spec,
    read_exact_spec, remaining_bytes, lemma_read_until_sequence_progress, PARSE_BUFFER_SIZE,
};
use crate::server::DEFAULT_MAX_BODY_SIZE;
use crate::headers::Headers;
use crate::text::{string_from_utf8, str_to_chars, string_push, str_eq, subrange_to_string, string_views};
use crate::uri::path_query::{split_chars, split_chars_from};

verus! {

/// A line without its line ending: a final `\r\n`, or else a final `\n`.
pub open spec fn strip_line_end(line: Seq<u8>) -> Seq<u8> {
    if line.len() >= 2 && line[line.len() - 2] == 0x0d && line.last() == 0x0a {
        line.subrange(0, line.len() - 2)
    } else if line.len() >= 1 && line.last() == 0x0a {
        line.drop_last()
    } else {
        line
    }
}

/// ASCII whitespace, as `u8::is_ascii_whitespace` has it.
pub open spec fn is_ascii_ws(b: u8) -> bool {
    b == 0x20 || b == 0x09 || b == 0x0a || b == 0x0c || b == 0x0d
}

/// Bytes without leading ASCII whitespace.
pub open spec fn trim_ascii_start(s: Seq<u8>) -> Seq<u8>
    decreases s.len(),
{
    if s.len() > 0 && is_ascii_ws(s[0]) {
        trim_ascii_start(s.drop_first())
    } else {
        s
    }
}

/// Bytes without trailing ASCII whitespace.
pub open spec fn trim_ascii_end(s: Seq<u8>) -> Seq<u8>
    decreases s.len(),
{
    if s.len() > 0 && is_ascii_ws(s.last()) {
        trim_ascii_end(s.drop_last())
    } else {
        s
    }
}

/// Bytes without leading and trailing ASCII whitespace, as `<[u8]>::trim_ascii` gives them.
pub open spec fn trim_ascii(s: Seq<u8>) -> Seq<u8> {
    trim_ascii_end(trim_ascii_start(s))
}

/// Whether `s` starts with `p`.
pub open spec fn starts_with(s: Seq<u8>, p: Seq<u8>) -> bool {
    s.len() >= p.len() && s.subrange(0, p.len() as int) == p
}

/// The bytes between `sep` bytes.
pub open spec fn split_bytes(s: Seq<u8>, sep: u8) -> Seq<Seq<u8>>
    decreases s.len(),
{
    match byte_index_from(s, sep, 0) {
        Some(i) => if 0 <= i < s.len() {
            seq![s.subrange(0, i)] + split_bytes(s.subrange(i + 1, s.len() as int), sep)
        } else {
            seq![s]
        },
        None => seq![s],
    }
}

/// The text between quotes: a value of at least two bytes that starts and ends with `"`.
pub open spec fn get_quoted(v: Seq<u8>) -> Option<Seq<u8>> {
    if v.len() <= 1 {
        None
    } else if v[0] == 0x22 && v.last() == 0x22 {
        Some(v.subrange(1, v.len() - 1))
    } else {
        None
    }
}

/// Why reading a field of a form failed.
#[derive(Debug)]
pub enum FieldError {
    /// The form did not start with this boundary line.
    MissingBoundary(String),
    /// A file field had no `Content-Type` line.
    MissingContentType,
    /// Reading the body failed.
    Stream(crate::forms::stream_reader::StreamError),
    /// The line after the field headers was not empty.
    ExpectedNewLine,
    /// A boundary was not followed by `\r\n`.
    ExpectedLineEnding,
    /// A field ended without a boundary.
    EndBoundaryNotFound,
    /// A header value was not UTF-8.
    Utf8Error,
    /// A field had no `Content-Disposition: form-data` line.
    MissingContentDisposition,
    /// The field disposition had no quoted `name`.
    MissingName,
    /// The field disposition had a `filename` that was not quoted.
    MissingFilename,
}

/// The abstract value of a [`FieldError`].
pub enum FieldErrorView {
    MissingBoundary(Seq<char>),
    MissingContentType,
    Stream(crate::forms::stream_reader::StreamError),
    ExpectedNewLine,
    ExpectedLineEnding,
    EndBoundaryNotFound,
    Utf8Error,
    MissingContentDisposition,
    MissingName,
    MissingFilename,
}

impl View for FieldError {
    type V = FieldErrorView;

    open spec fn view(&self) -> FieldErrorView {
        match self {
            FieldError::MissingBoundary(s) => FieldErrorView::MissingBoundary(s@),
            FieldError::MissingContentType => FieldErrorView::MissingContentType,
            FieldError::Stream(e) => FieldErrorView::Stream(*e),
            FieldError::ExpectedNewLine => FieldErrorView::ExpectedNewLine,
            FieldError::ExpectedLineEnding => FieldErrorView::ExpectedLineEnding,
            FieldError::EndBoundaryNotFound => FieldErrorView::EndBoundaryNotFound,
            FieldError::Utf8Error => FieldErrorView::Utf8Error,
            FieldError::MissingContentDisposition => FieldErrorView::MissingContentDisposition,
            FieldError::MissingName => FieldErrorView::MissingName,
            FieldError::MissingFilename => FieldErrorView::MissingFilename,
        }
    }
}

/// The text of a quoted header value: its bytes decoded as UTF-8 (the whole part was checked to
/// be UTF-8 already, so this never fails), or the error `missing` when the value is not quoted.
pub open spec fn quoted_text(v: Seq<u8>, missing: FieldErrorView) -> Result<Seq<char>, FieldErrorView> {
    match get_quoted(v) {
        Some(inner) => if valid_utf8(inner) {
            Ok(decode_utf8(inner))
        } else {
            Err(FieldErrorView::Utf8Error)
        },
        None => Err(missing),
    }
}

/// What the parts of a disposition line after the first set: the name (missing until a `name=`
/// part is seen) and the filename (none until a `filename=` part is seen), each part overriding
/// the one before; a part that is not UTF-8 stops the reading.
pub open spec fn disposition_parts(parts: Seq<Seq<u8>>, k: int) -> Result<
    (Result<Seq<char>, FieldErrorView>, Result<Option<Seq<char>>, FieldErrorView>),
    FieldErrorView,
>
    decreases k,
{
    if k <= 1 || k > parts.len() {
        Ok((Err(FieldErrorView::MissingName), Ok(None)))
    } else {
        match disposition_parts(parts, k - 1) {
            Err(e) => Err(e),
            Ok((name, filename)) => {
                let p = parts[k - 1];
                if starts_with(p, encode_utf8("name="@)) {
                    if !valid_utf8(p) {
                        Err(FieldErrorView::Utf8Error)
                    } else {
                        Ok((quoted_text(p.skip(5), FieldErrorView::MissingName), filename))
                    }
                } else if starts_with(p, encode_utf8("filename="@)) {
                    if !valid_utf8(p) {
                        Err(FieldErrorView::Utf8Error)
                    } else {
                        Ok((
                            name,
                            match quoted_text(p.skip(9), FieldErrorView::MissingFilename) {
                                Ok(t) => Ok(Some(t)),
                                Err(e) => Err(e),
                            },
                        ))
                    }
                } else {
                    Ok((name, filename))
                }
            },
        }
    }
}

/// The name and filename of a `Content-Disposition: form-data; name="..."; filename="..."` line.
pub open spec fn parse_content_disposition(line: Seq<u8>) -> Result<(Seq<char>, Option<Seq<char>>), FieldErrorView> {
    let raw = split_bytes(line, 0x3b);
    let parts = Seq::new(raw.len(), |i: int| trim_ascii(raw[i]));
    if parts[0] != encode_utf8("Content-Disposition: form-data"@) {
        Err(FieldErrorView::MissingContentDisposition)
    } else {
        match disposition_parts(parts, parts.len() as int) {
            Err(e) => Err(e),
            Ok((name, filename)) => match name {
                Err(e) => Err(e),
                Ok(n) => match filename {
                    Err(e) => Err(e),
                    Ok(f) => Ok((n, f)),
                },
            },
        }
    }
}

/// The content type of a `Content-Type: ...` line.
pub open spec fn parse_content_type(line: Seq<u8>) -> Result<Seq<char>, FieldErrorView> {
    if !starts_with(line, encode_utf8("Content-Type:"@)) {
        Err(FieldErrorView::MissingContentType)
    } else {
        let rest = trim_ascii(line.skip(13));
        if valid_utf8(rest) {
            Ok(decode_utf8(rest))
        } else {
            Err(FieldErrorView::Utf8Error)
        }
    }
}

proof fn lemma_encode_len(s: &str, n: int)
    requires
        s@.len() == n,
        vstd::utf8::is_ascii_chars(s@),
    ensures
        encode_utf8(s@).len() == n,
{
    vstd::utf8::is_ascii_chars_encode_utf8(s@);
}

fn starts_with_exec(s: &Vec<u8>, p: &Vec<u8>) -> (r: bool)
    ensures
        r == starts_with(s@, p@),
{
    if s.len() < p.len() {
        return false;
    }
    let mut i: usize = 0;
    while i < p.len()
        invariant
            s@.len() >= p@.len(),
            i <= p@.len(),
            forall|j: int| 0 <= j < i ==> s@[j] == p@[j],
        decreases p@.len() - i,
    {
        if s[i] != p[i] {
            assert(s@.subrange(0, p@.len() as int)[i as int] != p@[i as int]);
            return false;
        }
        i = i + 1;
    }
    assert(s@.subrange(0, p@.len() as int) =~= p@);
    true
}

fn bytes_equal(a: &Vec<u8>, b: &Vec<u8>) -> (r: bool)
    ensures
        r == (a@ == b@),
{
    if a.len() != b.len() {
        return false;
    }
    let r = starts_with_exec(a, b);
    proof {
        if r {
            assert(a@.subrange(0, b@.len() as int) =~= a@);
        } else if a@ == b@ {
            assert(a@.subrange(0, b@.len() as int) =~= a@);
        }
    }
    r
}

fn sub_bytes(s: &Vec<u8>, from: usize, to: usize) -> (r: Vec<u8>)
    requires
        from <= to <= s@.len(),
    ensures
        r@ == s@.subrange(from as int, to as int),
{
    let mut out: Vec<u8> = Vec::new();
    let mut i = from;
    while i < to
        invariant
            from <= i <= to <= s@.len(),
            out@ == s@.subrange(from as int, i as int),
        decreases to - i,
    {
        out.push(s[i]);
        i = i + 1;
        assert(out@ =~= s@.subrange(from as int, i as int));
    }
    out
}

proof fn lemma_trim_start_suffix(s: Seq<u8>, a: int)
    requires
        0 <= a <= s.len(),
        forall|j: int| 0 <= j < a ==> is_ascii_ws(s[j]),
        a == s.len() || !is_ascii_ws(s[a]),
    ensures
        trim_ascii_start(s) == s.subrange(a, s.len() as int),
    decreases a,
{
    if a == 0 {
        assert(s.subrange(0, s.len() as int) =~= s);
    } else {
        lemma_trim_start_suffix(s.drop_first(), a - 1);
        assert(s.drop_first().subrange(a - 1, s.len() - 1) =~= s.subrange(a, s.len() as int));
    }
}

proof fn lemma_trim_end_prefix(s: Seq<u8>, b: int)
    requires
        0 <= b <= s.len(),
        forall|j: int| b <= j < s.len() ==> is_ascii_ws(s[j]),
        b == 0 || !is_ascii_ws(s[b - 1]),
    ensures
        trim_ascii_end(s) == s.subrange(0, b),
    decreases s.len() - b,
{
    if b == s.len() {
        assert(s.subrange(0, b) =~= s);
    } else {
        lemma_trim_end_prefix(s.drop_last(), b);
        assert(s.drop_last().subrange(0, b) =~= s.subrange(0, b));
    }
}

/// The bytes without leading and trailing ASCII whitespace.
pub fn trim_ascii_exec(s: &Vec<u8>) -> (r: Vec<u8>)
    ensures
        r@ == trim_ascii(s@),
{
    let n = s.len();
    let mut a: usize = 0;
    while a < n && (s[a] == 0x20 || s[a] == 0x09 || s[a] == 0x0a || s[a] == 0x0c || s[a] == 0x0d)
        invariant
            n == s@.len(),
            a <= n,
            forall|j: int| 0 <= j < a ==> is_ascii_ws(s@[j]),
        decreases n - a,
    {
        a = a + 1;
    }
    proof {
        lemma_trim_start_suffix(s@, a as int);
    }
    let mut b: usize = n;
    while b > a && (s[b - 1] == 0x20 || s[b - 1] == 0x09 || s[b - 1] == 0x0a || s[b - 1] == 0x0c || s[b - 1] == 0x0d)
        invariant
            n == s@.len(),
            a <= b <= n,
            forall|j: int| b <= j < n ==> is_ascii_ws(s@[j]),
        decreases b - a,
    {
        b = b - 1;
    }
    proof {
        let t = s@.subrange(a as int, n as int);
        assert forall|j: int| b - a <= j < t.len() implies is_ascii_ws(t[j]) by {
            assert(t[j] == s@[a + j]);
        }
        if b > a {
            assert(t[b - a - 1] == s@[b - 1]);
        }
        lemma_trim_end_prefix(t, (b - a) as int);
        assert(t.subrange(0, (b - a) as int) =~= s@.subrange(a as int, b as int));
    }
    sub_bytes(s, a, b)
}

/// Splits bytes at every `sep`.
pub fn split_bytes_exec(s: &Vec<u8>, sep: u8) -> (r: Vec<Vec<u8>>)
    ensures
        r@.len() == split_bytes(s@, sep).len(),
        forall|i: int| 0 <= i < r@.len() ==> (#[trigger] r@[i])@ == split_bytes(s@, sep)[i],
{
    let mut out: Vec<Vec<u8>> = Vec::new();
    let mut start: usize = 0;
    let ghost whole = split_bytes(s@, sep);
    assert(s@.subrange(0, s@.len() as int) =~= s@);
    loop
        invariant
            start <= s@.len(),
            whole == split_bytes(s@, sep),
            out@.len() + split_bytes(s@.subrange(start as int, s@.len() as int), sep).len() == whole.len(),
            forall|i: int| 0 <= i < out@.len() ==> (#[trigger] out@[i])@ == whole[i],
            forall|i: int|
                0 <= i < split_bytes(s@.subrange(start as int, s@.len() as int), sep).len() ==> whole[out@.len() + i]
                    == #[trigger] split_bytes(s@.subrange(start as int, s@.len() as int), sep)[i],
        decreases s@.len() - start,
    {
        let ghost rest = s@.subrange(start as int, s@.len() as int);
        proof {
            lemma_byte_index_from(rest, sep, 0);
        }
        let mut i = start;
        while i < s.len() && s[i] != sep
            invariant
                start <= i <= s@.len(),
                rest == s@.subrange(start as int, s@.len() as int),
                forall|j: int| start <= j < i ==> s@[j] != sep,
            decreases s@.len() - i,
        {
            i = i + 1;
        }
        let piece = sub_bytes(s, start, i);
        if i == s.len() {
            proof {
                match byte_index_from(rest, sep, 0) {
                    Some(k) => {
                        assert(rest[k] == s@[start + k]);
                    },
                    None => {},
                }
                assert(piece@ =~= rest);
                assert(split_bytes(rest, sep) == seq![rest]);
            }
            out.push(piece);
            proof {
                assert forall|j: int| 0 <= j < out@.len() implies (#[trigger] out@[j])@ == whole[j] by {
                    if j == out@.len() - 1 {
                        assert(split_bytes(rest, sep)[0] == rest);
                    }
                }
            }
            return out;
        }
        proof {
            match byte_index_from(rest, sep, 0) {
                Some(k) => {
                    if k < i - start {
                        assert(rest[k] == s@[start + k]);
                    } else if k > i - start {
                        assert(rest[i - start] == s@[i as int]);
                    }
                },
                None => {
                    assert(rest[i - start] == s@[i as int]);
                },
            }
            assert(rest.subrange(0, i - start) =~= piece@);
            assert(rest.subrange(i - start + 1, rest.len() as int) =~= s@.subrange(i + 1, s@.len() as int));
            assert(byte_index_from(rest, sep, 0) == Some((i - start) as int));
            assert(split_bytes(rest, sep) == seq![piece@] + split_bytes(s@.subrange(i + 1, s@.len() as int), sep));
        }
        let ghost old_len = out@.len();
        out.push(piece);
        proof {
            let next = split_bytes(s@.subrange(i + 1, s@.len() as int), sep);
            assert(whole[old_len as int] == split_bytes(rest, sep)[0]);
            assert forall|j: int| 0 <= j < out@.len() implies (#[trigger] out@[j])@ == whole[j] by {
                if j == old_len {
                    assert(split_bytes(rest, sep)[0] == piece@);
                }
            }
            assert forall|j: int| 0 <= j < next.len() implies whole[out@.len() + j] == #[trigger] next[j] by {
                assert(split_bytes(rest, sep)[j + 1] == next[j]);
                assert(whole[old_len + (j + 1)] == split_bytes(rest, sep)[j + 1]);
            }
        }
        start = i + 1;
    }
}

/// The text of a quoted header value, or the error `missing` when it is not quoted.
fn quoted_text_exec(v: &Vec<u8>, missing: FieldError) -> (r: Result<String, FieldError>)
    ensures
        match r {
            Ok(t) => quoted_text(v@, missing@) == Ok::<Seq<char>, FieldErrorView>(t@),
            Err(e) => quoted_text(v@, missing@) == Err::<Seq<char>, FieldErrorView>(e@),
        },
{
    let n = v.len();
    if n <= 1 {
        return Err(missing);
    }
    if v[0] == 0x22 && v[n - 1] == 0x22 {
        let inner = sub_bytes(v, 1, n - 1);
        match string_from_utf8(inner) {
            Some(t) => Ok(t),
            None => Err(FieldError::Utf8Error),
        }
    } else {
        Err(missing)
    }
}

/// The name and filename of a `Content-Disposition: form-data` line.
pub fn parse_content_disposition_exec(line: &Vec<u8>) -> (r: Result<(String, Option<String>), FieldError>)
    ensures
        match r {
            Ok((n, f)) => parse_content_disposition(line@) == Ok::<(Seq<char>, Option<Seq<char>>), FieldErrorView>((
                n@,
                match f {
                    Some(x) => Some(x@),
                    None => None,
                },
            )),
            Err(e) => parse_content_disposition(line@) == Err::<(Seq<char>, Option<Seq<char>>), FieldErrorView>(e@),
        },
{
    let raw = split_bytes_exec(line, 0x3b);
    let ghost rawv = split_bytes(line@, 0x3b);
    let ghost parts = Seq::new(rawv.len(), |i: int| trim_ascii(rawv[i]));
    let mut trimmed: Vec<Vec<u8>> = Vec::new();
    let mut i: usize = 0;
    while i < raw.len()
        invariant
            raw@.len() == rawv.len(),
            forall|j: int| 0 <= j < raw@.len() ==> (#[trigger] raw@[j])@ == rawv[j],
            parts == Seq::new(rawv.len(), |i: int| trim_ascii(rawv[i])),
            i <= raw@.len(),
            trimmed@.len() == i,
            forall|j: int| 0 <= j < i ==> (#[trigger] trimmed@[j])@ == parts[j],
        decreases raw@.len() - i,
    {
        let t = trim_ascii_exec(&raw[i]);
        trimmed.push(t);
        i = i + 1;
    }
    proof {
        crate::forms::form_data::lemma_split_bytes_nonempty(line@, 0x3b);
    }
    let cd = "Content-Disposition: form-data".as_bytes_vec();
    if !bytes_equal(&trimmed[0], &cd) {
        return Err(FieldError::MissingContentDisposition);
    }
    let name_prefix = "name=".as_bytes_vec();
    let filename_prefix = "filename=".as_bytes_vec();
    proof {
        reveal_strlit("name=");
        reveal_strlit("filename=");
        lemma_encode_len("name=", 5);
        lemma_encode_len("filename=", 9);
    }
    let mut name: Result<String, FieldError> = Err(FieldError::MissingName);
    let mut filename: Result<Option<String>, FieldError> = Ok(None);
    let mut k: usize = 1;
    while k < trimmed.len()
        invariant
            trimmed@.len() == parts.len(),
            forall|j: int| 0 <= j < trimmed@.len() ==> (#[trigger] trimmed@[j])@ == parts[j],
            rawv == split_bytes(line@, 0x3b),
            parts == Seq::new(rawv.len(), |i: int| trim_ascii(rawv[i])),
            parts[0] == encode_utf8("Content-Disposition: form-data"@),
            1 <= k <= trimmed@.len(),
            name_prefix@ == encode_utf8("name="@),
            filename_prefix@ == encode_utf8("filename="@),
            name_prefix@.len() == 5,
            filename_prefix@.len() == 9,
            disposition_parts(parts, k as int) == Ok::<
                (Result<Seq<char>, FieldErrorView>, Result<Option<Seq<char>>, FieldErrorView>),
                FieldErrorView,
            >((
                match name {
                    Ok(t) => Ok(t@),
                    Err(e) => Err(e@),
                },
                match filename {
                    Ok(Some(t)) => Ok(Some(t@)),
                    Ok(None) => Ok(None),
                    Err(e) => Err(e@),
                },
            )),
        decreases trimmed@.len() - k,
    {
        let p = &trimmed[k];
        if starts_with_exec(p, &name_prefix) {
            if !is_utf8(p) {
                proof {
                    assert(parts[k as int] == p@);
                    lemma_disposition_err(parts, (k + 1) as int, parts.len() as int);
                }
                return Err(FieldError::Utf8Error);
            }
            let v = sub_bytes(p, 5, p.len());
            assert(v@ =~= p@.skip(5));
            name = quoted_text_exec(&v, FieldError::MissingName);
        } else if starts_with_exec(p, &filename_prefix) {
            if !is_utf8(p) {
                proof {
                    assert(parts[k as int] == p@);
                    lemma_disposition_err(parts, (k + 1) as int, parts.len() as int);
                }
                return Err(FieldError::Utf8Error);
            }
            let v = sub_bytes(p, 9, p.len());
            assert(v@ =~= p@.skip(9));
            filename = match quoted_text_exec(&v, FieldError::MissingFilename) {
                Ok(t) => Ok(Some(t)),
                Err(e) => Err(e),
            };
        }
        k = k + 1;
    }
    match name {
        Err(e) => Err(e),
        Ok(n) => match filename {
            Err(e) => Err(e),
            Ok(f) => Ok((n, f)),
        },
    }
}

/// Whether the bytes are UTF-8.
fn is_utf8(p: &Vec<u8>) -> (r: bool)
    ensures
        r == valid_utf8(p@),
{
    let copy = sub_bytes(p, 0, p.len());
    assert(copy@ =~= p@);
    string_from_utf8(copy).is_some()
}

proof fn lemma_disposition_err(parts: Seq<Seq<u8>>, k: int, j: int)
    requires
        disposition_parts(parts, k) is Err,
        k <= j <= parts.len(),
    ensures
        disposition_parts(parts, j) == disposition_parts(parts, k),
    decreases j - k,
{
    if j > k {
        lemma_disposition_err(parts, k, j - 1);
    }
}

proof fn lemma_split_bytes_nonempty(s: Seq<u8>, sep: u8)
    ensures
        split_bytes(s, sep).len() >= 1,
{
}

/// The content type of a `Content-Type:` line.
pub fn parse_content_type_exec(line: &Vec<u8>) -> (r: Result<String, FieldError>)
    ensures
        match r {
            Ok(t) => parse_content_type(line@) == Ok::<Seq<char>, FieldErrorView>(t@),
            Err(e) => parse_content_type(line@) == Err::<Seq<char>, FieldErrorView>(e@),
        },
{
    let prefix = "Content-Type:".as_bytes_vec();
    proof {
        reveal_strlit("Content-Type:");
        lemma_encode_len("Content-Type:", 13);
    }
    if !starts_with_exec(line, &prefix) {
        return Err(FieldError::MissingContentType);
    }
    let rest = sub_bytes(line, 13, line.len());
    assert(rest@ =~= line@.skip(13));
    let t = trim_ascii_exec(&rest);
    match string_from_utf8(t) {
        Some(s) => Ok(s),
        None => Err(FieldError::Utf8Error),
    }
}


/// Longest header line of a field accepted by default.
pub const MAX_HEADER_LENGTH: usize = 1024;

/// Configuration for parsing `multipart/form-data`.
#[derive(Debug, Clone, Copy, PartialEq, Eq, Structural)]
pub struct FormDataConfig {
    /// Max allowed length for the headers.
    pub max_header_length: usize,
    /// Max allowed length for the entire form data body.
    pub max_body_size: usize,
    /// Size of the buffer used to parse the form data.
    pub buffer_size: usize,
}

impl FormDataConfig {
    /// The configuration with the given max header length.
    pub fn max_header_length(self, max_header_length: usize) -> (r: Self)
        ensures
            r == (FormDataConfig { max_header_length, ..self }),
    {
        FormDataConfig { max_header_length, ..self }
    }

    /// The configuration with the given max body size.
    pub fn max_body_size(self, max_body_size: usize) -> (r: Self)
        ensures
            r == (FormDataConfig { max_body_size, ..self }),
    {
        FormDataConfig { max_body_size, ..self }
    }

    /// The configuration with the given buffer size.
    pub fn buffer_size(self, buffer_size: usize) -> (r: Self)
        ensures
            r == (FormDataConfig { buffer_size, ..self }),
    {
        FormDataConfig { buffer_size, ..self }
    }
}

impl Default for FormDataConfig {
    fn default() -> (r: Self)
        ensures
            r.max_header_length == MAX_HEADER_LENGTH,
            r.max_body_size == DEFAULT_MAX_BODY_SIZE,
            r.buffer_size == PARSE_BUFFER_SIZE,
    {
        FormDataConfig {
            max_header_length: MAX_HEADER_LENGTH,
            max_body_size: DEFAULT_MAX_BODY_SIZE,
            buffer_size: PARSE_BUFFER_SIZE,
        }
    }
}

/// Where a form stands.
#[derive(Debug, Clone, Copy, PartialEq, Eq, Structural)]
pub enum ParseState {
    /// The first boundary is still to be read.
    First,
    /// Between fields.
    Next,
    /// The end boundary was read.
    Done,
}

/// The abstract state of a [`FormData`].
pub struct FormDataView {
    /// The stream of the body.
    pub reader: StreamState,
    /// The boundary line: `--` and the boundary of the content type.
    pub boundary: Seq<char>,
    pub state: ParseState,
    pub max_header_length: usize,
}

/// The headers of a field.
pub struct FieldView {
    pub name: Seq<char>,
    pub filename: Option<Seq<char>>,
    pub content_type: Option<Seq<char>>,
}

/// The bytes of the boundary line.
pub open spec fn boundary_bytes(s: FormDataView) -> Seq<u8> {
    encode_utf8(s.boundary)
}

/// What ends a field: `\r\n` and the boundary line.
pub open spec fn field_end_pattern(s: FormDataView) -> Seq<u8> {
    seq![0x0du8, 0x0au8] + boundary_bytes(s)
}

/// Reads a line and drops its line ending; a header line is held to the header length limit.
pub open spec fn read_form_line(s: FormDataView, limited: bool) -> (FormDataView, Result<Seq<u8>, FieldErrorView>) {
    let limit = if limited { Some(s.max_header_length) } else { None::<usize> };
    let (r, res) = read_until_loop(s.reader, 0, 0, 0x0au8, limit);
    (
        FormDataView { reader: r, ..s },
        match res {
            Ok(line) => Ok(strip_line_end(line)),
            Err(e) => Err(FieldErrorView::Stream(e)),
        },
    )
}

/// Reads the first boundary line, when it is still to be read.
pub open spec fn open_form(s: FormDataView) -> (FormDataView, Result<(), FieldErrorView>) {
    if s.state == ParseState::First {
        let (a, l) = read_form_line(s, false);
        match l {
            Err(e) => (a, Err(e)),
            Ok(line) => if line == boundary_bytes(s) {
                (FormDataView { state: ParseState::Next, ..a }, Ok(()))
            } else {
                (a, Err(FieldErrorView::MissingBoundary(s.boundary)))
            },
        }
    } else {
        (s, Ok(()))
    }
}

/// Reads the content type line of a file field.
pub open spec fn read_content_type(s: FormDataView, is_file: bool) -> (FormDataView, Result<Option<Seq<char>>, FieldErrorView>) {
    if is_file {
        let (a, l) = read_form_line(s, true);
        match l {
            Err(e) => (a, Err(e)),
            Ok(line) => match parse_content_type(line) {
                Err(e) => (a, Err(e)),
                Ok(t) => (a, Ok(Some(t))),
            },
        }
    } else {
        (s, Ok(None))
    }
}

/// `next_field`: none once the end boundary was read; else the headers of the next field: its
/// disposition line, its content type line when it is a file, and the empty line after them.
pub open spec fn next_field_spec(s: FormDataView) -> (FormDataView, Result<Option<FieldView>, FieldErrorView>) {
    if s.state == ParseState::Done {
        (s, Ok(None))
    } else {
        let (s1, r1) = open_form(s);
        match r1 {
            Err(e) => (s1, Err(e)),
            Ok(_) => {
                let (s2, l2) = read_form_line(s1, true);
                match l2 {
                    Err(e) => (s2, Err(e)),
                    Ok(line) => match parse_content_disposition(line) {
                        Err(e) => (s2, Err(e)),
                        Ok((name, filename)) => {
                            let (s3, r3) = read_content_type(s2, filename is Some);
                            match r3 {
                                Err(e) => (s3, Err(e)),
                                Ok(content_type) => {
                                    let (s4, l4) = read_form_line(s3, false);
                                    match l4 {
                                        Err(e) => (s4, Err(e)),
                                        Ok(empty) => if empty.len() == 0 {
                                            (s4, Ok(Some(FieldView { name, filename, content_type })))
                                        } else {
                                            (s4, Err(FieldErrorView::ExpectedNewLine))
                                        },
                                    }
                                },
                            }
                        },
                    },
                }
            },
        }
    }
}

/// What follows a boundary: `--` ends the form; then `\r\n` must come.
pub open spec fn after_boundary(s: FormDataView) -> (FormDataView, Result<(), FieldErrorView>) {
    let (r1, p1) = peek_spec(s.reader, 2);
    match p1 {
        Err(e) => (FormDataView { reader: r1, ..s }, Err(FieldErrorView::Stream(e))),
        Ok(dashes) => {
            let (s2, r2) = if dashes == seq![0x2du8, 0x2du8] {
                let (r, x) = read_exact_spec(r1, 2);
                (
                    FormDataView { reader: r, state: ParseState::Done, ..s },
                    match x {
                        Ok(_) => Ok(()),
                        Err(e) => Err(FieldErrorView::Stream(e)),
                    },
                )
            } else {
                (FormDataView { reader: r1, ..s }, Ok(()))
            };
            match r2 {
                Err(e) => (s2, Err(e)),
                Ok(_) => {
                    let (r3, p3) = peek_spec(s2.reader, 2);
                    match p3 {
                        Err(e) => (FormDataView { reader: r3, ..s2 }, Err(FieldErrorView::Stream(e))),
                        Ok(ending) => if ending != seq![0x0du8, 0x0au8] {
                            (FormDataView { reader: r3, ..s2 }, Err(FieldErrorView::ExpectedLineEnding))
                        } else {
                            let (r4, x) = read_exact_spec(r3, 2);
                            (
                                FormDataView { reader: r4, ..s2 },
                                match x {
                                    Ok(_) => Ok(()),
                                    Err(e) => Err(FieldErrorView::Stream(e)),
                                },
                            )
                        },
                    }
                },
            }
        },
    }
}

/// `next_chunk`: the next bytes of the current field and whether the field ended: the bytes up
/// to `\r\n` and the boundary line (which are read, with what follows the boundary), or the bytes
/// read so far when the boundary is not in sight; an empty read ends the field.
pub open spec fn next_chunk_spec(s: FormDataView) -> (FormDataView, Result<(bool, Seq<u8>), FieldErrorView>) {
    let pat = field_end_pattern(s);
    let (r1, res) = read_until_sequence_spec(s.reader, pat);
    let s1 = FormDataView { reader: r1, ..s };
    match res {
        Err(e) => (s1, Err(FieldErrorView::Stream(e))),
        Ok((found, bytes)) => if bytes.len() == 0 {
            (s1, Ok((true, bytes)))
        } else if !found {
            (s1, Ok((false, bytes)))
        } else if bytes.len() >= pat.len() && bytes.subrange(bytes.len() - pat.len(), bytes.len() as int) == pat {
            let (s2, r2) = after_boundary(s1);
            match r2 {
                Err(e) => (s2, Err(e)),
                Ok(_) => (s2, Ok((true, bytes.subrange(0, bytes.len() - pat.len())))),
            }
        } else {
            (s1, Err(FieldErrorView::EndBoundaryNotFound))
        },
    }
}

/// The bytes of the current field: its chunks, in order, until one ends the field.
pub open spec fn read_field(s: FormDataView, acc: Seq<u8>) -> (FormDataView, Result<Seq<u8>, FieldErrorView>)
    decreases remaining_bytes(s.reader),
{
    let (s1, r) = next_chunk_spec(s);
    match r {
        Err(e) => (s1, Err(e)),
        Ok((done, bytes)) => if !done && 0 <= remaining_bytes(s1.reader) < remaining_bytes(s.reader) {
            read_field(s1, acc + bytes)
        } else {
            (s1, Ok(acc + bytes))
        },
    }
}

/// Whether every chunk of the current field can be read: the stream never ends inside what may
/// be the start of a boundary.
pub open spec fn field_read_defined(s: FormDataView) -> bool
    decreases remaining_bytes(s.reader),
{
    &&& read_until_sequence_defined(s.reader, field_end_pattern(s))
    &&& {
        let (s1, r) = next_chunk_spec(s);
        match r {
            Ok((done, _)) => if !done && 0 <= remaining_bytes(s1.reader) < remaining_bytes(s.reader) {
                field_read_defined(s1)
            } else {
                true
            },
            Err(_) => true,
        }
    }
}

/// A form before anything was read: its boundary line is `--` and the boundary.
pub open spec fn form_start(boundary: Seq<char>, body: Seq<u8>, config: FormDataConfig) -> FormDataView {
    FormDataView {
        reader: StreamState {
            data: body,
            src: 0,
            buf: Seq::empty(),
            chunk: config.buffer_size as int,
            eof: false,
            total: 0,
            limit: config.max_body_size as int,
        },
        boundary: seq!['-', '-'] + boundary,
        state: ParseState::First,
        max_header_length: config.max_header_length,
    }
}

/// A `multipart/form-data` stream.
pub struct FormData {
    reader: StreamReader,
    boundary: String,
    state: ParseState,
    max_header_length: usize,
}

impl View for FormData {
    type V = FormDataView;

    closed spec fn view(&self) -> FormDataView {
        FormDataView {
            reader: self.reader@,
            boundary: self.boundary@,
            state: self.state,
            max_header_length: self.max_header_length,
        }
    }
}

/// A field of a form: its headers. Its content is read from the [`FormData`] it came from.
pub struct Field {
    pub(crate) name: String,
    pub(crate) filename: Option<String>,
    pub(crate) content_type: Option<String>,
}

/// The text of an optional string.
pub open spec fn opt_view(s: Option<String>) -> Option<Seq<char>> {
    match s {
        Some(t) => Some(t@),
        None => None,
    }
}

impl View for Field {
    type V = FieldView;

    closed spec fn view(&self) -> FieldView {
        FieldView { name: self.name@, filename: opt_view(self.filename), content_type: opt_view(self.content_type) }
    }
}

fn strip_line_end_exec(line: Vec<u8>) -> (r: Vec<u8>)
    ensures
        r@ == strip_line_end(line@),
{
    let ghost full = line@;
    let mut line = line;
    let n = line.len();
    if n >= 2 && line[n - 2] == 0x0d && line[n - 1] == 0x0a {
        line.pop();
        line.pop();
        assert(line@ =~= full.subrange(0, n - 2));
    } else if n >= 1 && line[n - 1] == 0x0a {
        line.pop();
    }
    line
}

proof fn lemma_after_boundary_wf(s: FormDataView)
    requires
        stream_wf(s.reader),
    ensures
        stream_wf(after_boundary(s).0.reader),
        after_boundary(s).0.boundary == s.boundary,
        after_boundary(s).0.max_header_length == s.max_header_length,
{
    crate::forms::stream_reader::lemma_peek_wf(s.reader, 2);
    let (r1, p1) = peek_spec(s.reader, 2);
    crate::forms::stream_reader::lemma_read_exact_wf(r1, 2);
    let s2 = if p1 matches Ok(d) && d == seq![0x2du8, 0x2du8] {
        FormDataView { reader: read_exact_spec(r1, 2).0, state: ParseState::Done, ..s }
    } else {
        FormDataView { reader: r1, ..s }
    };
    crate::forms::stream_reader::lemma_peek_wf(s2.reader, 2);
    let (r3, p3) = peek_spec(s2.reader, 2);
    crate::forms::stream_reader::lemma_read_exact_wf(r3, 2);
}

impl FormData {
    pub closed spec fn wf(&self) -> bool {
        self.reader.wf()
    }

    /// A form over the given body, with the default configuration.
    pub fn new(boundary: &str, body: &[u8]) -> (r: Self)
        ensures
            r.wf(),
            r@ == form_start(
                boundary@,
                body@,
                FormDataConfig {
                    max_header_length: MAX_HEADER_LENGTH,
                    max_body_size: DEFAULT_MAX_BODY_SIZE,
                    buffer_size: PARSE_BUFFER_SIZE,
                },
            ),
    {
        Self::with_config(boundary, body, FormDataConfig::default())
    }

    /// A form over the given body; the boundary line is `--` and the boundary.
    pub fn with_config(boundary: &str, body: &[u8], config: FormDataConfig) -> (r: Self)
        requires
            config.buffer_size > 0,
            config.max_body_size > 0,
        ensures
            r.wf(),
            r@ == form_start(boundary@, body@, config),
    {
        let mut text = String::new();
        string_push(&mut text, '-');
        string_push(&mut text, '-');
        let cs = str_to_chars(boundary);
        let mut i: usize = 0;
        while i < cs.len()
            invariant
                cs@ == boundary@,
                i <= cs@.len(),
                text@ == seq!['-', '-'] + boundary@.subrange(0, i as int),
            decreases cs@.len() - i,
        {
            string_push(&mut text, cs[i]);
            i = i + 1;
            assert(text@ =~= seq!['-', '-'] + boundary@.subrange(0, i as int));
        }
        assert(boundary@.subrange(0, i as int) =~= boundary@);
        let reader = StreamReader::with_buffer_size_and_read_limit(body, config.buffer_size, config.max_body_size);
        FormData { reader, boundary: text, state: ParseState::First, max_header_length: config.max_header_length }
    }

    fn read_line(&mut self, limited: bool) -> (r: Result<Vec<u8>, FieldError>)
        requires
            old(self).wf(),
        ensures
            final(self).wf(),
            (final(self)@, match r {
                Ok(v) => Ok::<Seq<u8>, FieldErrorView>(v@),
                Err(e) => Err::<Seq<u8>, FieldErrorView>(e@),
            }) == read_form_line(old(self)@, limited),
    {
        let limit = if limited { Some(self.max_header_length) } else { None };
        match self.reader.read_line_with_limit(limit) {
            Err(e) => Err(FieldError::Stream(e)),
            Ok(line) => Ok(strip_line_end_exec(line)),
        }
    }

    fn boundary_line(&self) -> (r: Vec<u8>)
        ensures
            r@ == boundary_bytes(self@),
    {
        vstd::slice::slice_to_vec(self.boundary.as_str().as_bytes())
    }

    fn parse_boundary(&mut self) -> (r: Result<(), FieldError>)
        requires
            old(self).wf(),
            old(self)@.state == ParseState::First,
        ensures
            final(self).wf(),
            (final(self)@, match r {
                Ok(_) => Ok::<(), FieldErrorView>(()),
                Err(e) => Err::<(), FieldErrorView>(e@),
            }) == open_form(old(self)@),
    {
        let line = self.read_line(false)?;
        let expected = self.boundary_line();
        if !bytes_equal(&line, &expected) {
            return Err(FieldError::MissingBoundary(self.boundary.clone()));
        }
        self.state = ParseState::Next;
        Ok(())
    }

    /// The headers of the next field, or none once the end boundary was read.
    pub fn next_field(&mut self) -> (r: Result<Option<Field>, FieldError>)
        requires
            old(self).wf(),
        ensures
            final(self).wf(),
            (final(self)@, match r {
                Ok(Some(f)) => Ok::<Option<FieldView>, FieldErrorView>(Some(f@)),
                Ok(None) => Ok::<Option<FieldView>, FieldErrorView>(None),
                Err(e) => Err::<Option<FieldView>, FieldErrorView>(e@),
            }) == next_field_spec(old(self)@),
    {
        if self.state == ParseState::Done {
            return Ok(None);
        }
        if self.state == ParseState::First {
            self.parse_boundary()?;
        }
        let line = self.read_line(true)?;
        let (name, filename) = parse_content_disposition_exec(&line)?;
        let content_type = if filename.is_some() {
            let line = self.read_line(true)?;
            Some(parse_content_type_exec(&line)?)
        } else {
            None
        };
        let empty = self.read_line(false)?;
        if empty.len() != 0 {
            return Err(FieldError::ExpectedNewLine);
        }
        Ok(Some(Field { name, filename, content_type }))
    }

    fn field_end(&self) -> (r: Vec<u8>)
        ensures
            r@ == field_end_pattern(self@),
    {
        let mut pat: Vec<u8> = Vec::new();
        pat.push(0x0d);
        pat.push(0x0a);
        let mut b = self.boundary_line();
        pat.append(&mut b);
        pat
    }

    fn read_after_boundary(&mut self) -> (r: Result<(), FieldError>)
        requires
            old(self).wf(),
        ensures
            final(self).wf(),
            (final(self)@, match r {
                Ok(_) => Ok::<(), FieldErrorView>(()),
                Err(e) => Err::<(), FieldErrorView>(e@),
            }) == after_boundary(old(self)@),
    {
        let dashes = match self.reader.peek(2) {
            Ok(d) => d,
            Err(e) => {
                return Err(FieldError::Stream(e));
            },
        };
        if dashes.len() == 2 && dashes[0] == 0x2d && dashes[1] == 0x2d {
            assert(dashes@ =~= seq![0x2du8, 0x2du8]);
            self.state = ParseState::Done;
            match self.reader.read_exact(2) {
                Ok(_) => {},
                Err(e) => {
                    return Err(FieldError::Stream(e));
                },
            }
        } else {
            assert(dashes@ != seq![0x2du8, 0x2du8]);
        }
        let ending = match self.reader.peek(2) {
            Ok(d) => d,
            Err(e) => {
                return Err(FieldError::Stream(e));
            },
        };
        if !(ending.len() == 2 && ending[0] == 0x0d && ending[1] == 0x0a) {
            assert(ending@ != seq![0x0du8, 0x0au8]);
            return Err(FieldError::ExpectedLineEnding);
        }
        assert(ending@ =~= seq![0x0du8, 0x0au8]);
        match self.reader.read_exact(2) {
            Ok(_) => Ok(()),
            Err(e) => Err(FieldError::Stream(e)),
        }
    }

    /// The next bytes of the current field and whether the field ended with them.
    pub fn next_chunk(&mut self) -> (r: Result<(bool, Vec<u8>), FieldError>)
        requires
            old(self).wf(),
            read_until_sequence_defined(old(self)@.reader, field_end_pattern(old(self)@)),
        ensures
            final(self).wf(),
            (final(self)@, match r {
                Ok((done, v)) => Ok::<(bool, Seq<u8>), FieldErrorView>((done, v@)),
                Err(e) => Err::<(bool, Seq<u8>), FieldErrorView>(e@),
            }) == next_chunk_spec(old(self)@),
    {
        let pat = self.field_end();
        let (found, bytes) = match self.reader.read_until_sequence(pat.as_slice()) {
            Ok(x) => x,
            Err(e) => {
                return Err(FieldError::Stream(e));
            },
        };
        if bytes.len() == 0 {
            return Ok((true, bytes));
        }
        if !found {
            return Ok((false, bytes));
        }
        let n = bytes.len();
        let m = pat.len();
        if n >= m && bytes_equal(&sub_bytes(&bytes, n - m, n), &pat) {
            let body = sub_bytes(&bytes, 0, n - m);
            self.read_after_boundary()?;
            Ok((true, body))
        } else {
            Err(FieldError::EndBoundaryNotFound)
        }
    }
}

proof fn lemma_next_chunk_progress(s: FormDataView)
    requires
        stream_wf(s.reader),
    ensures
        stream_wf(next_chunk_spec(s).0.reader),
        next_chunk_spec(s).0.boundary == s.boundary,
        next_chunk_spec(s).0.max_header_length == s.max_header_length,
        next_chunk_spec(s).1 matches Ok((done, b)) && !done ==> 0 <= remaining_bytes(next_chunk_spec(s).0.reader)
            < remaining_bytes(s.reader),
{
    lemma_read_until_sequence_progress(s.reader, field_end_pattern(s));
    let (r1, res) = read_until_sequence_spec(s.reader, field_end_pattern(s));
    lemma_after_boundary_wf(FormDataView { reader: r1, ..s });
}

/// Appends the chunks of the current field.
fn read_field_exec(form: &mut FormData) -> (r: Result<Vec<u8>, FieldError>)
    requires
        old(form).wf(),
        field_read_defined(old(form)@),
    ensures
        final(form).wf(),
        (final(form)@, match r {
            Ok(v) => Ok::<Seq<u8>, FieldErrorView>(v@),
            Err(e) => Err::<Seq<u8>, FieldErrorView>(e@),
        }) == read_field(old(form)@, Seq::empty()),
{
    let mut acc: Vec<u8> = Vec::new();
    loop
        invariant
            form.wf(),
            field_read_defined(form@),
            read_field(form@, acc@) == read_field(old(form)@, Seq::empty()),
        decreases remaining_bytes(form@.reader),
    {
        let ghost s0 = form@;
        proof {
            lemma_next_chunk_progress(s0);
        }
        match form.next_chunk() {
            Err(e) => {
                return Err(e);
            },
            Ok((done, b)) => {
                let mut b = b;
                acc.append(&mut b);
                if done {
                    return Ok(acc);
                }
            },
        }
    }
}

impl Field {
    /// The name of the field.
    pub fn name(&self) -> (r: &str)
        ensures
            r@ == self@.name,
    {
        self.name.as_str()
    }

    /// The file name of the field, if it is a file.
    pub fn filename(&self) -> (r: Option<&str>)
        ensures
            match r {
                Some(t) => self@.filename == Some(t@),
                None => self@.filename is None,
            },
    {
        match &self.filename {
            Some(t) => Some(t.as_str()),
            None => None,
        }
    }

    /// The content type of the field, if it is a file.
    pub fn content_type(&self) -> (r: Option<&str>)
        ensures
            match r {
                Some(t) => self@.content_type == Some(t@),
                None => self@.content_type is None,
            },
    {
        match &self.content_type {
            Some(t) => Some(t.as_str()),
            None => None,
        }
    }

    /// Reads the content of the field from its form.
    pub fn bytes(self, form: &mut FormData) -> (r: Result<Vec<u8>, FieldError>)
        requires
            old(form).wf(),
            field_read_defined(old(form)@),
        ensures
            final(form).wf(),
            (final(form)@, match r {
                Ok(v) => Ok::<Seq<u8>, FieldErrorView>(v@),
                Err(e) => Err::<Seq<u8>, FieldErrorView>(e@),
            }) == read_field(old(form)@, Seq::empty()),
    {
        read_field_exec(form)
    }

    /// Reads the content of the field from its form, as UTF-8 text.
    pub fn text(self, form: &mut FormData) -> (r: Result<String, FieldError>)
        requires
            old(form).wf(),
            field_read_defined(old(form)@),
        ensures
            final(form).wf(),
            final(form)@ == read_field(old(form)@, Seq::empty()).0,
            match (r, read_field(old(form)@, Seq::empty()).1) {
                (Ok(t), Ok(b)) => valid_utf8(b) && t@ == decode_utf8(b),
                (Err(e), Ok(b)) => !valid_utf8(b) && e@ == FieldErrorView::Utf8Error,
                (Err(e), Err(x)) => e@ == x,
                (Ok(_), Err(_)) => false,
            },
    {
        let bytes = read_field_exec(form)?;
        match string_from_utf8(bytes) {
            Some(t) => Ok(t),
            None => Err(FieldError::Utf8Error),
        }
    }
}


/// The media type of a form.
pub const MULTIPART_FORM_DATA: &'static str = "multipart/form-data";

/// Why a request does not hold a form.
#[derive(Debug)]
pub enum FormDataError {
    /// The request has no content type.
    NoContentType,
    /// The content type is not `multipart/form-data`.
    InvalidContentType(String),
    /// The content type has no boundary.
    BoundaryNoFound,
    /// The boundary is not valid.
    InvalidBoundary(String),
    /// Storing a field failed.
    Other(String),
}

/// The abstract value of a [`FormDataError`].
pub enum FormDataErrorView {
    NoContentType,
    InvalidContentType(Seq<char>),
    BoundaryNoFound,
    InvalidBoundary(Seq<char>),
    Other(Seq<char>),
}

impl View for FormDataError {
    type V = FormDataErrorView;

    open spec fn view(&self) -> FormDataErrorView {
        match self {
            FormDataError::NoContentType => FormDataErrorView::NoContentType,
            FormDataError::InvalidContentType(s) => FormDataErrorView::InvalidContentType(s@),
            FormDataError::BoundaryNoFound => FormDataErrorView::BoundaryNoFound,
            FormDataError::InvalidBoundary(s) => FormDataErrorView::InvalidBoundary(s@),
            FormDataError::Other(s) => FormDataErrorView::Other(s@),
        }
    }
}

/// Index of the first occurrence of `pat` in `cs` at or after `from`.
pub open spec fn chars_window_index(cs: Seq<char>, pat: Seq<char>, from: int) -> Option<int>
    decreases cs.len() + 1 - from,
{
    if from < 0 || from + pat.len() > cs.len() {
        None
    } else if cs.subrange(from, from + pat.len()) == pat {
        Some(from)
    } else {
        chars_window_index(cs, pat, from + 1)
    }
}

/// The boundary of a `multipart/form-data; boundary=...` content type: the media type is the
/// text before the first `;`, and the boundary is what follows the first `boundary=` in the text
/// between the first and the second `;`.
pub open spec fn multipart_boundary(value: Seq<char>) -> Result<Seq<char>, FormDataErrorView> {
    let parts = split_chars(value, ';');
    if parts[0] != MULTIPART_FORM_DATA@ {
        Err(FormDataErrorView::InvalidContentType(parts[0]))
    } else if parts.len() < 2 {
        Err(FormDataErrorView::BoundaryNoFound)
    } else {
        match chars_window_index(parts[1], "boundary="@, 0) {
            Some(i) => Ok(parts[1].skip(i + 9)),
            None => Err(FormDataErrorView::BoundaryNoFound),
        }
    }
}

/// The index of the first occurrence of `pat` in `cs`.
fn find_chars(cs: &Vec<char>, pat: &Vec<char>) -> (r: Option<usize>)
    ensures
        match r {
            Some(i) => chars_window_index(cs@, pat@, 0) == Some(i as int) && i + pat@.len() <= cs@.len(),
            None => chars_window_index(cs@, pat@, 0) is None,
        },
{
    let n = cs.len();
    let m = pat.len();
    if m > n {
        return None;
    }
    let mut i: usize = 0;
    while i <= n - m
        invariant
            n == cs@.len(),
            m == pat@.len(),
            m <= n,
            chars_window_index(cs@, pat@, 0) == chars_window_index(cs@, pat@, i as int),
        decreases n + 1 - i,
    {
        let mut j: usize = 0;
        let mut same = true;
        while j < m && same
            invariant
                n == cs@.len(),
                m == pat@.len(),
                i + m <= n,
                j <= m,
                same ==> forall|k: int| 0 <= k < j ==> cs@[i + k] == pat@[k],
                !same ==> cs@.subrange(i as int, i + m) != pat@,
            decreases m - j,
        {
            if cs[i + j] != pat[j] {
                same = false;
                assert(cs@.subrange(i as int, i + m)[j as int] != pat@[j as int]);
            }
            j = j + 1;
        }
        if same {
            assert(cs@.subrange(i as int, i + m) =~= pat@);
            return Some(i);
        }
        if i == n - m {
            assert(chars_window_index(cs@, pat@, i + 1) is None);
            return None;
        }
        i = i + 1;
    }
    None
}

/// The boundary of a `multipart/form-data` content type.
pub fn get_multipart_and_boundary(value: &str) -> (r: Result<String, FormDataError>)
    ensures
        match r {
            Ok(b) => multipart_boundary(value@) == Ok::<Seq<char>, FormDataErrorView>(b@),
            Err(e) => multipart_boundary(value@) == Err::<Seq<char>, FormDataErrorView>(e@),
        },
{
    let cs = str_to_chars(value);
    let parts = split_chars_from(cs.as_slice(), 0, ';');
    proof {
        assert(cs@.subrange(0, cs@.len() as int) =~= value@);
        crate::uri::path_query::lemma_split_chars_nonempty(value@, ';');
        assert(parts@[0]@ == string_views(parts@)[0]);
    }
    if !str_eq(parts[0].as_str(), MULTIPART_FORM_DATA) {
        return Err(FormDataError::InvalidContentType(parts[0].clone()));
    }
    if parts.len() < 2 {
        return Err(FormDataError::BoundaryNoFound);
    }
    proof {
        assert(parts@[1]@ == string_views(parts@)[1]);
    }
    let second = str_to_chars(parts[1].as_str());
    let key = str_to_chars("boundary=");
    proof {
        reveal_strlit("boundary=");
        assert(key@.len() == 9);
    }
    match find_chars(&second, &key) {
        Some(i) => {
            let len = second.len();
            assert(i + key@.len() <= len);
            let b = subrange_to_string(second.as_slice(), i + 9, len);
            assert(b@ =~= second@.skip(i + 9));
            Ok(b)
        },
        None => Err(FormDataError::BoundaryNoFound),
    }
}

impl FormData {
    /// The form of a request: its `Content-Type` must be `multipart/form-data` with a boundary.
    pub fn from_request(headers: &Headers, body: &[u8], config: FormDataConfig) -> (r: Result<FormData, FormDataError>)
        requires
            config.buffer_size > 0,
            config.max_body_size > 0,
        ensures
            match headers.spec_get("Content-Type"@) {
                None => r matches Err(e) && e@ == FormDataErrorView::NoContentType,
                Some(v) => match multipart_boundary(v) {
                    Err(x) => r matches Err(e) && e@ == x,
                    Ok(b) => r matches Ok(f) && f.wf() && f@ == form_start(b, body@, config),
                },
            },
    {
        let value = match headers.get("Content-Type") {
            Some(v) => v,
            None => {
                return Err(FormDataError::NoContentType);
            },
        };
        let boundary = get_multipart_and_boundary(value)?;
        Ok(FormData::with_config(boundary.as_str(), body, config))
    }
}

} // verus!
