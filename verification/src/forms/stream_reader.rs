//! A buffered reader over a byte stream, with search operations used by form parsing.
use vstd::prelude::*;
use crate::server::DEFAULT_MAX_BODY_SIZE;
use crate::text::{decimal_chars, push_decimal_chars, push_str};

verus! {

/// Size of the chunks read from the underlying stream when none is given.
pub const PARSE_BUFFER_SIZE: usize = 8192;


/// Errors of a [`StreamReader`].
#[derive(Debug, PartialEq, Eq)]
pub enum StreamError {
    /// The underlying stream would have produced more bytes than the reader may read.
    ReaderLimitReached { read: u128, limit: usize },
    /// An operation needed more bytes than its own limit.
    LimitReached { read: u128, limit: usize },
}

/// The message of a stream error: what was reached, then the bytes read and the limit.
pub open spec fn stream_error_message(e: StreamError) -> Seq<char> {
    match e {
        StreamError::ReaderLimitReached { read, limit } => "reader bytes limit reached: "@
            + decimal_chars(read as nat) + " > "@ + decimal_chars(limit as nat),
        StreamError::LimitReached { read, limit } => "limit of bytes reached: "@ + decimal_chars(
            read as nat,
        ) + " > "@ + decimal_chars(limit as nat),
    }
}

impl StreamError {
    /// The message of this error, such as `reader bytes limit reached: 128 > 100`.
    pub fn to_string(&self) -> (r: String)
        ensures
            r@ == stream_error_message(*self),
    {
        let mut out = String::new();
        match self {
            StreamError::ReaderLimitReached { read, limit } => {
                push_str(&mut out, "reader bytes limit reached: ");
                push_decimal_chars(&mut out, *read);
                push_str(&mut out, " > ");
                push_decimal_chars(&mut out, *limit as u128);
            },
            StreamError::LimitReached { read, limit } => {
                push_str(&mut out, "limit of bytes reached: ");
                push_decimal_chars(&mut out, *read);
                push_str(&mut out, " > ");
                push_decimal_chars(&mut out, *limit as u128);
            },
        }
        assert(out@ =~= stream_error_message(*self));
        out
    }
}

/// The abstract state of a stream reader.
pub struct StreamState {
    /// Everything the underlying stream produces.
    pub data: Seq<u8>,
    /// How much of `data` has been read from the stream.
    pub src: int,
    /// Bytes read from the stream and not yet handed out.
    pub buf: Seq<u8>,
    /// Size of one read from the stream.
    pub chunk: int,
    /// Whether the stream reported its end.
    pub eof: bool,
    /// Number of bytes counted as read.
    pub total: int,
    /// Limit on `total`.
    pub limit: int,
}

/// Size of the next read from the stream.
pub open spec fn next_read_len(s: StreamState) -> int {
    if s.data.len() - s.src < s.chunk {
        s.data.len() - s.src
    } else {
        s.chunk
    }
}

pub open spec fn stream_wf(s: StreamState) -> bool {
    &&& s.chunk > 0
    &&& 0 <= s.src <= s.data.len()
    &&& 0 <= s.total <= s.limit
}

/// Reads chunks from the stream until the buffer holds `required` bytes or the stream ends; a
/// read that would pass the limit fails and its bytes are lost.
pub open spec fn fill_to(s: StreamState, required: int) -> (StreamState, Result<int, StreamError>)
    decreases s.data.len() - s.src,
{
    if s.buf.len() >= required || s.src < 0 || s.src > s.data.len() || s.chunk <= 0 {
        (s, Ok(s.buf.len() as int))
    } else {
        let n = next_read_len(s);
        if n == 0 {
            (StreamState { eof: true, ..s }, Ok(s.buf.len() as int))
        } else if s.total + n > s.limit {
            (
                StreamState { src: s.src + n, ..s },
                Err(StreamError::ReaderLimitReached { read: (s.total + n) as u128, limit: s.limit as usize }),
            )
        } else {
            fill_to(
                StreamState {
                    buf: s.buf + s.data.subrange(s.src, s.src + n),
                    src: s.src + n,
                    total: s.total + n,
                    ..s
                },
                required,
            )
        }
    }
}

/// `fill_buffer`: reads at least `additional` more bytes unless the stream already ended.
/// On success gives the buffer length (0 when the stream had already ended).
pub open spec fn fill_buffer(s: StreamState, additional: int) -> (StreamState, Result<int, StreamError>) {
    if s.eof {
        (s, Ok(0))
    } else {
        fill_to(s, s.buf.len() + additional)
    }
}

/// Hands out the first `count` bytes of the buffer (fewer if it holds fewer).
pub open spec fn consume(s: StreamState, count: int) -> (StreamState, Seq<u8>) {
    let size = if count < s.buf.len() { count } else { s.buf.len() as int };
    (StreamState { buf: s.buf.subrange(size, s.buf.len() as int), ..s }, s.buf.subrange(0, size))
}

pub proof fn lemma_fill_to(s: StreamState, required: int)
    requires
        stream_wf(s),
    ensures
        stream_wf(fill_to(s, required).0),
        fill_to(s, required).0.data == s.data,
        fill_to(s, required).0.chunk == s.chunk,
        fill_to(s, required).0.limit == s.limit,
        fill_to(s, required).0.src >= s.src,
        fill_to(s, required).0.buf.len() >= s.buf.len(),
        fill_to(s, required).0.eof == s.eof || fill_to(s, required).0.eof,
        s.buf.len() < required ==> fill_to(s, required).0.src > s.src || fill_to(s, required).0.eof,
        fill_to(s, required).1 is Ok ==> fill_to(s, required).0.buf.len() >= required || fill_to(s, required).0.eof,
        fill_to(s, required).1 matches Ok(n) ==> n == fill_to(s, required).0.buf.len(),
    decreases s.data.len() - s.src,
{
    if s.buf.len() >= required {
    } else {
        let n = next_read_len(s);
        if n == 0 {
        } else if s.total + n > s.limit {
        } else {
            lemma_fill_to(
                StreamState {
                    buf: s.buf + s.data.subrange(s.src, s.src + n),
                    src: s.src + n,
                    total: s.total + n,
                    ..s
                },
                required,
            );
        }
    }
}

/// The bytes not handed out yet: those left in the stream and those in the buffer.
pub open spec fn remaining_bytes(s: StreamState) -> int {
    (s.data.len() - s.src) + s.buf.len()
}

/// Filling moves bytes from the stream to the buffer, in order.
pub proof fn lemma_fill_to_moves(s: StreamState, required: int)
    requires
        stream_wf(s),
    ensures
        fill_to(s, required).1 is Ok ==> fill_to(s, required).0.buf == s.buf + s.data.subrange(
            s.src,
            fill_to(s, required).0.src,
        ),
        fill_to(s, required).1 is Ok ==> remaining_bytes(fill_to(s, required).0) == remaining_bytes(s),
        fill_to(s, required).0.data == s.data,
    decreases s.data.len() - s.src,
{
    lemma_fill_to(s, required);
    if s.buf.len() >= required {
        assert(s.data.subrange(s.src, s.src) =~= Seq::<u8>::empty());
        assert(s.buf + Seq::<u8>::empty() =~= s.buf);
    } else {
        let n = next_read_len(s);
        if n == 0 {
            assert(s.data.subrange(s.src, s.src) =~= Seq::<u8>::empty());
            assert(s.buf + Seq::<u8>::empty() =~= s.buf);
        } else if s.total + n > s.limit {
        } else {
            let s1 = StreamState {
                buf: s.buf + s.data.subrange(s.src, s.src + n),
                src: s.src + n,
                total: s.total + n,
                ..s
            };
            lemma_fill_to_moves(s1, required);
            lemma_fill_to(s1, required);
            let f = fill_to(s1, required).0;
            if fill_to(s1, required).1 is Ok {
                assert(s.data.subrange(s.src, s.src + n) + s.data.subrange(s.src + n, f.src) =~= s.data.subrange(s.src, f.src));
                assert(s.buf + s.data.subrange(s.src, s.src + n) + s.data.subrange(s.src + n, f.src) =~= s.buf + s.data.subrange(s.src, f.src));
            }
        }
    }
}

/// `fill_buffer` keeps the bytes not handed out.
pub proof fn lemma_fill_buffer_moves(s: StreamState, additional: int)
    requires
        stream_wf(s),
    ensures
        fill_buffer(s, additional).1 is Ok ==> remaining_bytes(fill_buffer(s, additional).0) == remaining_bytes(s),
        stream_wf(fill_buffer(s, additional).0),
        fill_buffer(s, additional).0.data == s.data,
{
    if !s.eof {
        lemma_fill_to_moves(s, s.buf.len() + additional);
        lemma_fill_to(s, s.buf.len() + additional);
    }
}

/// Peeking keeps the reader well formed.
pub proof fn lemma_peek_wf(s: StreamState, count: int)
    requires
        stream_wf(s),
    ensures
        stream_wf(peek_spec(s, count).0),
        peek_spec(s, count).0.data == s.data,
{
    if count > 0 {
        lemma_fill_buffer_moves(s, count);
    }
}

/// Reading an exact count keeps the reader well formed.
pub proof fn lemma_read_exact_wf(s: StreamState, count: int)
    requires
        stream_wf(s),
    ensures
        stream_wf(read_exact_spec(s, count).0),
        read_exact_spec(s, count).0.data == s.data,
{
    lemma_fill_buffer_moves(s, count);
}

/// Handing out bytes takes them from the buffer.
pub proof fn lemma_consume_progress(s: StreamState, count: int)
    requires
        0 <= count,
    ensures
        remaining_bytes(consume(s, count).0) + consume(s, count).1.len() == remaining_bytes(s),
        consume(s, count).0.data == s.data,
        consume(s, count).0.src == s.src,
        consume(s, count).0.chunk == s.chunk,
        consume(s, count).0.total == s.total,
        consume(s, count).0.limit == s.limit,
{
}

proof fn lemma_window_index_nonneg(buf: Seq<u8>, pat: Seq<u8>, from: int)
    requires
        0 <= from,
    ensures
        window_index(buf, pat, from) matches Some(i) ==> i >= from,
    decreases buf.len() + 1 - from,
{
    if from + pat.len() <= buf.len() && buf.subrange(from, from + pat.len()) != pat {
        lemma_window_index_nonneg(buf, pat, from + 1);
    }
}

/// What `read_until_sequence` hands out is taken from the bytes not handed out yet.
pub proof fn lemma_read_until_sequence_progress(s: StreamState, pat: Seq<u8>)
    requires
        stream_wf(s),
    ensures
        read_until_sequence_spec(s, pat).1 matches Ok((_, out)) ==> remaining_bytes(
            read_until_sequence_spec(s, pat).0,
        ) + out.len() == remaining_bytes(s),
        stream_wf(read_until_sequence_spec(s, pat).0),
        read_until_sequence_spec(s, pat).0.data == s.data,
{
    if pat.len() > 0 {
        lemma_fill_buffer_moves(s, pat.len() as int);
        let (s1, r1) = fill_buffer(s, pat.len() as int);
        lemma_window_index_nonneg(s1.buf, pat, 0);
        lemma_byte_index_from(s1.buf, pat[0], 0);
        lemma_consume_progress(s1, s1.buf.len() as int);
        match window_index(s1.buf, pat, 0) {
            Some(i) => {
                lemma_consume_progress(s1, i + pat.len());
            },
            None => {},
        }
        if r1 is Ok && window_index(s1.buf, pat, 0) is None && !s1.eof && overlap_start(s1.buf, pat) is Some {
            let st = overlap_start(s1.buf, pat).unwrap();
            lemma_fill_buffer_moves(s1, st + pat.len());
            let (s2, r2) = fill_buffer(s1, st + pat.len());
            lemma_consume_progress(s2, st + pat.len());
            lemma_consume_progress(s2, s2.buf.len() as int);
        }
    }
}

/// Index of the first `byte` in `buf[from..]`.
pub open spec fn byte_index_from(buf: Seq<u8>, byte: u8, from: int) -> Option<int>
    decreases buf.len() - from,
{
    if from < 0 || from >= buf.len() {
        None
    } else if buf[from] == byte {
        Some(from)
    } else {
        byte_index_from(buf, byte, from + 1)
    }
}

pub proof fn lemma_byte_index_from(buf: Seq<u8>, byte: u8, from: int)
    requires
        0 <= from,
    ensures
        match byte_index_from(buf, byte, from) {
            Some(i) => from <= i < buf.len() && buf[i] == byte && forall|j: int| from <= j < i ==> buf[j] != byte,
            None => forall|j: int| from <= j < buf.len() ==> buf[j] != byte,
        },
    decreases buf.len() - from,
{
    if from < buf.len() && buf[from] != byte {
        lemma_byte_index_from(buf, byte, from + 1);
    }
}

pub open spec fn over_limit(read: int, limit: Option<usize>) -> bool {
    match limit {
        Some(m) => read > m,
        None => false,
    }
}

pub open spec fn limit_error(read: int, limit: Option<usize>) -> StreamError {
    StreamError::LimitReached { read: read as u128, limit: limit.unwrap() }
}

pub open spec fn progress_measure(s: StreamState) -> int {
    (s.data.len() - s.src) * 2 + if s.eof { 0int } else { 1int }
}

/// `read_until_with_limit` from the search position `start` with `read` bytes counted: search the
/// buffer for the byte; if missing, read more and count the buffer length; the limit is checked
/// on the match offset and, before each count, on the bytes counted so far.
pub open spec fn read_until_loop(s: StreamState, start: int, read: int, byte: u8, max: Option<usize>) -> (StreamState, Result<Seq<u8>, StreamError>)
    decreases progress_measure(s),
{
    match byte_index_from(s.buf, byte, start) {
        Some(idx) => {
            if over_limit(idx + 1, max) {
                (s, Err(limit_error(idx + 1, max)))
            } else {
                let (s2, out) = consume(s, idx + 1);
                (s2, Ok(out))
            }
        },
        None => {
            let (s2, r) = fill_buffer(s, 1);
            match r {
                Err(e) => (s2, Err(e)),
                Ok(n) => {
                    if over_limit(read, max) {
                        (s2, Err(limit_error(read, max)))
                    } else if n == 0 {
                        let (s3, out) = consume(s2, s2.buf.len() as int);
                        (s3, Ok(out))
                    } else {
                        if stream_wf(s) {
                            proof {
                                lemma_fill_to(s, (s.buf.len() + 1) as int);
                            }
                            read_until_loop(s2, s.buf.len() as int, read + n, byte, max)
                        } else {
                            (s2, Ok(Seq::empty()))
                        }
                    }
                },
            }
        },
    }
}

pub proof fn lemma_read_until_loop_no_limit(s: StreamState, start: int, r1: int, r2: int, byte: u8)
    ensures
        read_until_loop(s, start, r1, byte, None) == read_until_loop(s, start, r2, byte, None),
    decreases progress_measure(s),
{
    match byte_index_from(s.buf, byte, start) {
        Some(idx) => {},
        None => {
            let (s2, r) = fill_buffer(s, 1);
            match r {
                Err(e) => {},
                Ok(n) => {
                    if n != 0 && stream_wf(s) {
                        lemma_fill_to(s, (s.buf.len() + 1) as int);
                        lemma_read_until_loop_no_limit(s2, s.buf.len() as int, r1 + n, r2 + n, byte);
                    }
                },
            }
        },
    }
}

/// The bytes not handed out yet, in order: the buffer, then what the stream has left.
pub open spec fn unread(s: StreamState) -> Seq<u8> {
    s.buf + s.data.subrange(s.src, s.data.len() as int)
}

/// Whether reading the rest of the stream stays within the limit.
pub open spec fn within_budget(s: StreamState) -> bool {
    s.total + (s.data.len() - s.src) <= s.limit
}

/// Whether the end was only reported once the stream was read to its end.
pub open spec fn eof_at_end(s: StreamState) -> bool {
    s.eof ==> s.src == s.data.len()
}

proof fn lemma_fill_to_budget(s: StreamState, required: int)
    requires
        stream_wf(s),
        within_budget(s),
        eof_at_end(s),
    ensures
        fill_to(s, required).1 is Ok,
        within_budget(fill_to(s, required).0),
        eof_at_end(fill_to(s, required).0),
        fill_to(s, required).0.limit == s.limit,
    decreases s.data.len() - s.src,
{
    if s.buf.len() < required {
        let n = next_read_len(s);
        if n != 0 && s.total + n <= s.limit {
            lemma_fill_to_budget(
                StreamState {
                    buf: s.buf + s.data.subrange(s.src, s.src + n),
                    src: s.src + n,
                    total: s.total + n,
                    ..s
                },
                required,
            );
        }
    }
}

proof fn lemma_unread_after_fill(s: StreamState, required: int)
    requires
        stream_wf(s),
        within_budget(s),
        eof_at_end(s),
    ensures
        unread(fill_to(s, required).0) == unread(s),
{
    lemma_fill_to_moves(s, required);
    lemma_fill_to_budget(s, required);
    lemma_fill_to(s, required);
    let f = fill_to(s, required).0;
    assert(s.data.subrange(s.src, f.src) + s.data.subrange(f.src, s.data.len() as int) =~= s.data.subrange(
        s.src,
        s.data.len() as int,
    ));
    assert(unread(f) =~= unread(s));
}

proof fn lemma_read_until_from(s: StreamState, start: int, read: int, byte: u8)
    requires
        stream_wf(s),
        within_budget(s),
        eof_at_end(s),
        0 <= start <= s.buf.len(),
        forall|j: int| 0 <= j < start ==> s.buf[j] != byte,
    ensures
        ({
            let (s2, r) = read_until_loop(s, start, read, byte, None);
            &&& stream_wf(s2)
            &&& within_budget(s2)
            &&& eof_at_end(s2)
            &&& match byte_index_from(unread(s), byte, 0) {
                Some(p) => r == Ok::<Seq<u8>, StreamError>(unread(s).take(p + 1)) && unread(s2) == unread(s).skip(p + 1),
                None => r == Ok::<Seq<u8>, StreamError>(unread(s)) && unread(s2) == Seq::<u8>::empty(),
            }
        }),
    decreases progress_measure(s),
{
    let u = unread(s);
    lemma_byte_index_from(s.buf, byte, start);
    lemma_byte_index_from(u, byte, 0);
    match byte_index_from(s.buf, byte, start) {
        Some(idx) => {
            assert(u[idx] == s.buf[idx]);
            match byte_index_from(u, byte, 0) {
                Some(p) => {
                    if p < idx {
                        assert(u[p] == s.buf[p]);
                    }
                },
                None => {},
            }
            let (s2, out) = consume(s, idx + 1);
            assert(out =~= u.take(idx + 1));
            assert(unread(s2) =~= u.skip(idx + 1));
        },
        None => {
            assert forall|j: int| 0 <= j < s.buf.len() implies #[trigger] u[j] != byte by {
                assert(u[j] == s.buf[j]);
            }
            if s.eof {
                assert(u =~= s.buf);
                let (s3, out) = consume(s, s.buf.len() as int);
                assert(out =~= s.buf);
                assert(unread(s3) =~= Seq::<u8>::empty());
            } else {
                let required = (s.buf.len() + 1) as int;
                lemma_fill_to_budget(s, required);
                lemma_unread_after_fill(s, required);
                lemma_fill_to(s, required);
                lemma_fill_to_moves(s, required);
                let (s2, r) = fill_to(s, required);
                let n = s2.buf.len();
                if n == 0 {
                    assert(s2.buf =~= s.buf + s.data.subrange(s.src, s2.src));
                    assert(u =~= unread(s2));
                    assert(s2.src == s.data.len());
                    assert(u =~= Seq::<u8>::empty());
                    let (s3, out) = consume(s2, 0);
                    assert(out =~= Seq::<u8>::empty());
                    assert(unread(s3) =~= Seq::<u8>::empty());
                } else {
                    assert forall|j: int| 0 <= j < s.buf.len() implies s2.buf[j] != byte by {
                        assert(s2.buf[j] == s.buf[j]);
                    }
                    lemma_read_until_from(s2, s.buf.len() as int, read + n, byte);
                }
            }
        },
    }
}

/// Reading until a byte gives the bytes not handed out yet through the first occurrence of the
/// byte, or all of them when it does not occur, whatever the size of the reads from the stream,
/// as long as the rest of the stream fits within the limit; the bytes after it are still to be
/// read.
pub proof fn law_read_until_reads_through_first(s: StreamState, byte: u8)
    requires
        stream_wf(s),
        within_budget(s),
        eof_at_end(s),
    ensures
        ({
            let (s2, r) = read_until_loop(s, 0, 0, byte, None);
            &&& within_budget(s2)
            &&& eof_at_end(s2)
            &&& match byte_index_from(unread(s), byte, 0) {
                Some(p) => r == Ok::<Seq<u8>, StreamError>(unread(s).take(p + 1)) && unread(s2) == unread(s).skip(p + 1),
                None => r == Ok::<Seq<u8>, StreamError>(unread(s)) && unread(s2) == Seq::<u8>::empty(),
            }
        }),
{
    lemma_read_until_from(s, 0, 0, byte);
}

/// `peek`: reads more when a positive count is asked, then shows up to `count` buffered bytes.
pub open spec fn peek_spec(s: StreamState, count: int) -> (StreamState, Result<Seq<u8>, StreamError>) {
    let (s2, r) = if count > 0 { fill_buffer(s, count) } else { (s, Ok(0int)) };
    match r {
        Err(e) => (s2, Err(e)),
        Ok(_) => {
            let len = if count < s2.buf.len() { count } else { s2.buf.len() as int };
            (s2, Ok(s2.buf.subrange(0, len)))
        },
    }
}

/// `read_exact`: reads at least `count` more bytes, then hands out up to `count` bytes.
pub open spec fn read_exact_spec(s: StreamState, count: int) -> (StreamState, Result<Seq<u8>, StreamError>) {
    let (s2, r) = fill_buffer(s, count);
    match r {
        Err(e) => (s2, Err(e)),
        Ok(_) => {
            let (s3, out) = consume(s2, count);
            (s3, Ok(out))
        },
    }
}

/// `read_to_end`: reads until the stream ends, then hands out the whole buffer.
pub open spec fn read_to_end_spec(s: StreamState) -> (StreamState, Result<Seq<u8>, StreamError>)
    decreases progress_measure(s),
{
    if s.eof {
        let (s2, out) = consume(s, s.buf.len() as int);
        (s2, Ok(out))
    } else {
        let (s2, r) = fill_buffer(s, 1);
        match r {
            Err(e) => (s2, Err(e)),
            Ok(_) => {
                if stream_wf(s) {
                    proof {
                        lemma_fill_to(s, (s.buf.len() + 1) as int);
                    }
                    read_to_end_spec(s2)
                } else {
                    (s2, Ok(Seq::empty()))
                }
            },
        }
    }
}

/// Index of the first occurrence of `pat` in `buf` at or after `from`.
pub open spec fn window_index(buf: Seq<u8>, pat: Seq<u8>, from: int) -> Option<int>
    decreases buf.len() + 1 - from,
{
    if from < 0 || from + pat.len() > buf.len() {
        None
    } else if buf.subrange(from, from + pat.len()) == pat {
        Some(from)
    } else {
        window_index(buf, pat, from + 1)
    }
}

/// Where a partial occurrence of `pat` may start at the end of `slice`: the whole slice when it
/// equals `pat`, else the first occurrence of `pat[0]` when the rest of the slice from there is a
/// prefix of `pat`.
pub open spec fn overlap_start(slice: Seq<u8>, pat: Seq<u8>) -> Option<int> {
    if slice.len() == pat.len() && slice == pat {
        Some(0)
    } else {
        match byte_index_from(slice, pat[0], 0) {
            Some(idx) => {
                let last = slice.subrange(idx, slice.len() as int);
                let rem = if last.len() < pat.len() { last.len() as int } else { pat.len() as int };
                if pat.subrange(0, rem) == last {
                    Some(idx)
                } else {
                    None
                }
            },
            None => None,
        }
    }
}

/// Whether `read_until_sequence` stays within the buffer: after a partial match at the end, the
/// buffer must hold the whole candidate occurrence once more is read.
pub open spec fn read_until_sequence_defined(s: StreamState, pat: Seq<u8>) -> bool {
    pat.len() > 0 ==> {
        let (s1, r1) = fill_buffer(s, pat.len() as int);
        r1 is Ok && window_index(s1.buf, pat, 0) is None && !s1.eof ==> match overlap_start(s1.buf, pat) {
            Some(st) => {
                let (s2, r2) = fill_buffer(s1, st + pat.len());
                r2 is Ok ==> s2.buf.len() >= st + pat.len()
            },
            None => true,
        }
    }
}

/// `read_until_sequence`: `(true, bytes through the sequence)` when found, else `(false, rest of
/// the buffer)`.
pub open spec fn read_until_sequence_spec(s: StreamState, pat: Seq<u8>) -> (StreamState, Result<(bool, Seq<u8>), StreamError>) {
    if pat.len() == 0 {
        (s, Ok((true, Seq::empty())))
    } else {
        let (s1, r1) = fill_buffer(s, pat.len() as int);
        match r1 {
            Err(e) => (s1, Err(e)),
            Ok(_) => match window_index(s1.buf, pat, 0) {
                Some(i) => {
                    let (s2, out) = consume(s1, i + pat.len());
                    (s2, Ok((true, out)))
                },
                None => {
                    if !s1.eof && overlap_start(s1.buf, pat) is Some {
                        let st = overlap_start(s1.buf, pat).unwrap();
                        let (s2, r2) = fill_buffer(s1, st + pat.len());
                        match r2 {
                            Err(e) => (s2, Err(e)),
                            Ok(_) => {
                                if s2.buf.subrange(st, st + pat.len()) == pat {
                                    let (s3, out) = consume(s2, st + pat.len());
                                    (s3, Ok((true, out)))
                                } else {
                                    let (s3, out) = consume(s2, s2.buf.len() as int);
                                    (s3, Ok((false, out)))
                                }
                            },
                        }
                    } else {
                        let (s2, out) = consume(s1, s1.buf.len() as int);
                        (s2, Ok((false, out)))
                    }
                },
            },
        }
    }
}

/// Whether `buf[at..at + pat.len()]` equals `pat`.
fn bytes_eq_at(buf: &Vec<u8>, at: usize, pat: &[u8]) -> (r: bool)
    ensures
        r == (at + pat@.len() <= buf@.len() && buf@.subrange(at as int, at + pat@.len()) == pat@),
{
    let n = buf.len();
    let m = pat.len();
    if at > n || m > n - at {
        return false;
    }
    let mut j: usize = 0;
    while j < m
        invariant
            n == buf@.len(),
            m == pat@.len(),
            at + m <= n,
            j <= m,
            forall|k: int| 0 <= k < j ==> buf@[at + k] == pat@[k],
        decreases m - j,
    {
        if buf[at + j] != pat[j] {
            assert(buf@.subrange(at as int, at + m)[j as int] != pat@[j as int]);
            return false;
        }
        j = j + 1;
    }
    assert(buf@.subrange(at as int, at + m) =~= pat@);
    true
}

/// A copy of `buf[from..to]`.
fn copy_bytes(buf: &Vec<u8>, from: usize, to: usize) -> (r: Vec<u8>)
    requires
        from <= to <= buf@.len(),
    ensures
        r@ == buf@.subrange(from as int, to as int),
{
    let mut out: Vec<u8> = Vec::new();
    let mut i = from;
    while i < to
        invariant
            from <= i <= to <= buf@.len(),
            out@ == buf@.subrange(from as int, i as int),
        decreases to - i,
    {
        out.push(buf[i]);
        i = i + 1;
        assert(out@ =~= buf@.subrange(from as int, i as int));
    }
    out
}

/// Finds where a partial occurrence of `sequence` starts at the end of `slice`.
fn overlapping_position(slice: &Vec<u8>, sequence: &[u8]) -> (r: Option<usize>)
    requires
        sequence@.len() > 0,
    ensures
        match r {
            Some(i) => overlap_start(slice@, sequence@) == Some(i as int) && i <= slice@.len(),
            None => overlap_start(slice@, sequence@) is None,
        },
{
    let n = slice.len();
    let m = sequence.len();
    if n == m && bytes_eq_at(slice, 0, sequence) {
        assert(slice@.subrange(0, m as int) =~= slice@);
        return Some(0);
    }
    proof {
        if n == m {
            assert(slice@.subrange(0, m as int) =~= slice@);
        }
        lemma_byte_index_from(slice@, sequence@[0], 0);
    }
    let first_byte = sequence[0];
    let mut idx: usize = 0;
    while idx < n && slice[idx] != first_byte
        invariant
            n == slice@.len(),
            idx <= n,
            forall|j: int| 0 <= j < idx ==> slice@[j] != first_byte,
        decreases n - idx,
    {
        idx = idx + 1;
    }
    if idx == n {
        return None;
    }
    let last_len = n - idx;
    let rem = if last_len < m { last_len } else { m };
    let mut k: usize = 0;
    let mut same = rem == last_len;
    while k < rem && same
        invariant
            n == slice@.len(),
            m == sequence@.len(),
            idx < n,
            rem <= m,
            rem <= n - idx,
            k <= rem,
            same ==> rem == n - idx && forall|j: int| 0 <= j < k ==> sequence@[j] == slice@[idx + j],
            !same ==> sequence@.subrange(0, rem as int) != slice@.subrange(idx as int, n as int),
        decreases rem - k,
    {
        if sequence[k] != slice[idx + k] {
            same = false;
            assert(sequence@.subrange(0, rem as int)[k as int] != slice@.subrange(idx as int, n as int)[k as int]);
        }
        k = k + 1;
    }
    if same {
        assert(sequence@.subrange(0, rem as int) =~= slice@.subrange(idx as int, n as int));
        Some(idx)
    } else {
        None
    }
}

/// A reader that buffers the bytes of an underlying stream.
pub struct StreamReader {
    source: Vec<u8>,
    src_pos: usize,
    buf: Vec<u8>,
    buffer_size: usize,
    eof: bool,
    total_bytes_read: usize,
    reader_bytes_limit: usize,
}

impl View for StreamReader {
    type V = StreamState;

    closed spec fn view(&self) -> StreamState {
        StreamState {
            data: self.source@,
            src: self.src_pos as int,
            buf: self.buf@,
            chunk: self.buffer_size as int,
            eof: self.eof,
            total: self.total_bytes_read as int,
            limit: self.reader_bytes_limit as int,
        }
    }
}

impl StreamReader {
    pub open spec fn wf(&self) -> bool {
        stream_wf(self@)
    }

    /// Constructs a new [`StreamReader`] over the given bytes.
    pub fn new(reader: &[u8]) -> (r: Self)
        ensures
            r.wf(),
            r@ == (StreamState { data: reader@, src: 0, buf: Seq::empty(), chunk: PARSE_BUFFER_SIZE as int, eof: false, total: 0, limit: DEFAULT_MAX_BODY_SIZE as int }),
    {
        Self::with_buffer_size_and_read_limit(reader, PARSE_BUFFER_SIZE, DEFAULT_MAX_BODY_SIZE)
    }

    /// Constructs a new [`StreamReader`] with the given buffer size.
    pub fn with_buffer_size(reader: &[u8], buffer_size: usize) -> (r: Self)
        requires
            buffer_size > 0,
        ensures
            r.wf(),
            r@ == (StreamState { data: reader@, src: 0, buf: Seq::empty(), chunk: buffer_size as int, eof: false, total: 0, limit: DEFAULT_MAX_BODY_SIZE as int }),
    {
        Self::with_buffer_size_and_read_limit(reader, buffer_size, DEFAULT_MAX_BODY_SIZE)
    }

    /// Constructs a new [`StreamReader`] with the given max reader bytes limit.
    pub fn with_reader_bytes_limit(reader: &[u8], reader_bytes_limit: usize) -> (r: Self)
        requires
            reader_bytes_limit > 0,
        ensures
            r.wf(),
            r@ == (StreamState { data: reader@, src: 0, buf: Seq::empty(), chunk: PARSE_BUFFER_SIZE as int, eof: false, total: 0, limit: reader_bytes_limit as int }),
    {
        Self::with_buffer_size_and_read_limit(reader, PARSE_BUFFER_SIZE, reader_bytes_limit)
    }

    /// Constructs a new [`StreamReader`] with the given buffer size and max reader bytes limit.
    pub fn with_buffer_size_and_read_limit(reader: &[u8], buffer_size: usize, reader_bytes_limit: usize) -> (r: Self)
        requires
            buffer_size > 0,
            reader_bytes_limit > 0,
        ensures
            r.wf(),
            r@ == (StreamState { data: reader@, src: 0, buf: Seq::empty(), chunk: buffer_size as int, eof: false, total: 0, limit: reader_bytes_limit as int }),
    {
        let source = vstd::slice::slice_to_vec(reader);
        let r = StreamReader {
            source,
            src_pos: 0,
            buf: Vec::new(),
            buffer_size,
            eof: false,
            total_bytes_read: 0,
            reader_bytes_limit,
        };
        assert(r@.buf =~= Seq::<u8>::empty());
        r
    }

    /// Whether if all the data was read.
    pub fn eof(&self) -> (r: bool)
        ensures
            r == self@.eof,
    {
        self.eof
    }

    /// Current number of bytes read from the reader.
    pub fn total_bytes_read(&self) -> (r: usize)
        ensures
            r == self@.total,
    {
        self.total_bytes_read
    }

    fn fill_to_exec(&mut self, required: u128) -> (r: Result<usize, StreamError>)
        requires
            old(self).wf(),
        ensures
            final(self).wf(),
            (final(self)@, match r {
                Ok(n) => Ok::<int, StreamError>(n as int),
                Err(e) => Err::<int, StreamError>(e),
            }) == fill_to(old(self)@, required as int),
    {
        while (self.buf.len() as u128) < required
            invariant
                self.wf(),
                fill_to(self@, required as int) == fill_to(old(self)@, required as int),
            decreases self@.data.len() - self@.src,
        {
            let remaining = self.source.len() - self.src_pos;
            let n = if remaining < self.buffer_size { remaining } else { self.buffer_size };
            if n == 0 {
                self.eof = true;
                return Ok(self.buf.len());
            }
            if n > self.reader_bytes_limit - self.total_bytes_read {
                self.src_pos = self.src_pos + n;
                return Err(StreamError::ReaderLimitReached {
                    read: self.total_bytes_read as u128 + n as u128,
                    limit: self.reader_bytes_limit,
                });
            }
            let ghost before = self@;
            let mut i = self.src_pos;
            let end = self.src_pos + n;
            while i < end
                invariant
                    self.src_pos <= i <= end <= self.source@.len(),
                    self.buf@ == before.buf + self.source@.subrange(self.src_pos as int, i as int),
                    self.source@ == before.data,
                    self.src_pos == before.src,
                    self.total_bytes_read == before.total,
                    self.reader_bytes_limit == before.limit,
                    self.buffer_size == before.chunk,
                    self.eof == before.eof,
                    n <= self.reader_bytes_limit - self.total_bytes_read,
                    end == self.src_pos + n,
                    n == next_read_len(before),
                decreases end - i,
            {
                self.buf.push(self.source[i]);
                i = i + 1;
                assert(self.buf@ =~= before.buf + self.source@.subrange(self.src_pos as int, i as int));
            }
            self.src_pos = end;
            self.total_bytes_read = self.total_bytes_read + n;
            assert(self@ == StreamState {
                buf: before.buf + before.data.subrange(before.src, before.src + n),
                src: before.src + n,
                total: before.total + n,
                ..before
            });
        }
        Ok(self.buf.len())
    }

    fn fill_buffer_exec(&mut self, additional: u128) -> (r: Result<usize, StreamError>)
        requires
            old(self).wf(),
            additional <= 2 * (usize::MAX as u128),
        ensures
            final(self).wf(),
            (final(self)@, match r {
                Ok(n) => Ok::<int, StreamError>(n as int),
                Err(e) => Err::<int, StreamError>(e),
            }) == fill_buffer(old(self)@, additional as int),
    {
        if self.eof {
            return Ok(0);
        }
        self.fill_to_exec(self.buf.len() as u128 + additional)
    }

    fn find_byte(&self, byte: u8, start: usize) -> (r: Option<usize>)
        ensures
            match r {
                Some(i) => byte_index_from(self@.buf, byte, start as int) == Some(i as int) && i < self@.buf.len(),
                None => byte_index_from(self@.buf, byte, start as int) is None,
            },
    {
        proof {
            lemma_byte_index_from(self@.buf, byte, start as int);
        }
        let mut i = start;
        let n = self.buf.len();
        while i < n
            invariant
                n == self@.buf.len(),
                start <= i,
                forall|j: int| start <= j < i ==> self@.buf[j] != byte,
            decreases n - i,
        {
            if self.buf[i] == byte {
                proof {
                    lemma_byte_index_from(self@.buf, byte, start as int);
                }
                return Some(i);
            }
            i = i + 1;
        }
        proof {
            lemma_byte_index_from(self@.buf, byte, start as int);
        }
        None
    }

    /// Read until the specified byte (included), or to the end of the stream when it is missing.
    /// With a limit, fails when the bytes up to the match, or the bytes counted while searching,
    /// pass it.
    pub fn read_until_with_limit(&mut self, byte: u8, max_bytes_limit: Option<usize>) -> (r: Result<Vec<u8>, StreamError>)
        requires
            old(self).wf(),
        ensures
            final(self).wf(),
            (final(self)@, match r {
                Ok(v) => Ok::<Seq<u8>, StreamError>(v@),
                Err(e) => Err::<Seq<u8>, StreamError>(e),
            }) == read_until_loop(old(self)@, 0, 0, byte, max_bytes_limit),
    {
        let mut start: usize = 0;
        let mut read: u128 = 0;
        loop
            invariant
                self.wf(),
                start <= self@.buf.len(),
                read_until_loop(self@, start as int, read as int, byte, max_bytes_limit)
                    == read_until_loop(old(self)@, 0, 0, byte, max_bytes_limit),
                max_bytes_limit matches Some(m) ==> read <= m as int + usize::MAX as int,
            decreases progress_measure(self@),
        {
            let ghost s0 = self@;
            match self.find_byte(byte, start) {
                Some(idx) => {
                    let blen = self.buf.len();
                    assert(idx < blen);
                    let offset = idx + 1;
                    if let Some(m) = max_bytes_limit {
                        if offset > m {
                            return Err(StreamError::LimitReached { read: offset as u128, limit: m });
                        }
                    }
                    let out = self.consume_exec(offset);
                    return Ok(out);
                },
                None => {
                    let new_start = self.buf.len();
                    let n = match self.fill_buffer_exec(1u128) {
                        Ok(n) => n,
                        Err(e) => {
                            return Err(e);
                        },
                    };
                    if let Some(m) = max_bytes_limit {
                        if read > m as u128 {
                            return Err(StreamError::LimitReached { read, limit: m });
                        }
                    }
                    if n == 0 {
                        let all = self.buf.len();
                        let out = self.consume_exec(all);
                        return Ok(out);
                    }
                    proof {
                        lemma_fill_to(s0, (s0.buf.len() + 1) as int);
                    }
                    if max_bytes_limit.is_some() {
                        read = read + n as u128;
                    } else {
                        proof {
                            lemma_read_until_loop_no_limit(self@, new_start as int, read as int, read + n, byte);
                        }
                    }
                    start = new_start;
                },
            }
        }
    }

    /// Read until the specified byte.
    pub fn read_until(&mut self, byte: u8) -> (r: Result<Vec<u8>, StreamError>)
        requires
            old(self).wf(),
        ensures
            final(self).wf(),
            (final(self)@, match r {
                Ok(v) => Ok::<Seq<u8>, StreamError>(v@),
                Err(e) => Err::<Seq<u8>, StreamError>(e),
            }) == read_until_loop(old(self)@, 0, 0, byte, None),
    {
        self.read_until_with_limit(byte, None)
    }

    /// Read the next line (through `\n`) with the given max bytes limit.
    pub fn read_line_with_limit(&mut self, max_bytes_limit: Option<usize>) -> (r: Result<Vec<u8>, StreamError>)
        requires
            old(self).wf(),
        ensures
            final(self).wf(),
            (final(self)@, match r {
                Ok(v) => Ok::<Seq<u8>, StreamError>(v@),
                Err(e) => Err::<Seq<u8>, StreamError>(e),
            }) == read_until_loop(old(self)@, 0, 0, 10u8, max_bytes_limit),
    {
        self.read_until_with_limit(10u8, max_bytes_limit)
    }

    /// Read the next line (through `\n`).
    pub fn read_line(&mut self) -> (r: Result<Vec<u8>, StreamError>)
        requires
            old(self).wf(),
        ensures
            final(self).wf(),
            (final(self)@, match r {
                Ok(v) => Ok::<Seq<u8>, StreamError>(v@),
                Err(e) => Err::<Seq<u8>, StreamError>(e),
            }) == read_until_loop(old(self)@, 0, 0, 10u8, None),
    {
        self.read_line_with_limit(None)
    }

    /// Peek the given number of bytes without handing them out.
    pub fn peek(&mut self, count: usize) -> (r: Result<Vec<u8>, StreamError>)
        requires
            old(self).wf(),
        ensures
            final(self).wf(),
            (final(self)@, match r {
                Ok(v) => Ok::<Seq<u8>, StreamError>(v@),
                Err(e) => Err::<Seq<u8>, StreamError>(e),
            }) == peek_spec(old(self)@, count as int),
    {
        if count > 0 {
            match self.fill_buffer_exec(count as u128) {
                Ok(_) => {},
                Err(e) => {
                    return Err(e);
                },
            }
        }
        let len = if count < self.buf.len() { count } else { self.buf.len() };
        let out = copy_bytes(&self.buf, 0, len);
        Ok(out)
    }

    /// Read exactly the given number of bytes, fewer when the stream ends first.
    pub fn read_exact(&mut self, exact_bytes_count: usize) -> (r: Result<Vec<u8>, StreamError>)
        requires
            old(self).wf(),
        ensures
            final(self).wf(),
            (final(self)@, match r {
                Ok(v) => Ok::<Seq<u8>, StreamError>(v@),
                Err(e) => Err::<Seq<u8>, StreamError>(e),
            }) == read_exact_spec(old(self)@, exact_bytes_count as int),
    {
        match self.fill_buffer_exec(exact_bytes_count as u128) {
            Ok(_) => {},
            Err(e) => {
                return Err(e);
            },
        }
        let chunk = self.consume_exec(exact_bytes_count);
        Ok(chunk)
    }

    /// Read all the bytes until the end.
    pub fn read_to_end(&mut self) -> (r: Result<Vec<u8>, StreamError>)
        requires
            old(self).wf(),
        ensures
            final(self).wf(),
            (final(self)@, match r {
                Ok(v) => Ok::<Seq<u8>, StreamError>(v@),
                Err(e) => Err::<Seq<u8>, StreamError>(e),
            }) == read_to_end_spec(old(self)@),
    {
        while !self.eof
            invariant
                self.wf(),
                read_to_end_spec(self@) == read_to_end_spec(old(self)@),
            decreases progress_measure(self@),
        {
            let ghost s0 = self@;
            proof {
                lemma_fill_to(s0, (s0.buf.len() + 1) as int);
            }
            match self.fill_buffer_exec(1u128) {
                Ok(_) => {},
                Err(e) => {
                    return Err(e);
                },
            }
        }
        let all = self.buf.len();
        Ok(self.consume_exec(all))
    }

    fn find_window(&self, pat: &[u8]) -> (r: Option<usize>)
        requires
            pat@.len() > 0,
        ensures
            match r {
                Some(i) => window_index(self@.buf, pat@, 0) == Some(i as int) && i + pat@.len() <= self@.buf.len(),
                None => window_index(self@.buf, pat@, 0) is None,
            },
    {
        let n = self.buf.len();
        let m = pat.len();
        let mut i: usize = 0;
        while i < n && m <= n - i
            invariant
                n == self@.buf.len(),
                m == pat@.len(),
                window_index(self@.buf, pat@, 0) == window_index(self@.buf, pat@, i as int),
            decreases n - i,
        {
            if bytes_eq_at(&self.buf, i, pat) {
                return Some(i);
            }
            i = i + 1;
        }
        None
    }

    /// Read until the sequence is found: `(true, bytes)` when found (the bytes end with the
    /// sequence), else `(false, bytes)` with the buffered rest; call again for more.
    pub fn read_until_sequence(&mut self, sequence: &[u8]) -> (r: Result<(bool, Vec<u8>), StreamError>)
        requires
            old(self).wf(),
            read_until_sequence_defined(old(self)@, sequence@),
        ensures
            final(self).wf(),
            (final(self)@, match r {
                Ok((f, v)) => Ok::<(bool, Seq<u8>), StreamError>((f, v@)),
                Err(e) => Err::<(bool, Seq<u8>), StreamError>(e),
            }) == read_until_sequence_spec(old(self)@, sequence@),
    {
        let m = sequence.len();
        if m == 0 {
            let v: Vec<u8> = Vec::new();
            assert(v@ =~= Seq::<u8>::empty());
            return Ok((true, v));
        }
        match self.fill_buffer_exec(m as u128) {
            Ok(_) => {},
            Err(e) => {
                return Err(e);
            },
        }
        if let Some(idx) = self.find_window(sequence) {
            let bl = self.buf.len();
            assert(idx + m <= bl);
            let out = self.consume_exec(idx + m);
            return Ok((true, out));
        }
        if !self.eof {
            if let Some(start_idx) = overlapping_position(&self.buf, sequence) {
                let blen = self.buf.len();
                assert(start_idx <= blen);
                match self.fill_buffer_exec(start_idx as u128 + m as u128) {
                    Ok(_) => {},
                    Err(e) => {
                        return Err(e);
                    },
                }
                if bytes_eq_at(&self.buf, start_idx, sequence) {
                    let bl = self.buf.len();
                    assert(start_idx + m <= bl);
                    let out = self.consume_exec(start_idx + m);
                    return Ok((true, out));
                }
            }
        }
        let all = self.buf.len();
        let rest = self.consume_exec(all);
        Ok((false, rest))
    }

    fn consume_exec(&mut self, count: usize) -> (r: Vec<u8>)
        ensures
            (final(self)@, r@) == consume(old(self)@, count as int),
    {
        let size = if count < self.buf.len() { count } else { self.buf.len() };
        let mut chunk: Vec<u8> = Vec::new();
        let mut rest: Vec<u8> = Vec::new();
        let mut i: usize = 0;
        let n = self.buf.len();
        while i < n
            invariant
                n == self.buf@.len(),
                size <= n,
                i <= n,
                self@ == old(self)@,
                i <= size ==> chunk@ == self.buf@.subrange(0, i as int) && rest@.len() == 0,
                i > size ==> chunk@ == self.buf@.subrange(0, size as int) && rest@ == self.buf@.subrange(size as int, i as int),
            decreases n - i,
        {
            if i < size {
                chunk.push(self.buf[i]);
            } else {
                rest.push(self.buf[i]);
            }
            i = i + 1;
            assert(i <= size ==> chunk@ =~= self.buf@.subrange(0, i as int));
            assert(i > size ==> rest@ =~= self.buf@.subrange(size as int, i as int));
            assert(i > size ==> chunk@ =~= self.buf@.subrange(0, size as int));
        }
        assert(rest@ =~= self.buf@.subrange(size as int, n as int));
        assert(chunk@ =~= self.buf@.subrange(0, size as int));
        self.buf = rest;
        chunk
    }
}

} // verus!
