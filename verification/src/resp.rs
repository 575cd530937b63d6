//! The Redis serialization protocol (RESP): values, the frame grammar that
//! the decoder accepts, and the encoder.
use crate::decimal::{
    decimal, parse_i64, push_decimal, push_signed_decimal, signed_decimal, spec_parse_i64,
};
use vstd::prelude::*;
use vstd::slice::{slice_subrange, slice_to_vec};

verus! {

/// `memchr` finds the first occurrence of a byte in a slice.
pub assume_specification[ memchr::memchr ](needle: u8, haystack: &[u8]) -> (r: Option<usize>)
    ensures
        match r {
            Some(i) => i < haystack@.len() && haystack@[i as int] == needle && forall|j: int|
                0 <= j < i ==> haystack@[j] != needle,
            None => forall|j: int| 0 <= j < haystack@.len() ==> haystack@[j] != needle,
        },
;

/// `std::io::Error`, carried by `RESPError::IOError` and returned by the encoder.
#[verifier::external_type_specification]
#[verifier::external_body]
pub struct ExIoError(std::io::Error);

/// Stateless codec for RESP frames.
#[derive(Default)]
pub struct RESPParser;

/// A RESP value.
#[derive(Debug, PartialEq, Eq)]
pub enum RedisValueRef {
    SimpleString(Vec<u8>),
    String(Vec<u8>),
    Error(Vec<u8>),
    Int(i64),
    Array(Vec<RedisValueRef>),
    NullArray,
    NullBulkString,
}

/// Why a buffer is not a RESP frame.
#[derive(Debug)]
pub enum RESPError {
    UnexpectedEnd,
    UnknownStartingByte,
    IOError(std::io::Error),
    IntParseFailure,
    BadBulkStringSize(i64),
    BadArraySize(i64),
}

impl From<std::io::Error> for RESPError {
    fn from(e: std::io::Error) -> (r: RESPError)
        ensures
            r == RESPError::IOError(e),
    {
        RESPError::IOError(e)
    }
}

impl vstd::std_specs::convert::FromSpecImpl<std::io::Error> for RESPError {
    open spec fn obeys_from_spec() -> bool {
        true
    }

    open spec fn from_spec(e: std::io::Error) -> RESPError {
        RESPError::IOError(e)
    }
}

/// The mathematical value of a `RedisValueRef`.
pub enum Frame {
    SimpleString(Seq<u8>),
    String(Seq<u8>),
    Error(Seq<u8>),
    Int(i64),
    Array(Seq<Frame>),
    NullArray,
    NullBulkString,
}

/// The views of a sequence of values.
pub open spec fn frames_of(s: Seq<RedisValueRef>) -> Seq<Frame>
    decreases s,
{
    if s.len() == 0 {
        Seq::empty()
    } else {
        frames_of(s.subrange(0, s.len() - 1)).push(s[s.len() - 1].view())
    }
}

impl View for RedisValueRef {
    type V = Frame;

    open spec fn view(&self) -> Frame
        decreases self,
    {
        match self {
            RedisValueRef::SimpleString(s) => Frame::SimpleString(s@),
            RedisValueRef::String(s) => Frame::String(s@),
            RedisValueRef::Error(s) => Frame::Error(s@),
            RedisValueRef::Int(i) => Frame::Int(*i),
            RedisValueRef::Array(a) => Frame::Array(frames_of(a@)),
            RedisValueRef::NullArray => Frame::NullArray,
            RedisValueRef::NullBulkString => Frame::NullBulkString,
        }
    }
}

pub proof fn lemma_frames_of(s: Seq<RedisValueRef>)
    ensures
        frames_of(s).len() == s.len(),
        forall|i: int| 0 <= i < s.len() ==> #[trigger] frames_of(s)[i] == s[i]@,
    decreases s.len(),
{
    if s.len() > 0 {
        let t = s.subrange(0, s.len() - 1);
        lemma_frames_of(t);
        assert(frames_of(s) == frames_of(t).push(s[s.len() - 1]@));
        assert forall|i: int| 0 <= i < s.len() implies #[trigger] frames_of(s)[i] == s[i]@ by {
            if i < s.len() - 1 {
                assert(t[i] == s[i]);
            }
        }
    }
}

pub proof fn lemma_frames_of_push(s: Seq<RedisValueRef>, v: RedisValueRef)
    ensures
        frames_of(s.push(v)) == frames_of(s).push(v@),
{
    assert(s.push(v).subrange(0, s.len() as int) =~= s);
}

impl RedisValueRef {
    /// A copy of this value, equal to it.
    pub fn deep_clone(&self) -> (r: Self)
        ensures
            r@ == self@,
        decreases self,
    {
        match self {
            RedisValueRef::Array(a) => {
                let mut out: Vec<RedisValueRef> = Vec::new();
                let mut i: usize = 0;
                while i < a.len()
                    invariant
                        *self == RedisValueRef::Array(*a),
                        i <= a.len(),
                        out@.len() == i,
                        forall|j: int| 0 <= j < i ==> #[trigger] out@[j]@ == a@[j]@,
                    decreases a.len() - i,
                {
                    proof {
                        assert(decreases_to!(*self => (*self)->Array_0));
                        assert(decreases_to!(a => a@));
                        assert(decreases_to!(a@ => a@[i as int]));
                    }
                    let c = a[i].deep_clone();
                    out.push(c);
                    i += 1;
                }
                proof {
                    lemma_frames_of(out@);
                    lemma_frames_of(a@);
                    assert(frames_of(out@) =~= frames_of(a@));
                }
                RedisValueRef::Array(out)
            },
            RedisValueRef::SimpleString(s) => RedisValueRef::SimpleString(s.clone()),
            RedisValueRef::String(s) => RedisValueRef::String(s.clone()),
            RedisValueRef::Error(s) => RedisValueRef::Error(s.clone()),
            RedisValueRef::Int(i) => RedisValueRef::Int(*i),
            RedisValueRef::NullArray => RedisValueRef::NullArray,
            RedisValueRef::NullBulkString => RedisValueRef::NullBulkString,
        }
    }
}

impl Clone for RedisValueRef {
    fn clone(&self) -> (r: Self)
        ensures
            r@ == self@,
    {
        self.deep_clone()
    }
}

// ---------------------------------------------------------------------------
// The frame grammar
// ---------------------------------------------------------------------------
pub open spec fn cr() -> u8 {
    13u8
}

pub open spec fn lf() -> u8 {
    10u8
}

/// `e` is the first carriage return at or after `from`.
pub open spec fn is_first_cr(buf: Seq<u8>, from: int, e: int) -> bool {
    &&& from <= e < buf.len()
    &&& buf[e] == cr()
    &&& forall|j: int| from <= j < e ==> buf[j] != cr()
}

/// The line that starts at `pos`: it runs up to the first carriage return,
/// which must be followed by a line feed. `Some((next, end))` where the line
/// is `buf[pos..end]` and `next` is just past the line feed.
pub open spec fn spec_word(buf: Seq<u8>, pos: int) -> Option<(int, int)> {
    if pos < 0 || buf.len() <= pos {
        None
    } else if exists|e: int| is_first_cr(buf, pos, e) {
        let e = choose|e: int| is_first_cr(buf, pos, e);
        if e + 1 < buf.len() && buf[e + 1] == lf() {
            Some((e + 2, e))
        } else {
            None
        }
    } else {
        None
    }
}

/// An integer line at `pos`.
pub open spec fn spec_int(buf: Seq<u8>, pos: int) -> Result<Option<(int, i64)>, RESPError> {
    match spec_word(buf, pos) {
        None => Ok(None),
        Some((next, end)) => match spec_parse_i64(buf.subrange(pos, end)) {
            Some(i) => Ok(Some((next, i))),
            None => Err(RESPError::IntParseFailure),
        },
    }
}

/// A bulk string after its `$`: a length line, then that many bytes and two
/// more (the terminating line break, which is skipped unread).
pub open spec fn spec_bulk_string(buf: Seq<u8>, pos: int) -> Result<
    Option<(int, Frame)>,
    RESPError,
> {
    match spec_int(buf, pos) {
        Err(e) => Err(e),
        Ok(None) => Ok(None),
        Ok(Some((p, size))) => {
            if size == -1 {
                Ok(Some((p, Frame::NullBulkString)))
            } else if size >= 0 {
                if buf.len() < p + size + 2 {
                    Ok(None)
                } else {
                    Ok(Some((p + size + 2, Frame::String(buf.subrange(p, p + size)))))
                }
            } else {
                Err(RESPError::BadBulkStringSize(size))
            }
        },
    }
}

pub proof fn lemma_word_bounds(buf: Seq<u8>, pos: int)
    ensures
        spec_word(buf, pos) matches Some((next, end)) ==> {
            &&& is_first_cr(buf, pos, end)
            &&& next == end + 2
            &&& next <= buf.len()
            &&& buf[end + 1] == lf()
        },
{
}

pub proof fn lemma_int_bounds(buf: Seq<u8>, pos: int)
    ensures
        spec_int(buf, pos) matches Ok(Some((next, _))) ==> pos + 2 <= next <= buf.len(),
{
    lemma_word_bounds(buf, pos);
}

/// The frame that starts at `pos`: `Ok(Some((next, frame)))` when a whole
/// frame is there, `Ok(None)` when more bytes are needed, `Err` when the
/// bytes cannot start a frame.
pub open spec fn spec_parse(buf: Seq<u8>, pos: int) -> Result<Option<(int, Frame)>, RESPError>
    decreases buf.len() - pos, 0int,
{
    if pos < 0 || pos >= buf.len() {
        Ok(None)
    } else if buf[pos] == 43u8 {
        match spec_word(buf, pos + 1) {
            None => Ok(None),
            Some((next, end)) => Ok(Some((next, Frame::String(buf.subrange(pos + 1, end))))),
        }
    } else if buf[pos] == 45u8 {
        match spec_word(buf, pos + 1) {
            None => Ok(None),
            Some((next, end)) => Ok(Some((next, Frame::Error(buf.subrange(pos + 1, end))))),
        }
    } else if buf[pos] == 36u8 {
        spec_bulk_string(buf, pos + 1)
    } else if buf[pos] == 58u8 {
        match spec_int(buf, pos + 1) {
            Err(e) => Err(e),
            Ok(None) => Ok(None),
            Ok(Some((next, i))) => Ok(Some((next, Frame::Int(i)))),
        }
    } else if buf[pos] == 42u8 {
        spec_array(buf, pos + 1)
    } else {
        Err(RESPError::UnknownStartingByte)
    }
}

/// An array after its `*`: a count line, then that many frames.
pub open spec fn spec_array(buf: Seq<u8>, pos: int) -> Result<Option<(int, Frame)>, RESPError>
    decreases buf.len() - pos, 0int,
{
    match spec_int(buf, pos) {
        Err(e) => Err(e),
        Ok(None) => Ok(None),
        Ok(Some((p, n))) => {
            if n == -1 {
                Ok(Some((p, Frame::NullArray)))
            } else if n >= 0 {
                proof {
                    lemma_int_bounds(buf, pos);
                }
                match spec_elems(buf, p, n as nat) {
                    Err(e) => Err(e),
                    Ok(None) => Ok(None),
                    Ok(Some((q, vs))) => Ok(Some((q, Frame::Array(vs)))),
                }
            } else {
                Err(RESPError::BadArraySize(n))
            }
        },
    }
}

/// `n` frames one after the other from `pos`.
pub open spec fn spec_elems(buf: Seq<u8>, pos: int, n: nat) -> Result<
    Option<(int, Seq<Frame>)>,
    RESPError,
>
    decreases buf.len() - pos, 1int,
{
    if n == 0 {
        Ok(Some((pos, Seq::empty())))
    } else {
        match spec_parse(buf, pos) {
            Err(e) => Err(e),
            Ok(None) => Ok(None),
            Ok(Some((p, v))) => {
                if pos < p <= buf.len() {
                    prepend(seq![v], spec_elems(buf, p, (n - 1) as nat))
                } else {
                    Ok(None)
                }
            },
        }
    }
}

/// `vs` put before the frames of a successful result.
pub open spec fn prepend(vs: Seq<Frame>, r: Result<Option<(int, Seq<Frame>)>, RESPError>) -> Result<
    Option<(int, Seq<Frame>)>,
    RESPError,
> {
    match r {
        Ok(Some((q, ws))) => Ok(Some((q, vs + ws))),
        other => other,
    }
}

/// An executable result agrees with a result of the grammar.
pub open spec fn parsed_as(
    r: Result<Option<(usize, RedisValueRef)>, RESPError>,
    s: Result<Option<(int, Frame)>, RESPError>,
) -> bool {
    match s {
        Ok(Some((q, f))) => r matches Ok(Some((p, v))) && p == q && v@ == f,
        Ok(None) => r matches Ok(None),
        Err(e) => r == Err::<Option<(usize, RedisValueRef)>, RESPError>(e),
    }
}

// ---------------------------------------------------------------------------
// The encoding
// ---------------------------------------------------------------------------
pub open spec fn crlf() -> Seq<u8> {
    seq![13u8, 10u8]
}

/// The bytes that encode a frame.
pub open spec fn spec_encode(f: Frame) -> Seq<u8>
    decreases f,
{
    match f {
        Frame::Error(e) => seq![45u8] + e + crlf(),
        Frame::SimpleString(s) => seq![43u8] + s + crlf(),
        Frame::String(s) => seq![36u8] + decimal(s.len()) + crlf() + s + crlf(),
        Frame::Array(a) => seq![42u8] + decimal(a.len()) + crlf() + spec_encode_all(a),
        Frame::Int(i) => seq![58u8] + signed_decimal(i as int) + crlf(),
        Frame::NullBulkString => seq![36u8, 45u8, 49u8, 13u8, 10u8],
        Frame::NullArray => seq![42u8, 45u8, 49u8, 13u8, 10u8],
    }
}

/// The encodings of frames, one after the other.
pub open spec fn spec_encode_all(a: Seq<Frame>) -> Seq<u8>
    decreases a,
{
    if a.len() == 0 {
        Seq::empty()
    } else {
        spec_encode(a[0]) + spec_encode_all(a.subrange(1, a.len() as int))
    }
}

pub proof fn lemma_encode_all_push(a: Seq<Frame>, f: Frame)
    ensures
        spec_encode_all(a.push(f)) == spec_encode_all(a) + spec_encode(f),
    decreases a.len(),
{
    if a.len() == 0 {
        assert(a.push(f).subrange(1, 1) =~= Seq::<Frame>::empty());
        assert(a.push(f)[0] == f);
        assert(spec_encode_all(Seq::<Frame>::empty()) == Seq::<u8>::empty());
        assert(spec_encode_all(a.push(f)) =~= spec_encode_all(a) + spec_encode(f));
    } else {
        let t = a.subrange(1, a.len() as int);
        lemma_encode_all_push(t, f);
        assert(a.push(f).subrange(1, a.len() as int + 1) =~= t.push(f));
        assert(a.push(f)[0] == a[0]);
        assert(spec_encode_all(a.push(f)) =~= spec_encode_all(a) + spec_encode(f));
    }
}

// ---------------------------------------------------------------------------
// The decoder
// ---------------------------------------------------------------------------
/// The line that starts at `pos` (see `spec_word`).
fn word(buf: &[u8], pos: usize) -> (r: Option<(usize, usize)>)
    ensures
        r matches Some((next, end)) ==> spec_word(buf@, pos as int) == Some((next as int, end as int)),
        r is None ==> spec_word(buf@, pos as int) is None,
        r matches Some((next, end)) ==> pos <= end && next == end + 2 && next <= buf@.len(),
{
    proof {
        lemma_word_bounds(buf@, pos as int);
    }
    if buf.len() <= pos {
        return None;
    }
    let rest = slice_subrange(buf, pos, buf.len());
    match memchr::memchr(13u8, rest) {
        Some(end) => {
            let e = pos + end;
            assert(rest@[end as int] == buf@[e as int]);
            assert forall|j: int| pos <= j < e implies buf@[j] != cr() by {
                assert(rest@[j - pos] == buf@[j]);
            }
            assert(is_first_cr(buf@, pos as int, e as int));
            let ghost c = choose|c: int| is_first_cr(buf@, pos as int, c);
            assert(c == e as int) by {
                if c < e {
                    assert(buf@[c] != cr());
                } else if c > e {
                    assert(buf@[e as int] != cr());
                }
            }
            if e + 1 < buf.len() && buf[e + 1] == 10u8 {
                Some((e + 2, e))
            } else {
                None
            }
        },
        None => {
            assert forall|c: int| !is_first_cr(buf@, pos as int, c) by {
                if pos <= c < buf@.len() {
                    assert(rest@[c - pos] == buf@[c]);
                }
            }
            None
        },
    }
}

/// An integer line at `pos` (see `spec_int`).
fn int_line(buf: &[u8], pos: usize) -> (r: Result<Option<(usize, i64)>, RESPError>)
    ensures
        match spec_int(buf@, pos as int) {
            Ok(Some((next, i))) => r matches Ok(Some((n, j))) && n == next && j == i,
            Ok(None) => r matches Ok(None),
            Err(e) => r == Err::<Option<(usize, i64)>, RESPError>(e),
        },
        r matches Ok(Some((next, _))) ==> pos + 2 <= next <= buf@.len(),
{
    match word(buf, pos) {
        None => Ok(None),
        Some((next, end)) => {
            let line = slice_subrange(buf, pos, end);
            match parse_i64(line) {
                Some(i) => Ok(Some((next, i))),
                None => Err(RESPError::IntParseFailure),
            }
        },
    }
}

/// A bulk string after its `$` (see `spec_bulk_string`).
fn bulk_string(buf: &[u8], pos: usize) -> (r: Result<Option<(usize, RedisValueRef)>, RESPError>)
    ensures
        parsed_as(r, spec_bulk_string(buf@, pos as int)),
        r matches Ok(Some((next, _))) ==> pos < next <= buf@.len(),
{
    match int_line(buf, pos) {
        Err(e) => Err(e),
        Ok(None) => Ok(None),
        Ok(Some((p, size))) => {
            if size == -1 {
                Ok(Some((p, RedisValueRef::NullBulkString)))
            } else if size >= 0 {
                let available: usize = buf.len() - p;
                if (available as u64) < (size as u64) + 2 {
                    Ok(None)
                } else {
                    let end: usize = p + size as usize;
                    let payload = slice_to_vec(slice_subrange(buf, p, end));
                    Ok(Some((end + 2, RedisValueRef::String(payload))))
                }
            } else {
                Err(RESPError::BadBulkStringSize(size))
            }
        },
    }
}

/// The frame that starts at `pos` (see `spec_parse`).
fn parse(buf: &[u8], pos: usize) -> (r: Result<Option<(usize, RedisValueRef)>, RESPError>)
    ensures
        parsed_as(r, spec_parse(buf@, pos as int)),
        r matches Ok(Some((next, _))) ==> pos < next <= buf@.len(),
    decreases buf@.len() - pos,
{
    if pos >= buf.len() {
        return Ok(None);
    }
    let b = buf[pos];
    if b == 43u8 {
        match word(buf, pos + 1) {
            None => Ok(None),
            Some((next, end)) => {
                let line = slice_to_vec(slice_subrange(buf, pos + 1, end));
                Ok(Some((next, RedisValueRef::String(line))))
            },
        }
    } else if b == 45u8 {
        match word(buf, pos + 1) {
            None => Ok(None),
            Some((next, end)) => {
                let line = slice_to_vec(slice_subrange(buf, pos + 1, end));
                Ok(Some((next, RedisValueRef::Error(line))))
            },
        }
    } else if b == 36u8 {
        bulk_string(buf, pos + 1)
    } else if b == 58u8 {
        match int_line(buf, pos + 1) {
            Err(e) => Err(e),
            Ok(None) => Ok(None),
            Ok(Some((next, i))) => Ok(Some((next, RedisValueRef::Int(i)))),
        }
    } else if b == 42u8 {
        array(buf, pos + 1)
    } else {
        Err(RESPError::UnknownStartingByte)
    }
}

/// An array after its `*` (see `spec_array`).
fn array(buf: &[u8], pos: usize) -> (r: Result<Option<(usize, RedisValueRef)>, RESPError>)
    requires
        pos <= buf@.len(),
    ensures
        parsed_as(r, spec_array(buf@, pos as int)),
        r matches Ok(Some((next, _))) ==> pos < next <= buf@.len(),
    decreases buf@.len() - pos,
{
    match int_line(buf, pos) {
        Err(e) => Err(e),
        Ok(None) => Ok(None),
        Ok(Some((p, n))) => {
            if n == -1 {
                return Ok(Some((p, RedisValueRef::NullArray)));
            }
            if n < 0 {
                return Err(RESPError::BadArraySize(n));
            }
            let mut values: Vec<RedisValueRef> = Vec::new();
            let mut cur: usize = p;
            let mut i: i64 = 0;
            assert(Seq::<Frame>::empty() + Seq::<Frame>::empty() =~= Seq::<Frame>::empty());
            assert(prepend(frames_of(values@), spec_elems(buf@, p as int, n as nat))
                == spec_elems(buf@, p as int, n as nat)) by {
                assert(frames_of(values@) =~= Seq::<Frame>::empty());
                match spec_elems(buf@, p as int, n as nat) {
                    Ok(Some((q, ws))) => {
                        assert(Seq::<Frame>::empty() + ws =~= ws);
                    },
                    _ => {},
                }
            }
            while i < n
                invariant
                    pos < p <= cur <= buf@.len(),
                    0 <= i <= n,
                    spec_int(buf@, pos as int) matches Ok(Some((pp, nn))) && pp == p && nn == n,
                    spec_elems(buf@, p as int, n as nat) == prepend(
                        frames_of(values@),
                        spec_elems(buf@, cur as int, (n - i) as nat),
                    ),
                decreases n - i,
            {
                match parse(buf, cur) {
                    Err(e) => {
                        assert(spec_elems(buf@, cur as int, (n - i) as nat) == Err::<
                            Option<(int, Seq<Frame>)>,
                            RESPError,
                        >(e));
                        return Err(e);
                    },
                    Ok(None) => {
                        assert(spec_elems(buf@, cur as int, (n - i) as nat) == Ok::<
                            Option<(int, Seq<Frame>)>,
                            RESPError,
                        >(None));
                        return Ok(None);
                    },
                    Ok(Some((next, v))) => {
                        proof {
                            let vs = frames_of(values@);
                            let rest = spec_elems(buf@, next as int, (n - i - 1) as nat);
                            lemma_frames_of_push(values@, v);
                            assert(spec_elems(buf@, cur as int, (n - i) as nat) == prepend(
                                seq![v@],
                                rest,
                            ));
                            match rest {
                                Ok(Some((q, ws))) => {
                                    assert(vs + (seq![v@] + ws) =~= vs.push(v@) + ws);
                                },
                                _ => {},
                            }
                        }
                        values.push(v);
                        cur = next;
                    },
                }
                i += 1;
            }
            proof {
                lemma_frames_of(values@);
                assert(frames_of(values@) + Seq::<Frame>::empty() =~= frames_of(values@));
            }
            Ok(Some((cur, RedisValueRef::Array(values))))
        },
    }
}

impl RESPParser {
    /// Takes the first frame off the front of `buf`. `Ok(Some(value))` takes
    /// the frame's bytes out of `buf`; `Ok(None)` (more bytes needed) and
    /// `Err` leave `buf` as it was.
    pub fn decode(&mut self, buf: &mut Vec<u8>) -> (r: Result<Option<RedisValueRef>, RESPError>)
        ensures
            match spec_parse(old(buf)@, 0) {
                Ok(Some((n, f))) => {
                    &&& r matches Ok(Some(v)) && v@ == f
                    &&& final(buf)@ == old(buf)@.subrange(n, old(buf)@.len() as int)
                },
                Ok(None) => r matches Ok(None) && final(buf)@ == old(buf)@,
                Err(e) => r == Err::<Option<RedisValueRef>, RESPError>(e) && final(buf)@ == old(
                    buf,
                )@,
            },
    {
        if buf.is_empty() {
            return Ok(None);
        }
        match parse(buf.as_slice(), 0) {
            Err(e) => Err(e),
            Ok(None) => Ok(None),
            Ok(Some((pos, value))) => {
                let rest = buf.split_off(pos);
                *buf = rest;
                Ok(Some(value))
            },
        }
    }
}

// ---------------------------------------------------------------------------
// The encoder
// ---------------------------------------------------------------------------
fn push_crlf(dst: &mut Vec<u8>)
    ensures
        final(dst)@ == old(dst)@ + crlf(),
{
    dst.push(13u8);
    dst.push(10u8);
    assert(final(dst)@ =~= old(dst)@ + crlf());
}

fn push_bytes(dst: &mut Vec<u8>, bytes: &[u8])
    ensures
        final(dst)@ == old(dst)@ + bytes@,
{
    let mut i: usize = 0;
    while i < bytes.len()
        invariant
            i <= bytes@.len(),
            dst@ == old(dst)@ + bytes@.subrange(0, i as int),
        decreases bytes@.len() - i,
    {
        dst.push(bytes[i]);
        i += 1;
        assert(dst@ =~= old(dst)@ + bytes@.subrange(0, i as int));
    }
    assert(bytes@.subrange(0, i as int) =~= bytes@);
}

/// Appends the encoding of `item` to `dst`.
fn write_redis_value(item: &RedisValueRef, dst: &mut Vec<u8>)
    ensures
        final(dst)@ == old(dst)@ + spec_encode(item@),
    decreases item,
{
    match item {
        RedisValueRef::Error(e) => {
            dst.push(45u8);
            push_bytes(dst, e.as_slice());
            push_crlf(dst);
            assert(final(dst)@ =~= old(dst)@ + spec_encode(item@));
        },
        RedisValueRef::SimpleString(s) => {
            dst.push(43u8);
            push_bytes(dst, s.as_slice());
            push_crlf(dst);
            assert(final(dst)@ =~= old(dst)@ + spec_encode(item@));
        },
        RedisValueRef::String(s) => {
            dst.push(36u8);
            push_decimal(s.len() as u64, dst);
            push_crlf(dst);
            push_bytes(dst, s.as_slice());
            push_crlf(dst);
            assert(final(dst)@ =~= old(dst)@ + spec_encode(item@));
        },
        RedisValueRef::Array(arr) => {
            dst.push(42u8);
            push_decimal(arr.len() as u64, dst);
            push_crlf(dst);
            let ghost head = dst@;
            proof {
                lemma_frames_of(arr@);
            }
            let mut i: usize = 0;
            assert(frames_of(arr@).subrange(0, 0) =~= Seq::<Frame>::empty());
            while i < arr.len()
                invariant
                    *item == RedisValueRef::Array(*arr),
                    i <= arr@.len(),
                    frames_of(arr@).len() == arr@.len(),
                    forall|j: int| 0 <= j < arr@.len() ==> #[trigger] frames_of(arr@)[j] == arr@[j]@,
                    dst@ == head + spec_encode_all(frames_of(arr@).subrange(0, i as int)),
                decreases arr@.len() - i,
            {
                proof {
                    assert(decreases_to!(*item => (*item)->Array_0));
                    assert(decreases_to!(arr => arr@));
                    assert(decreases_to!(arr@ => arr@[i as int]));
                    let fs = frames_of(arr@);
                    assert(fs.subrange(0, i + 1) =~= fs.subrange(0, i as int).push(fs[i as int]));
                    lemma_encode_all_push(fs.subrange(0, i as int), fs[i as int]);
                }
                write_redis_value(&arr[i], dst);
                i += 1;
            }
            assert(frames_of(arr@).subrange(0, i as int) =~= frames_of(arr@));
            assert(final(dst)@ =~= old(dst)@ + spec_encode(item@));
        },
        RedisValueRef::Int(i) => {
            dst.push(58u8);
            push_signed_decimal(*i, dst);
            push_crlf(dst);
            assert(final(dst)@ =~= old(dst)@ + spec_encode(item@));
        },
        RedisValueRef::NullBulkString => {
            dst.push(36u8);
            dst.push(45u8);
            dst.push(49u8);
            push_crlf(dst);
            assert(final(dst)@ =~= old(dst)@ + spec_encode(item@));
        },
        RedisValueRef::NullArray => {
            dst.push(42u8);
            dst.push(45u8);
            dst.push(49u8);
            push_crlf(dst);
            assert(final(dst)@ =~= old(dst)@ + spec_encode(item@));
        },
    }
}

impl RESPParser {
    /// Appends the encoding of `item` to `dst`; never fails.
    pub fn encode(&mut self, item: RedisValueRef, dst: &mut Vec<u8>) -> (r: Result<(), std::io::Error>)
        ensures
            r is Ok,
            final(dst)@ == old(dst)@ + spec_encode(item@),
    {
        write_redis_value(&item, dst);
        Ok(())
    }
}

} // verus!
