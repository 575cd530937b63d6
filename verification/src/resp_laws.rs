//! What the decoder makes of the encoder's output: every encoded frame is
//! read back whole, whatever follows it, and no strict prefix of an encoded
//! frame is mistaken for a frame or for an error.
use crate::decimal::{
    all_digits, decimal, digits_value, is_digit, lemma_decimal, lemma_parse_decimal, lemma_parse_signed_decimal,
    signed_decimal, spec_parse_i64,
};
use crate::resp::{
    cr, crlf, is_first_cr, lf, prepend, spec_array, spec_bulk_string, spec_elems, spec_encode,
    spec_encode_all, spec_int, spec_parse, spec_word, Frame, RESPError,
};
use vstd::prelude::*;

verus! {

/// No carriage return among the bytes.
pub open spec fn no_cr(s: Seq<u8>) -> bool {
    forall|i: int| 0 <= i < s.len() ==> s[i] != cr()
}

/// Frames the wire can carry: the text of simple strings and errors holds
/// no carriage return (it would end the line early), and every length and
/// count fits an `i64` (the decoder reads them as one).
pub open spec fn wire_safe(f: Frame) -> bool
    decreases f,
{
    match f {
        Frame::SimpleString(s) => no_cr(s),
        Frame::Error(s) => no_cr(s),
        Frame::String(s) => s.len() <= i64::MAX,
        Frame::Array(a) => a.len() <= i64::MAX && all_wire_safe(a),
        _ => true,
    }
}

pub open spec fn all_wire_safe(a: Seq<Frame>) -> bool
    decreases a,
{
    if a.len() == 0 {
        true
    } else {
        wire_safe(a[0]) && all_wire_safe(a.subrange(1, a.len() as int))
    }
}

/// The frame as the decoder reports it: simple strings come back as bulk
/// strings; everything else is unchanged.
pub open spec fn decoded_form(f: Frame) -> Frame
    decreases f,
{
    match f {
        Frame::SimpleString(s) => Frame::String(s),
        Frame::Array(a) => Frame::Array(decoded_all(a)),
        other => other,
    }
}

pub open spec fn decoded_all(a: Seq<Frame>) -> Seq<Frame>
    decreases a,
{
    if a.len() == 0 {
        Seq::empty()
    } else {
        seq![decoded_form(a[0])] + decoded_all(a.subrange(1, a.len() as int))
    }
}

/// The frame holds no simple string, at any depth.
pub open spec fn no_simple_strings(f: Frame) -> bool
    decreases f,
{
    match f {
        Frame::SimpleString(_) => false,
        Frame::Array(a) => all_no_simple_strings(a),
        _ => true,
    }
}

pub open spec fn all_no_simple_strings(a: Seq<Frame>) -> bool
    decreases a,
{
    if a.len() == 0 {
        true
    } else {
        no_simple_strings(a[0]) && all_no_simple_strings(a.subrange(1, a.len() as int))
    }
}

proof fn lemma_decoded_form_identity(f: Frame)
    requires
        no_simple_strings(f),
    ensures
        decoded_form(f) == f,
    decreases f,
{
    if let Frame::Array(a) = f {
        lemma_decoded_all_identity(a);
    }
}

proof fn lemma_decoded_all_identity(a: Seq<Frame>)
    requires
        all_no_simple_strings(a),
    ensures
        decoded_all(a) == a,
    decreases a,
{
    if a.len() > 0 {
        lemma_decoded_form_identity(a[0]);
        lemma_decoded_all_identity(a.subrange(1, a.len() as int));
        assert(decoded_all(a) =~= a);
    }
}

proof fn lemma_decimal_no_cr(n: nat)
    ensures
        no_cr(decimal(n)),
        decimal(n).len() >= 1,
{
    lemma_decimal(n);
    assert forall|i: int| 0 <= i < decimal(n).len() implies decimal(n)[i] != cr() by {
        assert(is_digit(decimal(n)[i]));
    }
}

proof fn lemma_signed_decimal_no_cr(i: int)
    ensures
        no_cr(signed_decimal(i)),
{
    if i < 0 {
        let m = (-i) as nat;
        lemma_decimal_no_cr(m);
        assert forall|k: int| 0 <= k < signed_decimal(i).len() implies signed_decimal(i)[k]
            != cr() by {
            if k > 0 {
                assert(signed_decimal(i)[k] == decimal(m)[k - 1]);
            }
        }
    } else {
        lemma_decimal_no_cr(i as nat);
    }
}

proof fn lemma_encode_nonempty(f: Frame)
    ensures
        spec_encode(f).len() >= 1,
        spec_encode(f)[0] == (match f {
            Frame::SimpleString(_) => 43u8,
            Frame::Error(_) => 45u8,
            Frame::String(_) => 36u8,
            Frame::NullBulkString => 36u8,
            Frame::Int(_) => 58u8,
            Frame::Array(_) => 42u8,
            Frame::NullArray => 42u8,
        }),
{
}

/// A part of a part of the buffer.
proof fn lemma_sub(buf: Seq<u8>, pos: int, x: Seq<u8>, a: int, b: int)
    requires
        0 <= pos,
        pos + x.len() <= buf.len(),
        buf.subrange(pos, pos + x.len()) == x,
        0 <= a <= b <= x.len(),
    ensures
        buf.subrange(pos + a, pos + b) == x.subrange(a, b),
{
    assert(buf.subrange(pos + a, pos + b) =~= x.subrange(a, b)) by {
        assert forall|k: int| 0 <= k < b - a implies buf.subrange(pos + a, pos + b)[k] == x.subrange(
            a,
            b,
        )[k] by {
            assert(buf.subrange(pos, pos + x.len())[a + k] == x[a + k]);
        }
    }
}

/// A whole line, then its line break.
proof fn lemma_word_complete(buf: Seq<u8>, pos: int, line: Seq<u8>)
    requires
        0 <= pos,
        no_cr(line),
        pos + line.len() + 2 <= buf.len(),
        buf.subrange(pos, pos + line.len() + 2) == line + crlf(),
    ensures
        spec_word(buf, pos) == Some((pos + line.len() + 2, pos + line.len())),
        buf.subrange(pos, pos + line.len()) == line,
{
    let w = line + crlf();
    let e = pos + line.len();
    assert(buf.subrange(pos, pos + line.len() + 2)[line.len() as int] == w[line.len() as int]);
    assert(buf.subrange(pos, pos + line.len() + 2)[line.len() as int + 1] == w[line.len() as int + 1]);
    assert(buf[e] == cr());
    assert(buf[e + 1] == lf());
    assert forall|j: int| pos <= j < e implies buf[j] != cr() by {
        assert(buf.subrange(pos, pos + line.len() + 2)[j - pos] == w[j - pos]);
        assert(w[j - pos] == line[j - pos]);
    }
    assert(is_first_cr(buf, pos, e));
    let c = choose|c: int| is_first_cr(buf, pos, c);
    assert(c == e) by {
        if c < e {
            assert(buf[c] != cr());
        } else if c > e {
            assert(buf[e] != cr());
        }
    }
    lemma_sub(buf, pos, w, 0, line.len() as int);
    assert(w.subrange(0, line.len() as int) =~= line);
}

/// The bytes from `pos` to the end are a strict prefix of a line and its line break.
proof fn lemma_word_incomplete(buf: Seq<u8>, pos: int, line: Seq<u8>)
    requires
        0 <= pos <= buf.len(),
        no_cr(line),
        buf.len() - pos < line.len() + 2,
        buf.subrange(pos, buf.len() as int) == (line + crlf()).take(buf.len() - pos),
    ensures
        spec_word(buf, pos) is None,
{
    let w = line + crlf();
    let l = buf.len() - pos;
    if pos < buf.len() {
        assert forall|j: int| pos <= j < buf.len() && j < pos + line.len() implies buf[j]
            != cr() by {
            assert(buf.subrange(pos, buf.len() as int)[j - pos] == w.take(l)[j - pos]);
            assert(w[j - pos] == line[j - pos]);
        }
        if l <= line.len() {
            assert forall|c: int| !is_first_cr(buf, pos, c) by {
                if pos <= c < buf.len() {
                    assert(buf[c] != cr());
                }
            }
        } else {
            let e = pos + line.len();
            assert(e == buf.len() - 1);
            if exists|c: int| is_first_cr(buf, pos, c) {
                let c = choose|c: int| is_first_cr(buf, pos, c);
                assert(c >= e);
                assert(c + 1 >= buf.len());
            }
        }
    }
}

proof fn lemma_parse_minus_one()
    ensures
        spec_parse_i64(seq![45u8, 49u8]) == Some(-1i64),
{
    let s = seq![45u8, 49u8];
    let d = s.drop_first();
    assert(d =~= seq![49u8]);
    assert(d.drop_last() =~= Seq::<u8>::empty());
    assert(d.last() == 49u8);
    assert(digits_value(d.drop_last()) == 0);
    assert(digits_value(d) == 1);
    assert(all_digits(d));
}

/// The shared premise of the decoding lemmas: the encoding of `f` lies in
/// `buf` from `pos`.
pub open spec fn encoded_at(buf: Seq<u8>, pos: int, f: Frame) -> bool {
    &&& 0 <= pos
    &&& pos + spec_encode(f).len() <= buf.len()
    &&& buf.subrange(pos, pos + spec_encode(f).len()) == spec_encode(f)
}

/// A frame made of its first byte and one line: simple strings, errors,
/// integers and the two nulls.
proof fn lemma_parse_encoded_line(buf: Seq<u8>, pos: int, f: Frame, line: Seq<u8>)
    requires
        encoded_at(buf, pos, f),
        no_cr(line),
        spec_encode(f) == seq![spec_encode(f)[0]] + line + crlf(),
    ensures
        spec_word(buf, pos + 1) == Some((pos + spec_encode(f).len(), pos + 1 + line.len())),
        buf.subrange(pos + 1, pos + 1 + line.len()) == line,
        buf[pos] == spec_encode(f)[0],
{
    let enc = spec_encode(f);
    assert(buf.subrange(pos, pos + enc.len())[0] == enc[0]);
    lemma_sub(buf, pos, enc, 1, enc.len() as int);
    assert(enc.subrange(1, enc.len() as int) =~= line + crlf());
    lemma_word_complete(buf, pos + 1, line);
}

proof fn lemma_parse_encoded_string(buf: Seq<u8>, pos: int, s: Seq<u8>)
    requires
        encoded_at(buf, pos, Frame::String(s)),
        s.len() <= i64::MAX,
    ensures
        spec_parse(buf, pos) == Ok::<Option<(int, Frame)>, RESPError>(
            Some((pos + spec_encode(Frame::String(s)).len(), Frame::String(s))),
        ),
{
    let enc = spec_encode(Frame::String(s));
    let d = decimal(s.len());
    lemma_decimal_no_cr(s.len());
    lemma_parse_decimal(s.len());
    let h: int = d.len() as int + 3;
    assert(buf.subrange(pos, pos + enc.len())[0] == enc[0]);
    lemma_sub(buf, pos, enc, 1, h);
    assert(enc.subrange(1, h) =~= d + crlf());
    lemma_word_complete(buf, pos + 1, d);
    lemma_sub(buf, pos, enc, h, h + s.len());
    assert(enc.subrange(h, h + s.len()) =~= s);
    assert(spec_int(buf, pos + 1) == Ok::<Option<(int, i64)>, RESPError>(
        Some((pos + h, s.len() as i64)),
    ));
    assert(spec_bulk_string(buf, pos + 1) == Ok::<Option<(int, Frame)>, RESPError>(
        Some((pos + enc.len(), Frame::String(s))),
    ));
}

proof fn lemma_parse_encoded_array(buf: Seq<u8>, pos: int, a: Seq<Frame>)
    requires
        encoded_at(buf, pos, Frame::Array(a)),
        a.len() <= i64::MAX,
        all_wire_safe(a),
    ensures
        spec_parse(buf, pos) == Ok::<Option<(int, Frame)>, RESPError>(
            Some((pos + spec_encode(Frame::Array(a)).len(), Frame::Array(decoded_all(a)))),
        ),
    decreases a, 1nat,
{
    let enc = spec_encode(Frame::Array(a));
    let d = decimal(a.len());
    lemma_decimal_no_cr(a.len());
    lemma_parse_decimal(a.len());
    let h: int = d.len() as int + 3;
    assert(buf.subrange(pos, pos + enc.len())[0] == enc[0]);
    lemma_sub(buf, pos, enc, 1, h);
    assert(enc.subrange(1, h) =~= d + crlf());
    lemma_word_complete(buf, pos + 1, d);
    let body = spec_encode_all(a);
    lemma_sub(buf, pos, enc, h, enc.len() as int);
    assert(enc.subrange(h, enc.len() as int) =~= body);
    lemma_elems_encoded(buf, pos + h, a);
    assert(spec_int(buf, pos + 1) == Ok::<Option<(int, i64)>, RESPError>(
        Some((pos + h, a.len() as i64)),
    ));
    assert(spec_array(buf, pos + 1) == Ok::<Option<(int, Frame)>, RESPError>(
        Some((pos + enc.len(), Frame::Array(decoded_all(a)))),
    ));
}

/// Decoding an encoded frame at `pos` reads back its decoded form and ends
/// just after its encoding.
pub proof fn lemma_parse_encoded(buf: Seq<u8>, pos: int, f: Frame)
    requires
        wire_safe(f),
        encoded_at(buf, pos, f),
    ensures
        spec_parse(buf, pos) == Ok::<Option<(int, Frame)>, RESPError>(
            Some((pos + spec_encode(f).len(), decoded_form(f))),
        ),
    decreases f, 2nat,
{
    let enc = spec_encode(f);
    match f {
        Frame::SimpleString(s) => {
            assert(enc =~= seq![enc[0]] + s + crlf());
            lemma_parse_encoded_line(buf, pos, f, s);
        },
        Frame::Error(s) => {
            assert(enc =~= seq![enc[0]] + s + crlf());
            lemma_parse_encoded_line(buf, pos, f, s);
        },
        Frame::Int(i) => {
            let d = signed_decimal(i as int);
            lemma_signed_decimal_no_cr(i as int);
            lemma_parse_signed_decimal(i);
            assert(enc =~= seq![enc[0]] + d + crlf());
            lemma_parse_encoded_line(buf, pos, f, d);
        },
        Frame::String(s) => {
            lemma_parse_encoded_string(buf, pos, s);
        },
        Frame::NullBulkString => {
            lemma_parse_minus_one();
            let d = seq![45u8, 49u8];
            assert(enc =~= seq![enc[0]] + d + crlf());
            lemma_parse_encoded_line(buf, pos, f, d);
        },
        Frame::NullArray => {
            lemma_parse_minus_one();
            let d = seq![45u8, 49u8];
            assert(enc =~= seq![enc[0]] + d + crlf());
            lemma_parse_encoded_line(buf, pos, f, d);
        },
        Frame::Array(a) => {
            lemma_parse_encoded_array(buf, pos, a);
        },
    }
}

/// Decoding the encodings of `a`, one after the other, reads back their
/// decoded forms.
pub proof fn lemma_elems_encoded(buf: Seq<u8>, pos: int, a: Seq<Frame>)
    requires
        all_wire_safe(a),
        0 <= pos,
        pos + spec_encode_all(a).len() <= buf.len(),
        buf.subrange(pos, pos + spec_encode_all(a).len()) == spec_encode_all(a),
    ensures
        spec_elems(buf, pos, a.len()) == Ok::<Option<(int, Seq<Frame>)>, RESPError>(
            Some((pos + spec_encode_all(a).len(), decoded_all(a))),
        ),
    decreases a, 0nat,
{
    if a.len() > 0 {
        let all = spec_encode_all(a);
        let first = spec_encode(a[0]);
        let rest = a.subrange(1, a.len() as int);
        lemma_encode_nonempty(a[0]);
        lemma_sub(buf, pos, all, 0, first.len() as int);
        assert(all.subrange(0, first.len() as int) =~= first);
        lemma_parse_encoded(buf, pos, a[0]);
        lemma_sub(buf, pos, all, first.len() as int, all.len() as int);
        assert(all.subrange(first.len() as int, all.len() as int) =~= spec_encode_all(rest));
        lemma_elems_encoded(buf, pos + first.len(), rest);
        assert(spec_elems(buf, pos, a.len()) == prepend(
            seq![decoded_form(a[0])],
            spec_elems(buf, pos + first.len(), rest.len()),
        ));
    } else {
        assert(decoded_all(a) =~= Seq::<Frame>::empty());
    }
}

/// Law: the decoder reads back what the encoder wrote. Decoding the
/// encoding of a frame the wire can carry, followed by any bytes, yields the
/// frame (simple strings as bulk strings) and consumes exactly its encoding.
pub proof fn law_decode_encode(f: Frame, rest: Seq<u8>)
    requires
        wire_safe(f),
    ensures
        spec_parse(spec_encode(f) + rest, 0) == Ok::<Option<(int, Frame)>, RESPError>(
            Some((spec_encode(f).len() as int, decoded_form(f))),
        ),
        no_simple_strings(f) ==> decoded_form(f) == f,
{
    let buf = spec_encode(f) + rest;
    assert(buf.subrange(0, spec_encode(f).len() as int) =~= spec_encode(f));
    lemma_parse_encoded(buf, 0, f);
    if no_simple_strings(f) {
        lemma_decoded_form_identity(f);
    }
}

/// The bytes from `pos` to the end of `buf` are a strict prefix of the
/// encoding of `f`.
pub open spec fn partial_at(buf: Seq<u8>, pos: int, f: Frame) -> bool {
    &&& 0 <= pos <= buf.len()
    &&& buf.len() - pos < spec_encode(f).len()
    &&& buf.subrange(pos, buf.len() as int) == spec_encode(f).take(buf.len() - pos)
}

/// A tail of a strict prefix.
proof fn lemma_sub_partial(buf: Seq<u8>, pos: int, x: Seq<u8>, a: int)
    requires
        0 <= pos <= buf.len(),
        buf.len() - pos <= x.len(),
        buf.subrange(pos, buf.len() as int) == x.take(buf.len() - pos),
        0 <= a <= buf.len() - pos,
    ensures
        buf.subrange(pos + a, buf.len() as int) == x.subrange(a, x.len() as int).take(
            buf.len() - pos - a,
        ),
        forall|k: int| 0 <= k < buf.len() - pos ==> buf[pos + k] == x[k],
{
    let l = buf.len() - pos;
    assert forall|k: int| 0 <= k < l implies buf[pos + k] == x[k] by {
        assert(buf.subrange(pos, buf.len() as int)[k] == x.take(l)[k]);
    }
    assert(buf.subrange(pos + a, buf.len() as int) =~= x.subrange(a, x.len() as int).take(l - a));
}

/// A strict prefix of a frame made of its first byte and one line.
proof fn lemma_parse_partial_line(buf: Seq<u8>, pos: int, f: Frame, line: Seq<u8>)
    requires
        partial_at(buf, pos, f),
        pos < buf.len(),
        no_cr(line),
        spec_encode(f) == seq![spec_encode(f)[0]] + line + crlf(),
    ensures
        spec_word(buf, pos + 1) is None,
        buf[pos] == spec_encode(f)[0],
{
    let enc = spec_encode(f);
    lemma_sub_partial(buf, pos, enc, 1);
    assert(buf[pos + 0] == enc[0]);
    assert(enc.subrange(1, enc.len() as int) =~= line + crlf());
    lemma_word_incomplete(buf, pos + 1, line);
}

proof fn lemma_parse_partial_string(buf: Seq<u8>, pos: int, s: Seq<u8>)
    requires
        partial_at(buf, pos, Frame::String(s)),
        pos < buf.len(),
        s.len() <= i64::MAX,
    ensures
        spec_parse(buf, pos) == Ok::<Option<(int, Frame)>, RESPError>(None),
{
    let enc = spec_encode(Frame::String(s));
    let d = decimal(s.len());
    lemma_decimal_no_cr(s.len());
    lemma_parse_decimal(s.len());
    let h: int = d.len() as int + 3;
    let l = buf.len() - pos;
    lemma_sub_partial(buf, pos, enc, 1);
    assert(buf[pos + 0] == enc[0]);
    if l < h {
        assert(enc.subrange(1, enc.len() as int).take(h - 1) =~= d + crlf());
        assert((d + crlf()).take(l - 1) =~= enc.subrange(1, enc.len() as int).take(l - 1));
        lemma_word_incomplete(buf, pos + 1, d);
    } else {
        assert(buf.subrange(pos + 1, pos + h) =~= d + crlf()) by {
            assert forall|k: int| 0 <= k < h - 1 implies buf.subrange(pos + 1, pos + h)[k] == (d
                + crlf())[k] by {
                assert(buf[pos + (k + 1)] == enc[k + 1]);
            }
        }
        lemma_word_complete(buf, pos + 1, d);
        assert(spec_int(buf, pos + 1) == Ok::<Option<(int, i64)>, RESPError>(
            Some((pos + h, s.len() as i64)),
        ));
    }
}

proof fn lemma_parse_partial_array(buf: Seq<u8>, pos: int, a: Seq<Frame>)
    requires
        partial_at(buf, pos, Frame::Array(a)),
        pos < buf.len(),
        a.len() <= i64::MAX,
        all_wire_safe(a),
    ensures
        spec_parse(buf, pos) == Ok::<Option<(int, Frame)>, RESPError>(None),
    decreases a, 1nat,
{
    let enc = spec_encode(Frame::Array(a));
    let d = decimal(a.len());
    lemma_decimal_no_cr(a.len());
    lemma_parse_decimal(a.len());
    let h: int = d.len() as int + 3;
    let l = buf.len() - pos;
    lemma_sub_partial(buf, pos, enc, 1);
    assert(buf[pos + 0] == enc[0]);
    if l < h {
        assert(enc.subrange(1, enc.len() as int).take(h - 1) =~= d + crlf());
        assert((d + crlf()).take(l - 1) =~= enc.subrange(1, enc.len() as int).take(l - 1));
        lemma_word_incomplete(buf, pos + 1, d);
    } else {
        assert(buf.subrange(pos + 1, pos + h) =~= d + crlf()) by {
            assert forall|k: int| 0 <= k < h - 1 implies buf.subrange(pos + 1, pos + h)[k] == (d
                + crlf())[k] by {
                assert(buf[pos + (k + 1)] == enc[k + 1]);
            }
        }
        lemma_word_complete(buf, pos + 1, d);
        assert(spec_int(buf, pos + 1) == Ok::<Option<(int, i64)>, RESPError>(
            Some((pos + h, a.len() as i64)),
        ));
        let body = spec_encode_all(a);
        lemma_sub_partial(buf, pos, enc, h);
        assert(enc.subrange(h, enc.len() as int) =~= body);
        lemma_elems_partial(buf, pos + h, a);
    }
}

/// Decoding a strict prefix of an encoded frame at `pos` asks for more bytes.
pub proof fn lemma_parse_partial(buf: Seq<u8>, pos: int, f: Frame)
    requires
        wire_safe(f),
        partial_at(buf, pos, f),
    ensures
        spec_parse(buf, pos) == Ok::<Option<(int, Frame)>, RESPError>(None),
    decreases f, 2nat,
{
    let enc = spec_encode(f);
    if pos < buf.len() {
        match f {
            Frame::SimpleString(s) => {
                assert(enc =~= seq![enc[0]] + s + crlf());
                lemma_parse_partial_line(buf, pos, f, s);
            },
            Frame::Error(s) => {
                assert(enc =~= seq![enc[0]] + s + crlf());
                lemma_parse_partial_line(buf, pos, f, s);
            },
            Frame::Int(i) => {
                let d = signed_decimal(i as int);
                lemma_signed_decimal_no_cr(i as int);
                assert(enc =~= seq![enc[0]] + d + crlf());
                lemma_parse_partial_line(buf, pos, f, d);
            },
            Frame::String(s) => {
                lemma_parse_partial_string(buf, pos, s);
            },
            Frame::NullBulkString => {
                let d = seq![45u8, 49u8];
                assert(no_cr(d));
                assert(enc =~= seq![enc[0]] + d + crlf());
                lemma_parse_partial_line(buf, pos, f, d);
            },
            Frame::NullArray => {
                let d = seq![45u8, 49u8];
                assert(no_cr(d));
                assert(enc =~= seq![enc[0]] + d + crlf());
                lemma_parse_partial_line(buf, pos, f, d);
            },
            Frame::Array(a) => {
                lemma_parse_partial_array(buf, pos, a);
            },
        }
    }
}

/// Decoding a strict prefix of the encodings of `a` asks for more bytes.
pub proof fn lemma_elems_partial(buf: Seq<u8>, pos: int, a: Seq<Frame>)
    requires
        all_wire_safe(a),
        0 <= pos <= buf.len(),
        buf.len() - pos < spec_encode_all(a).len(),
        buf.subrange(pos, buf.len() as int) == spec_encode_all(a).take(buf.len() - pos),
    ensures
        spec_elems(buf, pos, a.len()) == Ok::<Option<(int, Seq<Frame>)>, RESPError>(None),
    decreases a, 0nat,
{
    let all = spec_encode_all(a);
    let first = spec_encode(a[0]);
    let rest = a.subrange(1, a.len() as int);
    let l = buf.len() - pos;
    assert(all =~= first + spec_encode_all(rest));
    lemma_encode_nonempty(a[0]);
    if l < first.len() {
        assert(buf.subrange(pos, buf.len() as int) =~= first.take(l));
        lemma_parse_partial(buf, pos, a[0]);
    } else {
        lemma_sub_partial(buf, pos, all, 0);
        assert(buf.subrange(pos, pos + first.len()) =~= first) by {
            assert forall|k: int| 0 <= k < first.len() implies buf.subrange(pos, pos + first.len())[k]
                == first[k] by {
                assert(buf[pos + k] == all[k]);
            }
        }
        lemma_parse_encoded(buf, pos, a[0]);
        lemma_sub_partial(buf, pos, all, first.len() as int);
        assert(all.subrange(first.len() as int, all.len() as int) =~= spec_encode_all(rest));
        lemma_elems_partial(buf, pos + first.len(), rest);
        assert(spec_elems(buf, pos, a.len()) == prepend(
            seq![decoded_form(a[0])],
            spec_elems(buf, pos + first.len(), rest.len()),
        ));
    }
}

/// Law: a frame that has not fully arrived is neither read nor refused.
/// Decoding any strict prefix of the encoding of a frame the wire can carry
/// asks for more bytes.
pub proof fn law_incomplete_frame(f: Frame, k: int)
    requires
        wire_safe(f),
        0 <= k < spec_encode(f).len(),
    ensures
        spec_parse(spec_encode(f).take(k), 0) == Ok::<Option<(int, Frame)>, RESPError>(None),
{
    let buf = spec_encode(f).take(k);
    assert(buf.subrange(0, buf.len() as int) =~= spec_encode(f).take(k));
    lemma_parse_partial(buf, 0, f);
}

/// Law: frames sent one after another are read one after another. After
/// the first frame's bytes are taken off, the second frame is read from
/// what remains.
pub proof fn law_decode_in_order(f1: Frame, f2: Frame, rest: Seq<u8>)
    requires
        wire_safe(f1),
        wire_safe(f2),
    ensures
        ({
            let e1 = spec_encode(f1);
            let buf = e1 + spec_encode(f2) + rest;
            &&& spec_parse(buf, 0) == Ok::<Option<(int, Frame)>, RESPError>(
                Some((e1.len() as int, decoded_form(f1))),
            )
            &&& spec_parse(buf.subrange(e1.len() as int, buf.len() as int), 0) == Ok::<
                Option<(int, Frame)>,
                RESPError,
            >(Some((spec_encode(f2).len() as int, decoded_form(f2))))
        }),
{
    let e1 = spec_encode(f1);
    let e2 = spec_encode(f2);
    let buf = e1 + e2 + rest;
    assert(buf =~= e1 + (e2 + rest));
    law_decode_encode(f1, e2 + rest);
    assert(buf.subrange(e1.len() as int, buf.len() as int) =~= e2 + rest);
    law_decode_encode(f2, rest);
}

} // verus!
