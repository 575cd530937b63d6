//! Commands: a request is an array whose first element names the command
//! (in any letter case) and whose other elements are its arguments; each
//! command reads or changes the store and produces a reply.
use crate::byte_text::{ascii_uppercase, bytes_eq, to_ascii_uppercase};
use crate::data_store::{spec_get, spec_lrange, spec_rpush, spec_set, DataStore, StoreModel};
use crate::decimal::{parse_i64, parse_u64, spec_parse_i64, spec_parse_u64};
use crate::resp::{frames_of, lemma_frames_of, lemma_frames_of_push, Frame, RedisValueRef};
use std::collections::VecDeque;
use vstd::prelude::*;
use vstd::slice::slice_to_vec;
use vstd::string::StringSliceAdditionalSpecFns;

verus! {

/// The bytes of a text.
pub open spec fn text(s: &str) -> Seq<u8> {
    s.spec_bytes()
}

pub open spec fn error_frame(msg: &str) -> Frame {
    Frame::Error(text(msg))
}

/// The bytes of a bulk string argument.
pub open spec fn string_arg(f: Frame) -> Option<Seq<u8>> {
    match f {
        Frame::String(s) => Some(s),
        _ => None,
    }
}

/// A bulk string argument read as an unsigned integer.
pub open spec fn uint_arg(f: Frame) -> Option<u64> {
    match f {
        Frame::String(s) => spec_parse_u64(s),
        _ => None,
    }
}

/// A bulk string argument read as a signed integer.
pub open spec fn int_arg(f: Frame) -> Option<i64> {
    match f {
        Frame::String(s) => spec_parse_i64(s),
        _ => None,
    }
}

/// `EX` gives the expiry in seconds, `PX` in milliseconds; anything else is
/// refused (`None`). The inner `None` is no expiry: a number of seconds whose
/// milliseconds pass the clock's range never expires.
pub open spec fn expiry_ms(unit: Seq<u8>, amount: u64) -> Option<Option<u64>> {
    if unit == text("EX") {
        if amount * 1000 <= u64::MAX {
            Some(Some((amount * 1000) as u64))
        } else {
            Some(None)
        }
    } else if unit == text("PX") {
        Some(Some(amount))
    } else {
        None
    }
}

pub open spec fn spec_echo(ops: Seq<Frame>) -> Frame {
    if ops.len() > 1 {
        ops[1]
    } else {
        Frame::NullBulkString
    }
}

/// `SET key value [EX seconds | PX milliseconds]`.
pub open spec fn spec_set_command(ops: Seq<Frame>, m: StoreModel, now: u64) -> (Frame, StoreModel) {
    let expiry = ops.len() == 5;
    let bad = error_frame("ERR invalid 'SET' command: expected bulk string");
    if ops.len() != 3 && !expiry {
        (error_frame("ERR invalid 'SET' command"), m)
    } else if string_arg(ops[1]) is None || string_arg(ops[2]) is None {
        (bad, m)
    } else if !expiry {
        let key = string_arg(ops[1]).unwrap();
        let val = string_arg(ops[2]).unwrap();
        (Frame::SimpleString(text("OK")), spec_set(m, key, val, None, now).1)
    } else if string_arg(ops[3]) is None || uint_arg(ops[4]) is None {
        (bad, m)
    } else {
        let key = string_arg(ops[1]).unwrap();
        let val = string_arg(ops[2]).unwrap();
        match expiry_ms(string_arg(ops[3]).unwrap(), uint_arg(ops[4]).unwrap()) {
            None => (error_frame("ERR invalid 'SET' command: unknown additional argument"), m),
            Some(ex) => (Frame::SimpleString(text("OK")), spec_set(m, key, val, ex, now).1),
        }
    }
}

/// `GET key`.
pub open spec fn spec_get_command(ops: Seq<Frame>, m: StoreModel, now: u64) -> (Frame, StoreModel) {
    if ops.len() != 2 {
        (error_frame("ERR invalid 'GET' command"), m)
    } else {
        match string_arg(ops[1]) {
            None => (error_frame("ERR invalid 'SET' command: expected bulk string"), m),
            Some(key) => {
                let (v, m2) = spec_get(m, key, now);
                (
                    match v {
                        Some(x) => Frame::String(x),
                        None => Frame::NullBulkString,
                    },
                    m2,
                )
            },
        }
    }
}

/// Every frame from index `from` on is a bulk string.
pub open spec fn all_strings_from(ops: Seq<Frame>, from: int) -> bool {
    forall|i: int| from <= i < ops.len() ==> #[trigger] string_arg(ops[i]) is Some
}

/// The bulk string payloads from index `from` on.
pub open spec fn strings_from(ops: Seq<Frame>, from: int) -> Seq<Seq<u8>> {
    Seq::new((ops.len() - from) as nat, |i: int| string_arg(ops[from + i]).unwrap())
}

/// `RPUSH key value [value ...]`.
pub open spec fn spec_rpush_command(ops: Seq<Frame>, m: StoreModel) -> (Frame, StoreModel) {
    if ops.len() < 3 {
        (error_frame("ERR invalid 'RPUSH' command: incorrect number of arguments"), m)
    } else if string_arg(ops[1]) is None {
        (error_frame("ERR invalid 'RPUSH' command: invalid list key"), m)
    } else if !all_strings_from(ops, 2) {
        (error_frame("ERR invalid 'RPUSH' command: invalid list value"), m)
    } else {
        let (n, m2) = spec_rpush(m, string_arg(ops[1]).unwrap(), strings_from(ops, 2));
        (Frame::Int(n as i64), m2)
    }
}

/// Bulk strings of the given payloads.
pub open spec fn string_frames(items: Seq<Seq<u8>>) -> Seq<Frame> {
    Seq::new(items.len(), |i: int| Frame::String(items[i]))
}

/// `LRANGE key start end`.
pub open spec fn spec_lrange_command(ops: Seq<Frame>, m: StoreModel) -> Frame {
    if ops.len() != 4 {
        error_frame("ERR invalid 'LRANGE' command: incorrect number of arguments")
    } else if string_arg(ops[1]) is None {
        error_frame("ERR invalid 'LRANGE' command: invalid list key")
    } else if int_arg(ops[2]) is None {
        error_frame("ERR invalid 'LRANGE' command: invalid start index")
    } else if int_arg(ops[3]) is None {
        error_frame("ERR invalid 'LRANGE' command: invalid end index")
    } else {
        let items = match spec_lrange(
            m,
            string_arg(ops[1]).unwrap(),
            int_arg(ops[2]).unwrap(),
            int_arg(ops[3]).unwrap(),
        ) {
            Some(items) => items,
            None => Seq::empty(),
        };
        Frame::Array(string_frames(items))
    }
}

/// The reply to a request and the store after it.
pub open spec fn spec_execute(ops: Seq<Frame>, m: StoreModel, now: u64) -> (Frame, StoreModel) {
    match ops[0] {
        Frame::String(name) => {
            let command = ascii_uppercase(name);
            if command == text("PING") {
                (Frame::SimpleString(text("PONG")), m)
            } else if command == text("ECHO") {
                (spec_echo(ops), m)
            } else if command == text("SET") {
                spec_set_command(ops, m, now)
            } else if command == text("GET") {
                spec_get_command(ops, m, now)
            } else if command == text("RPUSH") {
                spec_rpush_command(ops, m)
            } else if command == text("LRANGE") {
                (spec_lrange_command(ops, m), m)
            } else {
                (error_frame("ERR unknown command"), m)
            }
        },
        _ => (error_frame("ERR invalid command"), m),
    }
}

/// The reply to one decoded frame, and the store after it: an array is run
/// as a request; any other frame is refused.
pub open spec fn spec_handle_frame(f: Frame, m: StoreModel, now: u64) -> (Frame, StoreModel) {
    match f {
        Frame::Array(ops) => spec_execute(ops, m, now),
        _ => (error_frame("ERR expected array"), m),
    }
}

/// Answers one frame read from a connection at time `now` (see
/// `spec_handle_frame`). A request array must name a command.
pub fn handle_frame(value: RedisValueRef, store: &mut DataStore, now: u64) -> (r: RedisValueRef)
    requires
        old(store).wf(),
        value@ matches Frame::Array(ops) ==> ops.len() >= 1,
    ensures
        final(store).wf(),
        r@ == spec_handle_frame(value@, old(store)@, now).0,
        final(store)@ == spec_handle_frame(value@, old(store)@, now).1,
{
    match value {
        RedisValueRef::Array(arr) => {
            proof {
                lemma_frames_of(arr@);
            }
            execute(arr, store, now)
        },
        _ => error_reply("ERR expected array"),
    }
}

fn error_reply(msg: &str) -> (r: RedisValueRef)
    ensures
        r@ == error_frame(msg),
{
    RedisValueRef::Error(slice_to_vec(msg.as_bytes()))
}

fn simple_reply(msg: &str) -> (r: RedisValueRef)
    ensures
        r@ == Frame::SimpleString(text(msg)),
{
    RedisValueRef::SimpleString(slice_to_vec(msg.as_bytes()))
}

/// Runs the request `operation` against `store` at time `now` (milliseconds)
/// and gives the reply (see `spec_execute`).
pub fn execute(operation: Vec<RedisValueRef>, store: &mut DataStore, now: u64) -> (r: RedisValueRef)
    requires
        operation@.len() >= 1,
        old(store).wf(),
    ensures
        final(store).wf(),
        r@ == spec_execute(frames_of(operation@), old(store)@, now).0,
        final(store)@ == spec_execute(frames_of(operation@), old(store)@, now).1,
{
    proof {
        lemma_frames_of(operation@);
    }
    let command = match &operation[0] {
        RedisValueRef::String(s) => to_ascii_uppercase(s.as_slice()),
        _ => {
            return error_reply("ERR invalid command");
        },
    };
    let c = command.as_slice();
    if bytes_eq(c, "PING".as_bytes()) {
        ping()
    } else if bytes_eq(c, "ECHO".as_bytes()) {
        echo(&operation)
    } else if bytes_eq(c, "SET".as_bytes()) {
        set(&operation, store, now)
    } else if bytes_eq(c, "GET".as_bytes()) {
        get(&operation, store, now)
    } else if bytes_eq(c, "RPUSH".as_bytes()) {
        rpush(&operation, store)
    } else if bytes_eq(c, "LRANGE".as_bytes()) {
        lrange(&operation, store)
    } else {
        error_reply("ERR unknown command")
    }
}

fn ping() -> (r: RedisValueRef)
    ensures
        r@ == Frame::SimpleString(text("PONG")),
{
    simple_reply("PONG")
}

fn echo(value: &Vec<RedisValueRef>) -> (r: RedisValueRef)
    ensures
        r@ == spec_echo(frames_of(value@)),
{
    proof {
        lemma_frames_of(value@);
    }
    if value.len() > 1 {
        value[1].clone()
    } else {
        RedisValueRef::NullBulkString
    }
}

fn set(arr: &Vec<RedisValueRef>, store: &mut DataStore, now: u64) -> (r: RedisValueRef)
    requires
        old(store).wf(),
    ensures
        final(store).wf(),
        r@ == spec_set_command(frames_of(arr@), old(store)@, now).0,
        final(store)@ == spec_set_command(frames_of(arr@), old(store)@, now).1,
{
    proof {
        lemma_frames_of(arr@);
    }
    let expiry = arr.len() == 5;
    if arr.len() != 3 && !expiry {
        return error_reply("ERR invalid 'SET' command");
    }
    let key = match extract_string(&arr[1]) {
        Some(k) => k,
        None => {
            return error_reply("ERR invalid 'SET' command: expected bulk string");
        },
    };
    let val = match extract_string(&arr[2]) {
        Some(v) => v,
        None => {
            return error_reply("ERR invalid 'SET' command: expected bulk string");
        },
    };
    let mut ex: Option<u64> = None;
    if expiry {
        let prec = match extract_string(&arr[3]) {
            Some(p) => p,
            None => {
                return error_reply("ERR invalid 'SET' command: expected bulk string");
            },
        };
        let dur = match extract_uint(&arr[4]) {
            Some(d) => d,
            None => {
                return error_reply("ERR invalid 'SET' command: expected bulk string");
            },
        };
        if bytes_eq(prec.as_slice(), "EX".as_bytes()) {
            ex = dur.checked_mul(1000);
        } else if bytes_eq(prec.as_slice(), "PX".as_bytes()) {
            ex = Some(dur);
        } else {
            return error_reply("ERR invalid 'SET' command: unknown additional argument");
        }
    }
    let _ = store.set(key, val, ex, now);
    simple_reply("OK")
}

fn get(arr: &Vec<RedisValueRef>, store: &mut DataStore, now: u64) -> (r: RedisValueRef)
    requires
        old(store).wf(),
    ensures
        final(store).wf(),
        r@ == spec_get_command(frames_of(arr@), old(store)@, now).0,
        final(store)@ == spec_get_command(frames_of(arr@), old(store)@, now).1,
{
    proof {
        lemma_frames_of(arr@);
    }
    if arr.len() != 2 {
        return error_reply("ERR invalid 'GET' command");
    }
    let key = match extract_string(&arr[1]) {
        Some(k) => k,
        None => {
            return error_reply("ERR invalid 'SET' command: expected bulk string");
        },
    };
    match store.get(key.as_slice(), now) {
        Some(val) => RedisValueRef::String(val),
        None => RedisValueRef::NullBulkString,
    }
}

fn rpush(arr: &Vec<RedisValueRef>, store: &mut DataStore) -> (r: RedisValueRef)
    requires
        old(store).wf(),
    ensures
        final(store).wf(),
        r@ == spec_rpush_command(frames_of(arr@), old(store)@).0,
        final(store)@ == spec_rpush_command(frames_of(arr@), old(store)@).1,
{
    proof {
        lemma_frames_of(arr@);
    }
    let ghost ops = frames_of(arr@);
    if arr.len() < 3 {
        return error_reply("ERR invalid 'RPUSH' command: incorrect number of arguments");
    }
    let list_key = match extract_string(&arr[1]) {
        Some(k) => k,
        None => {
            return error_reply("ERR invalid 'RPUSH' command: invalid list key");
        },
    };
    let mut values: VecDeque<Vec<u8>> = VecDeque::new();
    let mut i: usize = 2;
    while i < arr.len()
        invariant
            2 <= i <= arr@.len(),
            *store == *old(store),
            old(store).wf(),
            string_arg(ops[1]) is Some,
            ops == frames_of(arr@),
            ops.len() == arr@.len(),
            forall|j: int| 0 <= j < arr@.len() ==> #[trigger] ops[j] == arr@[j]@,
            all_strings_from(ops.subrange(0, i as int), 2),
            values.deep_view() =~= strings_from(ops.subrange(0, i as int), 2),
        decreases arr@.len() - i,
    {
        let value = match extract_string(&arr[i]) {
            Some(v) => v,
            None => {
                proof {
                    assert(string_arg(ops[i as int]) is None);
                    assert(!all_strings_from(ops, 2));
                }
                return error_reply("ERR invalid 'RPUSH' command: invalid list value");
            },
        };
        let ghost before = values.deep_view();
        values.push_back(value);
        i += 1;
        proof {
            let p = ops.subrange(0, i as int);
            assert(value.deep_view() =~= value@);
            assert(values.deep_view() =~= before.push(value@));
            assert forall|j: int| 2 <= j < p.len() implies #[trigger] string_arg(p[j]) is Some by {
                if j < i - 1 {
                    assert(p[j] == ops.subrange(0, i - 1)[j]);
                }
            }
            assert(strings_from(p, 2) =~= strings_from(ops.subrange(0, i - 1), 2).push(value@));
        }
    }
    proof {
        assert(ops.subrange(0, i as int) =~= ops);
    }
    let n = store.rpush(list_key, values);
    RedisValueRef::Int(#[verifier::truncate] (n as i64))
}

fn lrange(arr: &Vec<RedisValueRef>, store: &DataStore) -> (r: RedisValueRef)
    requires
        store.wf(),
    ensures
        r@ == spec_lrange_command(frames_of(arr@), store@),
{
    proof {
        lemma_frames_of(arr@);
    }
    if arr.len() != 4 {
        return error_reply("ERR invalid 'LRANGE' command: incorrect number of arguments");
    }
    let list_key = match extract_string(&arr[1]) {
        Some(k) => k,
        None => {
            return error_reply("ERR invalid 'LRANGE' command: invalid list key");
        },
    };
    let start_index = match extract_int(&arr[2]) {
        Some(i) => i,
        None => {
            return error_reply("ERR invalid 'LRANGE' command: invalid start index");
        },
    };
    let end_index = match extract_int(&arr[3]) {
        Some(i) => i,
        None => {
            return error_reply("ERR invalid 'LRANGE' command: invalid end index");
        },
    };
    let items: Vec<Vec<u8>> = match store.lrange(list_key.as_slice(), start_index, end_index) {
        Some(items) => items,
        None => {
            let none: Vec<Vec<u8>> = Vec::new();
            assert(none.deep_view() =~= Seq::<Seq<u8>>::empty());
            none
        },
    };
    let ghost want = items.deep_view();
    let mut out: Vec<RedisValueRef> = Vec::new();
    let mut i: usize = 0;
    while i < items.len()
        invariant
            i <= items@.len(),
            want == items.deep_view(),
            frames_of(out@) =~= string_frames(want.subrange(0, i as int)),
        decreases items@.len() - i,
    {
        let item = items[i].clone();
        proof {
            assert(item@ =~= items@[i as int]@);
            assert(items@[i as int].deep_view() =~= items@[i as int]@);
            lemma_frames_of_push(out@, RedisValueRef::String(item));
        }
        out.push(RedisValueRef::String(item));
        i += 1;
    }
    proof {
        assert(want.subrange(0, i as int) =~= want);
        assert(frames_of(out@) =~= string_frames(want));
    }
    RedisValueRef::Array(out)
}

fn extract_string(value: &RedisValueRef) -> (r: Option<Vec<u8>>)
    ensures
        match string_arg(value@) {
            Some(s) => r matches Some(v) && v@ == s,
            None => r is None,
        },
{
    match value {
        RedisValueRef::String(s) => Some(s.clone()),
        _ => None,
    }
}

fn extract_uint(value: &RedisValueRef) -> (r: Option<u64>)
    ensures
        r == uint_arg(value@),
{
    match value {
        RedisValueRef::String(s) => parse_u64(s.as_slice()),
        _ => None,
    }
}

fn extract_int(value: &RedisValueRef) -> (r: Option<i64>)
    ensures
        r == int_arg(value@),
{
    match value {
        RedisValueRef::String(s) => parse_i64(s.as_slice()),
        _ => None,
    }
}

} // verus!
