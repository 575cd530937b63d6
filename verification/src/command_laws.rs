//! What requests do, stated over `spec_execute`: a read gives back what a
//! write stored, command names ignore letter case, and a refused request
//! changes nothing.
use crate::byte_text::ascii_uppercase;
use crate::data_store::{list_or_empty, StoreModel};
use crate::decimal::{decimal, digits_value, is_digit, lemma_decimal, spec_parse_i64, spec_parse_u64};
use crate::operations::{
    all_strings_from, expiry_ms, spec_execute, spec_get_command, spec_lrange_command,
    spec_rpush_command, spec_set_command, string_arg, string_frames, strings_from, text,
};
use crate::resp::Frame;
use vstd::prelude::*;

verus! {

/// The bytes of the command names and the words that commands use.
proof fn lemma_words()
    ensures
        text("PING") == seq![80u8, 73u8, 78u8, 71u8],
        text("ECHO") == seq![69u8, 67u8, 72u8, 79u8],
        text("SET") == seq![83u8, 69u8, 84u8],
        text("GET") == seq![71u8, 69u8, 84u8],
        text("RPUSH") == seq![82u8, 80u8, 85u8, 83u8, 72u8],
        text("LRANGE") == seq![76u8, 82u8, 65u8, 78u8, 71u8, 69u8],
        text("PX") == seq![80u8, 88u8],
        text("EX") == seq![69u8, 88u8],
{
    reveal_strlit("PING");
    reveal_strlit("ECHO");
    reveal_strlit("SET");
    reveal_strlit("GET");
    reveal_strlit("RPUSH");
    reveal_strlit("LRANGE");
    reveal_strlit("PX");
    reveal_strlit("EX");
    vstd::string::is_ascii_spec_bytes("PING");
    vstd::string::is_ascii_spec_bytes("ECHO");
    vstd::string::is_ascii_spec_bytes("SET");
    vstd::string::is_ascii_spec_bytes("GET");
    vstd::string::is_ascii_spec_bytes("RPUSH");
    vstd::string::is_ascii_spec_bytes("LRANGE");
    vstd::string::is_ascii_spec_bytes("PX");
    vstd::string::is_ascii_spec_bytes("EX");
    assert(text("PING") =~= seq![80u8, 73u8, 78u8, 71u8]);
    assert(text("ECHO") =~= seq![69u8, 67u8, 72u8, 79u8]);
    assert(text("SET") =~= seq![83u8, 69u8, 84u8]);
    assert(text("GET") =~= seq![71u8, 69u8, 84u8]);
    assert(text("RPUSH") =~= seq![82u8, 80u8, 85u8, 83u8, 72u8]);
    assert(text("LRANGE") =~= seq![76u8, 82u8, 65u8, 78u8, 71u8, 69u8]);
    assert(text("PX") =~= seq![80u8, 88u8]);
    assert(text("EX") =~= seq![69u8, 88u8]);
}

/// Upper-casing a name written in capitals keeps it.
proof fn lemma_upper_fixed(s: Seq<u8>)
    requires
        forall|i: int| 0 <= i < s.len() ==> 65 <= #[trigger] s[i] <= 90,
    ensures
        ascii_uppercase(s) == s,
{
    assert(ascii_uppercase(s) =~= s);
}

proof fn lemma_names_upper()
    ensures
        ascii_uppercase(text("SET")) == text("SET"),
        ascii_uppercase(text("GET")) == text("GET"),
        ascii_uppercase(text("RPUSH")) == text("RPUSH"),
        ascii_uppercase(text("LRANGE")) == text("LRANGE"),
{
    lemma_words();
    lemma_upper_fixed(text("SET"));
    lemma_upper_fixed(text("GET"));
    lemma_upper_fixed(text("RPUSH"));
    lemma_upper_fixed(text("LRANGE"));
}

/// Parsing the decimal writing of a number gives it back.
proof fn lemma_parse_u64_decimal(n: u64)
    ensures
        spec_parse_u64(decimal(n as nat)) == Some(n),
{
    lemma_decimal(n as nat);
    assert(is_digit(decimal(n as nat)[0]));
}

proof fn lemma_parse_zero_and_minus_one()
    ensures
        spec_parse_i64(seq![48u8]) == Some(0i64),
        spec_parse_i64(seq![45u8, 49u8]) == Some(-1i64),
{
    let z = seq![48u8];
    assert(z.drop_last() =~= Seq::<u8>::empty());
    assert(digits_value(z.drop_last()) == 0);
    assert(digits_value(z) == 0);
    let m = seq![45u8, 49u8];
    let d = m.drop_first();
    assert(d =~= seq![49u8]);
    assert(d.drop_last() =~= Seq::<u8>::empty());
    assert(digits_value(d.drop_last()) == 0);
    assert(digits_value(d) == 1);
}

/// Law: a read gives back what a write stored. `SET key val` is answered
/// `OK`, and a `GET key` after it, at any time, answers `val`.
pub proof fn law_set_then_get(m: StoreModel, key: Seq<u8>, val: Seq<u8>, t_set: u64, t_get: u64)
    ensures
        spec_execute(
            seq![Frame::String(text("SET")), Frame::String(key), Frame::String(val)],
            m,
            t_set,
        ).0 == Frame::SimpleString(text("OK")),
        spec_execute(
            seq![Frame::String(text("GET")), Frame::String(key)],
            spec_execute(
                seq![Frame::String(text("SET")), Frame::String(key), Frame::String(val)],
                m,
                t_set,
            ).1,
            t_get,
        ).0 == Frame::String(val),
{
    lemma_words();
    lemma_names_upper();
}

/// Law: a value set with `PX d` reads back until `d` milliseconds have
/// passed, and reads as absent from then on.
pub proof fn law_set_px_then_get(
    m: StoreModel,
    key: Seq<u8>,
    val: Seq<u8>,
    d: u64,
    t_set: u64,
    t_get: u64,
)
    requires
        t_set + d <= u64::MAX,
    ensures
        ({
            let set = seq![
                Frame::String(text("SET")),
                Frame::String(key),
                Frame::String(val),
                Frame::String(text("PX")),
                Frame::String(decimal(d as nat)),
            ];
            let after = spec_execute(set, m, t_set).1;
            let reply = spec_execute(seq![Frame::String(text("GET")), Frame::String(key)], after, t_get).0;
            &&& spec_execute(set, m, t_set).0 == Frame::SimpleString(text("OK"))
            &&& t_get < t_set + d ==> reply == Frame::String(val)
            &&& t_get >= t_set + d ==> reply == Frame::NullBulkString
        }),
{
    lemma_words();
    lemma_names_upper();
    lemma_parse_u64_decimal(d);
    assert(expiry_ms(text("PX"), d) == Some(Some(d)));
}

/// Law: appending with `RPUSH` answers the list's new length, and
/// `LRANGE key 0 -1` afterwards answers the whole list: what it held, then
/// the new values.
pub proof fn law_rpush_then_lrange(m: StoreModel, key: Seq<u8>, values: Seq<Seq<u8>>, now: u64)
    requires
        values.len() >= 1,
    ensures
        ({
            let push = seq![Frame::String(text("RPUSH")), Frame::String(key)] + string_frames(
                values,
            );
            let range = seq![
                Frame::String(text("LRANGE")),
                Frame::String(key),
                Frame::String(seq![48u8]),
                Frame::String(seq![45u8, 49u8]),
            ];
            let after = spec_execute(push, m, now).1;
            &&& spec_execute(push, m, now).0 == Frame::Int(
                (list_or_empty(m, key).len() + values.len()) as i64,
            )
            &&& spec_execute(range, after, now).0 == Frame::Array(
                string_frames(list_or_empty(m, key) + values),
            )
        }),
{
    lemma_words();
    lemma_names_upper();
    lemma_parse_zero_and_minus_one();
    let push = seq![Frame::String(text("RPUSH")), Frame::String(key)] + string_frames(values);
    assert(push[0] == Frame::String(text("RPUSH")));
    assert(push[1] == Frame::String(key));
    assert(all_strings_from(push, 2)) by {
        assert forall|i: int| 2 <= i < push.len() implies #[trigger] string_arg(push[i]) is Some by {
            assert(push[i] == Frame::String(values[i - 2]));
        }
    }
    assert(strings_from(push, 2) =~= values) by {
        assert forall|i: int| 0 <= i < values.len() implies strings_from(push, 2)[i] == values[i] by {
            assert(push[2 + i] == Frame::String(values[i]));
        }
    }
    crate::store_laws::law_rpush_then_lrange(m, key, values);
}

/// Law: command names ignore letter case. Two requests whose names are the
/// same up to ASCII case, with the same arguments, get the same reply and
/// leave the same store.
pub proof fn law_command_case(ops1: Seq<Frame>, ops2: Seq<Frame>, m: StoreModel, now: u64)
    requires
        ops1.len() >= 1,
        ops1.len() == ops2.len(),
        ops1[0] matches Frame::String(n1) && ops2[0] matches Frame::String(n2) && ascii_uppercase(
            n1,
        ) == ascii_uppercase(n2),
        forall|i: int| 1 <= i < ops1.len() ==> ops1[i] == ops2[i],
    ensures
        spec_execute(ops1, m, now) == spec_execute(ops2, m, now),
{
    if ops1.len() >= 2 {
        assert(strings_from(ops1, 2) =~= strings_from(ops2, 2));
    }
    assert(all_strings_from(ops1, 2) == all_strings_from(ops2, 2));
    if ops1.len() > 1 {
        assert(ops1[1] == ops2[1]);
    }
    if ops1.len() > 2 {
        assert(ops1[2] == ops2[2]);
    }
    if ops1.len() > 3 {
        assert(ops1[3] == ops2[3]);
    }
    if ops1.len() > 4 {
        assert(ops1[4] == ops2[4]);
    }
    assert(spec_set_command(ops1, m, now) == spec_set_command(ops2, m, now));
    assert(spec_get_command(ops1, m, now) == spec_get_command(ops2, m, now));
    assert(spec_rpush_command(ops1, m) == spec_rpush_command(ops2, m));
    assert(spec_lrange_command(ops1, m) == spec_lrange_command(ops2, m));
}

/// Law: a refused request changes nothing. Whenever the reply is an error,
/// the store is left as it was.
pub proof fn law_refused_request_changes_nothing(ops: Seq<Frame>, m: StoreModel, now: u64)
    requires
        ops.len() >= 1,
    ensures
        spec_execute(ops, m, now).0 is Error ==> spec_execute(ops, m, now).1 == m,
{
}

/// Law: upper-casing maps each byte from `a` (97) to `z` (122) to the byte
/// 32 below it and keeps every other byte.
pub proof fn law_ascii_uppercase_bytes(s: Seq<u8>)
    ensures
        ascii_uppercase(s).len() == s.len(),
        forall|i: int|
            0 <= i < s.len() && 97 <= s[i] <= 122 ==> #[trigger] ascii_uppercase(s)[i] == s[i] - 32,
        forall|i: int|
            0 <= i < s.len() && !(97 <= s[i] <= 122) ==> #[trigger] ascii_uppercase(s)[i] == s[i],
{
}

/// Law: a command name may be typed in any mix of letter cases. When every
/// byte of `name` is either the capital letter at the same place in `upper`
/// or that letter's lower-case form (32 above it), the request gets the same
/// reply and leaves the same store as with `upper`.
pub proof fn law_any_case_name(
    ops: Seq<Frame>,
    name: Seq<u8>,
    upper: Seq<u8>,
    m: StoreModel,
    now: u64,
)
    requires
        ops.len() >= 1,
        ops[0] == Frame::String(name),
        name.len() == upper.len(),
        forall|i: int| 0 <= i < upper.len() ==> 65 <= #[trigger] upper[i] <= 90,
        forall|i: int|
            0 <= i < name.len() ==> #[trigger] name[i] == upper[i] || name[i] == upper[i] + 32,
    ensures
        spec_execute(ops, m, now) == spec_execute(ops.update(0, Frame::String(upper)), m, now),
{
    assert(ascii_uppercase(name) =~= upper) by {
        assert forall|i: int| 0 <= i < name.len() implies ascii_uppercase(name)[i] == upper[i] by {
            if name[i] != upper[i] {
                assert(name[i] == upper[i] + 32);
            }
        }
    }
    assert(ascii_uppercase(upper) =~= upper);
    let ops2 = ops.update(0, Frame::String(upper));
    law_command_case(ops, ops2, m, now);
}

/// Law: a value set with `EX s` at any time `t_set` reads back at every time
/// before `t_set + 1000 * s` and reads as absent from then on.
pub proof fn law_set_ex_then_get(
    m: StoreModel,
    key: Seq<u8>,
    val: Seq<u8>,
    secs: u64,
    t_set: u64,
    t_get: u64,
)
    requires
        t_set + 1000 * secs <= u64::MAX,
    ensures
        ({
            let set = seq![
                Frame::String(text("SET")),
                Frame::String(key),
                Frame::String(val),
                Frame::String(text("EX")),
                Frame::String(decimal(secs as nat)),
            ];
            let after = spec_execute(set, m, t_set).1;
            let reply = spec_execute(seq![Frame::String(text("GET")), Frame::String(key)], after, t_get).0;
            &&& spec_execute(set, m, t_set).0 == Frame::SimpleString(text("OK"))
            &&& t_get < t_set + 1000 * secs ==> reply == Frame::String(val)
            &&& t_get >= t_set + 1000 * secs ==> reply == Frame::NullBulkString
        }),
{
    lemma_words();
    lemma_names_upper();
    lemma_parse_u64_decimal(secs);
    assert(secs * 1000 == 1000 * secs);
    assert(expiry_ms(text("EX"), secs) == Some(Some((secs * 1000) as u64)));
}

/// Law: `ECHO` answers the request's second element, whatever follows it,
/// and a bare `ECHO` answers the null bulk string; the store is untouched.
pub proof fn law_echo(ops: Seq<Frame>, m: StoreModel, now: u64)
    requires
        ops.len() >= 1,
        ops[0] == Frame::String(text("ECHO")),
    ensures
        ops.len() >= 2 ==> spec_execute(ops, m, now).0 == ops[1],
        ops.len() == 1 ==> spec_execute(ops, m, now).0 == Frame::NullBulkString,
        spec_execute(ops, m, now).1 == m,
{
    lemma_words();
    assert(ascii_uppercase(text("ECHO")) =~= text("ECHO"));
}

} // verus!
