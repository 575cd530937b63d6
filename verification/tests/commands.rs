use redis_lite::data_store::DataStore;
use redis_lite::operations::{execute, handle_frame};
use redis_lite::resp::RedisValueRef;

fn bulk(s: &str) -> RedisValueRef {
    RedisValueRef::String(s.as_bytes().to_vec())
}

fn req(parts: &[&str]) -> Vec<RedisValueRef> {
    parts.iter().map(|p| bulk(p)).collect()
}

fn err(msg: &str) -> RedisValueRef {
    RedisValueRef::Error(msg.as_bytes().to_vec())
}

fn ok() -> RedisValueRef {
    RedisValueRef::SimpleString(b"OK".to_vec())
}

#[test]
fn ping_answers_pong_in_any_case() {
    let mut store = DataStore::new();
    let pong = RedisValueRef::SimpleString(b"PONG".to_vec());
    assert_eq!(execute(req(&["PING"]), &mut store, 0), pong);
    assert_eq!(execute(req(&["ping"]), &mut store, 0), pong);
    assert_eq!(execute(req(&["pInG", "extra"]), &mut store, 0), pong);
}

#[test]
fn echo_gives_back_its_argument() {
    let mut store = DataStore::new();
    assert_eq!(execute(req(&["ECHO", "hey"]), &mut store, 0), bulk("hey"));
    assert_eq!(execute(req(&["echo"]), &mut store, 0), RedisValueRef::NullBulkString);
    let with_int = vec![bulk("ECHO"), RedisValueRef::Int(5)];
    assert_eq!(execute(with_int, &mut store, 0), RedisValueRef::Int(5));
}

#[test]
fn set_then_get() {
    let mut store = DataStore::new();
    assert_eq!(execute(req(&["SET", "foo", "bar"]), &mut store, 0), ok());
    assert_eq!(execute(req(&["GET", "foo"]), &mut store, 5), bulk("bar"));
    assert_eq!(execute(req(&["get", "nope"]), &mut store, 5), RedisValueRef::NullBulkString);
}

#[test]
fn set_with_px_expires() {
    let mut store = DataStore::new();
    assert_eq!(execute(req(&["SET", "k", "v", "PX", "100"]), &mut store, 1000), ok());
    assert_eq!(execute(req(&["GET", "k"]), &mut store, 1099), bulk("v"));
    assert_eq!(execute(req(&["GET", "k"]), &mut store, 1100), RedisValueRef::NullBulkString);
}

#[test]
fn set_with_ex_counts_seconds() {
    let mut store = DataStore::new();
    assert_eq!(execute(req(&["SET", "k", "v", "EX", "2"]), &mut store, 0), ok());
    assert_eq!(execute(req(&["GET", "k"]), &mut store, 1999), bulk("v"));
    assert_eq!(execute(req(&["GET", "k"]), &mut store, 2000), RedisValueRef::NullBulkString);
}

#[test]
fn set_with_huge_ex_never_expires() {
    let mut store = DataStore::new();
    let huge = u64::MAX.to_string();
    assert_eq!(execute(req(&["SET", "k", "v", "EX", &huge]), &mut store, 0), ok());
    assert_eq!(execute(req(&["GET", "k"]), &mut store, u64::MAX), bulk("v"));
}

#[test]
fn set_errors() {
    let mut store = DataStore::new();
    assert_eq!(execute(req(&["SET", "k"]), &mut store, 0), err("ERR invalid 'SET' command"));
    assert_eq!(
        execute(req(&["SET", "k", "v", "EX"]), &mut store, 0),
        err("ERR invalid 'SET' command")
    );
    assert_eq!(
        execute(vec![bulk("SET"), RedisValueRef::Int(1), bulk("v")], &mut store, 0),
        err("ERR invalid 'SET' command: expected bulk string")
    );
    assert_eq!(
        execute(req(&["SET", "k", "v", "PX", "-5"]), &mut store, 0),
        err("ERR invalid 'SET' command: expected bulk string")
    );
    assert_eq!(
        execute(req(&["SET", "k", "v", "ex", "5"]), &mut store, 0),
        err("ERR invalid 'SET' command: unknown additional argument")
    );
    assert_eq!(execute(req(&["GET", "k"]), &mut store, 0), RedisValueRef::NullBulkString);
}

#[test]
fn get_errors() {
    let mut store = DataStore::new();
    assert_eq!(execute(req(&["GET"]), &mut store, 0), err("ERR invalid 'GET' command"));
    assert_eq!(
        execute(vec![bulk("GET"), RedisValueRef::NullBulkString], &mut store, 0),
        err("ERR invalid 'SET' command: expected bulk string")
    );
}

#[test]
fn rpush_and_lrange() {
    let mut store = DataStore::new();
    assert_eq!(execute(req(&["RPUSH", "l", "a", "b"]), &mut store, 0), RedisValueRef::Int(2));
    assert_eq!(execute(req(&["rpush", "l", "c"]), &mut store, 0), RedisValueRef::Int(3));
    assert_eq!(
        execute(req(&["LRANGE", "l", "0", "-1"]), &mut store, 0),
        RedisValueRef::Array(vec![bulk("a"), bulk("b"), bulk("c")])
    );
    assert_eq!(
        execute(req(&["LRANGE", "l", "-2", "+5"]), &mut store, 0),
        RedisValueRef::Array(vec![bulk("b"), bulk("c")])
    );
    assert_eq!(
        execute(req(&["LRANGE", "missing", "0", "-1"]), &mut store, 0),
        RedisValueRef::Array(vec![])
    );
}

#[test]
fn rpush_errors_change_nothing() {
    let mut store = DataStore::new();
    assert_eq!(
        execute(req(&["RPUSH", "l"]), &mut store, 0),
        err("ERR invalid 'RPUSH' command: incorrect number of arguments")
    );
    assert_eq!(
        execute(vec![bulk("RPUSH"), RedisValueRef::Int(1), bulk("a")], &mut store, 0),
        err("ERR invalid 'RPUSH' command: invalid list key")
    );
    assert_eq!(
        execute(vec![bulk("RPUSH"), bulk("l"), bulk("a"), RedisValueRef::Int(1)], &mut store, 0),
        err("ERR invalid 'RPUSH' command: invalid list value")
    );
    assert_eq!(
        execute(req(&["LRANGE", "l", "0", "-1"]), &mut store, 0),
        RedisValueRef::Array(vec![])
    );
}

#[test]
fn lrange_errors() {
    let mut store = DataStore::new();
    assert_eq!(
        execute(req(&["LRANGE", "l", "0"]), &mut store, 0),
        err("ERR invalid 'LRANGE' command: incorrect number of arguments")
    );
    assert_eq!(
        execute(vec![bulk("LRANGE"), RedisValueRef::Int(0), bulk("0"), bulk("1")], &mut store, 0),
        err("ERR invalid 'LRANGE' command: invalid list key")
    );
    assert_eq!(
        execute(req(&["LRANGE", "l", "x", "1"]), &mut store, 0),
        err("ERR invalid 'LRANGE' command: invalid start index")
    );
    assert_eq!(
        execute(req(&["LRANGE", "l", "0", ""]), &mut store, 0),
        err("ERR invalid 'LRANGE' command: invalid end index")
    );
}

#[test]
fn invalid_and_unknown_commands() {
    let mut store = DataStore::new();
    assert_eq!(
        execute(vec![RedisValueRef::Int(1)], &mut store, 0),
        err("ERR invalid command")
    );
    assert_eq!(
        execute(vec![RedisValueRef::SimpleString(b"PING".to_vec())], &mut store, 0),
        err("ERR invalid command")
    );
    assert_eq!(execute(req(&["FLY"]), &mut store, 0), err("ERR unknown command"));
}

#[test]
fn frames_other_than_arrays_are_refused() {
    let mut store = DataStore::new();
    assert_eq!(
        handle_frame(bulk("PING"), &mut store, 0),
        err("ERR expected array")
    );
    assert_eq!(
        handle_frame(RedisValueRef::Array(req(&["SET", "a", "b"])), &mut store, 0),
        ok()
    );
    assert_eq!(
        handle_frame(RedisValueRef::Array(req(&["GET", "a"])), &mut store, 0),
        bulk("b")
    );
}
