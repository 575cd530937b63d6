use redis_lite::resp::{RESPError, RESPParser, RedisValueRef};

fn bulk(s: &str) -> RedisValueRef {
    RedisValueRef::String(s.as_bytes().to_vec())
}

// --- Decoder tests ---

#[test]
fn decode_simple_string() {
    let mut buf = b"+OK\r\n".to_vec();
    let mut parser = RESPParser;
    let result = parser.decode(&mut buf).unwrap().unwrap();
    assert_eq!(result, RedisValueRef::String(b"OK".to_vec()));
}

#[test]
fn decode_error() {
    let mut buf = b"-ERR unknown command\r\n".to_vec();
    let mut parser = RESPParser;
    let result = parser.decode(&mut buf).unwrap().unwrap();
    assert_eq!(
        result,
        RedisValueRef::Error(b"ERR unknown command".to_vec())
    );
}

#[test]
fn decode_integer() {
    let mut buf = b":1337\r\n".to_vec();
    let mut parser = RESPParser;
    let result = parser.decode(&mut buf).unwrap().unwrap();
    assert_eq!(result, RedisValueRef::Int(1337));
}

#[test]
fn decode_negative_integer() {
    let mut buf = b":-42\r\n".to_vec();
    let mut parser = RESPParser;
    let result = parser.decode(&mut buf).unwrap().unwrap();
    assert_eq!(result, RedisValueRef::Int(-42));
}

#[test]
fn decode_bulk_string() {
    let mut buf = b"$5\r\nhello\r\n".to_vec();
    let mut parser = RESPParser;
    let result = parser.decode(&mut buf).unwrap().unwrap();
    assert_eq!(result, bulk("hello"));
}

#[test]
fn decode_empty_bulk_string() {
    let mut buf = b"$0\r\n\r\n".to_vec();
    let mut parser = RESPParser;
    let result = parser.decode(&mut buf).unwrap().unwrap();
    assert_eq!(result, bulk(""));
}

#[test]
fn decode_null_bulk_string() {
    let mut buf = b"$-1\r\n".to_vec();
    let mut parser = RESPParser;
    let result = parser.decode(&mut buf).unwrap().unwrap();
    assert_eq!(result, RedisValueRef::NullBulkString);
}

#[test]
fn decode_null_array() {
    let mut buf = b"*-1\r\n".to_vec();
    let mut parser = RESPParser;
    let result = parser.decode(&mut buf).unwrap().unwrap();
    assert_eq!(result, RedisValueRef::NullArray);
}

#[test]
fn decode_empty_array() {
    let mut buf = b"*0\r\n".to_vec();
    let mut parser = RESPParser;
    let result = parser.decode(&mut buf).unwrap().unwrap();
    assert_eq!(result, RedisValueRef::Array(vec![]));
}

#[test]
fn decode_array_of_bulk_strings() {
    let mut buf = b"*2\r\n$5\r\nhello\r\n$5\r\nworld\r\n".to_vec();
    let mut parser = RESPParser;
    let result = parser.decode(&mut buf).unwrap().unwrap();
    assert_eq!(
        result,
        RedisValueRef::Array(vec![bulk("hello"), bulk("world")])
    );
}

#[test]
fn decode_mixed_array() {
    let mut buf = b"*3\r\n:1\r\n$3\r\nfoo\r\n+bar\r\n".to_vec();
    let mut parser = RESPParser;
    let result = parser.decode(&mut buf).unwrap().unwrap();
    assert_eq!(
        result,
        RedisValueRef::Array(vec![RedisValueRef::Int(1), bulk("foo"), bulk("bar")])
    );
}

#[test]
fn decode_incomplete_returns_none() {
    let mut buf = b"$5\r\nhel".to_vec();
    let mut parser = RESPParser;
    let result = parser.decode(&mut buf).unwrap();
    assert_eq!(result, None);
}

#[test]
fn decode_empty_returns_none() {
    let mut buf: Vec<u8> = Vec::new();
    let mut parser = RESPParser;
    let result = parser.decode(&mut buf).unwrap();
    assert_eq!(result, None);
}

#[test]
fn decode_set_command() {
    let mut buf = b"*3\r\n$3\r\nSET\r\n$3\r\nfoo\r\n$3\r\nbar\r\n".to_vec();
    let mut parser = RESPParser;
    let result = parser.decode(&mut buf).unwrap().unwrap();
    assert_eq!(
        result,
        RedisValueRef::Array(vec![bulk("SET"), bulk("foo"), bulk("bar")])
    );
}

#[test]
fn decode_consumes_buffer() {
    let mut buf = b"+OK\r\n+NEXT\r\n".to_vec();
    let mut parser = RESPParser;
    let first = parser.decode(&mut buf).unwrap().unwrap();
    assert_eq!(first, bulk("OK"));
    let second = parser.decode(&mut buf).unwrap().unwrap();
    assert_eq!(second, bulk("NEXT"));
}

// --- Encoder tests ---

#[test]
fn encode_bulk_string() {
    let mut buf: Vec<u8> = Vec::new();
    let mut parser = RESPParser;
    parser.encode(bulk("hello"), &mut buf).unwrap();
    assert_eq!(buf, b"$5\r\nhello\r\n".to_vec());
}

#[test]
fn encode_error() {
    let mut buf: Vec<u8> = Vec::new();
    let mut parser = RESPParser;
    parser
        .encode(RedisValueRef::Error(b"ERR unknown".to_vec()), &mut buf)
        .unwrap();
    assert_eq!(buf, b"-ERR unknown\r\n".to_vec());
}

#[test]
fn encode_integer() {
    let mut buf: Vec<u8> = Vec::new();
    let mut parser = RESPParser;
    parser.encode(RedisValueRef::Int(42), &mut buf).unwrap();
    assert_eq!(buf, b":42\r\n".to_vec());
}

#[test]
fn encode_negative_integer() {
    let mut buf: Vec<u8> = Vec::new();
    let mut parser = RESPParser;
    parser.encode(RedisValueRef::Int(-100), &mut buf).unwrap();
    assert_eq!(buf, b":-100\r\n".to_vec());
}

#[test]
fn encode_null_bulk_string() {
    let mut buf: Vec<u8> = Vec::new();
    let mut parser = RESPParser;
    parser.encode(RedisValueRef::NullBulkString, &mut buf).unwrap();
    assert_eq!(buf, b"$-1\r\n".to_vec());
}

#[test]
fn encode_null_array() {
    let mut buf: Vec<u8> = Vec::new();
    let mut parser = RESPParser;
    parser.encode(RedisValueRef::NullArray, &mut buf).unwrap();
    assert_eq!(buf, b"*-1\r\n".to_vec());
}

#[test]
fn encode_array() {
    let mut buf: Vec<u8> = Vec::new();
    let mut parser = RESPParser;
    parser
        .encode(
            RedisValueRef::Array(vec![bulk("SET"), bulk("foo"), bulk("bar")]),
            &mut buf,
        )
        .unwrap();
    assert_eq!(buf, b"*3\r\n$3\r\nSET\r\n$3\r\nfoo\r\n$3\r\nbar\r\n".to_vec());
}

#[test]
fn encode_empty_array() {
    let mut buf: Vec<u8> = Vec::new();
    let mut parser = RESPParser;
    parser.encode(RedisValueRef::Array(vec![]), &mut buf).unwrap();
    assert_eq!(buf, b"*0\r\n".to_vec());
}

// --- Round-trip tests ---

#[test]
fn roundtrip_bulk_string() {
    let mut encoder = RESPParser;
    let mut decoder = RESPParser;
    let sent = bulk("hello");

    let mut buf: Vec<u8> = Vec::new();
    encoder.encode(sent.clone(), &mut buf).unwrap();
    let decoded = decoder.decode(&mut buf).unwrap().unwrap();
    assert_eq!(decoded, sent);
}

#[test]
fn roundtrip_array() {
    let mut encoder = RESPParser;
    let mut decoder = RESPParser;
    let sent = RedisValueRef::Array(vec![bulk("PING"), RedisValueRef::Int(42)]);

    let mut buf: Vec<u8> = Vec::new();
    encoder.encode(sent.clone(), &mut buf).unwrap();
    let decoded = decoder.decode(&mut buf).unwrap().unwrap();
    assert_eq!(decoded, sent);
}

// --- Further cases ---

#[test]
fn decode_unknown_starting_byte_is_error_and_keeps_buffer() {
    let mut buf = b"?what\r\n".to_vec();
    let mut parser = RESPParser;
    let result = parser.decode(&mut buf);
    assert!(matches!(result, Err(RESPError::UnknownStartingByte)));
    assert_eq!(buf, b"?what\r\n".to_vec());
}

#[test]
fn decode_bad_integer_is_error() {
    let mut buf = b":12a\r\n".to_vec();
    let mut parser = RESPParser;
    assert!(matches!(parser.decode(&mut buf), Err(RESPError::IntParseFailure)));
    let mut empty_int = b":\r\n".to_vec();
    assert!(matches!(parser.decode(&mut empty_int), Err(RESPError::IntParseFailure)));
    let mut sign_only = b":-\r\n".to_vec();
    assert!(matches!(parser.decode(&mut sign_only), Err(RESPError::IntParseFailure)));
}

#[test]
fn decode_integer_range_edges() {
    let mut parser = RESPParser;
    let mut min = b":-9223372036854775808\r\n".to_vec();
    assert_eq!(parser.decode(&mut min).unwrap().unwrap(), RedisValueRef::Int(i64::MIN));
    let mut max = b":+9223372036854775807\r\n".to_vec();
    assert_eq!(parser.decode(&mut max).unwrap().unwrap(), RedisValueRef::Int(i64::MAX));
    let mut over = b":9223372036854775808\r\n".to_vec();
    assert!(matches!(parser.decode(&mut over), Err(RESPError::IntParseFailure)));
    let mut far_over = b":123456789012345678901234567890\r\n".to_vec();
    assert!(matches!(parser.decode(&mut far_over), Err(RESPError::IntParseFailure)));
}

#[test]
fn decode_bad_sizes_are_errors() {
    let mut parser = RESPParser;
    let mut bulk_size = b"$-5\r\n".to_vec();
    assert!(matches!(parser.decode(&mut bulk_size), Err(RESPError::BadBulkStringSize(-5))));
    let mut array_size = b"*-2\r\n".to_vec();
    assert!(matches!(parser.decode(&mut array_size), Err(RESPError::BadArraySize(-2))));
}

#[test]
fn decode_incomplete_array_returns_none_and_keeps_buffer() {
    let mut parser = RESPParser;
    let mut buf = b"*2\r\n:1\r\n".to_vec();
    assert_eq!(parser.decode(&mut buf).unwrap(), None);
    assert_eq!(buf, b"*2\r\n:1\r\n".to_vec());
    buf.extend_from_slice(b":2\r\n");
    assert_eq!(
        parser.decode(&mut buf).unwrap().unwrap(),
        RedisValueRef::Array(vec![RedisValueRef::Int(1), RedisValueRef::Int(2)])
    );
    assert!(buf.is_empty());
}

#[test]
fn decode_huge_bulk_length_waits_for_more() {
    let mut parser = RESPParser;
    let mut buf = b"$9223372036854775807\r\nab".to_vec();
    assert_eq!(parser.decode(&mut buf).unwrap(), None);
}

#[test]
fn decode_line_with_bare_carriage_return_waits() {
    let mut parser = RESPParser;
    let mut buf = b"+a\rb\r\n".to_vec();
    assert_eq!(parser.decode(&mut buf).unwrap(), None);
}

#[test]
fn decode_bulk_string_may_hold_line_breaks() {
    let mut parser = RESPParser;
    let mut buf = b"$4\r\na\r\nb\r\n:7\r\n".to_vec();
    assert_eq!(parser.decode(&mut buf).unwrap().unwrap(), bulk("a\r\nb"));
    assert_eq!(buf, b":7\r\n".to_vec());
}

#[test]
fn encode_simple_string_reads_back_as_bulk_string() {
    let mut parser = RESPParser;
    let mut buf: Vec<u8> = Vec::new();
    parser.encode(RedisValueRef::SimpleString(b"PONG".to_vec()), &mut buf).unwrap();
    assert_eq!(buf, b"+PONG\r\n".to_vec());
    assert_eq!(parser.decode(&mut buf).unwrap().unwrap(), bulk("PONG"));
}

#[test]
fn roundtrip_nested_values_in_sequence() {
    let mut parser = RESPParser;
    let first = RedisValueRef::Array(vec![
        RedisValueRef::Array(vec![bulk("x"), RedisValueRef::NullBulkString]),
        RedisValueRef::Int(i64::MIN),
        RedisValueRef::Error(b"E".to_vec()),
        RedisValueRef::NullArray,
    ]);
    let second = RedisValueRef::Int(0);
    let mut buf: Vec<u8> = Vec::new();
    parser.encode(first.clone(), &mut buf).unwrap();
    parser.encode(second.clone(), &mut buf).unwrap();
    let full = buf.clone();
    let first_len = full.len() - 4;
    for cut in 0..first_len {
        let mut partial = full[..cut].to_vec();
        assert_eq!(parser.decode(&mut partial).unwrap(), None);
    }
    assert_eq!(parser.decode(&mut buf).unwrap().unwrap(), first);
    assert_eq!(parser.decode(&mut buf).unwrap().unwrap(), second);
    assert!(buf.is_empty());
}

#[test]
fn clone_gives_an_equal_value() {
    let v = RedisValueRef::Array(vec![bulk("a"), RedisValueRef::Array(vec![RedisValueRef::Int(3)])]);
    assert_eq!(v.clone(), v);
    assert_eq!(v.deep_clone(), v);
}

#[test]
fn io_error_converts_to_resp_error() {
    let e = std::io::Error::new(std::io::ErrorKind::Other, "closed");
    let r: RESPError = RESPError::from(e);
    assert!(matches!(r, RESPError::IOError(_)));
}
