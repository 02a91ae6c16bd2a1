use bytes::{Bytes, BytesMut};
use redis_starter_rust::parser::{RESPError, RedisValueRef, RespParser};

fn test_decoder(input: &str, expected_output: RedisValueRef) {
    let mut decoder = RespParser::default();
    let mut buf = BytesMut::from(input);

    let output = decoder.decode(&mut buf).unwrap();

    assert_eq!(output, Some(expected_output));
    assert!(buf.is_empty());
}

fn decode_error(input: &[u8]) -> RESPError {
    let mut decoder = RespParser::default();
    let mut buf = BytesMut::from(input);
    let err = decoder.decode(&mut buf).unwrap_err();
    assert_eq!(&buf[..], input);
    err
}

#[test]
fn test_simple_string() {
    test_decoder(
        "+hello world\r\n",
        RedisValueRef::SimpleString(Bytes::from("hello world")),
    );
}

#[test]
fn test_simple_error() {
    test_decoder(
        "-ERR this is an error\r\n",
        RedisValueRef::Error(Bytes::from("ERR this is an error")),
    );
}

#[test]
fn test_integer() {
    test_decoder(":1000\r\n", RedisValueRef::Int(1000));
}

#[test]
fn test_null_bulk_string() {
    test_decoder("$-1\r\n", RedisValueRef::NullBulkString);
}

#[test]
fn test_bulk_string() {
    test_decoder(
        "$11\r\nhello world\r\n",
        RedisValueRef::String(Bytes::from("hello world")),
    );
}

#[test]
fn test_null_array() {
    test_decoder("*-1\r\n", RedisValueRef::NullArray);
}

#[test]
fn test_array() {
    test_decoder(
        "*2\r\n+hello\r\n:1000\r\n",
        RedisValueRef::Array(vec![
            RedisValueRef::SimpleString(Bytes::from("hello")),
            RedisValueRef::Int(1000),
        ]),
    );
}

#[test]
fn test_nested_array() {
    test_decoder(
        "*2\r\n*2\r\n+hello\r\n:1000\r\n*2\r\n+world\r\n:2000\r\n",
        RedisValueRef::Array(vec![
            RedisValueRef::Array(vec![
                RedisValueRef::SimpleString(Bytes::from("hello")),
                RedisValueRef::Int(1000),
            ]),
            RedisValueRef::Array(vec![
                RedisValueRef::SimpleString(Bytes::from("world")),
                RedisValueRef::Int(2000),
            ]),
        ]),
    );
}

#[test]
fn test_empty_array() {
    test_decoder("*0\r\n", RedisValueRef::Array(vec![]));
}

#[test]
fn negative_and_extreme_integers() {
    test_decoder(":-42\r\n", RedisValueRef::Int(-42));
    test_decoder(":9223372036854775807\r\n", RedisValueRef::Int(i64::MAX));
    test_decoder(":-9223372036854775808\r\n", RedisValueRef::Int(i64::MIN));
    test_decoder(":007\r\n", RedisValueRef::Int(7));
}

#[test]
fn empty_bulk_string_and_binary_payload() {
    test_decoder("$0\r\n\r\n", RedisValueRef::String(Bytes::new()));
    test_decoder(
        "$4\r\na\r\nb\r\n",
        RedisValueRef::String(Bytes::from(&b"a\r\nb"[..])),
    );
}

#[test]
fn empty_buffer_is_incomplete() {
    let mut decoder = RespParser::default();
    let mut buf = BytesMut::new();
    assert_eq!(decoder.decode(&mut buf).unwrap(), None);
}

#[test]
fn partial_frames_are_incomplete_and_kept() {
    for input in [
        "+hel",
        "+hello\r",
        ":12",
        "$5\r\nhel",
        "$5\r\nhello\r",
        "*2\r\n$3\r\nfoo\r\n",
        "*2\r\n$3\r\nfoo\r\n$3\r\nba",
        "*",
    ] {
        let mut decoder = RespParser::default();
        let mut buf = BytesMut::from(input);
        assert_eq!(decoder.decode(&mut buf).unwrap(), None, "input {:?}", input);
        assert_eq!(&buf[..], input.as_bytes());
    }
}

#[test]
fn malformed_bulk_string_length() {
    assert!(matches!(
        decode_error(b"$-5\r\nhello\r\n"),
        RESPError::BadBulkStringSize(-5)
    ));
}

#[test]
fn malformed_array_length() {
    assert!(matches!(decode_error(b"*-2\r\n"), RESPError::BadArraySize(-2)));
    assert!(matches!(
        decode_error(b"*1048577\r\n"),
        RESPError::BadArraySize(1048577)
    ));
}

#[test]
fn unknown_starting_byte() {
    assert!(matches!(decode_error(b"?x\r\n"), RESPError::UnknownStartingByte));
}

#[test]
fn non_digit_integer() {
    assert!(matches!(decode_error(b":12a\r\n"), RESPError::IntParseFailure));
    assert!(matches!(decode_error(b":\r\n"), RESPError::IntParseFailure));
    assert!(matches!(decode_error(b":-\r\n"), RESPError::IntParseFailure));
    assert!(matches!(
        decode_error(b":9223372036854775808\r\n"),
        RESPError::IntParseFailure
    ));
    assert!(matches!(decode_error(b"$x\r\n"), RESPError::IntParseFailure));
}

#[test]
fn bad_line_endings() {
    assert!(matches!(decode_error(b"+ok\rx"), RESPError::BadLineEnding));
    assert!(matches!(decode_error(b"+o\nk\r\n"), RESPError::BadLineEnding));
    assert!(matches!(decode_error(b"$2\r\nokxy"), RESPError::BadLineEnding));
}

#[test]
fn nesting_too_deep() {
    let mut input = String::new();
    for _ in 0..33 {
        input.push_str("*1\r\n");
    }
    input.push_str(":1\r\n");
    assert!(matches!(decode_error(input.as_bytes()), RESPError::NestingTooDeep));

    let mut ok = String::new();
    for _ in 0..32 {
        ok.push_str("*1\r\n");
    }
    ok.push_str(":1\r\n");
    let mut decoder = RespParser::default();
    let mut buf = BytesMut::from(ok.as_str());
    assert!(decoder.decode(&mut buf).unwrap().is_some());
    assert!(buf.is_empty());
}

#[test]
fn pipelined_frames_decode_in_order() {
    let mut decoder = RespParser::default();
    let mut buf = BytesMut::from("+first\r\n:2\r\n$3\r\nabc\r\n+par");
    assert_eq!(
        decoder.decode(&mut buf).unwrap(),
        Some(RedisValueRef::SimpleString(Bytes::from("first")))
    );
    assert_eq!(&buf[..], b":2\r\n$3\r\nabc\r\n+par");
    assert_eq!(decoder.decode(&mut buf).unwrap(), Some(RedisValueRef::Int(2)));
    assert_eq!(
        decoder.decode(&mut buf).unwrap(),
        Some(RedisValueRef::String(Bytes::from("abc")))
    );
    assert_eq!(&buf[..], b"+par");
    assert_eq!(decoder.decode(&mut buf).unwrap(), None);
    assert_eq!(&buf[..], b"+par");
}

#[test]
fn incremental_feed_at_every_offset() {
    let frame: &[u8] = b"*3\r\n$3\r\nSET\r\n$3\r\nkey\r\n*2\r\n:-7\r\n-ERR no\r\n";
    let expected = || {
        RedisValueRef::Array(vec![
            RedisValueRef::String(Bytes::from("SET")),
            RedisValueRef::String(Bytes::from("key")),
            RedisValueRef::Array(vec![
                RedisValueRef::Int(-7),
                RedisValueRef::Error(Bytes::from("ERR no")),
            ]),
        ])
    };
    for k in 0..frame.len() {
        let mut decoder = RespParser::default();
        let mut buf = BytesMut::from(&frame[..k]);
        assert_eq!(decoder.decode(&mut buf).unwrap(), None, "offset {}", k);
        buf.extend_from_slice(&frame[k..]);
        assert_eq!(decoder.decode(&mut buf).unwrap(), Some(expected()));
        assert!(buf.is_empty());
    }
}
