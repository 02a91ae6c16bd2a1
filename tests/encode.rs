use bytes::{Bytes, BytesMut};
use redis_starter_rust::parser::{RedisEncoder, RedisValueRef, RespParser};

fn encoded(value: RedisValueRef) -> Vec<u8> {
    let mut encoder = RedisEncoder::default();
    let mut buf = BytesMut::new();
    encoder.encode(value, &mut buf);
    buf.to_vec()
}

fn sample_values() -> Vec<RedisValueRef> {
    vec![
        RedisValueRef::SimpleString(Bytes::from("OK")),
        RedisValueRef::SimpleString(Bytes::new()),
        RedisValueRef::Error(Bytes::from("ERR boom")),
        RedisValueRef::Int(0),
        RedisValueRef::Int(-1),
        RedisValueRef::Int(i64::MIN),
        RedisValueRef::Int(i64::MAX),
        RedisValueRef::String(Bytes::from(&b"bin\r\n\0ary"[..])),
        RedisValueRef::String(Bytes::new()),
        RedisValueRef::NullBulkString,
        RedisValueRef::NullArray,
        RedisValueRef::Array(vec![]),
        RedisValueRef::Array(vec![
            RedisValueRef::Int(1),
            RedisValueRef::Array(vec![RedisValueRef::String(Bytes::from("x"))]),
            RedisValueRef::NullBulkString,
        ]),
    ]
}

#[test]
fn encodes_each_variant_exactly() {
    assert_eq!(encoded(RedisValueRef::SimpleString(Bytes::from("OK"))), b"+OK\r\n");
    assert_eq!(encoded(RedisValueRef::Error(Bytes::from("ERR x"))), b"-ERR x\r\n");
    assert_eq!(encoded(RedisValueRef::Int(1000)), b":1000\r\n");
    assert_eq!(encoded(RedisValueRef::Int(-45)), b":-45\r\n");
    assert_eq!(encoded(RedisValueRef::Int(0)), b":0\r\n");
    assert_eq!(
        encoded(RedisValueRef::Int(i64::MIN)),
        b":-9223372036854775808\r\n"
    );
    assert_eq!(
        encoded(RedisValueRef::String(Bytes::from("hello"))),
        b"$5\r\nhello\r\n"
    );
    assert_eq!(encoded(RedisValueRef::String(Bytes::new())), b"$0\r\n\r\n");
    assert_eq!(encoded(RedisValueRef::NullBulkString), b"$-1\r\n");
    assert_eq!(encoded(RedisValueRef::NullArray), b"*-1\r\n");
    assert_eq!(encoded(RedisValueRef::Array(vec![])), b"*0\r\n");
    assert_eq!(
        encoded(RedisValueRef::Array(vec![
            RedisValueRef::String(Bytes::from("a")),
            RedisValueRef::Int(2),
        ])),
        b"*2\r\n$1\r\na\r\n:2\r\n"
    );
}

#[test]
fn encoding_appends_to_existing_bytes() {
    let mut encoder = RedisEncoder::default();
    let mut buf = BytesMut::from("prefix");
    encoder.encode(RedisValueRef::Int(7), &mut buf);
    assert_eq!(&buf[..], b"prefix:7\r\n");
}

#[test]
fn round_trip_of_sample_values() {
    let expected = sample_values();
    for (i, value) in sample_values().into_iter().enumerate() {
        let bytes = encoded(value);
        let mut decoder = RespParser::default();
        let mut buf = BytesMut::from(&bytes[..]);
        let decoded = decoder.decode(&mut buf).unwrap();
        assert_eq!(decoded.as_ref(), Some(&expected[i]));
        assert!(buf.is_empty());
    }
}

#[test]
fn pipelining_two_encoded_frames() {
    let first = encoded(RedisValueRef::SimpleString(Bytes::from("PONG")));
    let second = encoded(RedisValueRef::Array(vec![RedisValueRef::Int(5)]));
    let mut buf = BytesMut::new();
    buf.extend_from_slice(&first);
    buf.extend_from_slice(&second);
    let mut decoder = RespParser::default();
    assert_eq!(
        decoder.decode(&mut buf).unwrap(),
        Some(RedisValueRef::SimpleString(Bytes::from("PONG")))
    );
    assert_eq!(&buf[..], &second[..]);
    assert_eq!(
        decoder.decode(&mut buf).unwrap(),
        Some(RedisValueRef::Array(vec![RedisValueRef::Int(5)]))
    );
    assert!(buf.is_empty());
}
