use bytes::{Bytes, BytesMut};
use redis_starter_rust::command::{respond, CommandError, RespCommand, Store};
use redis_starter_rust::parser::{RESPError, RedisEncoder, RedisValueRef, RespParser};

/// Decodes one request from `input`, answers it and encodes the reply.
fn serve(store: &Store, buf: &mut BytesMut) -> Vec<u8> {
    let mut decoder = RespParser::default();
    let request = decoder.decode(buf).unwrap().expect("a whole request");
    let reply = match request {
        RedisValueRef::Array(args) => respond(args, store),
        _ => panic!("requests are arrays"),
    };
    let mut out = BytesMut::new();
    RedisEncoder::default().encode(reply, &mut out);
    out.to_vec()
}

fn request(words: &[&str]) -> Vec<RedisValueRef> {
    words
        .iter()
        .map(|w| RedisValueRef::String(Bytes::copy_from_slice(w.as_bytes())))
        .collect()
}

fn parse(words: &[&str]) -> Result<RespCommand, CommandError> {
    RespCommand::parse_command_arr(request(words))
}

#[test]
fn ping_scenario() {
    let store = Store::new();
    let mut buf = BytesMut::from("*1\r\n$4\r\nPING\r\n");
    assert_eq!(serve(&store, &mut buf), b"+PONG\r\n");
}

#[test]
fn echo_scenario() {
    let store = Store::new();
    let mut buf = BytesMut::from("*2\r\n$4\r\nECHO\r\n$5\r\nhello\r\n");
    assert_eq!(serve(&store, &mut buf), b"$5\r\nhello\r\n");
}

#[test]
fn set_then_get_scenario() {
    let store = Store::new();
    let mut buf = BytesMut::from("*3\r\n$3\r\nSET\r\n$3\r\nfoo\r\n$3\r\nbar\r\n");
    assert_eq!(serve(&store, &mut buf), b"+OK\r\n");
    let mut buf = BytesMut::from("*2\r\n$3\r\nGET\r\n$3\r\nfoo\r\n");
    assert_eq!(serve(&store, &mut buf), b"$3\r\nbar\r\n");
}

#[test]
fn get_missing_scenario() {
    let store = Store::new();
    let mut buf = BytesMut::from("*2\r\n$3\r\nGET\r\n$7\r\nmissing\r\n");
    assert_eq!(serve(&store, &mut buf), b"$-1\r\n");
}

#[test]
fn unknown_command_scenario() {
    let store = Store::new();
    let mut buf = BytesMut::from("*1\r\n$7\r\nUNKNOWN\r\n*1\r\n$4\r\nPING\r\n");
    let reply = serve(&store, &mut buf);
    assert_eq!(reply, b"-ERR unknown command\r\n");
    assert_eq!(serve(&store, &mut buf), b"+PONG\r\n");
}

#[test]
fn malformed_length_scenario() {
    let mut decoder = RespParser::default();
    let mut buf = BytesMut::from("$-5\r\nhello\r\n");
    assert!(matches!(
        decoder.decode(&mut buf),
        Err(RESPError::BadBulkStringSize(-5))
    ));
}

#[test]
fn verbs_ignore_case() {
    assert!(matches!(parse(&["pInG"]), Ok(RespCommand::Ping)));
    match parse(&["Echo", "Hi"]) {
        Ok(RespCommand::Echo(m)) => assert_eq!(m, Bytes::from("Hi")),
        other => panic!("unexpected {:?}", other),
    }
    match parse(&["get", "k"]) {
        Ok(RespCommand::Get(k)) => assert_eq!(k, Bytes::from("k")),
        other => panic!("unexpected {:?}", other),
    }
}

#[test]
fn set_with_expiry_in_seconds() {
    match parse(&["SET", "k", "v", "ex", "10"]) {
        Ok(RespCommand::SetKey((k, v, ttl))) => {
            assert_eq!(k, Bytes::from("k"));
            assert_eq!(v, Bytes::from("v"));
            assert_eq!(ttl, Some(10_000));
        }
        other => panic!("unexpected {:?}", other),
    }
    match parse(&["set", "k", "v"]) {
        Ok(RespCommand::SetKey((_, _, ttl))) => assert_eq!(ttl, None),
        other => panic!("unexpected {:?}", other),
    }
}

#[test]
fn command_errors() {
    assert!(matches!(
        RespCommand::parse_command_arr(vec![]),
        Err(CommandError::EmptyCommand)
    ));
    assert!(matches!(
        RespCommand::parse_command_arr(vec![RedisValueRef::Int(1)]),
        Err(CommandError::NotBulkString)
    ));
    assert!(matches!(parse(&["FLUSHALL"]), Err(CommandError::UnknownCommand)));
    assert!(matches!(parse(&["PING", "x"]), Err(CommandError::WrongArity)));
    assert!(matches!(parse(&["ECHO"]), Err(CommandError::WrongArity)));
    assert!(matches!(parse(&["GET", "a", "b"]), Err(CommandError::WrongArity)));
    assert!(matches!(parse(&["SET", "k"]), Err(CommandError::WrongArity)));
    assert!(matches!(parse(&["SET", "k", "v", "EX"]), Err(CommandError::SyntaxError)));
    assert!(matches!(parse(&["SET", "k", "v", "PX", "5"]), Err(CommandError::SyntaxError)));
    assert!(matches!(
        parse(&["SET", "k", "v", "EX", "0"]),
        Err(CommandError::InvalidExpireTime)
    ));
    assert!(matches!(
        parse(&["SET", "k", "v", "EX", "-3"]),
        Err(CommandError::InvalidExpireTime)
    ));
    assert!(matches!(
        parse(&["SET", "k", "v", "EX", "soon"]),
        Err(CommandError::InvalidExpireTime)
    ));
    assert!(matches!(
        parse(&["SET", "k", "v", "EX", "18446744073709552"]),
        Err(CommandError::InvalidExpireTime)
    ));
}

#[test]
fn error_replies_are_error_values() {
    assert_eq!(
        CommandError::WrongArity.reply(),
        RedisValueRef::Error(Bytes::from("ERR wrong number of arguments"))
    );
    assert_eq!(
        CommandError::SyntaxError.reply(),
        RedisValueRef::Error(Bytes::from("ERR syntax error"))
    );
    assert_eq!(
        CommandError::InvalidExpireTime.reply(),
        RedisValueRef::Error(Bytes::from("ERR invalid expire time"))
    );
    assert_eq!(
        CommandError::EmptyCommand.reply(),
        RedisValueRef::Error(Bytes::from("ERR empty command"))
    );
    assert_eq!(
        CommandError::NotBulkString.reply(),
        RedisValueRef::Error(Bytes::from("ERR protocol error: expected bulk strings"))
    );
}

#[test]
fn execute_replies() {
    let store = Store::new();
    assert_eq!(
        RespCommand::Ping.execute(&store),
        RedisValueRef::SimpleString(Bytes::from("PONG"))
    );
    assert_eq!(
        RespCommand::Echo(Bytes::from("hey")).execute(&store),
        RedisValueRef::String(Bytes::from("hey"))
    );
    assert_eq!(
        RespCommand::SetKey((Bytes::from("a"), Bytes::from("1"), None)).execute(&store),
        RedisValueRef::SimpleString(Bytes::from("OK"))
    );
    assert_eq!(
        RespCommand::Get(Bytes::from("a")).execute(&store),
        RedisValueRef::String(Bytes::from("1"))
    );
    assert_eq!(
        RespCommand::get_reply(None),
        RedisValueRef::NullBulkString
    );
    assert_eq!(
        RespCommand::get_reply(Some(Bytes::from("z"))),
        RedisValueRef::String(Bytes::from("z"))
    );
}
