use raphdb::cmd::Command;
use raphdb::connection::parse_frame;
use raphdb::error::ParserError;
use raphdb::frame::Frame;
use raphdb::mini_redis::MiniRedis;
use raphdb::parser::Parser;

#[test]
fn test_from_frame() {
    assert!(true)
}

fn create_array_frame() -> Frame {
    let mut frame = Frame::array();
    frame.push_bulk(b"Hello world".to_vec());
    frame.push_int(1);
    frame
}

#[test]
fn test_new() {
    let frame = Frame::Simple(b"foo".to_vec());
    let parser = Parser::new(frame);
    assert!(parser.is_err());

    let frame = create_array_frame();
    let parser = Parser::new(frame);
    assert!(parser.is_ok());
}

#[test]
fn test_next() {
    let frame_array = create_array_frame();
    let mut parser = Parser::new(frame_array).unwrap();

    if let Frame::Array(frames) = create_array_frame() {
        for frame in frames.into_iter() {
            let next_frame = parser.next();
            assert!(next_frame.is_ok());
            assert_eq!(next_frame.unwrap(), frame);
        }
        assert!(parser.finish().is_ok());
        assert!(parser.next().is_err());
    } else {
        unreachable!()
    }
}

#[test]
fn test_next_typed_accessors() {
    let mut frame = Frame::array();
    frame.push_bulk(b"abc".to_vec());
    frame.push_bulk(b"42".to_vec());
    frame.push_int(7);
    let mut parser = Parser::new(frame).unwrap();
    assert_eq!(parser.next_string().unwrap(), b"abc".to_vec());
    assert_eq!(parser.next_int().unwrap(), 42);
    assert_eq!(parser.next_int().unwrap(), 7);
    assert!(matches!(parser.next_bytes(), Err(ParserError::EndOfStream)));
}

#[test]
fn test_next_string_rejects_bad_utf8() {
    let mut frame = Frame::array();
    frame.push_bulk(b"\xff\xfe".to_vec());
    let mut parser = Parser::new(frame).unwrap();
    assert!(matches!(parser.next_string(), Err(ParserError::Other(_))));
}

/// Feeds one request through the whole pipeline against the
/// in-memory store and returns the reply bytes, or `None` when the
/// request is a protocol error and the connection must be closed.
fn serve(store: &mut MiniRedis, request: &[u8], now_ms: u64) -> Option<Vec<u8>> {
    let buffer = request.to_vec();
    let (frame, used) = parse_frame(&buffer).ok()?.expect("whole frame expected");
    assert_eq!(used, buffer.len());
    let command = Command::from_frame(frame).ok()?;
    let (reply, _notify) = command.apply(store, now_ms);
    Some(reply.wire_bytes())
}

#[test]
fn test_set_reply_ok() {
    let mut store = MiniRedis::new();
    let reply = serve(&mut store, b"*3\r\n$3\r\nSET\r\n$3\r\nfoo\r\n$3\r\nbar\r\n", 0);
    assert_eq!(reply.unwrap(), b"+OK\r\n".to_vec());
}

#[test]
fn test_get_after_set_reply() {
    let mut store = MiniRedis::new();
    serve(&mut store, b"*3\r\n$3\r\nSET\r\n$3\r\nfoo\r\n$3\r\nbar\r\n", 0).unwrap();
    let reply = serve(&mut store, b"*2\r\n$3\r\nGET\r\n$3\r\nfoo\r\n", 1);
    assert_eq!(reply.unwrap(), b"$3\r\nbar\r\n".to_vec());
}

#[test]
fn test_get_miss_reply_null() {
    let mut store = MiniRedis::new();
    let reply = serve(&mut store, b"*2\r\n$3\r\nGET\r\n$4\r\nmiss\r\n", 0);
    assert_eq!(reply.unwrap(), b"$-1\r\n".to_vec());
}

#[test]
fn test_unknown_command_reply() {
    let mut store = MiniRedis::new();
    let reply = serve(&mut store, b"*1\r\n$4\r\nPING\r\n", 0);
    assert_eq!(reply.unwrap(), b"-ERR unknown command 'ping'\r\n".to_vec());
}

#[test]
fn test_set_missing_value_is_protocol_error() {
    let buffer = b"*2\r\n$3\r\nSET\r\n$3\r\nfoo\r\n".to_vec();
    let (frame, _) = parse_frame(&buffer).unwrap().unwrap();
    let command = Command::from_frame(frame);
    assert!(matches!(command, Err(ParserError::EndOfStream)));
}

#[test]
fn test_extra_field_is_protocol_error() {
    let buffer = b"*3\r\n$3\r\nGET\r\n$3\r\nfoo\r\n$3\r\nbar\r\n".to_vec();
    let (frame, _) = parse_frame(&buffer).unwrap().unwrap();
    let command = Command::from_frame(frame);
    assert!(matches!(command, Err(ParserError::Other(_))));
}

#[test]
fn test_verb_case_insensitive() {
    let mut store = MiniRedis::new();
    serve(&mut store, b"*3\r\n$3\r\nsEt\r\n$1\r\nk\r\n$1\r\nv\r\n", 0).unwrap();
    let reply = serve(&mut store, b"*2\r\n$3\r\ngEt\r\n$1\r\nk\r\n", 1);
    assert_eq!(reply.unwrap(), b"$1\r\nv\r\n".to_vec());
}

#[test]
fn test_into_frame() {
    let get = raphdb::cmd::Get::new(b"foo".to_vec());
    let frame = get.into_frame();
    assert_eq!(frame.wire_bytes(), b"*2\r\n$3\r\nget\r\n$3\r\nfoo\r\n".to_vec());

    let set = raphdb::cmd::SetCmd::new(b"foo".to_vec(), b"bar".to_vec());
    let frame = set.into_frame();
    assert_eq!(frame.wire_bytes(), b"*3\r\n$3\r\nset\r\n$3\r\nfoo\r\n$3\r\nbar\r\n".to_vec());
}
