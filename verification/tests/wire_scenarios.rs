//! Byte-exact end-to-end scenarios: bytes in, command out, reply bytes back.
use bytes::BytesMut;
use simple_redis::Backend;
use simple_redis::BulkString;
use simple_redis::Command;
use simple_redis::CommandExecutor;
use simple_redis::RespArray;
use simple_redis::RespDecode;
use simple_redis::RespEncode;
use simple_redis::RespError;
use simple_redis::RespFrame;
use simple_redis::RespMap;
use simple_redis::RespSet;

fn run(backend: &mut Backend, wire: &[u8]) -> Vec<u8> {
    let mut buf = BytesMut::new();
    buf.extend_from_slice(wire);
    let frame = RespFrame::decode(&mut buf).unwrap();
    assert!(buf.is_empty());
    let cmd = Command::try_from(frame).unwrap();
    let reply = cmd.execute(backend);
    reply.encode()
}

#[test]
fn test_get_against_empty_backend() {
    let mut backend = Backend::new();
    let mut buf = BytesMut::new();
    buf.extend_from_slice(b"*2\r\n$3\r\nget\r\n$5\r\nhello\r\n");
    let frame = RespFrame::decode(&mut buf).unwrap();
    let cmd = Command::try_from(frame).unwrap();
    match &cmd {
        Command::Get(g) => assert_eq!(g.key, "hello"),
        other => panic!("expected a get command, got {:?}", other),
    }
    let reply = cmd.execute(&mut backend);
    assert_eq!(reply.encode(), b"_\r\n");
}

#[test]
fn test_set_then_get_wire() {
    let mut backend = Backend::new();
    let reply = run(&mut backend, b"*3\r\n$3\r\nset\r\n$5\r\nhello\r\n$5\r\nworld\r\n");
    assert_eq!(reply, b"+OK\r\n");
    let reply = run(&mut backend, b"*2\r\n$3\r\nget\r\n$5\r\nhello\r\n");
    assert_eq!(reply, b"$5\r\nworld\r\n");
}

#[test]
fn test_hset_twice_then_hgetall_sorted() {
    let mut backend = Backend::new();
    let reply = run(
        &mut backend,
        b"*4\r\n$4\r\nhset\r\n$3\r\nmap\r\n$5\r\nhello\r\n$5\r\nworld\r\n",
    );
    assert_eq!(reply, b"+OK\r\n");
    let reply = run(
        &mut backend,
        b"*4\r\n$4\r\nhset\r\n$3\r\nmap\r\n$6\r\nhello1\r\n$6\r\nworld1\r\n",
    );
    assert_eq!(reply, b"+OK\r\n");

    // the sort flag is internal: set it on the parsed command
    let mut buf = BytesMut::new();
    buf.extend_from_slice(b"*2\r\n$7\r\nhgetall\r\n$3\r\nmap\r\n");
    let frame = RespFrame::decode(&mut buf).unwrap();
    let cmd = Command::try_from(frame).unwrap();
    let cmd = match cmd {
        Command::HGetAll(mut c) => {
            c.sort = true;
            c
        },
        other => panic!("expected hgetall, got {:?}", other),
    };
    let reply = cmd.execute(&mut backend);
    assert_eq!(
        reply.encode(),
        b"*4\r\n$5\r\nhello\r\n$5\r\nworld\r\n$6\r\nhello1\r\n$6\r\nworld1\r\n"
    );
}

#[test]
fn test_partial_input_then_completion() {
    let mut buf = BytesMut::new();
    buf.extend_from_slice(b"*2\r\n$3\r\nset\r\n");
    let r = RespFrame::decode(&mut buf);
    assert_eq!(r.unwrap_err(), RespError::NotComplete);

    buf.extend_from_slice(b"$5\r\nhello\r\n");
    let frame = RespFrame::decode(&mut buf).unwrap();
    assert_eq!(
        frame,
        RespFrame::Array(RespArray::new(vec![
            RespFrame::BulkString(BulkString::new(b"set".to_vec())),
            RespFrame::BulkString(BulkString::new(b"hello".to_vec())),
        ]))
    );
}

#[test]
fn test_map_two_entry_roundtrip() {
    let wire = b"%2\r\n+hello\r\n$5\r\nworld\r\n+foo\r\n$3\r\nbar\r\n";
    let mut buf = BytesMut::new();
    buf.extend_from_slice(wire);
    let frame = RespFrame::decode(&mut buf).unwrap();

    let mut map = RespMap::new();
    map.insert(
        "hello".to_string(),
        RespFrame::BulkString(BulkString::new(b"world".to_vec())),
    );
    map.insert(
        "foo".to_string(),
        RespFrame::BulkString(BulkString::new(b"bar".to_vec())),
    );
    assert_eq!(frame, RespFrame::MapFrame(map));
    assert_eq!(frame.encode(), wire);
}

#[test]
fn test_nested_set_roundtrip() {
    let wire = b"~2\r\n*2\r\n:+1234\r\n#t\r\n$5\r\nworld\r\n";
    let mut buf = BytesMut::new();
    buf.extend_from_slice(wire);
    let frame = RespFrame::decode(&mut buf).unwrap();
    assert_eq!(
        frame,
        RespFrame::SetFrame(RespSet::new(vec![
            RespFrame::Array(RespArray::new(vec![
                RespFrame::Integer(1234),
                RespFrame::Boolean(true),
            ])),
            RespFrame::BulkString(BulkString::new(b"world".to_vec())),
        ]))
    );
    assert_eq!(frame.encode(), wire);
}

#[test]
fn test_command_parse_failure_becomes_error_reply() {
    // the driver answers command errors with a simple error frame
    let mut backend = Backend::new();
    let mut buf = BytesMut::new();
    buf.extend_from_slice(b"*1\r\n$3\r\nget\r\n");
    let frame = RespFrame::decode(&mut buf).unwrap();
    let reply = simple_redis::cmd::handle_frame(frame, &mut backend);
    assert!(matches!(reply, RespFrame::SimpleError(_)));
    let encoded = reply.encode();
    assert_eq!(encoded[0], b'-');
    assert_eq!(&encoded[encoded.len() - 2..], b"\r\n");

    // a non-array frame is no command either
    let reply = simple_redis::cmd::handle_frame(RespFrame::Integer(3), &mut backend);
    let encoded = reply.encode();
    assert_eq!(&encoded[..], b"-Invalid command: Command must be an Array\r\n");
}
