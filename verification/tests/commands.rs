//! Command parsing and execution against the backend.
use bytes::BytesMut;
use simple_redis::Backend;
use simple_redis::BulkString;
use simple_redis::Command;
use simple_redis::CommandError;
use simple_redis::CommandExecutor;
use simple_redis::Get;
use simple_redis::HGet;
use simple_redis::HGetAll;
use simple_redis::HSet;
use simple_redis::RespArray;
use simple_redis::RespDecode;
use simple_redis::RespFrame;
use simple_redis::SetCmd;
use simple_redis::SimpleString;

#[test]
fn test_get_try_from_resp_array() {
    let mut buf = BytesMut::new();
    buf.extend_from_slice(b"*2\r\n$3\r\nget\r\n$5\r\nhello\r\n");

    let frame = RespArray::decode(&mut buf).unwrap();

    let result: Get = Get::try_from(frame).unwrap();

    assert_eq!(result.key, "hello");
}

#[test]
fn test_set_try_from_resp_array() {
    let mut buf = BytesMut::new();
    buf.extend_from_slice(b"*3\r\n$3\r\nset\r\n$5\r\nhello\r\n$5\r\nworld\r\n");

    let frame = RespArray::decode(&mut buf).unwrap();

    let result: SetCmd = SetCmd::try_from(frame).unwrap();

    assert_eq!(result.key, "hello");
    assert_eq!(result.value, RespFrame::BulkString(BulkString::new(b"world".to_vec())));
}

#[test]
fn test_get_set_execute() {
    let mut backend = Backend::new();

    let set = SetCmd {
        key: "hello".to_string(),
        value: RespFrame::BulkString(BulkString::new(b"world".to_vec())),
    };

    let get = Get { key: "hello".to_string() };

    let set_frame = set.execute(&mut backend);
    let get_frame = get.execute(&mut backend);

    assert_eq!(set_frame, RespFrame::SimpleString(SimpleString::new("OK".to_string())));
    assert_eq!(get_frame, RespFrame::BulkString(BulkString::new(b"world".to_vec())));
}

#[test]
fn test_hget_try_from_resp_array() {
    let mut buf = BytesMut::new();
    buf.extend_from_slice(b"*3\r\n$4\r\nhget\r\n$3\r\nmap\r\n$5\r\nhello\r\n");

    let arr = RespArray::decode(&mut buf).unwrap();

    let get = HGet::try_from(arr).unwrap();

    assert_eq!(get.key, "map");
    assert_eq!(get.field, "hello");
}

#[test]
fn test_hset_try_from_resp_array() {
    let mut buf = BytesMut::new();
    buf.extend_from_slice(b"*4\r\n$4\r\nhset\r\n$3\r\nmap\r\n$5\r\nhello\r\n$5\r\nworld\r\n");

    let arr = RespArray::decode(&mut buf).unwrap();

    let set = HSet::try_from(arr).unwrap();

    assert_eq!(set.key, "map");
    assert_eq!(set.field, "hello");
    assert_eq!(set.value, RespFrame::BulkString(BulkString::new(b"world".to_vec())));
}

#[test]
fn test_hgetall_try_from_resp_array() {
    let mut buf = BytesMut::new();
    buf.extend_from_slice(b"*2\r\n$7\r\nhgetall\r\n$3\r\nmap\r\n");

    let arr = RespArray::decode(&mut buf).unwrap();

    let get_all = HGetAll::try_from(arr).unwrap();

    assert_eq!(get_all.key, "map");
}

#[test]
fn test_hset_hget_hgetall_commands() {
    let mut backend = Backend::new();
    let cmd = HSet {
        key: "map".to_string(),
        field: "hello".to_string(),
        value: RespFrame::BulkString(BulkString::new(b"world".to_vec())),
    };
    let result = cmd.execute(&mut backend);
    assert_eq!(result, RespFrame::SimpleString(SimpleString::new("OK".to_string())));

    let cmd = HSet {
        key: "map".to_string(),
        field: "hello1".to_string(),
        value: RespFrame::BulkString(BulkString::new(b"world1".to_vec())),
    };
    cmd.execute(&mut backend);

    let cmd = HGet { key: "map".to_string(), field: "hello".to_string() };
    let result = cmd.execute(&mut backend);
    assert_eq!(result, RespFrame::BulkString(BulkString::new(b"world".to_vec())));

    let cmd = HGetAll { key: "map".to_string(), sort: true };
    let result = cmd.execute(&mut backend);

    let expected = RespArray::new(vec![
        RespFrame::BulkString(BulkString::new(b"hello".to_vec())),
        RespFrame::BulkString(BulkString::new(b"world".to_vec())),
        RespFrame::BulkString(BulkString::new(b"hello1".to_vec())),
        RespFrame::BulkString(BulkString::new(b"world1".to_vec())),
    ]);
    assert_eq!(result, RespFrame::Array(expected));
}

#[test]
fn test_command_name_is_case_insensitive() {
    let mut buf = BytesMut::new();
    buf.extend_from_slice(b"*2\r\n$3\r\nGET\r\n$5\r\nhello\r\n");
    let frame = RespFrame::decode(&mut buf).unwrap();
    let cmd = Command::try_from(frame).unwrap();
    assert!(matches!(cmd, Command::Get(_)));

    let mut buf = BytesMut::new();
    buf.extend_from_slice(b"*2\r\n$7\r\nHGetAll\r\n$3\r\nmap\r\n");
    let frame = RespFrame::decode(&mut buf).unwrap();
    let cmd = Command::try_from(frame).unwrap();
    assert!(matches!(cmd, Command::HGetAll(_)));
}

#[test]
fn test_command_rejects_non_bulk_name() {
    let arr = RespArray::new(vec![
        RespFrame::Integer(7),
        RespFrame::BulkString(BulkString::new(b"hello".to_vec())),
    ]);
    let e = Command::try_from_array(arr).unwrap_err();
    assert!(matches!(e, CommandError::InvalidCommand(_)));

    let e = Command::try_from(RespFrame::Integer(5)).unwrap_err();
    assert!(matches!(e, CommandError::InvalidCommand(_)));
}

#[test]
fn test_command_wrong_arity() {
    let arr = RespArray::new(vec![RespFrame::BulkString(BulkString::new(b"get".to_vec()))]);
    let e = Command::try_from_array(arr).unwrap_err();
    assert!(matches!(e, CommandError::InvalidArgument(_)));
}

#[test]
fn test_command_bad_key_text() {
    let arr = RespArray::new(vec![
        RespFrame::BulkString(BulkString::new(b"get".to_vec())),
        RespFrame::BulkString(BulkString::new(vec![0xff, 0xfe])),
    ]);
    let e = Command::try_from_array(arr).unwrap_err();
    assert!(matches!(e, CommandError::Utf8Error(_)));
}

#[test]
fn test_unknown_command_is_accepted() {
    let arr = RespArray::new(vec![
        RespFrame::BulkString(BulkString::new(b"ping".to_vec())),
    ]);
    let cmd = Command::try_from_array(arr).unwrap();
    let mut backend = Backend::new();
    let reply = cmd.execute(&mut backend);
    assert_eq!(reply, RespFrame::SimpleString(SimpleString::new("OK".to_string())));
}

#[test]
fn test_set_overwrite_wins() {
    let mut backend = Backend::new();
    SetCmd {
        key: "k".to_string(),
        value: RespFrame::BulkString(BulkString::new(b"first".to_vec())),
    }.execute(&mut backend);
    SetCmd {
        key: "k".to_string(),
        value: RespFrame::BulkString(BulkString::new(b"second".to_vec())),
    }.execute(&mut backend);
    let got = Get { key: "k".to_string() }.execute(&mut backend);
    assert_eq!(got, RespFrame::BulkString(BulkString::new(b"second".to_vec())));
}

#[test]
fn test_hget_missing_returns_null() {
    let mut backend = Backend::new();
    let got = HGet { key: "nope".to_string(), field: "f".to_string() }.execute(&mut backend);
    assert_eq!(got, RespFrame::Null(simple_redis::RespNull));

    let got = Get { key: "nope".to_string() }.execute(&mut backend);
    assert_eq!(got, RespFrame::Null(simple_redis::RespNull));
}

#[test]
fn test_hgetall_missing_returns_empty_array() {
    let mut backend = Backend::new();
    let got = HGetAll { key: "nope".to_string(), sort: true }.execute(&mut backend);
    assert_eq!(got, RespFrame::Array(RespArray::new(Vec::new())));
}

#[test]
fn test_hgetall_sorted_order() {
    let mut backend = Backend::new();
    for (f, v) in [("zeta", "1"), ("alpha", "2"), ("mid", "3")] {
        HSet {
            key: "h".to_string(),
            field: f.to_string(),
            value: RespFrame::BulkString(BulkString::new(v.as_bytes().to_vec())),
        }.execute(&mut backend);
    }
    let got = HGetAll { key: "h".to_string(), sort: true }.execute(&mut backend);
    let expected = RespArray::new(vec![
        RespFrame::BulkString(BulkString::new(b"alpha".to_vec())),
        RespFrame::BulkString(BulkString::new(b"2".to_vec())),
        RespFrame::BulkString(BulkString::new(b"mid".to_vec())),
        RespFrame::BulkString(BulkString::new(b"3".to_vec())),
        RespFrame::BulkString(BulkString::new(b"zeta".to_vec())),
        RespFrame::BulkString(BulkString::new(b"1".to_vec())),
    ]);
    assert_eq!(got, RespFrame::Array(expected));
}

#[test]
fn test_hset_overwrites_field_in_place() {
    let mut backend = Backend::new();
    for (f, v) in [("b", "1"), ("a", "2"), ("b", "3")] {
        HSet {
            key: "h".to_string(),
            field: f.to_string(),
            value: RespFrame::BulkString(BulkString::new(v.as_bytes().to_vec())),
        }.execute(&mut backend);
    }
    // stored order is kept: b first, updated in place
    let got = HGetAll { key: "h".to_string(), sort: false }.execute(&mut backend);
    let expected = RespArray::new(vec![
        RespFrame::BulkString(BulkString::new(b"b".to_vec())),
        RespFrame::BulkString(BulkString::new(b"3".to_vec())),
        RespFrame::BulkString(BulkString::new(b"a".to_vec())),
        RespFrame::BulkString(BulkString::new(b"2".to_vec())),
    ]);
    assert_eq!(got, RespFrame::Array(expected));
}

#[test]
fn test_extract_args_skips_the_name() {
    let arr = RespArray::new(vec![
        RespFrame::BulkString(BulkString::new(b"set".to_vec())),
        RespFrame::BulkString(BulkString::new(b"k".to_vec())),
        RespFrame::Integer(9),
    ]);
    let args = simple_redis::cmd::extract_args(arr, 1).unwrap();
    assert_eq!(
        args,
        vec![
            RespFrame::BulkString(BulkString::new(b"k".to_vec())),
            RespFrame::Integer(9),
        ]
    );
}
