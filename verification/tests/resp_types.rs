//! Encoding and decoding of the individual frame types.
use bytes::BufMut;
use bytes::BytesMut;
use simple_redis::BulkString;
use simple_redis::RespArray;
use simple_redis::RespDecode;
use simple_redis::RespEncode;
use simple_redis::RespError;
use simple_redis::RespFrame;
use simple_redis::RespNull;
use simple_redis::RespNullArray;
use simple_redis::RespNullBulkString;
use simple_redis::RespSet;
use simple_redis::SimpleError;
use simple_redis::SimpleString;

#[test]
fn test_simple_string() {
    let s: RespFrame = RespFrame::SimpleString(SimpleString::new("OK".to_string()));
    assert_eq!(s.encode(), b"+OK\r\n");
}

#[test]
fn simple_string_test_simple_string_decode() {
    let mut buf = BytesMut::from("+OK\r\n");
    let s = SimpleString::decode(&mut buf).unwrap();
    assert_eq!(s, SimpleString::new("OK".to_string()));

    let mut buf = BytesMut::from("+OK\r");
    let s = SimpleString::decode(&mut buf);
    assert_eq!(s.unwrap_err(), RespError::NotComplete);
}

#[test]
fn test_error() {
    let s: RespFrame = RespFrame::SimpleError(SimpleError::new("Error message".to_string()));
    assert_eq!(s.encode(), b"-Error message\r\n");
}

#[test]
fn simple_error_test_simple_error_decode() {
    let mut buf = BytesMut::from("-Error message\r\n");
    let s = SimpleError::decode(&mut buf).unwrap();
    assert_eq!(s, SimpleError::new("Error message".to_string()));

    let mut buf = BytesMut::from("-Error message\r");
    let s = SimpleError::decode(&mut buf);
    assert_eq!(s.unwrap_err(), RespError::NotComplete);
}

#[test]
fn test_integer() {
    let s: RespFrame = RespFrame::Integer(100);
    assert_eq!(s.encode(), b":+100\r\n");

    let s: RespFrame = RespFrame::Integer(-100);
    assert_eq!(s.encode(), b":-100\r\n");
}

#[test]
fn integer_test_integer_decode() {
    let mut buf = BytesMut::from(":1000\r\n");
    let s = i64::decode(&mut buf).unwrap();
    assert_eq!(s, 1000);

    let mut buf = BytesMut::from(":1000\r");
    let s = i64::decode(&mut buf);
    assert_eq!(s.unwrap_err(), RespError::NotComplete);
}

#[test]
fn test_null() {
    let s: RespFrame = RespFrame::Null(RespNull);
    assert_eq!(s.encode(), b"_\r\n");
}

#[test]
fn null_test_null_decode() {
    let mut buf = BytesMut::new();
    buf.extend_from_slice(b"_\r\n");

    let frame = RespNull::decode(&mut buf).unwrap();
    assert_eq!(frame, RespNull);
}

#[test]
fn test_array() {
    let frame: RespFrame = RespFrame::Array(RespArray::new(vec![
        RespFrame::BulkString(BulkString::new(b"set".to_vec())),
        RespFrame::BulkString(BulkString::new(b"hello".to_vec())),
        RespFrame::BulkString(BulkString::new(b"world".to_vec())),
    ]));
    assert_eq!(&frame.encode(), b"*3\r\n$3\r\nset\r\n$5\r\nhello\r\n$5\r\nworld\r\n");
}

#[test]
fn test_null_array() {
    let s: RespFrame = RespFrame::NullArray(RespNullArray);
    assert_eq!(s.encode(), b"*-1\r\n");
}

#[test]
fn array_test_null_array_decode() {
    let mut buf = BytesMut::new();
    buf.extend_from_slice(b"*-1\r\n");

    let frame = RespNullArray::decode(&mut buf).unwrap();
    assert_eq!(frame, RespNullArray);
}

#[test]
fn array_test_array_decode() {
    let mut buf = BytesMut::new();
    buf.extend_from_slice(b"*2\r\n$3\r\nset\r\n$5\r\nhello\r\n");

    let frame = RespArray::decode(&mut buf).unwrap();
    assert_eq!(
        frame,
        RespArray::new(vec![
            RespFrame::BulkString(BulkString::new(b"set".to_vec())),
            RespFrame::BulkString(BulkString::new(b"hello".to_vec())),
        ])
    );

    buf.extend_from_slice(b"*2\r\n$3\r\nset\r\n");
    let ret = RespArray::decode(&mut buf);
    assert_eq!(ret.unwrap_err(), RespError::NotComplete);

    buf.extend_from_slice(b"$5\r\nhello\r\n");
    let frame = RespArray::decode(&mut buf).unwrap();
    assert_eq!(
        frame,
        RespArray::new(vec![
            RespFrame::BulkString(BulkString::new(b"set".to_vec())),
            RespFrame::BulkString(BulkString::new(b"hello".to_vec())),
        ])
    );
}

#[test]
fn test_set() {
    let frame: RespFrame = RespFrame::SetFrame(RespSet::new(vec![
        RespFrame::Array(RespArray::new(vec![
            RespFrame::Integer(1234),
            RespFrame::Boolean(true),
        ])),
        RespFrame::BulkString(BulkString::new(b"world".to_vec())),
    ]));
    assert_eq!(frame.encode(), b"~2\r\n*2\r\n:+1234\r\n#t\r\n$5\r\nworld\r\n");
}

#[test]
fn set_test_set_decode() {
    let mut buf = BytesMut::new();
    buf.extend_from_slice(b"~2\r\n$3\r\nset\r\n$5\r\nhello\r\n");

    let frame = RespSet::decode(&mut buf).unwrap();
    assert_eq!(
        frame,
        RespSet::new(vec![
            RespFrame::BulkString(BulkString::new(b"set".to_vec())),
            RespFrame::BulkString(BulkString::new(b"hello".to_vec())),
        ])
    );
}

#[test]
fn test_boolean_decode() {
    let mut buf = BytesMut::new();
    buf.extend_from_slice(b"#t\r\n");

    let frame = bool::decode(&mut buf).unwrap();
    assert!(frame);

    buf.extend_from_slice(b"#f\r\n");

    let frame = bool::decode(&mut buf).unwrap();
    assert!(!frame);

    buf.extend_from_slice(b"#f\r");
    let ret = bool::decode(&mut buf);
    assert_eq!(ret.unwrap_err(), RespError::NotComplete);

    buf.put_u8(b'\n');
    let frame = bool::decode(&mut buf).unwrap();
    assert!(!frame);
}

#[test]
fn test_bulk_string_decode() {
    let mut buf = BytesMut::from("$5\r\nhello\r\n");
    let s = BulkString::decode(&mut buf).unwrap();
    assert_eq!(s, BulkString::new(b"hello".to_vec()));

    let mut buf = BytesMut::from("$5\r\nhello\r");
    let s = BulkString::decode(&mut buf);
    assert_eq!(s.unwrap_err(), RespError::NotComplete);
}

#[test]
fn test_null_bulk_string_decode() {
    let mut buf = BytesMut::new();
    buf.extend_from_slice(b"$-1\r\n");

    let frame = RespNullBulkString::decode(&mut buf).unwrap();
    assert_eq!(frame, RespNullBulkString);
}
