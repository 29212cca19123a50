//! Decoding whole frames through the dispatching decoder, and the expected
//! length computation.
use bytes::BytesMut;
use simple_redis::decode::calc_total_length;
use simple_redis::decode::parse_length;
use simple_redis::BulkString;
use simple_redis::RespArray;
use simple_redis::RespDecode;
use simple_redis::RespError;
use simple_redis::RespFrame;
use simple_redis::RespMap;
use simple_redis::RespNull;
use simple_redis::RespNullArray;
use simple_redis::RespNullBulkString;
use simple_redis::RespSet;
use simple_redis::SimpleError;
use simple_redis::SimpleString;

#[test]
fn decode_test_simple_string_decode() {
    let mut buf = BytesMut::from("+OK\r\n");
    let s = SimpleString::decode(&mut buf).unwrap();
    assert_eq!(s, SimpleString::new("OK".to_string()));

    let mut buf = BytesMut::from("+OK\r");
    let s = SimpleString::decode(&mut buf);
    assert_eq!(s.unwrap_err(), RespError::NotComplete);
}

#[test]
fn decode_test_simple_error_decode() {
    let mut buf = BytesMut::from("-Error message\r\n");
    let s = SimpleError::decode(&mut buf).unwrap();
    assert_eq!(s, SimpleError::new("Error message".to_string()));

    let mut buf = BytesMut::from("-Error message\r");
    let s = SimpleError::decode(&mut buf);
    assert_eq!(s.unwrap_err(), RespError::NotComplete);
}

#[test]
fn decode_test_integer_decode() {
    let mut buf = BytesMut::from(":1000\r\n");
    let s = i64::decode(&mut buf).unwrap();
    assert_eq!(s, 1000);

    let mut buf = BytesMut::from(":1000\r");
    let s = i64::decode(&mut buf);
    assert_eq!(s.unwrap_err(), RespError::NotComplete);
}

#[test]
fn decode_test_null_array_decode() {
    let mut buf = BytesMut::new();
    buf.extend_from_slice(b"*-1\r\n");

    let frame = RespNullArray::decode(&mut buf).unwrap();
    assert_eq!(frame, RespNullArray);
}

#[test]
fn decode_test_null_decode() {
    let mut buf = BytesMut::new();
    buf.extend_from_slice(b"_\r\n");

    let frame = RespNull::decode(&mut buf).unwrap();
    assert_eq!(frame, RespNull);
}

#[test]
fn decode_test_array_decode() {
    let mut buf = BytesMut::new();
    buf.extend_from_slice(b"*2\r\n$3\r\nset\r\n$5\r\nhello\r\n");

    let frame = RespArray::decode(&mut buf).unwrap();
    assert_eq!(
        frame,
        RespArray::new(vec![
            RespFrame::BulkString(BulkString::new(b"set".to_vec())),
            RespFrame::BulkString(BulkString::new(b"hello".to_vec())),
        ])
    );

    buf.extend_from_slice(b"*2\r\n$3\r\nset\r\n");
    let ret = RespArray::decode(&mut buf);
    assert_eq!(ret.unwrap_err(), RespError::NotComplete);

    buf.extend_from_slice(b"$5\r\nhello\r\n");
    let frame = RespArray::decode(&mut buf).unwrap();
    assert_eq!(
        frame,
        RespArray::new(vec![
            RespFrame::BulkString(BulkString::new(b"set".to_vec())),
            RespFrame::BulkString(BulkString::new(b"hello".to_vec())),
        ])
    );
}

#[test]
fn test_float_decode() {
    let mut buf = BytesMut::new();
    buf.extend_from_slice(b",123.45\r\n");

    let frame = RespFrame::decode(&mut buf).unwrap();
    let text = match frame {
        RespFrame::Double(t) => t,
        other => panic!("expected a double frame, got {:?}", other),
    };
    assert_eq!(text.parse::<f64>().unwrap(), 123.45);

    buf.extend_from_slice(b",+1.23456e-9\r\n");
    let frame = RespFrame::decode(&mut buf).unwrap();
    let text = match frame {
        RespFrame::Double(t) => t,
        other => panic!("expected a double frame, got {:?}", other),
    };
    assert_eq!(text.parse::<f64>().unwrap(), 1.23456e-9);
}

#[test]
fn test_map_decode() {
    let mut buf = BytesMut::new();
    buf.extend_from_slice(b"%2\r\n+hello\r\n$5\r\nworld\r\n+foo\r\n$3\r\nbar\r\n");

    let frame = RespMap::decode(&mut buf).unwrap();
    let mut map = RespMap::new();
    map.insert(
        "hello".to_string(),
        RespFrame::BulkString(BulkString::new(b"world".to_vec())),
    );
    map.insert(
        "foo".to_string(),
        RespFrame::BulkString(BulkString::new(b"bar".to_vec())),
    );
    assert_eq!(frame, map);
}

#[test]
fn decode_test_set_decode() {
    let mut buf = BytesMut::new();
    buf.extend_from_slice(b"~2\r\n$3\r\nset\r\n$5\r\nhello\r\n");

    let frame = RespSet::decode(&mut buf).unwrap();
    assert_eq!(
        frame,
        RespSet::new(vec![
            RespFrame::BulkString(BulkString::new(b"set".to_vec())),
            RespFrame::BulkString(BulkString::new(b"hello".to_vec())),
        ])
    );
}

#[test]
fn decode_test_calc_array_length() {
    let buf = b"*2\r\n$3\r\nset\r\n$5\r\nhello\r\n";
    let (end, len) = parse_length(buf, b'*').unwrap();
    let total_len = calc_total_length(buf, len, end, b'*').unwrap();
    assert_eq!(total_len, buf.len());

    let buf = b"*2\r\n$3\r\nset\r\n";
    let (end, len) = parse_length(buf, b'*').unwrap();
    let ret = calc_total_length(buf, len, end, b'*');
    assert_eq!(ret.unwrap_err(), RespError::NotComplete);
}

#[test]
fn mod_test_calc_array_length() {
    let buf = b"*2\r\n$3\r\nset\r\n$5\r\nhello\r\n";
    let (end, len) = parse_length(buf, b'*').unwrap();
    let total_len = calc_total_length(buf, len, end, b'*').unwrap();
    assert_eq!(total_len, buf.len());

    let buf = b"*2\r\n$3\r\nset\r\n";
    let (end, len) = parse_length(buf, b'*').unwrap();
    let ret = calc_total_length(buf, len, end, b'*');
    assert_eq!(ret.unwrap_err(), RespError::NotComplete);
}

#[test]
fn test_null_bulk_string_inside_array_decode() {
    let mut buf = BytesMut::new();
    buf.extend_from_slice(b"*2\r\n$-1\r\n$2\r\nok\r\n");
    let frame = RespFrame::decode(&mut buf).unwrap();
    assert_eq!(
        frame,
        RespFrame::Array(RespArray::new(vec![
            RespFrame::NullBulkString(RespNullBulkString),
            RespFrame::BulkString(BulkString::new(b"ok".to_vec())),
        ]))
    );
    assert!(buf.is_empty());
}

#[test]
fn test_empty_array_roundtrip() {
    let mut buf = BytesMut::new();
    buf.extend_from_slice(b"*0\r\n");
    let frame = RespFrame::decode(&mut buf).unwrap();
    assert_eq!(frame, RespFrame::Array(RespArray::new(Vec::new())));
    assert!(buf.is_empty());
    assert_eq!(
        simple_redis::RespEncode::encode(RespFrame::Array(RespArray::new(Vec::new()))),
        b"*0\r\n"
    );
}

#[test]
fn test_invalid_frames() {
    let mut buf = BytesMut::from("?week\r\n");
    let e = RespFrame::decode(&mut buf).unwrap_err();
    assert!(matches!(e, RespError::InvalidFrameType(_)));

    let mut buf = BytesMut::from(":12a\r\n");
    let e = RespFrame::decode(&mut buf).unwrap_err();
    assert!(matches!(e, RespError::ParseIntError));

    let mut buf = BytesMut::from(",12..5\r\n");
    let e = RespFrame::decode(&mut buf).unwrap_err();
    assert!(matches!(e, RespError::ParseFloatError));

    let mut buf = BytesMut::from("#x\r\n");
    let e = RespFrame::decode(&mut buf).unwrap_err();
    assert!(matches!(e, RespError::InvalidFrameType(_)));

    let mut buf = BytesMut::from("$abc\r\n");
    let e = RespFrame::decode(&mut buf).unwrap_err();
    assert!(matches!(e, RespError::ParseIntError));
}

#[test]
fn test_lossy_simple_string_decode() {
    // a non-ASCII payload survives, and invalid bytes become replacements
    let mut buf = BytesMut::new();
    buf.extend_from_slice("+h\u{e9}llo\r\n".as_bytes());
    let s = SimpleString::decode(&mut buf).unwrap();
    assert_eq!(s.0, "h\u{e9}llo");

    let mut buf = BytesMut::new();
    buf.extend_from_slice(b"+a\xffb\r\n");
    let s = SimpleString::decode(&mut buf).unwrap();
    assert_eq!(s.0, "a\u{fffd}b");
}

#[test]
fn test_expect_length_matches_encoding() {
    let frame = RespFrame::Array(RespArray::new(vec![
        RespFrame::BulkString(BulkString::new(b"set".to_vec())),
        RespFrame::Integer(-42),
        RespFrame::SetFrame(RespSet::new(vec![RespFrame::Boolean(false)])),
    ]));
    let bytes = simple_redis::RespEncode::encode(frame);
    let expect = RespFrame::expect_length(&bytes).unwrap();
    assert_eq!(expect, bytes.len());
}

#[test]
fn test_every_prefix_is_incomplete() {
    let frame = RespFrame::Array(RespArray::new(vec![
        RespFrame::BulkString(BulkString::new(b"get\r\n".to_vec())),
        RespFrame::MapFrame({
            let mut m = RespMap::new();
            m.insert("k".to_string(), RespFrame::Integer(7));
            m
        }),
        RespFrame::NullArray(simple_redis::RespNullArray),
    ]));
    let bytes = simple_redis::RespEncode::encode(frame);
    let mut k = 0;
    while k < bytes.len() {
        let mut buf = BytesMut::new();
        buf.extend_from_slice(&bytes[..k]);
        let r = RespFrame::decode(&mut buf);
        assert_eq!(r.unwrap_err(), RespError::NotComplete);
        assert_eq!(&buf[..], &bytes[..k]);
        k += 1;
    }
}

#[test]
fn test_integer_extremes_roundtrip() {
    for n in [i64::MIN, -1, 0, 1, i64::MAX] {
        let bytes = simple_redis::RespEncode::encode(RespFrame::Integer(n));
        assert!(bytes[1] == b'+' || bytes[1] == b'-');
        let mut buf = BytesMut::new();
        buf.extend_from_slice(&bytes);
        assert_eq!(RespFrame::decode(&mut buf).unwrap(), RespFrame::Integer(n));
        assert!(buf.is_empty());
    }
}

#[test]
fn test_null_bulk_and_empty_bulk_are_distinct() {
    let null_bytes = simple_redis::RespEncode::encode(RespFrame::NullBulkString(
        RespNullBulkString,
    ));
    let empty_bytes = simple_redis::RespEncode::encode(RespFrame::BulkString(BulkString::new(
        Vec::new(),
    )));
    assert_eq!(null_bytes, b"$-1\r\n");
    assert_eq!(empty_bytes, b"$0\r\n\r\n");
    assert_ne!(null_bytes, empty_bytes);

    let mut buf = BytesMut::new();
    buf.extend_from_slice(&null_bytes);
    assert_eq!(
        RespFrame::decode(&mut buf).unwrap(),
        RespFrame::NullBulkString(RespNullBulkString)
    );
    let mut buf = BytesMut::new();
    buf.extend_from_slice(&empty_bytes);
    assert_eq!(
        RespFrame::decode(&mut buf).unwrap(),
        RespFrame::BulkString(BulkString::new(Vec::new()))
    );
}

#[test]
fn test_leftover_bytes_stay_in_buffer() {
    let first = simple_redis::RespEncode::encode(RespFrame::SimpleString(SimpleString::new(
        "one".to_string(),
    )));
    let mut buf = BytesMut::new();
    buf.extend_from_slice(&first);
    buf.extend_from_slice(b":+2\r\n#t\r\n");
    assert_eq!(
        RespFrame::decode(&mut buf).unwrap(),
        RespFrame::SimpleString(SimpleString::new("one".to_string()))
    );
    assert_eq!(&buf[..], b":+2\r\n#t\r\n");
    assert_eq!(RespFrame::decode(&mut buf).unwrap(), RespFrame::Integer(2));
    assert_eq!(RespFrame::decode(&mut buf).unwrap(), RespFrame::Boolean(true));
    assert!(buf.is_empty());
}
