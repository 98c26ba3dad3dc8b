use bytes::BytesMut;
use simple_redis::{
    find_crlf, BulkError, BulkString, NullBulkString, RespArray, RespDouble, RespEncoder,
    RespError, RespFrame, RespMap, RespNull, RespNullArray, RespSet, SimpleError, SimpleString,
};

fn bulk(s: &[u8]) -> RespFrame {
    RespFrame::BulkString(BulkString::new(s.to_vec()))
}

fn simple(s: &str) -> RespFrame {
    RespFrame::SimpleString(SimpleString::new(s.to_string()))
}

fn double(s: &str) -> RespFrame {
    RespFrame::Double(RespDouble::new(s.to_string()))
}

fn decode_str(s: &str) -> Result<RespFrame, RespError> {
    let mut buf = BytesMut::from(s);
    RespFrame::decode(&mut buf)
}

// ---- encoding

#[test]
fn array_test_array_encode() {
    let frame = RespArray::new(vec![bulk(b"get"), simple("hello")]);
    assert_eq!(frame.encode(), b"*2\r\n$3\r\nget\r\n+hello\r\n");
}

#[test]
fn array_test_null_array_encode() {
    let frame = RespNullArray;
    assert_eq!(frame.encode(), b"*-1\r\n");
}

#[test]
fn bool_test_boolean_encode() {
    let frame = true;
    assert_eq!(frame.encode(), b"#t\r\n");

    let frame = false;
    assert_eq!(frame.encode(), b"#f\r\n");
}

#[test]
fn bulk_error_test_bulk_error_encode() {
    let frame = BulkError::new(b"Error message".to_vec());
    assert_eq!(frame.encode(), b"!13\r\nError message\r\n");
}

#[test]
fn bulk_string_test_bulk_string_encode() {
    let frame = BulkString::new(b"Hello".to_vec());
    assert_eq!(frame.encode(), b"$5\r\nHello\r\n");
}

#[test]
fn bulk_string_test_null_bulk_string_encode() {
    let frame = NullBulkString;
    assert_eq!(frame.encode(), b"$-1\r\n");
}

#[test]
fn double_test_double_encode() {
    let frame = RespDouble::new("+123.456".to_string());
    assert_eq!(frame.encode(), b",+123.456\r\n");

    let frame = RespDouble::new("-123.456".to_string());
    assert_eq!(frame.encode(), b",-123.456\r\n");

    let frame = RespDouble::new("+1.23456e8".to_string());
    assert_eq!(frame.encode(), b",+1.23456e8\r\n");

    let frame = RespDouble::new("-1.23456e8".to_string());
    assert_eq!(frame.encode(), b",-1.23456e8\r\n");
}

#[test]
fn encode_test_simple_string_encode() {
    let frame = SimpleString::new("OK".to_string());
    assert_eq!(frame.encode(), b"+OK\r\n");
}

#[test]
fn encode_test_simple_error_encode() {
    let frame = SimpleError::new("Error message".to_string());
    assert_eq!(frame.encode(), b"-Error message\r\n");
}

#[test]
fn encode_test_bulk_error_encode() {
    let frame = BulkError::new(b"Error message".to_vec());
    assert_eq!(frame.encode(), b"!13\r\nError message\r\n");
}

#[test]
fn encode_test_integer_encode() {
    let frame: i64 = 123;
    assert_eq!(frame.encode(), b":+123\r\n");

    let frame: i64 = -123;
    assert_eq!(frame.encode(), b":-123\r\n");
}

#[test]
fn encode_test_bulk_string_encode() {
    let frame = BulkString::new(b"Hello".to_vec());
    assert_eq!(frame.encode(), b"$5\r\nHello\r\n");
}

#[test]
fn encode_test_null_bulk_string_encode() {
    let frame = NullBulkString;
    assert_eq!(frame.encode(), b"$-1\r\n");
}

#[test]
fn encode_test_null_encode() {
    let frame = RespNull;
    assert_eq!(frame.encode(), b"_\r\n");
}

#[test]
fn encode_test_boolean_encode() {
    let frame = true;
    assert_eq!(frame.encode(), b"#t\r\n");

    let frame = false;
    assert_eq!(frame.encode(), b"#f\r\n");
}

#[test]
fn encode_test_double_encode() {
    let frame = RespDouble::new("+123.456".to_string());
    assert_eq!(frame.encode(), b",+123.456\r\n");

    let frame = RespDouble::new("-123.456".to_string());
    assert_eq!(frame.encode(), b",-123.456\r\n");

    let frame = RespDouble::new("+1.23456e8".to_string());
    assert_eq!(frame.encode(), b",+1.23456e8\r\n");

    let frame = RespDouble::new("-1.23456e8".to_string());
    assert_eq!(frame.encode(), b",-1.23456e8\r\n");
}

#[test]
fn encode_test_array_encode() {
    let frame = RespArray::new(vec![bulk(b"get"), simple("hello")]);
    assert_eq!(frame.encode(), b"*2\r\n$3\r\nget\r\n+hello\r\n");
}

#[test]
fn encode_test_null_array_encode() {
    let frame = RespNullArray;
    assert_eq!(frame.encode(), b"*-1\r\n");
}

#[test]
fn encode_test_map_encode() {
    let mut frame = RespMap::new();
    frame.insert("hello".to_string(), bulk(b"world"));
    frame.insert("foo".to_string(), double("-123456.789"));
    assert_eq!(
        frame.encode(),
        b"%2\r\n+foo\r\n,-123456.789\r\n+hello\r\n$5\r\nworld\r\n"
    );
}

#[test]
fn encode_test_set_encode() {
    let mut set = RespSet::new();
    set.insert(RespFrame::Array(RespArray::new(vec![
        RespFrame::Integer(1234),
        RespFrame::Boolean(true),
    ])));
    set.insert(bulk(b"world"));
    set.insert(bulk(b"world"));
    assert_eq!(
        &set.encode(),
        b"~2\r\n$5\r\nworld\r\n*2\r\n:+1234\r\n#t\r\n"
    );
}

#[test]
fn integer_test_integer_encode() {
    let frame: i64 = 123;
    assert_eq!(frame.encode(), b":+123\r\n");

    let frame: i64 = -123;
    assert_eq!(frame.encode(), b":-123\r\n");
}

#[test]
fn map_test_map_encode() {
    let mut frame = RespMap::new();
    frame.insert("hello".to_string(), bulk(b"world"));
    frame.insert("foo".to_string(), double("-123456.789"));
    assert_eq!(
        frame.encode(),
        b"%2\r\n+foo\r\n,-123456.789\r\n+hello\r\n$5\r\nworld\r\n"
    );
}

#[test]
fn null_test_null_encode() {
    let frame = RespNull;
    assert_eq!(frame.encode(), b"_\r\n");
}

#[test]
fn set_test_set_encode() {
    let mut set = RespSet::new();
    set.insert(RespFrame::Array(RespArray::new(vec![
        RespFrame::Integer(1234),
        RespFrame::Boolean(true),
    ])));
    set.insert(bulk(b"world"));
    set.insert(bulk(b"world"));
    assert_eq!(
        &set.encode(),
        b"~2\r\n$5\r\nworld\r\n*2\r\n:+1234\r\n#t\r\n"
    );
}

#[test]
fn simple_error_test_simple_error_encode() {
    let frame = SimpleError::new("Error message".to_string());
    assert_eq!(frame.encode(), b"-Error message\r\n");
}

#[test]
fn simple_string_test_simple_string_encode() {
    let frame = SimpleString::new("OK".to_string());
    assert_eq!(frame.encode(), b"+OK\r\n");
}

// ---- decoding

#[test]
fn decode_test_simple_error_decode() {
    let frame = decode_str("-Error message\r\n");
    assert_eq!(
        frame,
        Ok(RespFrame::Error(SimpleError::new("Error message".to_string())))
    );
}

#[test]
fn simple_error_test_simple_error_decode() {
    let frame = decode_str("-Error message\r\n");
    assert_eq!(
        frame,
        Ok(RespFrame::Error(SimpleError::new("Error message".to_string())))
    );
}

#[test]
fn decode_test_bulk_error_decode() {
    let frame = decode_str("!13\r\nError message\r\n");
    assert_eq!(
        frame,
        Ok(RespFrame::BulkError(BulkError::new(b"Error message".to_vec())))
    );

    let frame = decode_str("!12\r\nError message\r\n");
    assert_eq!(frame, Err(RespError::InvalidFrameLength));
}

#[test]
fn bulk_error_test_bulk_error_decode() {
    let frame = decode_str("!13\r\nError message\r\n");
    assert_eq!(
        frame,
        Ok(RespFrame::BulkError(BulkError::new(b"Error message".to_vec())))
    );

    let frame = decode_str("!12\r\nError message\r\n");
    assert_eq!(frame, Err(RespError::InvalidFrameLength));
}

#[test]
fn decode_test_bulk_string_decode() {
    let frame = decode_str("$13\r\nHello, world!\r\n");
    assert_eq!(frame, Ok(bulk(b"Hello, world!")));

    let frame = decode_str("$13\r\nHello, world\r\n");
    assert_eq!(frame, Err(RespError::InvalidFrameLength));
}

#[test]
fn bulk_string_test_bulk_string_decode() {
    let frame = decode_str("$13\r\nHello, world!\r\n");
    assert_eq!(frame, Ok(bulk(b"Hello, world!")));

    let frame = decode_str("$13\r\nHello, world\r\n");
    assert_eq!(frame, Err(RespError::InvalidFrameLength));
}

#[test]
fn null_bulk_string_decodes() {
    let frame = decode_str("$-1\r\n");
    assert_eq!(frame, Ok(RespFrame::NullBulkString(NullBulkString)));
}

#[test]
fn null_array_decodes() {
    let frame = decode_str("*-1\r\n");
    assert_eq!(frame, Ok(RespFrame::NullArray(RespNullArray)));
}

#[test]
fn null_decodes() {
    let frame = decode_str("_\r\n");
    assert_eq!(frame, Ok(RespFrame::Null(RespNull)));
}

#[test]
fn decode_test_array_decode() {
    let frame = decode_str("*2\r\n$3\r\nget\r\n$5\r\nhello\r\n");
    assert_eq!(
        frame,
        Ok(RespFrame::Array(RespArray::new(vec![
            bulk(b"get"),
            bulk(b"hello")
        ])))
    );

    let mut buf = BytesMut::new();
    buf.extend_from_slice(b"*2\r\n$3\r\nset\r\n");
    let ret = RespFrame::decode(&mut buf);
    assert_eq!(ret.unwrap_err(), RespError::Incomplete);

    buf.extend_from_slice(b"$5\r\nhello\r\n");
    let frame = RespFrame::decode(&mut buf);
    assert_eq!(
        frame,
        Ok(RespFrame::Array(RespArray::new(vec![
            bulk(b"set"),
            bulk(b"hello")
        ])))
    );
}

#[test]
fn decode_test_map_decode() {
    let frame = decode_str("%2\r\n+get\r\n$5\r\nhello\r\n+set\r\n$5\r\nworld\r\n");
    let mut map = RespMap::new();
    map.insert("get".to_string(), bulk(b"hello"));
    map.insert("set".to_string(), bulk(b"world"));
    assert_eq!(frame, Ok(RespFrame::RespMap(map)));
}

#[test]
fn map_test_map_decode() {
    let frame = decode_str("%2\r\n+get\r\n$5\r\nhello\r\n+set\r\n$5\r\nworld\r\n");
    let mut map = RespMap::new();
    map.insert("get".to_string(), bulk(b"hello"));
    map.insert("set".to_string(), bulk(b"world"));
    assert_eq!(frame, Ok(RespFrame::RespMap(map)));
}

#[test]
fn decode_test_set_decode() {
    let frame = decode_str("~2\r\n$3\r\nget\r\n$5\r\nhello\r\n");
    let mut set = RespSet::new();
    set.insert(bulk(b"get"));
    set.insert(bulk(b"hello"));
    assert_eq!(frame, Ok(RespFrame::RespSet(set)));
}

#[test]
fn set_test_set_decode() {
    let frame = decode_str("~2\r\n$3\r\nget\r\n$5\r\nhello\r\n");
    let mut set = RespSet::new();
    set.insert(bulk(b"get"));
    set.insert(bulk(b"hello"));
    assert_eq!(frame, Ok(RespFrame::RespSet(set)));
}

// ---- further cases

#[test]
fn array_of_get_hello_encodes_literally() {
    let frame = RespFrame::Array(RespArray::new(vec![bulk(b"get"), bulk(b"hello")]));
    assert_eq!(frame.encode(), b"*2\r\n$3\r\nget\r\n$5\r\nhello\r\n");
}

#[test]
fn null_sentinels_decode() {
    assert_eq!(decode_str("*-1\r\n"), Ok(RespFrame::NullArray(RespNullArray)));
    assert_eq!(decode_str("$-1\r\n"), Ok(RespFrame::NullBulkString(NullBulkString)));
    assert_eq!(decode_str("_\r\n"), Ok(RespFrame::Null(RespNull)));
}

#[test]
fn fragmented_array_waits_then_decodes() {
    let mut buf = BytesMut::new();
    buf.extend_from_slice(b"*2\r\n$3\r\nset\r\n");
    assert_eq!(RespFrame::decode(&mut buf), Err(RespError::Incomplete));
    assert_eq!(buf.len(), 13);
    buf.extend_from_slice(b"$5\r\nhello\r\n");
    assert_eq!(
        RespFrame::decode(&mut buf),
        Ok(RespFrame::Array(RespArray::new(vec![bulk(b"set"), bulk(b"hello")])))
    );
    assert!(buf.is_empty());
}

#[test]
fn short_bulk_payload_is_a_length_error() {
    assert_eq!(
        decode_str("$13\r\nHello, world\r\n"),
        Err(RespError::InvalidFrameLength)
    );
}

#[test]
fn map_keys_come_out_sorted() {
    let mut map = RespMap::new();
    map.insert("b".to_string(), RespFrame::Integer(1));
    map.insert("a".to_string(), RespFrame::Integer(2));
    assert_eq!(map.encode(), b"%2\r\n+a\r\n:+2\r\n+b\r\n:+1\r\n");
}

#[test]
fn map_insert_replaces_equal_key() {
    let mut map = RespMap::new();
    map.insert("a".to_string(), RespFrame::Integer(1));
    map.insert("a".to_string(), RespFrame::Integer(2));
    assert_eq!(map.len(), 1);
    assert_eq!(map.encode(), b"%1\r\n+a\r\n:+2\r\n");
}

#[test]
fn sets_equal_by_value_encode_equally() {
    let mut a = RespSet::new();
    a.insert(bulk(b"x"));
    a.insert(RespFrame::Integer(7));
    a.insert(simple("s"));
    let mut b = RespSet::new();
    b.insert(simple("s"));
    b.insert(bulk(b"x"));
    b.insert(RespFrame::Integer(7));
    b.insert(bulk(b"x"));
    assert_eq!(a.encode(), b.encode());
    assert_eq!(a.encode(), b"~3\r\n+s\r\n:+7\r\n$1\r\nx\r\n");
}

fn sample_frames() -> Vec<RespFrame> {
    let mut map = RespMap::new();
    map.insert("k".to_string(), RespFrame::Boolean(false));
    map.insert("a".to_string(), double("1.5e-3"));
    let mut set = RespSet::new();
    set.insert(RespFrame::Integer(-5));
    set.insert(bulk(b""));
    vec![
        simple("OK"),
        RespFrame::Error(SimpleError::new("ERR bad".to_string())),
        RespFrame::Integer(i64::MIN),
        RespFrame::Integer(i64::MAX),
        RespFrame::Integer(0),
        bulk(b""),
        bulk(b"with \r inside"),
        RespFrame::NullBulkString(NullBulkString),
        RespFrame::BulkError(BulkError::new(b"oops".to_vec())),
        RespFrame::Null(RespNull),
        RespFrame::Boolean(true),
        double("-0.25"),
        RespFrame::Array(RespArray::new(vec![])),
        RespFrame::Array(RespArray::new(vec![
            bulk(b"a"),
            RespFrame::Array(RespArray::new(vec![RespFrame::Integer(1)])),
        ])),
        RespFrame::NullArray(RespNullArray),
        RespFrame::RespMap(map),
        RespFrame::RespSet(set),
    ]
}

#[test]
fn every_sample_round_trips() {
    for f in sample_frames() {
        let bytes = f.encode();
        assert_eq!(RespFrame::expect_length(&bytes), Ok(bytes.len()));
        let mut buf = BytesMut::from(&bytes[..]);
        assert_eq!(RespFrame::decode(&mut buf), Ok(f));
        assert!(buf.is_empty());
    }
}

#[test]
fn every_strict_prefix_is_incomplete() {
    for f in sample_frames() {
        let bytes = f.encode();
        for cut in 0..bytes.len() {
            let mut buf = BytesMut::from(&bytes[..cut]);
            assert_eq!(RespFrame::decode(&mut buf), Err(RespError::Incomplete));
            assert_eq!(buf.len(), cut);
        }
    }
}

#[test]
fn concatenated_frames_decode_in_order() {
    let frames = sample_frames();
    let mut all = Vec::new();
    for f in &frames {
        all.extend_from_slice(&f.encode());
    }
    let mut buf = BytesMut::from(&all[..]);
    for f in frames {
        assert_eq!(RespFrame::decode(&mut buf), Ok(f));
    }
    assert!(buf.is_empty());
}

#[test]
fn unknown_sentinel_is_a_type_error() {
    assert!(matches!(
        decode_str("?x\r\n"),
        Err(RespError::InvalidFrameType(_))
    ));
    assert_eq!(decode_str(""), Err(RespError::Incomplete));
}

#[test]
fn malformed_scalars_are_invalid() {
    assert!(matches!(decode_str(":xxx\r\n"), Err(RespError::Invalid(_))));
    assert!(matches!(decode_str("#x\r\n"), Err(RespError::Invalid(_))));
    assert!(matches!(decode_str("_x\r\n"), Err(RespError::Invalid(_))));
    assert!(matches!(decode_str(",+123.45x\r\n"), Err(RespError::Invalid(_))));
    assert!(matches!(decode_str("*x\r\n"), Err(RespError::Invalid(_))));
    assert!(matches!(
        decode_str(":9223372036854775808\r\n"),
        Err(RespError::Invalid(_))
    ));
    assert_eq!(
        decode_str(":-9223372036854775808\r\n"),
        Ok(RespFrame::Integer(i64::MIN))
    );
    assert!(matches!(decode_str("$x\r\nab\r\n"), Err(RespError::Invalid(_))));
    assert_eq!(decode_str("$-2\r\n"), Err(RespError::Incomplete));
    assert!(matches!(decode_str("$-2\r\n\r\n"), Err(RespError::Invalid(_))));
    assert!(matches!(decode_str("*-2\r\n"), Err(RespError::Invalid(_))));
}

#[test]
fn scalar_decodes() {
    assert_eq!(decode_str(":123\r\n"), Ok(RespFrame::Integer(123)));
    assert_eq!(decode_str("#t\r\n"), Ok(RespFrame::Boolean(true)));
    assert_eq!(decode_str("#f\r\n"), Ok(RespFrame::Boolean(false)));
    assert_eq!(decode_str(",+123.45\r\n"), Ok(double("+123.45")));
    assert_eq!(decode_str(",+1.23456e8\r\n"), Ok(double("+1.23456e8")));
    assert_eq!(decode_str("+OK\r\n"), Ok(simple("OK")));
    assert_eq!(decode_str("+OK\r"), Err(RespError::Incomplete));
}

#[test]
fn map_key_must_be_simple_string() {
    assert!(matches!(
        decode_str("%1\r\n$1\r\na\r\n:+1\r\n"),
        Err(RespError::InvalidFrameType(_))
    ));
}

#[test]
fn find_crlf_counts_occurrences() {
    let buf = b"ab\r\ncd\r\n";
    assert_eq!(find_crlf(buf, 1, 0), Some(2));
    assert_eq!(find_crlf(buf, 2, 0), Some(6));
    assert_eq!(find_crlf(buf, 3, 0), None);
    assert_eq!(find_crlf(buf, 1, 3), Some(6));
    assert_eq!(find_crlf(b"", 1, 0), None);
    assert_eq!(find_crlf(b"\r", 1, 0), None);
}

#[test]
fn expect_length_reads_without_consuming() {
    assert_eq!(
        RespFrame::expect_length(b"*2\r\n$3\r\nget\r\n$5\r\nhello\r\nrest"),
        Ok(24)
    );
    assert_eq!(
        RespFrame::expect_length(b"*2\r\n$3\r\nget\r\n"),
        Err(RespError::Incomplete)
    );
}
