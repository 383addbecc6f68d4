use redust::resp::{decode, parse_value, serialize_value, ParseError, Value};

fn bulk(s: &str) -> Value {
    Value::BulkString(s.as_bytes().to_vec())
}

#[test]
fn test_value_creation() {
    let simple = Value::SimpleString("OK".to_string());
    assert_eq!(simple, Value::SimpleString("OK".to_string()));

    let bulk_value = Value::BulkString(b"hello".to_vec());
    assert_eq!(bulk_value, Value::BulkString(b"hello".to_vec()));
}

#[test]
fn test_parse_simple_string() {
    let mut buf = b"+OK\r\n".to_vec();
    let value = parse_value(&mut buf).unwrap();
    assert_eq!(value, Value::SimpleString("OK".to_string()));
}

#[test]
fn test_parse_error() {
    let mut buf = b"-ERR something\r\n".to_vec();
    let value = parse_value(&mut buf).unwrap();
    assert_eq!(value, Value::Error("ERR something".to_string()));
}

#[test]
fn test_parse_integer() {
    let mut buf = b":123\r\n".to_vec();
    let value = parse_value(&mut buf).unwrap();
    assert_eq!(value, Value::Integer(123));
}

#[test]
fn test_parse_bulk_string() {
    let mut buf = b"$5\r\nhello\r\n".to_vec();
    let value = parse_value(&mut buf).unwrap();
    assert_eq!(value, Value::BulkString(b"hello".to_vec()));
}

#[test]
fn test_parse_null_bulk_string() {
    let mut buf = b"$-1\r\n".to_vec();
    let value = parse_value(&mut buf).unwrap();
    assert_eq!(value, Value::Null);
}

#[test]
fn test_parse_array() {
    let mut buf = b"*2\r\n$3\r\nfoo\r\n$3\r\nbar\r\n".to_vec();
    let value = parse_value(&mut buf).unwrap();
    assert_eq!(value, Value::Array(vec![bulk("foo"), bulk("bar")]));
}

#[test]
fn test_parse_null_array() {
    let mut buf = b"*-1\r\n".to_vec();
    let value = parse_value(&mut buf).unwrap();
    assert_eq!(value, Value::Null);
}

#[test]
fn parse_value_consumes_exactly_one_frame() {
    let mut buf = b":1\r\n:2\r\n".to_vec();
    assert_eq!(parse_value(&mut buf).unwrap(), Value::Integer(1));
    assert_eq!(buf, b":2\r\n".to_vec());
    assert_eq!(parse_value(&mut buf).unwrap(), Value::Integer(2));
    assert!(buf.is_empty());
}

#[test]
fn incomplete_leaves_buffer_untouched() {
    let mut buf = b"$5\r\nhel".to_vec();
    assert_eq!(parse_value(&mut buf), Err(ParseError::Incomplete));
    assert_eq!(buf, b"$5\r\nhel".to_vec());
    let mut empty: Vec<u8> = Vec::new();
    assert_eq!(parse_value(&mut empty), Err(ParseError::Incomplete));
    let mut cr_last = b"+OK\r".to_vec();
    assert_eq!(parse_value(&mut cr_last), Err(ParseError::Incomplete));
}

#[test]
fn invalid_frames_are_reported() {
    for bad in [
        &b"?x\r\n"[..],
        &b"+OK\rX"[..],
        &b"$abc\r\n"[..],
        &b":12a\r\n"[..],
        &b":99999999999999999999\r\n"[..],
        &b"$3\r\nabcXY"[..],
        &b"+\xff\xfe\r\n"[..],
        &b"*1\r\n!\r\n"[..],
    ] {
        let mut buf = bad.to_vec();
        assert_eq!(parse_value(&mut buf), Err(ParseError::InvalidFormat), "{:?}", bad);
        assert_eq!(buf, bad.to_vec());
    }
}

#[test]
fn utf8_text_is_decoded() {
    let mut buf = "+h\u{e9}llo \u{1F600}\r\n".as_bytes().to_vec();
    assert_eq!(
        parse_value(&mut buf).unwrap(),
        Value::SimpleString("h\u{e9}llo \u{1F600}".to_string())
    );
}

#[test]
fn integers_with_sign_and_extremes() {
    let mut buf = b":-9223372036854775808\r\n".to_vec();
    assert_eq!(parse_value(&mut buf).unwrap(), Value::Integer(i64::MIN));
    let mut buf = b":+7\r\n".to_vec();
    assert_eq!(parse_value(&mut buf).unwrap(), Value::Integer(7));
    let mut buf = b":9223372036854775808\r\n".to_vec();
    assert_eq!(parse_value(&mut buf), Err(ParseError::InvalidFormat));
}

#[test]
fn encoder_writes_canonical_forms() {
    assert_eq!(serialize_value(&Value::SimpleString("PONG".to_string())), b"+PONG\r\n".to_vec());
    assert_eq!(serialize_value(&Value::Error("ERR x".to_string())), b"-ERR x\r\n".to_vec());
    assert_eq!(serialize_value(&Value::Integer(-42)), b":-42\r\n".to_vec());
    assert_eq!(serialize_value(&Value::Integer(i64::MIN)), b":-9223372036854775808\r\n".to_vec());
    assert_eq!(serialize_value(&Value::Integer(0)), b":0\r\n".to_vec());
    assert_eq!(serialize_value(&bulk("v")), b"$1\r\nv\r\n".to_vec());
    assert_eq!(serialize_value(&Value::BulkString(Vec::new())), b"$0\r\n\r\n".to_vec());
    assert_eq!(serialize_value(&Value::Null), b"$-1\r\n".to_vec());
    assert_eq!(
        serialize_value(&Value::Array(vec![bulk("a"), Value::Integer(10), Value::Array(Vec::new())])),
        b"*3\r\n$1\r\na\r\n:10\r\n*0\r\n".to_vec()
    );
}

fn sample_values() -> Vec<Value> {
    vec![
        Value::SimpleString("hello world".to_string()),
        Value::Error("ERR bad".to_string()),
        Value::Integer(1234567890123),
        Value::Integer(-1),
        Value::BulkString(vec![0u8, 13, 10, 255]),
        Value::Null,
        Value::Array(vec![
            bulk("SET"),
            Value::Array(vec![Value::Null, Value::Integer(5)]),
            Value::SimpleString("\u{e9}t\u{e9}".to_string()),
        ]),
    ]
}

#[test]
fn round_trip_every_variant() {
    for v in sample_values() {
        let mut bytes = serialize_value(&v);
        let n = bytes.len();
        bytes.extend_from_slice(b"+next\r\n");
        let (decoded, used) = decode(&bytes).unwrap();
        assert_eq!(decoded, v);
        assert_eq!(used, n);
    }
}

#[test]
fn resumes_after_any_split() {
    for v in sample_values() {
        let bytes = serialize_value(&v);
        for k in 0..bytes.len() {
            let mut buf = bytes[..k].to_vec();
            assert_eq!(parse_value(&mut buf), Err(ParseError::Incomplete));
            buf.extend_from_slice(&bytes[k..]);
            assert_eq!(parse_value(&mut buf).unwrap(), v);
            assert!(buf.is_empty());
        }
    }
}
