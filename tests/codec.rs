use rustcache::resp::{read_resp, DecodeError, RespValue};

fn encoded(v: &RespValue) -> Vec<u8> {
    let mut out = Vec::new();
    v.encode(&mut out);
    out
}

#[test]
fn encodes_simple_string() {
    assert_eq!(encoded(&RespValue::SimpleString("OK".to_string())), b"+OK\r\n".to_vec());
}

#[test]
fn encodes_error() {
    assert_eq!(encoded(&RespValue::Error("ERR bad".to_string())), b"-ERR bad\r\n".to_vec());
}

#[test]
fn encodes_integers() {
    assert_eq!(encoded(&RespValue::Integer(0)), b":0\r\n".to_vec());
    assert_eq!(encoded(&RespValue::Integer(-42)), b":-42\r\n".to_vec());
    assert_eq!(encoded(&RespValue::Integer(i64::MIN)), b":-9223372036854775808\r\n".to_vec());
    assert_eq!(encoded(&RespValue::Integer(i64::MAX)), b":9223372036854775807\r\n".to_vec());
}

#[test]
fn encodes_bulk_strings() {
    assert_eq!(encoded(&RespValue::BulkString(Some(b"bar".to_vec()))), b"$3\r\nbar\r\n".to_vec());
    assert_eq!(encoded(&RespValue::BulkString(Some(Vec::new()))), b"$0\r\n\r\n".to_vec());
    assert_eq!(encoded(&RespValue::BulkString(None)), b"$-1\r\n".to_vec());
}

#[test]
fn encodes_arrays() {
    let v = RespValue::Array(Some(vec![
        RespValue::BulkString(Some(b"GET".to_vec())),
        RespValue::Array(Some(vec![RespValue::Integer(7)])),
    ]));
    assert_eq!(encoded(&v), b"*2\r\n$3\r\nGET\r\n*1\r\n:7\r\n".to_vec());
    assert_eq!(encoded(&RespValue::Array(None)), b"*-1\r\n".to_vec());
}

#[test]
fn encodes_multibyte_text_by_bytes() {
    assert_eq!(encoded(&RespValue::SimpleString("é".to_string())), vec![b'+', 0xC3, 0xA9, b'\r', b'\n']);
}

#[test]
fn decodes_each_kind() {
    match read_resp(b"+PONG\r\n") {
        Ok((RespValue::SimpleString(s), 7)) => assert_eq!(s, "PONG"),
        other => panic!("{:?}", other),
    }
    match read_resp(b"-ERR x\r\n") {
        Ok((RespValue::Error(s), 8)) => assert_eq!(s, "ERR x"),
        other => panic!("{:?}", other),
    }
    match read_resp(b":-17\r\n") {
        Ok((RespValue::Integer(-17), 6)) => {}
        other => panic!("{:?}", other),
    }
    match read_resp(b":+5\r\n") {
        Ok((RespValue::Integer(5), 5)) => {}
        other => panic!("{:?}", other),
    }
    match read_resp(b"$3\r\nfoo\r\n") {
        Ok((RespValue::BulkString(Some(b)), 9)) => assert_eq!(b, b"foo".to_vec()),
        other => panic!("{:?}", other),
    }
    match read_resp(b"$-1\r\n") {
        Ok((RespValue::BulkString(None), 5)) => {}
        other => panic!("{:?}", other),
    }
    match read_resp(b"*-1\r\n") {
        Ok((RespValue::Array(None), 5)) => {}
        other => panic!("{:?}", other),
    }
}

#[test]
fn decodes_nested_array_and_stops_at_its_end() {
    let bytes = b"*2\r\n$1\r\na\r\n*1\r\n:3\r\n+extra\r\n";
    match read_resp(bytes) {
        Ok((RespValue::Array(Some(items)), n)) => {
            assert_eq!(n, bytes.len() - 8);
            assert_eq!(items.len(), 2);
            assert!(matches!(&items[0], RespValue::BulkString(Some(b)) if b == b"a"));
            match &items[1] {
                RespValue::Array(Some(inner)) => assert!(matches!(inner[0], RespValue::Integer(3))),
                other => panic!("{:?}", other),
            }
        }
        other => panic!("{:?}", other),
    }
}

#[test]
fn bulk_payload_may_hold_line_breaks() {
    match read_resp(b"$4\r\na\r\nb\r\n") {
        Ok((RespValue::BulkString(Some(b)), 10)) => assert_eq!(b, b"a\r\nb".to_vec()),
        other => panic!("{:?}", other),
    }
}

#[test]
fn invalid_utf8_text_is_read_lossily() {
    match read_resp(b"+a\xffb\r\n") {
        Ok((RespValue::SimpleString(s), 6)) => assert_eq!(s, "a\u{FFFD}b"),
        other => panic!("{:?}", other),
    }
}

#[test]
fn decode_errors() {
    assert_eq!(read_resp(b"").err(), Some(DecodeError::Incomplete));
    assert_eq!(read_resp(b"+OK").err(), Some(DecodeError::Incomplete));
    assert_eq!(read_resp(b"$5\r\nab").err(), Some(DecodeError::Incomplete));
    assert_eq!(read_resp(b"*2\r\n:1\r\n").err(), Some(DecodeError::Incomplete));
    assert_eq!(read_resp(b"+OK\n").err(), Some(DecodeError::MissingCrlf));
    assert_eq!(read_resp(b"\n").err(), Some(DecodeError::UnknownPrefix(b'\n')));
    assert_eq!(read_resp(b"$3\r\nfooXY").err(), Some(DecodeError::MissingCrlf));
    assert_eq!(read_resp(b":12a\r\n").err(), Some(DecodeError::InvalidInteger));
    assert_eq!(read_resp(b":\r\n").err(), Some(DecodeError::InvalidInteger));
    assert_eq!(read_resp(b":-\r\n").err(), Some(DecodeError::InvalidInteger));
    assert_eq!(read_resp(b":9223372036854775808\r\n").err(), Some(DecodeError::InvalidInteger));
    assert_eq!(read_resp(b"$x\r\n").err(), Some(DecodeError::InvalidLength));
    assert_eq!(read_resp(b"*1.5\r\n").err(), Some(DecodeError::InvalidLength));
    assert_eq!(read_resp(b"?\r\n").err(), Some(DecodeError::UnknownPrefix(b'?')));
}

#[test]
fn round_trip_of_a_nested_value() {
    let v = RespValue::Array(Some(vec![
        RespValue::SimpleString("héllo".to_string()),
        RespValue::Error("ERR no".to_string()),
        RespValue::Integer(-9),
        RespValue::BulkString(Some(vec![0, 13, 10, 255])),
        RespValue::BulkString(None),
        RespValue::Array(None),
        RespValue::Array(Some(Vec::new())),
    ]));
    let bytes = encoded(&v);
    let (back, n) = read_resp(&bytes).unwrap();
    assert_eq!(n, bytes.len());
    assert_eq!(encoded(&back), bytes);
    match back {
        RespValue::Array(Some(items)) => {
            assert!(matches!(&items[0], RespValue::SimpleString(s) if s == "héllo"));
            assert!(matches!(&items[3], RespValue::BulkString(Some(b)) if b == &vec![0u8, 13, 10, 255]));
        }
        other => panic!("{:?}", other),
    }
}
