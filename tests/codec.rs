use redis_lite::error::RedisError;
use redis_lite::resp::{parse_resp, RespType};

fn bulk(s: &str) -> RespType {
    RespType::BulkStrings(s.as_bytes().to_vec())
}

fn simple(s: &str) -> RespType {
    RespType::SimpleStrings(s.to_string())
}

fn decode_all(bytes: &[u8]) -> RespType {
    let (v, rest) = parse_resp(bytes).expect("decodes");
    assert!(rest.is_empty());
    v
}

fn round_trip(v: RespType) {
    let bytes = v.encode();
    let (back, rest) = parse_resp(&bytes).expect("decodes");
    assert!(back.same_value(&v), "{:?} came back as {:?}", v, back);
    assert!(rest.is_empty());
}

#[test]
fn decodes_simple_string() {
    assert!(decode_all(b"+OK\r\n").same_value(&simple("OK")));
}

#[test]
fn decodes_simple_error() {
    assert!(decode_all(b"-ERR bad\r\n").same_value(&RespType::SimpleErrors("ERR bad".to_string())));
}

#[test]
fn decodes_utf8_text() {
    assert!(decode_all("+h\u{e9}llo\r\n".as_bytes()).same_value(&simple("h\u{e9}llo")));
}

#[test]
fn rejects_invalid_utf8_text() {
    assert_eq!(parse_resp(b"+\xff\r\n").unwrap_err(), RedisError::ProtocolError);
}

#[test]
fn decodes_integers_with_sign() {
    assert!(decode_all(b":-42\r\n").same_value(&RespType::Integers(-42)));
    assert!(decode_all(b":+7\r\n").same_value(&RespType::Integers(7)));
    assert!(decode_all(b":0\r\n").same_value(&RespType::Integers(0)));
    assert!(decode_all(b":-9223372036854775808\r\n").same_value(&RespType::Integers(i64::MIN)));
    assert!(decode_all(b":9223372036854775807\r\n").same_value(&RespType::Integers(i64::MAX)));
}

#[test]
fn rejects_integer_overflow() {
    assert_eq!(parse_resp(b":9223372036854775808\r\n").unwrap_err(), RedisError::ProtocolError);
    assert_eq!(parse_resp(b":-9223372036854775809\r\n").unwrap_err(), RedisError::ProtocolError);
    assert_eq!(parse_resp(b":99999999999999999999999\r\n").unwrap_err(), RedisError::ProtocolError);
}

#[test]
fn rejects_non_numeric_integer() {
    assert_eq!(parse_resp(b":12a\r\n").unwrap_err(), RedisError::ProtocolError);
    assert_eq!(parse_resp(b":-\r\n").unwrap_err(), RedisError::ProtocolError);
    assert_eq!(parse_resp(b":\r\n").unwrap_err(), RedisError::ProtocolError);
}

#[test]
fn decodes_bulk_string() {
    assert!(decode_all(b"$5\r\nhello\r\n").same_value(&bulk("hello")));
}

#[test]
fn bulk_payload_may_hold_crlf() {
    assert!(decode_all(b"$4\r\na\r\nb\r\n").same_value(&bulk("a\r\nb")));
}

#[test]
fn empty_bulk_is_not_null() {
    let empty = decode_all(b"$0\r\n\r\n");
    assert!(empty.same_value(&RespType::BulkStrings(Vec::new())));
    assert!(!empty.same_value(&RespType::Nulls));
    assert!(decode_all(b"$-1\r\n").same_value(&RespType::Nulls));
}

#[test]
fn rejects_bad_bulk_framing() {
    assert_eq!(parse_resp(b"$5\r\nhel").unwrap_err(), RedisError::ProtocolError);
    assert_eq!(parse_resp(b"$3\r\nabcde\r\n").unwrap_err(), RedisError::ProtocolError);
    assert_eq!(parse_resp(b"$-2\r\n").unwrap_err(), RedisError::ProtocolError);
}

#[test]
fn rejects_empty_unknown_and_unterminated() {
    assert_eq!(parse_resp(b"").unwrap_err(), RedisError::ProtocolError);
    assert_eq!(parse_resp(b"?x\r\n").unwrap_err(), RedisError::ProtocolError);
    assert_eq!(parse_resp(b"+OK").unwrap_err(), RedisError::ProtocolError);
    assert_eq!(parse_resp(b"+OK\r").unwrap_err(), RedisError::ProtocolError);
}

#[test]
fn decodes_nested_array() {
    let v = decode_all(b"*2\r\n$3\r\nGET\r\n*1\r\n:1\r\n");
    let want = RespType::Arrays(vec![bulk("GET"), RespType::Arrays(vec![RespType::Integers(1)])]);
    assert!(v.same_value(&want));
}

#[test]
fn rejects_short_array() {
    assert_eq!(parse_resp(b"*3\r\n:1\r\n:2\r\n").unwrap_err(), RedisError::ProtocolError);
    assert_eq!(parse_resp(b"*-1\r\n").unwrap_err(), RedisError::ProtocolError);
}

#[test]
fn decodes_empty_array() {
    assert!(decode_all(b"*0\r\n").same_value(&RespType::Arrays(Vec::new())));
}

#[test]
fn leaves_the_rest_of_the_buffer() {
    let (v, rest) = parse_resp(b":1\r\n+OK\r\n").unwrap();
    assert!(v.same_value(&RespType::Integers(1)));
    assert_eq!(rest, b"+OK\r\n");
}

#[test]
fn encodes_each_kind() {
    assert_eq!(simple("OK").encode(), b"+OK\r\n".to_vec());
    assert_eq!(RespType::SimpleErrors("ERR x".to_string()).encode(), b"-ERR x\r\n".to_vec());
    assert_eq!(RespType::Integers(-42).encode(), b":-42\r\n".to_vec());
    assert_eq!(RespType::Integers(i64::MIN).encode(), b":-9223372036854775808\r\n".to_vec());
    assert_eq!(RespType::Integers(1234).encode(), b":1234\r\n".to_vec());
    assert_eq!(bulk("hello").encode(), b"$5\r\nhello\r\n".to_vec());
    assert_eq!(RespType::BulkStrings(Vec::new()).encode(), b"$0\r\n\r\n".to_vec());
    assert_eq!(RespType::Nulls.encode(), b"$-1\r\n".to_vec());
    let arr = RespType::Arrays(vec![bulk("a"), RespType::Integers(10)]);
    assert_eq!(arr.encode(), b"*2\r\n$1\r\na\r\n:10\r\n".to_vec());
}

#[test]
fn encode_into_appends() {
    let mut out = b"xy".to_vec();
    RespType::Integers(5).encode_into(&mut out);
    assert_eq!(out, b"xy:5\r\n".to_vec());
}

#[test]
fn round_trips_values() {
    round_trip(simple("PONG"));
    round_trip(simple(""));
    round_trip(simple("h\u{e9}llo"));
    round_trip(RespType::SimpleErrors("ERR no".to_string()));
    round_trip(RespType::Integers(0));
    round_trip(RespType::Integers(i64::MIN));
    round_trip(RespType::Integers(i64::MAX));
    round_trip(bulk("with\r\ninside"));
    round_trip(RespType::BulkStrings(Vec::new()));
    round_trip(RespType::Nulls);
    round_trip(RespType::Arrays(Vec::new()));
    round_trip(RespType::Arrays(vec![
        bulk("SET"),
        RespType::Arrays(vec![RespType::Nulls, RespType::Integers(-3)]),
        simple("x"),
    ]));
}

#[test]
fn pipelined_arrays_decode_one_by_one() {
    let a = RespType::Arrays(vec![bulk("SET"), bulk("k"), bulk("v")]);
    let b = RespType::Arrays(vec![bulk("GET"), bulk("k")]);
    let mut buf = a.encode();
    buf.extend_from_slice(&b.encode());
    let (first, rest) = parse_resp(&buf).unwrap();
    assert!(first.same_value(&a));
    assert_eq!(rest, &b.encode()[..]);
    let (second, rest2) = parse_resp(rest).unwrap();
    assert!(second.same_value(&b));
    assert!(rest2.is_empty());
}

#[test]
fn equality_is_structural() {
    assert!(bulk("a").same_value(&bulk("a")));
    assert!(!bulk("a").same_value(&simple("a")));
    assert!(!RespType::Arrays(vec![bulk("a")]).same_value(&RespType::Arrays(vec![bulk("b")])));
    let v = RespType::Arrays(vec![bulk("a"), simple("b")]);
    assert!(v.deep_copy().same_value(&v));
}
