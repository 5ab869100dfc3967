use redis_lite::decimal::{parse_i64, parse_u64};
use redis_lite::resp::{
    decode, decode_rdb, encode, encode_array, encode_big_number, encode_boolean, encode_bulk_error,
    encode_bulk_string, encode_double, encode_integer, encode_null, encode_push, encode_rdb,
    encode_simple_error, encode_simple_string, encode_verbatim_string, DecodeError, RedisType,
};

fn round_trip(v: &RedisType) {
    let bytes = encode(v);
    let (back, n) = decode(&bytes).ok().unwrap();
    assert_eq!(n as usize, bytes.len());
    assert_eq!(encode(&back), bytes);
}

#[test]
fn encoders_write_the_wire_forms() {
    assert_eq!(encode_simple_string(b"OK"), b"+OK\r\n");
    assert_eq!(encode_simple_error(b"ERR x"), b"-ERR x\r\n");
    assert_eq!(encode_integer(-42), b":-42\r\n");
    assert_eq!(encode_integer(i64::MIN), b":-9223372036854775808\r\n");
    assert_eq!(encode_bulk_string(Some(b"bar")), b"$3\r\nbar\r\n");
    assert_eq!(encode_bulk_string(None), b"$-1\r\n");
    assert_eq!(encode_null(), b"_\r\n");
    assert_eq!(encode_boolean(true), b"#t\r\n");
    assert_eq!(encode_boolean(false), b"#f\r\n");
    assert_eq!(encode_double(b"1.5"), b",1.5\r\n");
    assert_eq!(encode_big_number(b"123456789012345678901234567890"), b"(123456789012345678901234567890\r\n");
    assert_eq!(encode_bulk_error(b"SYNTAX"), b"!6\r\nSYNTAX\r\n");
    assert_eq!(encode_verbatim_string(b"txt:hi"), b"=6\r\ntxt:hi\r\n");
    let items = vec![RedisType::Integer(1), RedisType::Null];
    assert_eq!(encode_array(&items), b"*2\r\n:1\r\n_\r\n");
    assert_eq!(encode_push(&items), b">2\r\n:1\r\n_\r\n");
}

#[test]
fn every_shape_round_trips() {
    round_trip(&RedisType::SimpleString(b"hello".to_vec()));
    round_trip(&RedisType::SimpleError(b"ERR no".to_vec()));
    round_trip(&RedisType::Integer(0));
    round_trip(&RedisType::Integer(i64::MAX));
    round_trip(&RedisType::Integer(i64::MIN));
    round_trip(&RedisType::BulkString(Some(b"a\r\nb".to_vec())));
    round_trip(&RedisType::BulkString(Some(Vec::new())));
    round_trip(&RedisType::BulkString(None));
    round_trip(&RedisType::Null);
    round_trip(&RedisType::Boolean(true));
    round_trip(&RedisType::Double(b"-0.25".to_vec()));
    round_trip(&RedisType::BigNumber(b"-3492890328409238509324850943850943825024385".to_vec()));
    round_trip(&RedisType::BulkError(b"boom".to_vec()));
    round_trip(&RedisType::VerbatimString(b"txt:x".to_vec()));
    round_trip(&RedisType::Array(vec![
        RedisType::Array(vec![RedisType::Integer(7)]),
        RedisType::BulkString(Some(b"x".to_vec())),
    ]));
    round_trip(&RedisType::Push(vec![RedisType::Boolean(false)]));
    round_trip(&RedisType::Array(Vec::new()));
}

#[test]
fn decoder_reports_consumed_bytes_with_trailing_data() {
    let (v, n) = decode(b"+PONG\r\n+OK\r\n").ok().unwrap();
    assert_eq!(n, 7);
    assert_eq!(encode(&v), b"+PONG\r\n");
    let (_, n) = decode(b"*1\r\n$4\r\nPING\r\n:1\r\n").ok().unwrap();
    assert_eq!(n, 14);
}

#[test]
fn decoder_accepts_signed_integer_text() {
    let (v, _) = decode(b":+7\r\n").ok().unwrap();
    assert_eq!(encode(&v), b":7\r\n");
    let (v, _) = decode(b"$-5\r\n").ok().unwrap();
    assert_eq!(encode(&v), b"$-1\r\n");
    let (v, _) = decode(b"*-1\r\n").ok().unwrap();
    assert_eq!(encode(&v), b"*0\r\n");
}

#[test]
fn decoder_incomplete_and_invalid() {
    assert_eq!(decode(b"").err(), Some(DecodeError::Incomplete));
    assert_eq!(decode(b"+OK").err(), Some(DecodeError::Incomplete));
    assert_eq!(decode(b"$5\r\nab").err(), Some(DecodeError::Incomplete));
    assert_eq!(decode(b"*2\r\n:1\r\n").err(), Some(DecodeError::Incomplete));
    assert_eq!(decode(b"?x\r\n").err(), Some(DecodeError::Invalid));
    assert_eq!(decode(b":12a\r\n").err(), Some(DecodeError::Invalid));
    assert_eq!(decode(b":9223372036854775808\r\n").err(), Some(DecodeError::Invalid));
    assert_eq!(decode(b"$2\r\nabcd").err(), Some(DecodeError::Invalid));
    assert_eq!(decode(b"#x\r\n").err(), Some(DecodeError::Invalid));
    assert_eq!(decode(b"_x\r\n").err(), Some(DecodeError::Invalid));
    assert_eq!(decode(b"!-1\r\n").err(), Some(DecodeError::Invalid));
}

#[test]
fn decoder_checks_utf8_text() {
    assert_eq!(decode(b"+\xff\r\n").err(), Some(DecodeError::Invalid));
    assert_eq!(decode(b"$1\r\n\xc3\r\n").err(), Some(DecodeError::Invalid));
    let (v, _) = decode("+h\u{e9}\r\n".as_bytes()).ok().unwrap();
    assert_eq!(encode(&v), "+h\u{e9}\r\n".as_bytes());
}

#[test]
fn decoder_checks_big_numbers() {
    let (v, _) = decode(b"(-1_000\r\n").ok().unwrap();
    assert_eq!(encode(&v), b"(-1_000\r\n");
    assert_eq!(decode(b"(12a\r\n").err(), Some(DecodeError::Invalid));
    assert_eq!(decode(b"(\r\n").err(), Some(DecodeError::Invalid));
    assert_eq!(decode(b"(_1\r\n").err(), Some(DecodeError::Invalid));
    assert_eq!(decode(b"(++1\r\n").err(), Some(DecodeError::Invalid));
}

#[test]
fn snapshot_frame_has_no_trailing_crlf() {
    let frame = encode_rdb(b"REDIS0011");
    assert_eq!(frame, b"$9\r\nREDIS0011");
    let (payload, n) = decode_rdb(&frame).ok().unwrap();
    assert_eq!(payload, b"REDIS0011");
    assert_eq!(n, 13);
    assert_eq!(decode_rdb(b"$9\r\nRED").err(), Some(DecodeError::Incomplete));
    assert_eq!(decode_rdb(b"+OK\r\n").err(), Some(DecodeError::Invalid));
}

#[test]
fn integer_text() {
    assert_eq!(parse_u64(b"18446744073709551615"), Some(u64::MAX));
    assert_eq!(parse_u64(b"18446744073709551616"), None);
    assert_eq!(parse_u64(b"+5"), Some(5));
    assert_eq!(parse_u64(b"-5"), None);
    assert_eq!(parse_u64(b""), None);
    assert_eq!(parse_i64(b"-9223372036854775808"), Some(i64::MIN));
    assert_eq!(parse_i64(b"-"), None);
    assert_eq!(parse_i64(b"12 "), None);
}
