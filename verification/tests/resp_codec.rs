//! Round-trip, length, and incremental-decoding behavior of the codec.

use tiny_redis::resp::frame::RespCommandFrame;
use tiny_redis::resp::types::RespType;
use tiny_redis::resp::Value;

fn roundtrip(v: RespType) -> RespType {
    let bytes = v.to_bytes();
    let (parsed, used) = RespType::parse(bytes.as_slice()).expect("canonical bytes must parse");
    assert_eq!(used, bytes.len());
    parsed
}

#[test]
fn serialize_simple_string() {
    let v = RespType::SimpleString(String::from("OK"));
    assert_eq!(v.to_bytes(), b"+OK\r\n".to_vec());
}

#[test]
fn serialize_simple_error() {
    let v = RespType::SimpleError(String::from("oops"));
    assert_eq!(v.to_bytes(), b"-oops\r\n".to_vec());
}

#[test]
fn serialize_integer() {
    assert_eq!(RespType::Integer(0).to_bytes(), b":0\r\n".to_vec());
    assert_eq!(RespType::Integer(1234).to_bytes(), b":1234\r\n".to_vec());
    assert_eq!(RespType::Integer(-7).to_bytes(), b":-7\r\n".to_vec());
    assert_eq!(
        RespType::Integer(i64::MIN).to_bytes(),
        b":-9223372036854775808\r\n".to_vec()
    );
}

#[test]
fn serialize_bulk_and_null() {
    assert_eq!(
        RespType::BulkString(String::from("hello")).to_bytes(),
        b"$5\r\nhello\r\n".to_vec()
    );
    assert_eq!(
        RespType::BulkString(String::new()).to_bytes(),
        b"$0\r\n\r\n".to_vec()
    );
    assert_eq!(RespType::NullBulkString.to_bytes(), b"$-1\r\n".to_vec());
}

#[test]
fn bulk_length_header_counts_utf8_bytes() {
    // two characters, four UTF-8 bytes
    let v = RespType::BulkString(String::from("\u{00e9}\u{00e9}"));
    assert_eq!(v.to_bytes(), "$4\r\n\u{00e9}\u{00e9}\r\n".as_bytes().to_vec());
}

#[test]
fn round_trip_each_variant() {
    let vs = vec![
        RespType::SimpleString(String::from("PONG")),
        RespType::SimpleError(String::from("bad")),
        RespType::Integer(-42),
        RespType::BulkString(String::from("payload")),
        RespType::BulkString(String::new()),
        RespType::NullBulkString,
    ];
    for v in vs {
        let bytes = v.to_bytes();
        let back = roundtrip(v);
        assert_eq!(back.to_bytes(), bytes);
    }
}

#[test]
fn round_trip_nested_array() {
    let v = RespType::Array(vec![
        RespType::BulkString(String::from("a")),
        RespType::Array(vec![RespType::Integer(3), RespType::NullBulkString]),
        RespType::SimpleString(String::from("x")),
    ]);
    let expected = v.to_bytes();
    let back = roundtrip(v);
    assert_eq!(back.to_bytes(), expected);
    assert!(matches!(back, RespType::Array(_)));
}

#[test]
fn null_bulk_distinct_from_empty_bulk() {
    let null = RespType::NullBulkString.to_bytes();
    let empty = RespType::BulkString(String::new()).to_bytes();
    assert_ne!(null, empty);
    let (p1, _) = RespType::parse(null.as_slice()).unwrap();
    let (p2, _) = RespType::parse(empty.as_slice()).unwrap();
    assert_eq!(p1, RespType::NullBulkString);
    assert_eq!(p2, RespType::BulkString(String::new()));
}

#[test]
fn parse_rejects_invalid_type_byte() {
    assert!(RespType::parse(b"!weird\r\n").is_err());
    assert!(RespType::parse(b"").is_err());
}

#[test]
fn parse_rejects_incomplete_bulk() {
    assert!(RespType::parse(b"$5\r\nab\r\n").is_err());
}

#[test]
fn header_length_parsers() {
    assert_eq!(RespType::parse_array_len(b"*12\r\nrest").unwrap(), (12, 5));
    assert_eq!(RespType::parse_bulk_string_len(b"$5\r\nhello\r\n").unwrap(), (5, 4));
    assert!(RespType::parse_array_len(b"$3\r\n").is_err());
    assert!(RespType::parse_array_len(b"*\r\n").is_err());
    assert!(RespType::parse_array_len(b"*1x\r\n").is_err());
    assert!(RespType::parse_bulk_string_len(b"$3").is_err());
}

#[test]
fn reply_value_serializes_to_wire_text() {
    assert_eq!(Value::SimpleString(String::from("OK")).serialize(), String::from("+OK\r\n"));
    assert_eq!(Value::Error(String::from("bad")).serialize(), String::from("-bad\r\n"));
    assert_eq!(Value::Integer(-5).serialize(), String::from(":-5\r\n"));
    assert_eq!(
        Value::BulkString(String::from("hi")).serialize(),
        String::from("$2\r\nhi\r\n")
    );
    let arr = Value::Array(vec![Value::Integer(1), Value::BulkString(String::from("x"))]);
    assert_eq!(arr.serialize(), String::from("*2\r\n:1\r\n$1\r\nx\r\n"));
}

#[test]
fn reply_value_agrees_with_wire_bytes() {
    let legacy = Value::Array(vec![
        Value::SimpleString(String::from("a")),
        Value::Integer(42),
    ]);
    let wire = RespType::Array(vec![
        RespType::SimpleString(String::from("a")),
        RespType::Integer(42),
    ]);
    assert_eq!(legacy.serialize().into_bytes(), wire.to_bytes());
}

#[test]
fn decoder_accepts_whole_frame() {
    let mut codec = RespCommandFrame::new();
    let mut buf = b"*2\r\n$4\r\nPING\r\n$5\r\nhello\r\n".to_vec();
    let frame = codec.decode(&mut buf).unwrap().unwrap();
    assert_eq!(frame.len(), 2);
    assert_eq!(frame[0], RespType::BulkString(String::from("PING")));
    assert_eq!(frame[1], RespType::BulkString(String::from("hello")));
    assert!(buf.is_empty());
}

#[test]
fn decoder_incremental_chunks() {
    let wire = b"*2\r\n$4\r\nPING\r\n$5\r\nhello\r\n";
    // every split into two non-empty chunks yields exactly one frame
    for cut in 1..wire.len() {
        let mut codec = RespCommandFrame::new();
        let mut buf = wire[..cut].to_vec();
        assert!(codec.decode(&mut buf).unwrap().is_none());
        assert_eq!(buf.len(), cut, "nothing may be consumed before the frame completes");
        buf.extend_from_slice(&wire[cut..]);
        let frame = codec.decode(&mut buf).unwrap().unwrap();
        assert_eq!(frame.len(), 2);
        assert_eq!(frame[1], RespType::BulkString(String::from("hello")));
        assert!(buf.is_empty());
    }
}

#[test]
fn decoder_keeps_following_bytes() {
    let mut codec = RespCommandFrame::new();
    let mut buf = b"*1\r\n$1\r\nx\r\n*1\r\n".to_vec();
    let frame = codec.decode(&mut buf).unwrap().unwrap();
    assert_eq!(frame, vec![RespType::BulkString(String::from("x"))]);
    assert_eq!(buf, b"*1\r\n".to_vec());
}

#[test]
fn decoder_emits_empty_frame() {
    let mut codec = RespCommandFrame::new();
    let mut buf = b"*0\r\n".to_vec();
    let frame = codec.decode(&mut buf).unwrap().unwrap();
    assert!(frame.is_empty());
    assert!(buf.is_empty());
}

#[test]
fn decoder_tolerates_null_part() {
    let mut codec = RespCommandFrame::new();
    let mut buf = b"*1\r\n$-1\r\n".to_vec();
    let frame = codec.decode(&mut buf).unwrap().unwrap();
    assert_eq!(frame, vec![RespType::NullBulkString]);
}

#[test]
fn decoder_refuses_header_payload_mismatch() {
    // header says two bytes, three are delivered before the terminator
    let mut codec = RespCommandFrame::new();
    let mut buf = b"*1\r\n$2\r\nabc\r\n".to_vec();
    assert!(codec.decode(&mut buf).is_err());
}

#[test]
fn decoder_refuses_stray_byte_after_payload() {
    // the byte where the payload's CR belongs is wrong; refused without
    // waiting for the line feed
    let mut codec = RespCommandFrame::new();
    let mut buf = b"*1\r\n$2\r\nabX".to_vec();
    assert!(codec.decode(&mut buf).is_err());
}

#[test]
fn decoder_refuses_zero_padded_length() {
    // length headers must be canonical: a zero-padded count is refused
    let mut codec = RespCommandFrame::new();
    let mut buf = b"*03\r\n".to_vec();
    assert!(codec.decode(&mut buf).is_err());
}

#[test]
fn decoder_refuses_non_array_top() {
    let mut codec = RespCommandFrame::new();
    let mut buf = b"+inline\r\n".to_vec();
    assert!(codec.decode(&mut buf).is_err());
}

#[test]
fn decoder_refuses_negative_array_length() {
    let mut codec = RespCommandFrame::new();
    let mut buf = b"*-1\r\n".to_vec();
    assert!(codec.decode(&mut buf).is_err());
}

#[test]
fn decoder_waits_on_empty_and_short_input() {
    let mut codec = RespCommandFrame::new();
    let mut buf: Vec<u8> = Vec::new();
    assert!(codec.decode(&mut buf).unwrap().is_none());
    let mut buf = b"*2\r".to_vec();
    assert!(codec.decode(&mut buf).unwrap().is_none());
    assert_eq!(buf, b"*2\r".to_vec());
}
