use redis_lite::message::{
    ProtocolError, RedisArrayMessage, RedisBulkStringMessage, RedisMessage,
};
use redis_lite::message::parse_length;

fn bulk(s: &str) -> RedisMessage {
    RedisMessage::BulkString(RedisBulkStringMessage { content: Some(s.to_string()) })
}

fn text_of(m: &RedisMessage) -> Option<String> {
    match m {
        RedisMessage::BulkString(b) => b.content.clone(),
        RedisMessage::Array(_) => panic!("expected a bulk string"),
    }
}

#[test]
fn parses_bulk_string() {
    let (m, end) = RedisMessage::parse_slice(b"$3\r\nhey\r\n", 0).unwrap();
    assert_eq!(text_of(&m), Some("hey".to_string()));
    assert_eq!(end, 9);
}

#[test]
fn parses_array_of_two() {
    let buf = b"*2\r\n$4\r\nECHO\r\n$3\r\nhey\r\n";
    let (m, end) = RedisMessage::parse_slice(buf, 0).unwrap();
    assert_eq!(end, buf.len());
    match m {
        RedisMessage::Array(a) => {
            assert_eq!(a.messages.len(), 2);
            assert_eq!(text_of(&a.messages[0]), Some("ECHO".to_string()));
            assert_eq!(text_of(&a.messages[1]), Some("hey".to_string()));
        }
        RedisMessage::BulkString(_) => panic!("expected an array"),
    }
}

#[test]
fn parses_nested_and_empty_arrays() {
    let buf = b"*2\r\n*0\r\n*1\r\n$0\r\n\r\nrest";
    let (m, end) = RedisMessage::parse_slice(buf, 0).unwrap();
    assert_eq!(end, buf.len() - 4);
    match m {
        RedisMessage::Array(a) => {
            assert_eq!(a.messages.len(), 2);
            match &a.messages[0] {
                RedisMessage::Array(inner) => assert_eq!(inner.messages.len(), 0),
                _ => panic!("expected an array"),
            }
            match &a.messages[1] {
                RedisMessage::Array(inner) => {
                    assert_eq!(inner.messages.len(), 1);
                    assert_eq!(text_of(&inner.messages[0]), Some(String::new()));
                }
                _ => panic!("expected an array"),
            }
        }
        RedisMessage::BulkString(_) => panic!("expected an array"),
    }
}

#[test]
fn array_arity_and_end_offset() {
    let buf = b"xx*3\r\n$1\r\na\r\n$2\r\nbc\r\n$0\r\n\r\n$1\r\nz\r\n";
    let (m, end) = RedisMessage::parse_slice(buf, 2).unwrap();
    assert_eq!(end, 27);
    match m {
        RedisMessage::Array(a) => assert_eq!(a.messages.len(), 3),
        _ => panic!("expected an array"),
    }
    let (next, last) = RedisMessage::parse_slice(buf, end).unwrap();
    assert_eq!(text_of(&next), Some("z".to_string()));
    assert_eq!(last, buf.len());
}

#[test]
fn parse_at_offset_past_end_needs_more_data() {
    assert!(matches!(RedisMessage::parse_slice(b"", 0), Err(ProtocolError::NeedMoreData)));
    assert!(matches!(RedisMessage::parse_slice(b"$1\r\na\r\n", 7), Err(ProtocolError::NeedMoreData)));
    assert!(matches!(RedisMessage::parse_slice(b"$1\r\na\r\n", 100), Err(ProtocolError::NeedMoreData)));
}

#[test]
fn unknown_tag_is_malformed() {
    assert!(matches!(RedisMessage::parse_slice(b"+PONG\r\n", 0), Err(ProtocolError::Malformed)));
    assert!(matches!(RedisMessage::parse_slice(b":1\r\n", 0), Err(ProtocolError::Malformed)));
}

#[test]
fn truncated_frames_need_more_data() {
    assert!(matches!(RedisMessage::parse_slice(b"$3", 0), Err(ProtocolError::NeedMoreData)));
    assert!(matches!(RedisMessage::parse_slice(b"$3\r", 0), Err(ProtocolError::NeedMoreData)));
    assert!(matches!(RedisMessage::parse_slice(b"$3\r\nhe", 0), Err(ProtocolError::NeedMoreData)));
    assert!(matches!(RedisMessage::parse_slice(b"$3\r\nhey\r", 0), Err(ProtocolError::NeedMoreData)));
    assert!(matches!(RedisMessage::parse_slice(b"*2\r\n$1\r\na\r\n", 0), Err(ProtocolError::NeedMoreData)));
}

#[test]
fn bad_lengths_are_malformed() {
    assert!(matches!(RedisMessage::parse_slice(b"$-1\r\n\r\n", 0), Err(ProtocolError::Malformed)));
    assert!(matches!(RedisMessage::parse_slice(b"$x\r\n", 0), Err(ProtocolError::Malformed)));
    assert!(matches!(RedisMessage::parse_slice(b"$\r\n", 0), Err(ProtocolError::Malformed)));
    assert!(matches!(RedisMessage::parse_slice(b"$3\rxhey\r\n", 0), Err(ProtocolError::Malformed)));
    assert!(matches!(
        RedisMessage::parse_slice(b"*99999999999999999999999999\r\n", 0),
        Err(ProtocolError::Malformed)
    ));
}

#[test]
fn payload_that_is_not_utf8_is_malformed() {
    assert!(matches!(RedisMessage::parse_slice(b"$2\r\n\xff\xfe\r\n", 0), Err(ProtocolError::Malformed)));
}

#[test]
fn payload_is_decoded_as_utf8() {
    let (m, end) = RedisMessage::parse_slice("$6\r\nhéllo\r\n".as_bytes(), 0).unwrap();
    assert_eq!(text_of(&m), Some("héllo".to_string()));
    assert_eq!(end, 12);
}

#[test]
fn payload_terminator_is_skipped_unchecked() {
    let (m, end) = RedisMessage::parse_slice(b"$2\r\nokXY", 0).unwrap();
    assert_eq!(text_of(&m), Some("ok".to_string()));
    assert_eq!(end, 8);
}

#[test]
fn length_prefix_reads_digits() {
    assert_eq!(parse_length(b"123\r\n", 0).unwrap(), (123, 5));
    assert_eq!(parse_length(b"$007\r\nx", 1).unwrap(), (7, 6));
    assert!(matches!(parse_length(b"12", 0), Err(ProtocolError::NeedMoreData)));
    assert!(matches!(parse_length(b"1 \r\n", 0), Err(ProtocolError::Malformed)));
}

#[test]
fn serializes_bulk_strings() {
    assert_eq!(bulk("hey").to_message(), b"$3\r\nhey\r\n".to_vec());
    assert_eq!(bulk("").to_message(), b"$0\r\n\r\n".to_vec());
    assert_eq!(bulk("héllo").to_message(), "$6\r\nhéllo\r\n".as_bytes().to_vec());
    let long = "a".repeat(1234);
    let mut expected = b"$1234\r\n".to_vec();
    expected.extend_from_slice(long.as_bytes());
    expected.extend_from_slice(b"\r\n");
    assert_eq!(bulk(&long).to_message(), expected);
}

#[test]
fn serializes_null_bulk_string() {
    let m = RedisMessage::BulkString(RedisBulkStringMessage { content: None });
    assert_eq!(m.to_message(), b"$-1\r\n\r\n".to_vec());
}

#[test]
fn serializes_arrays() {
    let m = RedisMessage::Array(RedisArrayMessage {
        messages: vec![
            bulk("GET"),
            RedisMessage::Array(RedisArrayMessage { messages: vec![] }),
            RedisMessage::BulkString(RedisBulkStringMessage { content: None }),
        ],
    });
    assert_eq!(m.to_message(), b"*3\r\n$3\r\nGET\r\n*0\r\n$-1\r\n\r\n".to_vec());
}

#[test]
fn bulk_round_trip() {
    for s in ["", "hey", "a\r\nb", "$3\r\n", "héllo wörld", "*1\r\n"] {
        let bytes = bulk(s).to_message();
        let (m, end) = RedisMessage::parse_slice(&bytes, 0).unwrap();
        assert_eq!(text_of(&m), Some(s.to_string()));
        assert_eq!(end, bytes.len());
    }
}

#[test]
fn array_round_trip() {
    let m = RedisMessage::Array(RedisArrayMessage {
        messages: vec![bulk("SET"), bulk("k"), bulk("v")],
    });
    let bytes = m.to_message();
    let (back, end) = RedisMessage::parse_slice(&bytes, 0).unwrap();
    assert_eq!(end, bytes.len());
    assert_eq!(back.to_message(), bytes);
}

#[test]
fn bulk_strings_from_text() {
    let some: RedisBulkStringMessage = "hey".to_string().into();
    assert_eq!(some.content, Some("hey".to_string()));
    let none: RedisBulkStringMessage = None.into();
    assert_eq!(none.content, None);
    assert_eq!(RedisMessage::BulkString(some).to_message(), b"$3\r\nhey\r\n".to_vec());
}
