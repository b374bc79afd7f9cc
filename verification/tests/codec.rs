use lanchat::codec::{decode_message, encode_message};
use lanchat::message::ChatMessage;

fn msg(content: &str, nickname: &str, timestamp: i64) -> ChatMessage {
    ChatMessage { content: content.to_string(), nickname: nickname.to_string(), timestamp }
}

fn reference_encoding(content: &str, nickname: &str, timestamp: i64) -> Vec<u8> {
    rmp_serde::to_vec(&(content, nickname, timestamp)).unwrap()
}

fn assert_round_trip(m: ChatMessage) {
    let bytes = encode_message(&m);
    let back = decode_message(&bytes).expect("own encoding must decode");
    assert_eq!(back, m);
}

#[test]
fn round_trip_plain_message() {
    assert_round_trip(msg("hi", "alice", 1000));
}

#[test]
fn round_trip_empty_strings() {
    assert_round_trip(msg("", "", 0));
}

#[test]
fn round_trip_negative_timestamps() {
    for ts in [-1i64, -31, -32, -33, -127, -128, -129, -32768, -32769, -2147483648, -2147483649,
        i64::MIN] {
        assert_round_trip(msg("x", "y", ts));
    }
}

#[test]
fn round_trip_positive_timestamps() {
    for ts in [0i64, 1, 127, 128, 255, 256, 65535, 65536, 4294967295, 4294967296, i64::MAX] {
        assert_round_trip(msg("x", "y", ts));
    }
}

#[test]
fn round_trip_multibyte_text() {
    assert_round_trip(msg("héllo wörld ✓ 漢字", "ålice", -42));
}

#[test]
fn round_trip_long_texts() {
    assert_round_trip(msg(&"a".repeat(31), &"b".repeat(32), 7));
    assert_round_trip(msg(&"c".repeat(255), &"d".repeat(256), 7));
    assert_round_trip(msg(&"e".repeat(65535), &"f".repeat(65536), 7));
}

#[test]
fn encoding_matches_the_messagepack_library() {
    let cases: Vec<(String, String, i64)> = vec![
        ("hi".to_string(), "alice".to_string(), 1000),
        ("".to_string(), "".to_string(), 0),
        ("héllo ✓".to_string(), "bob".to_string(), -1),
        ("x".repeat(32), "y".repeat(300), i64::MIN),
        ("z".repeat(70000), "w".to_string(), i64::MAX),
        ("a".to_string(), "b".to_string(), -32),
        ("a".to_string(), "b".to_string(), -33),
        ("a".to_string(), "b".to_string(), -129),
        ("a".to_string(), "b".to_string(), -32769),
        ("a".to_string(), "b".to_string(), 127),
        ("a".to_string(), "b".to_string(), 128),
        ("a".to_string(), "b".to_string(), 256),
        ("a".to_string(), "b".to_string(), 65536),
        ("a".to_string(), "b".to_string(), 4294967296),
    ];
    for (content, nickname, timestamp) in cases {
        let ours = encode_message(&msg(&content, &nickname, timestamp));
        let theirs = reference_encoding(&content, &nickname, timestamp);
        assert_eq!(ours, theirs, "mismatch for ({content:?}, {nickname:?}, {timestamp})");
    }
}

#[test]
fn decodes_what_the_messagepack_library_wrote() {
    let bytes = reference_encoding("good evening", "carol", -7_000_000_000);
    let m = decode_message(&bytes).expect("library encoding must decode");
    assert_eq!(m.content, "good evening");
    assert_eq!(m.nickname, "carol");
    assert_eq!(m.timestamp, -7_000_000_000);
}

#[test]
fn rejects_wrong_array_marker() {
    let mut bytes = reference_encoding("hi", "alice", 1000);
    bytes[0] = 0x92;
    assert!(decode_message(&bytes).is_none());
}

#[test]
fn rejects_truncated_record() {
    let bytes = reference_encoding("hi", "alice", 1000);
    for cut in 0..bytes.len() {
        assert!(decode_message(&bytes[..cut]).is_none(), "truncation at {cut} must be rejected");
    }
}

#[test]
fn rejects_trailing_bytes() {
    let mut bytes = reference_encoding("hi", "alice", 1000);
    bytes.push(0);
    assert!(decode_message(&bytes).is_none());
}

#[test]
fn rejects_non_canonical_length_form() {
    // "hi" spelled with a one-byte length header instead of the fixed form.
    let mut bytes = vec![0x93u8, 0xd9, 2, b'h', b'i'];
    bytes.extend_from_slice(&reference_encoding("hi", "alice", 7)[4..]);
    assert!(decode_message(&bytes).is_none());
}

#[test]
fn rejects_non_canonical_integer_form() {
    // Timestamp 5 spelled as an eight-byte unsigned integer.
    let mut bytes = rmp_serde::to_vec(&("hi", "alice")).unwrap();
    bytes[0] = 0x93;
    bytes.extend_from_slice(&[0xcf, 0, 0, 0, 0, 0, 0, 0, 5]);
    assert!(decode_message(&bytes).is_none());
}

#[test]
fn rejects_invalid_utf8_payload() {
    // A two-byte text that is not valid UTF-8.
    let bytes = vec![0x93u8, 0xa2, 0xff, 0xfe, 0xa1, b'a', 0x01];
    assert!(decode_message(&bytes).is_none());
}

#[test]
fn rejects_unsigned_timestamp_beyond_signed_range() {
    let mut bytes = rmp_serde::to_vec(&("hi", "alice")).unwrap();
    bytes[0] = 0x93;
    bytes.extend_from_slice(&[0xcf, 0x80, 0, 0, 0, 0, 0, 0, 0]);
    assert!(decode_message(&bytes).is_none());
}
