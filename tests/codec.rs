use bittorrent::bencode::Value;
use bittorrent::decode::{bytes_less, DecodeErrorKind, Decoder};
use bittorrent::text::{decimal, display_bytes, percent_encode};

fn decode_all(input: &[u8]) -> Value {
    let mut decoder = Decoder::new(input);
    let value = decoder.decode().unwrap();
    assert_eq!(decoder.remaining(), b"");
    value
}

fn error_kind(input: &[u8]) -> DecodeErrorKind {
    let mut decoder = Decoder::new(input);
    let err = decoder.decode().unwrap_err();
    assert_eq!(decoder.remaining(), input);
    err.kind
}

#[test]
fn round_trip_reencodes_canonical_input() {
    let samples: [&[u8]; 7] = [
        b"5:hello",
        b"i563e",
        b"i-42e",
        b"i0e",
        b"lli4eei5ee",
        b"d3:foo3:bar5:helloi52ee",
        b"d4:infod6:lengthi1e4:name1:xe4:listl0:i-9223372036854775808eee",
    ];
    for input in samples {
        let value = decode_all(input);
        assert_eq!(value.encode(), input.to_vec());
    }
}

#[test]
fn encode_writes_canonical_text() {
    let value = Value::Dictionary(vec![
        (b"a".to_vec(), Value::Integer(-7)),
        (b"b".to_vec(), Value::List(vec![Value::ByteString(vec![0, 255])])),
    ]);
    assert_eq!(value.encode(), b"d1:ai-7e1:bl2:\x00\xffee".to_vec());
    assert_eq!(Value::Integer(i64::MIN).encode(), b"i-9223372036854775808e".to_vec());
}

#[test]
fn decode_extreme_integers() {
    assert_eq!(decode_all(b"i9223372036854775807e"), Value::Integer(i64::MAX));
    assert_eq!(decode_all(b"i-9223372036854775808e"), Value::Integer(i64::MIN));
}

#[test]
fn decode_binary_string() {
    assert_eq!(decode_all(b"3:\x00\xff\x10"), Value::ByteString(vec![0, 255, 16]));
    assert_eq!(decode_all(b"0:"), Value::ByteString(vec![]));
}

#[test]
fn decode_stops_after_one_value() {
    let mut decoder = Decoder::new(b"i1ei2e");
    assert_eq!(decoder.decode().unwrap(), Value::Integer(1));
    assert_eq!(decoder.remaining(), b"i2e");
    assert_eq!(decoder.decode().unwrap(), Value::Integer(2));
    assert_eq!(decoder.remaining(), b"");
}

#[test]
fn decode_rejects_noncanonical_integers() {
    assert_eq!(error_kind(b"i-0e"), DecodeErrorKind::MalformedInteger);
    assert_eq!(error_kind(b"i03e"), DecodeErrorKind::MalformedInteger);
    assert_eq!(error_kind(b"ie"), DecodeErrorKind::MalformedInteger);
    assert_eq!(error_kind(b"i1x2e"), DecodeErrorKind::MalformedInteger);
    assert_eq!(error_kind(b"i-e"), DecodeErrorKind::MalformedInteger);
}

#[test]
fn decode_rejects_integer_overflow() {
    assert_eq!(error_kind(b"i9223372036854775808e"), DecodeErrorKind::IntegerOverflow);
    assert_eq!(error_kind(b"i-9223372036854775809e"), DecodeErrorKind::IntegerOverflow);
    assert_eq!(error_kind(b"i99999999999999999999e"), DecodeErrorKind::IntegerOverflow);
}

#[test]
fn decode_rejects_missing_terminator() {
    assert_eq!(error_kind(b"i12"), DecodeErrorKind::MissingTerminator);
}

#[test]
fn decode_rejects_bad_lengths() {
    assert_eq!(error_kind(b"05:hello"), DecodeErrorKind::MalformedLength);
    assert_eq!(error_kind(b"5hello"), DecodeErrorKind::MalformedLength);
    assert_eq!(error_kind(b"5:abc"), DecodeErrorKind::UnterminatedString);
}

#[test]
fn decode_rejects_unexpected_bytes_and_end() {
    assert_eq!(error_kind(b""), DecodeErrorKind::UnexpectedEnd);
    assert_eq!(error_kind(b"e"), DecodeErrorKind::UnexpectedByte);
    assert_eq!(error_kind(b"x"), DecodeErrorKind::UnexpectedByte);
    assert_eq!(error_kind(b"li1e"), DecodeErrorKind::UnexpectedEnd);
    assert_eq!(error_kind(b"d3:foo"), DecodeErrorKind::UnexpectedEnd);
}

#[test]
fn decode_rejects_bad_dictionaries() {
    assert_eq!(error_kind(b"d1:bi1e1:ai2ee"), DecodeErrorKind::UnsortedKeys);
    assert_eq!(error_kind(b"d1:ai1e1:ai2ee"), DecodeErrorKind::UnsortedKeys);
    assert_eq!(error_kind(b"di1ei2ee"), DecodeErrorKind::KeyNotString);
}

#[test]
fn decode_error_offset_points_inside() {
    let mut decoder = Decoder::new(b"l5:helloi01ee");
    let err = decoder.decode().unwrap_err();
    assert_eq!(err.kind, DecodeErrorKind::MalformedInteger);
    assert_eq!(err.offset, 9);
}

#[test]
fn byte_order_compares_lexicographically() {
    assert!(bytes_less(b"piece length", b"pieces"));
    assert!(bytes_less(b"ab", b"abc"));
    assert!(!bytes_less(b"abc", b"abc"));
    assert!(!bytes_less(b"b", b"abc"));
}

#[test]
fn display_bytes_uses_text_or_hex() {
    assert_eq!(display_bytes(b"hello"), "hello");
    assert_eq!(display_bytes(&[0xff, 0x00, 0xab]), "ff00ab");
    assert_eq!(display_bytes("é".as_bytes()), "é");
}

#[test]
fn percent_and_decimal_text() {
    assert_eq!(percent_encode(&[0x00, 0xab, 0x7f]), "%00%ab%7f");
    assert_eq!(decimal(0), "0");
    assert_eq!(decimal(92063), "92063");
    assert_eq!(decimal(u64::MAX), "18446744073709551615");
}

#[test]
fn leading_causes_are_reported_at_the_cursor() {
    let mut decoder = Decoder::new(b"i1ei23");
    decoder.decode().unwrap();
    let err = decoder.decode().unwrap_err();
    assert_eq!(err.kind, DecodeErrorKind::MissingTerminator);
    assert_eq!(err.offset, 3);
    let mut decoder = Decoder::new(b"i1e");
    decoder.decode().unwrap();
    let err = decoder.decode().unwrap_err();
    assert_eq!(err.kind, DecodeErrorKind::UnexpectedEnd);
    assert_eq!(err.offset, 3);
}
