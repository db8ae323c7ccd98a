use bittorrent::bencode::Value;
use bittorrent::decoder::BenDecoder;

#[test]
fn decoder_test_parse_string() {
    let input = "5:hello";
    let mut decoder = BenDecoder::new(input);
    let result = decoder.next();
    assert_eq!(result, Some(Value::ByteString(b"hello".to_vec())));
    assert_eq!(decoder.remaining(), b"");
}

#[test]
fn decoder_test_parse_number() {
    let input = "i563e";
    let mut decoder = BenDecoder::new(input);
    let result = decoder.next();
    assert_eq!(result, Some(Value::Integer(563)));
    assert_eq!(decoder.remaining(), b"");
}

#[test]
fn decoder_reads_values_in_turn() {
    let mut decoder = BenDecoder::new("i1e3:abcle");
    assert_eq!(decoder.next(), Some(Value::Integer(1)));
    assert_eq!(decoder.next(), Some(Value::ByteString(b"abc".to_vec())));
    assert_eq!(decoder.next(), Some(Value::List(vec![])));
    assert_eq!(decoder.next(), None);
    assert_eq!(decoder.remaining(), b"");
}
