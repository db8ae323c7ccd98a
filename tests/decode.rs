use bittorrent::bencode::Value;
use bittorrent::decode::Decoder;

fn text(s: &str) -> Value {
    Value::ByteString(s.as_bytes().to_vec())
}

#[test]
fn decode_test_parse_string() {
    let input = b"5:hello";
    let mut decoder = Decoder::new(input);
    let value = decoder.decode().unwrap();
    assert_eq!(value, text("hello"));
    assert_eq!(decoder.remaining(), b"");
}

#[test]
fn decode_test_parse_number() {
    let mut decoder = Decoder::new(b"i563e");
    let value = decoder.decode().unwrap();
    assert_eq!(value, Value::Integer(563));
    assert_eq!(decoder.remaining(), b"");
}

#[test]
fn test_parse_empty_list() {
    let mut decoder = Decoder::new(b"le");
    let value = decoder.decode().unwrap();
    assert_eq!(value, Value::List(vec![]));
    assert_eq!(decoder.remaining(), b"");
}

#[test]
fn test_parse_list_simple() {
    let mut decoder = Decoder::new(b"l5:helloi52ee");
    let value = decoder.decode().unwrap();
    assert_eq!(value, Value::List(vec![text("hello"), Value::Integer(52)]));
    assert_eq!(decoder.remaining(), b"");
}

#[test]
fn test_parse_list_complex() {
    let mut decoder = Decoder::new(b"lli4eei5ee");
    let value = decoder.decode().unwrap();
    assert_eq!(
        value,
        Value::List(vec![Value::List(vec![Value::Integer(4)]), Value::Integer(5)])
    );
    assert_eq!(decoder.remaining(), b"");
}

#[test]
fn test_parse_map_simple() {
    let mut decoder = Decoder::new(b"d3:foo3:bar5:helloi52ee");
    let value = decoder.decode().unwrap();
    assert_eq!(
        value,
        Value::Dictionary(vec![
            (b"foo".to_vec(), text("bar")),
            (b"hello".to_vec(), Value::Integer(52)),
        ])
    );
    assert_eq!(decoder.remaining(), b"");
}

#[test]
fn test_parse_map_complex() {
    let mut decoder =
        Decoder::new(b"d6:lengthi92063e4:name10:sample.txt12:piece lengthi32768e6:pieces1:ae");
    let value = decoder.decode().unwrap();
    assert_eq!(
        value,
        Value::Dictionary(vec![
            (b"length".to_vec(), Value::Integer(92063)),
            (b"name".to_vec(), text("sample.txt")),
            (b"piece length".to_vec(), Value::Integer(32768)),
            (b"pieces".to_vec(), text("a")),
        ])
    );
    assert_eq!(decoder.remaining(), b"");
}
