use bittorrent::bencode::Value;
use bittorrent::decode::Decoder;
use bittorrent::torrent::{Field, MetainfoError, Torrent};

const ANNOUNCE: &str = "http://tracker.example/announce";

fn info_bytes() -> Vec<u8> {
    let mut info = b"d6:lengthi92063e4:name10:sample.txt12:piece lengthi32768e6:pieces60:".to_vec();
    info.extend((0u8..60).collect::<Vec<u8>>());
    info.push(b'e');
    info
}

fn sample_file() -> Vec<u8> {
    let mut file = format!("d8:announce{}:{}4:info", ANNOUNCE.len(), ANNOUNCE).into_bytes();
    file.extend(info_bytes());
    file.push(b'e');
    file
}

#[test]
fn parse_sample_torrent() {
    let torrent = Torrent::from_bytes(&sample_file()).unwrap();
    assert_eq!(torrent.announce, ANNOUNCE);
    assert_eq!(torrent.info.length, 92063);
    assert_eq!(torrent.info.name, "sample.txt");
    assert_eq!(torrent.info.piece_length, 32768);
    assert_eq!(torrent.info.pieces, (0u8..60).collect::<Vec<u8>>());
    assert_eq!(torrent.info_bytes, info_bytes());
}

#[test]
fn info_hash_of_sample() {
    let torrent = Torrent::from_bytes(&sample_file()).unwrap();
    assert_eq!(torrent.info_hash(), "f519c3a24144a8649e58efc3e359b51a386054d6");
    assert_eq!(torrent.raw_info_hash().len(), 20);
    assert_eq!(torrent.raw_info_hash()[0], 0xf5);
}

#[test]
fn info_hash_matches_typed_encoding() {
    let torrent = Torrent::from_bytes(&sample_file()).unwrap();
    assert_eq!(torrent.info.encode(), torrent.info_bytes);
    assert_eq!(torrent.info.hash(), torrent.raw_info_hash());
}

#[test]
fn url_encoded_info_hash_of_sample() {
    let torrent = Torrent::from_bytes(&sample_file()).unwrap();
    let encoded = torrent.url_encoded_info_hash();
    assert_eq!(encoded.len(), 60);
    assert_eq!(
        encoded,
        "%f5%19%c3%a2%41%44%a8%64%9e%58%ef%c3%e3%59%b5%1a%38%60%54%d6"
    );
}

#[test]
fn piece_count_matches_digests() {
    let torrent = Torrent::from_bytes(&sample_file()).unwrap();
    assert_eq!(torrent.info.pieces.len(), 20 * 3);
    assert_eq!(torrent.info.piece_size(0), 32768);
    assert_eq!(torrent.info.piece_size(1), 32768);
    assert_eq!(torrent.info.piece_size(2), 92063 - 2 * 32768);
}

#[test]
fn summary_lists_fields_and_digests() {
    let torrent = Torrent::from_bytes(&sample_file()).unwrap();
    let expected = format!(
        "Tracker URL: {}\nLength: 92063\nInfo Hash: f519c3a24144a8649e58efc3e359b51a386054d6\nPiece Length: 32768\nPiece Hashes:\n{}\n{}\n{}",
        ANNOUNCE,
        "000102030405060708090a0b0c0d0e0f10111213",
        "1415161718191a1b1c1d1e1f2021222324252627",
        "28292a2b2c2d2e2f303132333435363738393a3b",
    );
    assert_eq!(torrent.summary(), expected);
}

#[test]
fn missing_and_mistyped_fields() {
    assert!(matches!(Torrent::from_bytes(b"i1e"), Err(MetainfoError::NotADictionary)));
    assert!(matches!(
        Torrent::from_bytes(b"d8:announce1:xe"),
        Err(MetainfoError::Missing(Field::Info))
    ));
    assert!(matches!(
        Torrent::from_bytes(b"d8:announcei1e4:infodee"),
        Err(MetainfoError::Mistyped(Field::Announce))
    ));
    assert!(matches!(
        Torrent::from_bytes(b"d8:announce1:x4:infod4:name1:y12:piece lengthi1e6:pieces0:ee"),
        Err(MetainfoError::Missing(Field::Length))
    ));
    assert!(matches!(
        Torrent::from_bytes(b"d8:announce1:x4:infod6:lengthi-1e4:name1:y12:piece lengthi1e6:pieces0:ee"),
        Err(MetainfoError::Mistyped(Field::Length))
    ));
    assert!(matches!(
        Torrent::from_bytes(b"d8:announce1:x4:infod6:lengthi0e4:name1:y12:piece lengthi0e6:pieces0:ee"),
        Err(MetainfoError::Mistyped(Field::PieceLength))
    ));
    assert!(matches!(
        Torrent::from_bytes(b"d8:announce1:x4:infod6:lengthi0e4:name2:\xff\xfe12:piece lengthi1e6:pieces0:ee"),
        Err(MetainfoError::Mistyped(Field::Name))
    ));
}

#[test]
fn piece_digest_count_is_checked() {
    assert!(matches!(
        Torrent::from_bytes(b"d8:announce1:x4:infod6:lengthi5e4:name1:y12:piece lengthi4e6:pieces20:aaaaaaaaaaaaaaaaaaaaee"),
        Err(MetainfoError::PieceCountMismatch)
    ));
    let ok = Torrent::from_bytes(b"d8:announce1:x4:infod6:lengthi0e4:name1:y12:piece lengthi4e6:pieces0:ee");
    assert!(ok.is_ok());
}

#[test]
fn undecodable_file_is_a_decode_error() {
    assert!(matches!(Torrent::from_bytes(b"d3:abc"), Err(MetainfoError::Decode(_))));
}

#[test]
fn from_value_reads_decoded_tree() {
    let file = sample_file();
    let mut decoder = Decoder::new(&file);
    let value = decoder.decode().unwrap();
    let torrent = Torrent::from_value(&value).unwrap();
    assert_eq!(torrent.info.length, 92063);
    let not_dict = Value::List(vec![]);
    assert!(matches!(Torrent::from_value(&not_dict), Err(MetainfoError::NotADictionary)));
}
