use bittorrent::bencode::Value;
use bittorrent::download::{batches, peer_for, retry, DownloadError, Payload};
use bittorrent::peers::{tracker_url, Peers, TrackerError};
use bittorrent::torrent::Torrent;

fn small_torrent() -> Torrent {
    Torrent::from_bytes(
        b"d8:announce18:http://tracker/ann4:infod6:lengthi10e4:name1:f12:piece lengthi4e6:pieces60:aaaaaaaaaaaaaaaaaaaabbbbbbbbbbbbbbbbbbbbccccccccccccccccccccee",
    )
    .unwrap()
}

#[test]
fn payload_assembles_in_index_order() {
    let torrent = small_torrent();
    let mut payload = Payload::new(&torrent.info);
    assert_eq!(payload.insert(2, vec![9, 9]), Ok(()));
    assert_eq!(payload.finish(), Err(DownloadError::MissingPiece(0)));
    assert_eq!(payload.insert(0, vec![1, 2, 3, 4]), Ok(()));
    assert_eq!(payload.insert(1, vec![5, 6, 7, 8]), Ok(()));
    let bytes = payload.finish().unwrap();
    assert_eq!(bytes, vec![1, 2, 3, 4, 5, 6, 7, 8, 9, 9]);
    assert_eq!(bytes.len() as u64, torrent.info.length);
}

#[test]
fn payload_refuses_bad_pieces() {
    let torrent = small_torrent();
    let mut payload = Payload::new(&torrent.info);
    assert_eq!(payload.insert(3, vec![0; 2]), Err(DownloadError::UnknownPiece(3)));
    assert_eq!(payload.insert(2, vec![0; 4]), Err(DownloadError::WrongSize(2)));
    assert_eq!(payload.insert(1, vec![0; 4]), Ok(()));
    assert_eq!(payload.insert(1, vec![0; 4]), Err(DownloadError::Duplicate(1)));
}

#[test]
fn pieces_go_round_robin_and_retry_elsewhere() {
    assert_eq!(peer_for(0, 0, 3), 0);
    assert_eq!(peer_for(4, 0, 3), 1);
    assert_eq!(peer_for(4, 1, 3), 2);
    assert_eq!(retry(4, 0, 3), Ok(2));
    assert_eq!(retry(4, 1, 3), Ok(0));
    assert_eq!(retry(4, 2, 3), Err(DownloadError::PieceFailed(4)));
    assert_eq!(retry(4, 0, 0), Err(DownloadError::NoPeers));
    assert_eq!(peer_for(u32::MAX, usize::MAX, usize::MAX), u32::MAX as usize);
}

#[test]
fn batches_have_one_piece_per_peer() {
    assert_eq!(batches(7, 3), vec![(0, 3), (3, 6), (6, 7)]);
    assert_eq!(batches(6, 3), vec![(0, 3), (3, 6)]);
    assert_eq!(batches(2, 5), vec![(0, 2)]);
    assert_eq!(batches(0, 2), vec![]);
}

#[test]
fn tracker_url_is_exact() {
    let torrent = small_torrent();
    let url = tracker_url(&torrent, "00112233445566778899").unwrap();
    let expected = format!(
        "http://tracker/ann?peer_id=00112233445566778899&port=6881&uploaded=0&downloaded=0&left=10&compact=1&info_hash={}",
        torrent.url_encoded_info_hash()
    );
    assert_eq!(url, expected);
}

#[test]
fn compact_peers_are_read() {
    let answer = b"d8:intervali900e5:peers12:\xc0\xa8\x01\x02\x1a\xe1\x0a\x00\x00\x01\x00\x50e";
    let peers = Peers::from_response(answer).unwrap();
    assert_eq!(peers.0, vec!["192.168.1.2:6881".to_string(), "10.0.0.1:80".to_string()]);
    assert_eq!(peers.to_text(), "192.168.1.2:6881\n10.0.0.1:80\n");
}

#[test]
fn bad_tracker_answers() {
    assert!(matches!(Peers::from_response(b"d5:peers5:abcdee"), Err(TrackerError::BadPeers)));
    assert!(matches!(Peers::from_response(b"d1:xi1ee"), Err(TrackerError::MissingPeers)));
    assert!(matches!(Peers::from_response(b"x"), Err(TrackerError::Decode)));
    let empty = Peers::from_value(&Value::Dictionary(vec![(b"peers".to_vec(), Value::ByteString(vec![]))]));
    assert_eq!(empty.unwrap().0.len(), 0);
}

const DIGESTS: [u8; 60] = [
    18, 218, 218, 31, 255, 77, 71, 135, 173, 227, 51, 49, 71, 32, 44, 59, 68, 62, 55, 111, 133,
    217, 101, 29, 154, 57, 154, 103, 224, 21, 208, 71, 253, 158, 106, 148, 30, 107, 32, 187, 11, 0,
    13, 190, 222, 236, 110, 80, 10, 159, 167, 23, 230, 170, 55, 179, 127, 210, 13, 18,
];

#[test]
fn pieces_are_checked_against_digests() {
    let mut file = b"d8:announce1:x4:infod6:lengthi10e4:name1:f12:piece lengthi4e6:pieces60:".to_vec();
    file.extend(DIGESTS);
    file.extend(b"ee");
    let torrent = Torrent::from_bytes(&file).unwrap();
    assert_eq!(torrent.info.check_piece(0, &[1, 2, 3, 4]), Ok(()));
    assert_eq!(torrent.info.check_piece(1, &[5, 6, 7, 8]), Ok(()));
    assert_eq!(torrent.info.check_piece(2, &[9, 9]), Ok(()));
    assert_eq!(
        torrent.info.check_piece(2, &[9, 8]),
        Err(DownloadError::PieceHashMismatch(2))
    );
    assert_eq!(
        torrent.info.check_piece(0, &[5, 6, 7, 8]),
        Err(DownloadError::PieceHashMismatch(0))
    );
}
