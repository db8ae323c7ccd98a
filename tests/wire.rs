use bittorrent::handshake::{HandShake, HandshakeError, HANDSHAKE_LEN};
use bittorrent::protocol::{
    block_requests, frame_message, read_be32, request_payload, split_message, Action, PeerError, PieceDownload,
    Stage, BITFIELD, HAVE, INTERESTED, PIECE, REQUEST, UNCHOKE,
};

const PEER_ID: [u8; 20] = *b"00112233445566778899";

fn hash() -> Vec<u8> {
    (100u8..120).collect()
}

#[test]
fn handshake_frame_layout() {
    let bytes = HandShake::new(&hash(), PEER_ID).to_bytes();
    assert_eq!(bytes.len(), HANDSHAKE_LEN);
    assert_eq!(bytes[0], 19);
    assert_eq!(&bytes[1..20], b"BitTorrent protocol");
    assert_eq!(&bytes[20..28], &[0u8; 8]);
    assert_eq!(&bytes[28..48], hash().as_slice());
    assert_eq!(&bytes[48..68], &PEER_ID);
}

#[test]
fn handshake_reply_checks() {
    let mut reply = HandShake::new(&hash(), *b"abcdefghijklmnopqrst").to_bytes();
    let parsed = HandShake::check_reply(&reply, &hash()).unwrap();
    assert_eq!(parsed.peer_id, b"abcdefghijklmnopqrst".to_vec());
    assert_eq!(parsed.peer_id_hex(), "6162636465666768696a6b6c6d6e6f7071727374");
    assert_eq!(
        HandShake::check_reply(&reply, &[0u8; 20]).err(),
        Some(HandshakeError::InfoHashMismatch)
    );
    assert_eq!(HandShake::parse(&reply[..67]).err(), Some(HandshakeError::WrongSize));
    reply[5] = b'X';
    assert_eq!(HandShake::parse(&reply).err(), Some(HandshakeError::BadProtocol));
    reply[0] = 18;
    assert_eq!(HandShake::parse(&reply).err(), Some(HandshakeError::BadLength));
}

#[test]
fn message_framing() {
    assert_eq!(frame_message(INTERESTED, &[]), vec![0, 0, 0, 1, 2]);
    assert_eq!(frame_message(4, &[0, 0, 1, 0]), vec![0, 0, 0, 5, 4, 0, 0, 1, 0]);
    assert_eq!(read_be32(&[0, 0, 1, 2]), 258);
    assert_eq!(read_be32(&[0x12, 0x34, 0x56, 0x78]), 0x1234_5678);
    assert_eq!(
        request_payload(1, 16384, 3616),
        vec![0, 0, 0, 1, 0, 0, 0x40, 0, 0, 0, 0x0e, 0x20]
    );
}

#[test]
fn block_tiling_boundary() {
    assert_eq!(block_requests(32768), vec![(0, 16384), (16384, 16384)]);
    assert_eq!(block_requests(20000), vec![(0, 16384), (16384, 3616)]);
    assert_eq!(block_requests(100), vec![(0, 100)]);
    assert_eq!(block_requests(16384), vec![(0, 16384)]);
}

#[test]
fn block_tiling_shape() {
    for p in [1u32, 16383, 16385, 40000, 49152, 262144] {
        let blocks = block_requests(p);
        let full = (p / 16384) as usize;
        let tail = p - (p / 16384) * 16384;
        assert_eq!(blocks.len(), full + if tail == 0 { 0 } else { 1 });
        for (i, (begin, len)) in blocks.iter().enumerate() {
            assert_eq!(*begin as usize, i * 16384);
            if i < full {
                assert_eq!(*len, 16384);
            } else {
                assert_eq!(*len, tail);
            }
        }
        assert_eq!(blocks.iter().map(|b| b.1).sum::<u32>(), p);
    }
}

fn piece_message(index: u32, begin: u32, data: &[u8]) -> Vec<u8> {
    let mut payload = index.to_be_bytes().to_vec();
    payload.extend(begin.to_be_bytes());
    payload.extend(data);
    payload
}

#[test]
fn piece_session_runs_to_completion() {
    let mut d = PieceDownload::new(3, 20000);
    assert_eq!(d.next_action(), Action::Wait);
    d.deliver(HAVE, &[0, 0, 0, 1]).unwrap();
    assert_eq!(d.stage, Stage::AwaitingBitfield);
    d.deliver(BITFIELD, &[0xff]).unwrap();
    assert_eq!(d.next_action(), Action::Send(INTERESTED, vec![]));
    d.sent();
    assert_eq!(d.stage, Stage::Choked);
    d.deliver(UNCHOKE, &[]).unwrap();
    assert_eq!(d.next_action(), Action::Send(REQUEST, request_payload(3, 0, 16384)));
    d.sent();
    d.deliver(PIECE, &piece_message(3, 0, &vec![1u8; 16384])).unwrap();
    assert_eq!(d.next_action(), Action::Send(REQUEST, request_payload(3, 16384, 3616)));
    d.sent();
    d.deliver(PIECE, &piece_message(3, 16384, &vec![2u8; 3616])).unwrap();
    assert_eq!(d.next_action(), Action::Finished);
    assert_eq!(d.stage, Stage::Done);
    assert_eq!(d.data.len(), 20000);
    assert_eq!(d.data[16383], 1);
    assert_eq!(d.data[16384], 2);
}

#[test]
fn piece_session_refuses_bad_messages() {
    let mut d = PieceDownload::new(0, 100);
    assert_eq!(
        d.deliver(UNCHOKE, &[]),
        Err(PeerError::UnexpectedMessage { expected: BITFIELD, got: UNCHOKE })
    );
    d.deliver(BITFIELD, &[]).unwrap();
    d.sent();
    d.deliver(UNCHOKE, &[]).unwrap();
    d.sent();
    assert_eq!(d.deliver(PIECE, &piece_message(1, 0, &[0u8; 100])), Err(PeerError::BadBlock));
    assert_eq!(d.deliver(PIECE, &piece_message(0, 4, &[0u8; 100])), Err(PeerError::BadBlock));
    assert_eq!(d.deliver(PIECE, &piece_message(0, 0, &[0u8; 99])), Err(PeerError::BadBlock));
    assert_eq!(d.deliver(PIECE, &[0, 0]), Err(PeerError::BadBlock));
    assert_eq!(d.stage, Stage::Requested);
    assert!(d.data.is_empty());
    d.deliver(PIECE, &piece_message(0, 0, &[7u8; 100])).unwrap();
    assert_eq!(d.stage, Stage::Done);
}

#[test]
fn message_bodies_split_into_id_and_payload() {
    assert_eq!(split_message(&[]), None);
    assert_eq!(split_message(&[1]), Some((1, vec![])));
    assert_eq!(split_message(&[7, 0, 0, 0, 3]), Some((7, vec![0, 0, 0, 3])));
}

#[test]
fn handshake_reply_must_start_with_nineteen() {
    let mut reply = HandShake::new(&hash(), PEER_ID).to_bytes();
    reply[0] = 20;
    assert_eq!(HandShake::check_reply(&reply, &hash()).err(), Some(HandshakeError::BadLength));
}
