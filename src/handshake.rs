use vstd::prelude::*;
use vstd::slice::slice_to_vec;
use crate::decode::bytes_equal;
use crate::text::{hex_text, hex_encode};

verus! {

/// The protocol string `BitTorrent protocol`.
pub const PROTOCOL: [u8; 19] = [
    66, 105, 116, 84, 111, 114, 114, 101, 110, 116, 32, 112, 114, 111, 116, 111, 99, 111, 108,
];

/// Size of a handshake frame in bytes.
pub const HANDSHAKE_LEN: usize = 68;

/// The handshake that opens a peer connection.
pub struct HandShake {
    /// Length of the protocol string, 19.
    pub length: u8,
    pub protocol: Vec<u8>,
    /// Eight reserved bytes, zero when sent.
    pub reserved: Vec<u8>,
    pub info_hash: Vec<u8>,
    pub peer_id: Vec<u8>,
}

/// Why a received handshake is refused.
#[derive(Debug, Clone, Copy, PartialEq, Eq)]
pub enum HandshakeError {
    /// Fewer or more than 68 bytes.
    WrongSize,
    /// The length byte is not 19.
    BadLength,
    /// The protocol string is not `BitTorrent protocol`.
    BadProtocol,
    /// The peer answered for another torrent.
    InfoHashMismatch,
}

/// The 68 bytes of a handshake frame.
pub open spec fn handshake_frame(info_hash: Seq<u8>, peer_id: Seq<u8>) -> Seq<u8> {
    seq![19u8] + PROTOCOL@ + Seq::new(8, |i: int| 0u8) + info_hash + peer_id
}

impl HandShake {
    /// Field sizes of a handshake: 19, 8, 20 and 20 bytes.
    pub open spec fn wf(&self) -> bool {
        &&& self.protocol@.len() == 19
        &&& self.reserved@.len() == 8
        &&& self.info_hash@.len() == 20
        &&& self.peer_id@.len() == 20
    }

    /// The frame's bytes in wire order.
    pub open spec fn frame(&self) -> Seq<u8> {
        seq![self.length] + self.protocol@ + self.reserved@ + self.info_hash@ + self.peer_id@
    }

    /// Constructs the [`HandShake`] to send for a torrent.
    pub fn new(info_hash: &[u8], peer_id: [u8; 20]) -> (h: Self)
        requires
            info_hash@.len() == 20,
        ensures
            h.wf(),
            h.length == 19,
            h.protocol@ == PROTOCOL@,
            h.info_hash@ == info_hash@,
            h.peer_id@ == peer_id@,
            h.frame() == handshake_frame(info_hash@, peer_id@),
    {
        let mut reserved: Vec<u8> = Vec::new();
        let mut i: usize = 0;
        while i < 8
            invariant
                i <= 8,
                reserved@ == Seq::new(i as nat, |k: int| 0u8),
            decreases 8 - i,
        {
            reserved.push(0);
            i = i + 1;
            assert(reserved@ =~= Seq::new(i as nat, |k: int| 0u8));
        }
        let h = HandShake {
            length: 19,
            protocol: slice_to_vec(&PROTOCOL),
            reserved,
            info_hash: slice_to_vec(info_hash),
            peer_id: slice_to_vec(&peer_id),
        };
        assert(h.frame() =~= handshake_frame(info_hash@, peer_id@));
        h
    }

    /// The 68 bytes to write on the connection.
    pub fn to_bytes(&self) -> (r: Vec<u8>)
        requires
            self.wf(),
        ensures
            r@ == self.frame(),
            r@.len() == HANDSHAKE_LEN,
    {
        let mut out: Vec<u8> = Vec::new();
        out.push(self.length);
        out.extend_from_slice(self.protocol.as_slice());
        out.extend_from_slice(self.reserved.as_slice());
        out.extend_from_slice(self.info_hash.as_slice());
        out.extend_from_slice(self.peer_id.as_slice());
        assert(out@ =~= self.frame());
        out
    }

    /// Reads a received frame: 68 bytes whose length byte is 19 and whose
    /// protocol string is `BitTorrent protocol`.
    pub fn parse(bytes: &[u8]) -> (r: Result<HandShake, HandshakeError>)
        ensures
            match r {
                Ok(h) => {
                    &&& bytes@.len() == HANDSHAKE_LEN
                    &&& h.wf()
                    &&& h.length == 19
                    &&& h.protocol@ == PROTOCOL@
                    &&& h.frame() == bytes@
                },
                Err(HandshakeError::WrongSize) => bytes@.len() != HANDSHAKE_LEN,
                Err(HandshakeError::BadLength) => bytes@.len() == HANDSHAKE_LEN && bytes@[0] != 19,
                Err(HandshakeError::BadProtocol) => {
                    &&& bytes@.len() == HANDSHAKE_LEN
                    &&& bytes@[0] == 19
                    &&& bytes@.subrange(1, 20) != PROTOCOL@
                },
                Err(HandshakeError::InfoHashMismatch) => false,
            },
    {
        if bytes.len() != HANDSHAKE_LEN {
            return Err(HandshakeError::WrongSize);
        }
        if bytes[0] != 19 {
            return Err(HandshakeError::BadLength);
        }
        let protocol = slice_to_vec(&bytes[1..20]);
        if !bytes_equal(protocol.as_slice(), &PROTOCOL) {
            return Err(HandshakeError::BadProtocol);
        }
        let h = HandShake {
            length: 19,
            protocol,
            reserved: slice_to_vec(&bytes[20..28]),
            info_hash: slice_to_vec(&bytes[28..48]),
            peer_id: slice_to_vec(&bytes[48..68]),
        };
        assert(h.frame() =~= bytes@);
        Ok(h)
    }

    /// Reads the peer's reply to a handshake sent for `info_hash`: the reply
    /// must be a handshake for the same torrent.
    pub fn check_reply(bytes: &[u8], info_hash: &[u8]) -> (r: Result<HandShake, HandshakeError>)
        ensures
            match r {
                Ok(h) => {
                    &&& bytes@.len() == HANDSHAKE_LEN
                    &&& bytes@[0] == 19
                    &&& bytes@.subrange(1, 20) == PROTOCOL@
                    &&& bytes@.subrange(28, 48) == info_hash@
                    &&& h.wf()
                    &&& h.length == 19
                    &&& h.frame() == bytes@
                    &&& h.protocol@ == PROTOCOL@
                    &&& h.info_hash@ == info_hash@
                },
                Err(HandshakeError::InfoHashMismatch) => {
                    &&& bytes@.len() == HANDSHAKE_LEN
                    &&& bytes@[0] == 19
                    &&& bytes@.subrange(1, 20) == PROTOCOL@
                    &&& bytes@.subrange(28, 48) != info_hash@
                },
                Err(_) => {
                    ||| bytes@.len() != HANDSHAKE_LEN
                    ||| bytes@[0] != 19
                    ||| bytes@.subrange(1, 20) != PROTOCOL@
                },
            },
    {
        let h = HandShake::parse(bytes)?;
        proof {
            assert(bytes@.subrange(1, 20) =~= h.frame().subrange(1, 20));
            assert(h.frame().subrange(1, 20) =~= h.protocol@);
            assert(bytes@.subrange(28, 48) =~= h.frame().subrange(28, 48));
            assert(h.frame().subrange(28, 48) =~= h.info_hash@);
        }
        if !bytes_equal(h.info_hash.as_slice(), info_hash) {
            proof {
                assert(bytes@.subrange(1, 20) == h.protocol@) by {
                    assert(bytes@.subrange(1, 20) =~= h.frame().subrange(1, 20));
                }
                assert(bytes@.subrange(28, 48) =~= h.frame().subrange(28, 48));
                assert(h.frame().subrange(28, 48) =~= h.info_hash@);
            }
            return Err(HandshakeError::InfoHashMismatch);
        }
        Ok(h)
    }

    /// The peer id as 40 lowercase hex digits.
    pub fn peer_id_hex(&self) -> (r: String)
        ensures
            r@ == hex_text(self.peer_id@),
    {
        hex_encode(self.peer_id.as_slice())
    }
}

} // verus!
