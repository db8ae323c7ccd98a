use vstd::prelude::*;
use vstd::slice::slice_to_vec;

verus! {

/// The size of one block request: 16 KiB.
pub const BLOCK_SIZE: u32 = 16384;

pub const CHOKE: u8 = 0;
pub const UNCHOKE: u8 = 1;
pub const INTERESTED: u8 = 2;
pub const NOT_INTERESTED: u8 = 3;
pub const HAVE: u8 = 4;
pub const BITFIELD: u8 = 5;
pub const REQUEST: u8 = 6;
pub const PIECE: u8 = 7;
pub const CANCEL: u8 = 8;

/// The four big-endian bytes of `n`.
pub open spec fn be32(n: u32) -> Seq<u8> {
    seq![(n / 0x100_0000) as u8, ((n / 0x1_0000) % 256) as u8, ((n / 0x100) % 256) as u8, (n % 256) as u8]
}

/// The number that four big-endian bytes stand for.
pub open spec fn be32_value(b: Seq<u8>) -> nat {
    (b[0] * 0x100_0000 + b[1] * 0x1_0000 + b[2] * 0x100 + b[3]) as nat
}

/// A peer message on the wire: the length of id and payload, the id, the
/// payload.
pub open spec fn message_frame(id: u8, payload: Seq<u8>) -> Seq<u8> {
    be32((payload.len() + 1) as u32) + seq![id] + payload
}

/// The payload of a `request`: piece index, offset in the piece, length.
pub open spec fn request_bytes(index: u32, begin: u32, length: u32) -> Seq<u8> {
    be32(index) + be32(begin) + be32(length)
}

/// The length of the block that starts at `begin` in a piece of
/// `piece_len` bytes: a full block, or what is left of the piece.
pub open spec fn block_len(piece_len: nat, begin: nat) -> nat {
    if piece_len - begin < BLOCK_SIZE {
        (piece_len - begin) as nat
    } else {
        BLOCK_SIZE as nat
    }
}

/// How many blocks a piece of `piece_len` bytes is requested in.
pub open spec fn block_count(piece_len: nat) -> nat {
    ((piece_len + BLOCK_SIZE - 1) as int / BLOCK_SIZE as int) as nat
}

pub(crate) fn push_be32(out: &mut Vec<u8>, n: u32)
    ensures
        final(out)@ == old(out)@ + be32(n),
{
    out.push((n / 0x100_0000) as u8);
    out.push(((n / 0x1_0000) % 256) as u8);
    out.push(((n / 0x100) % 256) as u8);
    out.push((n % 256) as u8);
    assert(final(out)@ =~= old(out)@ + be32(n));
}

/// Reads a big-endian 32-bit number, as in a message's length prefix.
pub fn read_be32(b: &[u8]) -> (r: u32)
    requires
        b@.len() == 4,
    ensures
        r == be32_value(b@),
{
    let v: u64 = b[0] as u64 * 0x100_0000 + b[1] as u64 * 0x1_0000 + b[2] as u64 * 0x100 + b[3] as u64;
    v as u32
}

/// Frames a message: `[length of id and payload, big-endian][id][payload]`.
pub fn frame_message(id: u8, payload: &[u8]) -> (r: Vec<u8>)
    requires
        payload@.len() + 1 <= u32::MAX,
    ensures
        r@ == message_frame(id, payload@),
{
    let mut out: Vec<u8> = Vec::new();
    push_be32(&mut out, (payload.len() + 1) as u32);
    out.push(id);
    out.extend_from_slice(payload);
    assert(out@ =~= message_frame(id, payload@));
    out
}

/// Splits the body of a received message (the bytes after its length
/// prefix) into id and payload. An empty body is a keep-alive, which carries
/// no message: `None`.
pub fn split_message(body: &[u8]) -> (r: Option<(u8, Vec<u8>)>)
    ensures
        r is None <==> body@.len() == 0,
        r matches Some((id, payload)) ==> id == body@[0] && payload@ == body@.subrange(
            1,
            body@.len() as int,
        ),
{
    if body.len() == 0 {
        None
    } else {
        Some((body[0], slice_to_vec(&body[1..body.len()])))
    }
}

/// The payload of a `request` message.
pub fn request_payload(index: u32, begin: u32, length: u32) -> (r: Vec<u8>)
    ensures
        r@ == request_bytes(index, begin, length),
{
    let mut out: Vec<u8> = Vec::new();
    push_be32(&mut out, index);
    push_be32(&mut out, begin);
    push_be32(&mut out, length);
    assert(out@ =~= request_bytes(index, begin, length));
    out
}

/// The requests for a piece: offset and length of each block, in order.
pub fn block_requests(piece_len: u32) -> (r: Vec<(u32, u32)>)
    ensures
        r@.len() == block_count(piece_len as nat),
        forall|i: int|
            0 <= i < r@.len() ==> #[trigger] r@[i] == (
                (i * BLOCK_SIZE) as u32,
                block_len(piece_len as nat, (i * BLOCK_SIZE) as nat) as u32,
            ),
{
    let mut out: Vec<(u32, u32)> = Vec::new();
    let count: u32 = piece_len / BLOCK_SIZE + if piece_len % BLOCK_SIZE != 0 { 1 } else { 0 };
    let mut k: u32 = 0;
    while k < count
        invariant
            k <= count,
            count == block_count(piece_len as nat),
            out@.len() == k,
            forall|i: int|
                0 <= i < out@.len() ==> #[trigger] out@[i] == (
                    (i * BLOCK_SIZE) as u32,
                    block_len(piece_len as nat, (i * BLOCK_SIZE) as nat) as u32,
                ),
        decreases count - k,
    {
        let begin = k * BLOCK_SIZE;
        let left = piece_len - begin;
        let length = if left < BLOCK_SIZE { left } else { BLOCK_SIZE };
        out.push((begin, length));
        k = k + 1;
    }
    out
}

/// Block tiling: a piece of `p` bytes is requested as `p / B` full blocks of
/// `B` bytes, then one block with the `p - (p / B) * B` bytes left where
/// that is not zero; the blocks start at multiples of `B`.
pub proof fn lemma_block_tiling(p: nat)
    ensures
        block_count(p) == p / (BLOCK_SIZE as nat) + if p % (BLOCK_SIZE as nat) == 0 {
            0nat
        } else {
            1nat
        },
        forall|i: nat|
            i < p / (BLOCK_SIZE as nat) ==> #[trigger] block_len(p, i * BLOCK_SIZE as nat)
                == BLOCK_SIZE,
        p % (BLOCK_SIZE as nat) != 0 ==> block_len(p, (p / (BLOCK_SIZE as nat)) * BLOCK_SIZE as nat)
            == p - (p / (BLOCK_SIZE as nat)) * BLOCK_SIZE as nat,
{
}

/// Where a piece download stands.
#[derive(Debug, Clone, Copy, PartialEq, Eq, Structural)]
pub enum Stage {
    /// Waiting for the peer's `bitfield`.
    AwaitingBitfield,
    /// About to send `interested`.
    ReadyToExpress,
    /// Waiting for `unchoke`.
    Choked,
    /// About to request the next block.
    Unchoked,
    /// Waiting for the block requested last.
    Requested,
    /// Every block has arrived.
    Done,
}

/// What the connection should do next.
#[derive(Debug, PartialEq, Eq)]
pub enum Action {
    /// Send a message with this id and payload.
    Send(u8, Vec<u8>),
    /// Read the next message and deliver it.
    Wait,
    /// The piece is complete.
    Finished,
}

/// Why a peer's message is refused.
#[derive(Debug, Clone, Copy, PartialEq, Eq)]
pub enum PeerError {
    /// A message with an id that the current stage does not expect.
    UnexpectedMessage { expected: u8, got: u8 },
    /// A `piece` message for another piece, another offset, or of the wrong
    /// length.
    BadBlock,
}

/// The download of one piece over one connection, after the handshake:
/// `bitfield`, `interested`, `unchoke`, then one `request` and `piece` per
/// block.
pub struct PieceDownload {
    pub index: u32,
    pub piece_len: u32,
    pub stage: Stage,
    /// The blocks received so far, in order.
    pub data: Vec<u8>,
}

impl PieceDownload {
    /// The bytes received never pass the piece's end, stop only at a block
    /// boundary, and fill the piece exactly once done.
    pub open spec fn wf(&self) -> bool {
        &&& self.piece_len > 0
        &&& self.data@.len() <= self.piece_len
        &&& self.data@.len() % (BLOCK_SIZE as nat) == 0 || self.data@.len() == self.piece_len
        &&& (self.stage == Stage::Done) == (self.data@.len() == self.piece_len)
    }

    /// The offset of the next block to request or receive.
    pub open spec fn offset(&self) -> nat {
        self.data@.len()
    }

    /// Starts the download of piece `index`, `piece_len` bytes long.
    pub fn new(index: u32, piece_len: u32) -> (d: Self)
        requires
            piece_len > 0,
        ensures
            d.wf(),
            d.index == index,
            d.piece_len == piece_len,
            d.stage == Stage::AwaitingBitfield,
            d.data@.len() == 0,
    {
        PieceDownload { index, piece_len, stage: Stage::AwaitingBitfield, data: Vec::new() }
    }

    /// The next step: send `interested`, request the next block, wait for a
    /// message, or stop.
    pub fn next_action(&self) -> (a: Action)
        requires
            self.wf(),
        ensures
            match self.stage {
                Stage::ReadyToExpress => a matches Action::Send(id, p) && id == INTERESTED && p@.len()
                    == 0,
                Stage::Unchoked => a matches Action::Send(id, p) && id == REQUEST && p@
                    == request_bytes(
                    self.index,
                    self.offset() as u32,
                    block_len(self.piece_len as nat, self.offset()) as u32,
                ),
                Stage::Done => a is Finished,
                _ => a is Wait,
            },
    {
        match self.stage {
            Stage::ReadyToExpress => Action::Send(INTERESTED, Vec::new()),
            Stage::Unchoked => {
                let begin = self.data.len() as u32;
                let left = self.piece_len - begin;
                let length = if left < BLOCK_SIZE { left } else { BLOCK_SIZE };
                Action::Send(REQUEST, request_payload(self.index, begin, length))
            },
            Stage::Done => Action::Finished,
            _ => Action::Wait,
        }
    }

    /// Records that the message of `next_action` was sent.
    pub fn sent(&mut self)
        requires
            old(self).wf(),
        ensures
            final(self).wf(),
            final(self).index == old(self).index,
            final(self).piece_len == old(self).piece_len,
            final(self).data@ == old(self).data@,
            final(self).stage == match old(self).stage {
                Stage::ReadyToExpress => Stage::Choked,
                Stage::Unchoked => Stage::Requested,
                other => other,
            },
    {
        match self.stage {
            Stage::ReadyToExpress => self.stage = Stage::Choked,
            Stage::Unchoked => self.stage = Stage::Requested,
            _ => {},
        }
    }

    /// Takes a received message. `have` is ignored while waiting for the
    /// bitfield; otherwise only the expected id is accepted, and a block must
    /// echo this piece's index and the requested offset and carry exactly the
    /// requested length. On refusal the download is unchanged.
    pub fn deliver(&mut self, id: u8, payload: &[u8]) -> (r: Result<(), PeerError>)
        requires
            old(self).wf(),
        ensures
            final(self).wf(),
            final(self).index == old(self).index,
            final(self).piece_len == old(self).piece_len,
            match old(self).stage {
                Stage::AwaitingBitfield => if id == BITFIELD {
                    r is Ok && final(self).stage == Stage::ReadyToExpress && final(self).data@
                        == old(self).data@
                } else if id == HAVE {
                    r is Ok && *final(self) == *old(self)
                } else {
                    r == Err::<(), PeerError>(PeerError::UnexpectedMessage { expected: BITFIELD, got: id })
                        && *final(self) == *old(self)
                },
                Stage::Choked => if id == UNCHOKE {
                    r is Ok && final(self).stage == Stage::Unchoked && final(self).data@
                        == old(self).data@
                } else {
                    r == Err::<(), PeerError>(PeerError::UnexpectedMessage { expected: UNCHOKE, got: id })
                        && *final(self) == *old(self)
                },
                Stage::Requested => if id == PIECE && payload@.len() >= 8 && be32_value(
                    payload@.subrange(0, 4),
                ) == old(self).index && be32_value(payload@.subrange(4, 8)) == old(self).offset()
                    && payload@.len() - 8 == block_len(
                    old(self).piece_len as nat,
                    old(self).offset(),
                ) {
                    &&& r is Ok
                    &&& final(self).data@ == old(self).data@ + payload@.subrange(
                        8,
                        payload@.len() as int,
                    )
                    &&& final(self).stage == if final(self).data@.len() == old(self).piece_len {
                        Stage::Done
                    } else {
                        Stage::Unchoked
                    }
                } else if id == PIECE {
                    r == Err::<(), PeerError>(PeerError::BadBlock) && *final(self) == *old(self)
                } else {
                    r == Err::<(), PeerError>(PeerError::UnexpectedMessage { expected: PIECE, got: id })
                        && *final(self) == *old(self)
                },
                _ => r is Err && *final(self) == *old(self),
            },
    {
        match self.stage {
            Stage::AwaitingBitfield => {
                if id == BITFIELD {
                    self.stage = Stage::ReadyToExpress;
                    Ok(())
                } else if id == HAVE {
                    Ok(())
                } else {
                    Err(PeerError::UnexpectedMessage { expected: BITFIELD, got: id })
                }
            },
            Stage::Choked => {
                if id == UNCHOKE {
                    self.stage = Stage::Unchoked;
                    Ok(())
                } else {
                    Err(PeerError::UnexpectedMessage { expected: UNCHOKE, got: id })
                }
            },
            Stage::Requested => {
                if id != PIECE {
                    return Err(PeerError::UnexpectedMessage { expected: PIECE, got: id });
                }
                if payload.len() < 8 {
                    return Err(PeerError::BadBlock);
                }
                let begin = self.data.len() as u32;
                let left = self.piece_len - begin;
                let length = if left < BLOCK_SIZE { left } else { BLOCK_SIZE };
                let echoed_index = read_be32(&payload[0..4]);
                let echoed_begin = read_be32(&payload[4..8]);
                if echoed_index != self.index || echoed_begin != begin || payload.len() - 8
                    != length as usize {
                    return Err(PeerError::BadBlock);
                }
                let mut block = slice_to_vec(&payload[8..payload.len()]);
                self.data.append(&mut block);
                if self.data.len() == self.piece_len as usize {
                    self.stage = Stage::Done;
                } else {
                    self.stage = Stage::Unchoked;
                }
                Ok(())
            },
            Stage::ReadyToExpress => Err(PeerError::UnexpectedMessage { expected: UNCHOKE, got: id }),
            Stage::Unchoked => Err(PeerError::UnexpectedMessage { expected: PIECE, got: id }),
            Stage::Done => Err(PeerError::UnexpectedMessage { expected: PIECE, got: id }),
        }
    }
}

} // verus!
