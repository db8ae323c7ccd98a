use vstd::prelude::*;
use vstd::arithmetic::div_mod::{lemma_fundamental_div_mod, lemma_fundamental_div_mod_converse, lemma_add_mod_noop};
use crate::torrent::{Info, num_pieces};
use crate::digest::{sha1_of, sha1_digest};
use crate::decode::bytes_equal;

verus! {

/// The size of piece `index`: the nominal piece length, except for the last
/// piece, which holds what is left of the payload.
pub open spec fn piece_size_of(length: nat, piece_length: nat, index: nat) -> nat {
    if length - index * piece_length < piece_length {
        (length - index * piece_length) as nat
    } else {
        piece_length
    }
}

/// The total size of the first `k` pieces.
pub open spec fn pieces_total(length: nat, piece_length: nat, k: nat) -> nat
    decreases k,
{
    if k == 0 {
        0
    } else {
        pieces_total(length, piece_length, (k - 1) as nat) + piece_size_of(
            length,
            piece_length,
            (k - 1) as nat,
        )
    }
}

/// Every piece starts inside the payload, and all of them together reach
/// its end.
pub proof fn lemma_piece_bounds(length: nat, piece_length: nat, index: nat)
    requires
        piece_length > 0,
    ensures
        index < num_pieces(length, piece_length) ==> index * piece_length < length,
        num_pieces(length, piece_length) * piece_length >= length,
{
    let x = (length + piece_length - 1) as int;
    let d = piece_length as int;
    let q = x / d;
    lemma_fundamental_div_mod(x, d);
    assert(0 <= x % d < d);
    assert(q * d >= length) by (nonlinear_arith)
        requires
            x == d * q + x % d,
            x % d < d,
            x == length + d - 1,
    ;
    if index < q {
        assert(index * d < length) by (nonlinear_arith)
            requires
                index + 1 <= q,
                x == d * q + x % d,
                x % d >= 0,
                x == length + d - 1,
                d > 0,
        ;
    }
}

/// The piece count is the number of whole pieces, plus one for a short
/// last piece.
pub proof fn lemma_num_pieces(length: nat, piece_length: nat)
    requires
        piece_length > 0,
    ensures
        num_pieces(length, piece_length) == length / piece_length + if length % piece_length
            == 0 {
            0nat
        } else {
            1nat
        },
        num_pieces(length, piece_length) <= length,
{
    let d = piece_length as int;
    let q = length as int / d;
    let r = length as int % d;
    lemma_fundamental_div_mod(length as int, d);
    let x = length + d - 1;
    assert(length as int == q * d + r);
    if r == 0 {
        lemma_fundamental_div_mod_converse(x, d, q, d - 1);
    } else {
        assert(x == (q + 1) * d + (r - 1)) by (nonlinear_arith)
            requires
                x == length + d - 1,
                length as int == q * d + r,
        ;
        lemma_fundamental_div_mod_converse(x, d, q + 1, r - 1);
    }
    assert(q <= length) by (nonlinear_arith)
        requires
            length as int == q * d + r,
            d >= 1,
            r >= 0,
            q >= 0,
    ;
    if r != 0 {
        assert(q < length) by (nonlinear_arith)
            requires
                length as int == q * d + r,
                d >= 1,
                r >= 1,
                q >= 0,
        ;
    }
}

/// Payload length exactness: the pieces of a payload, each of the size
/// `piece_size_of` gives, add up to exactly the payload's length.
pub proof fn lemma_pieces_cover(length: nat, piece_length: nat)
    requires
        piece_length > 0,
    ensures
        pieces_total(length, piece_length, num_pieces(length, piece_length)) == length,
{
    let n = num_pieces(length, piece_length);
    lemma_pieces_prefix(length, piece_length, n);
    lemma_piece_bounds(length, piece_length, 0);
}

/// The first `k` pieces cover `k` nominal pieces, or the whole payload.
proof fn lemma_pieces_prefix(length: nat, piece_length: nat, k: nat)
    requires
        piece_length > 0,
        k <= num_pieces(length, piece_length),
    ensures
        pieces_total(length, piece_length, k) == if k * piece_length <= length {
            k * piece_length
        } else {
            length
        },
    decreases k,
{
    if k == 0 {
        assert(k * piece_length == 0);
    } else {
        let j = (k - 1) as nat;
        lemma_pieces_prefix(length, piece_length, j);
        lemma_piece_bounds(length, piece_length, j);
        assert(j * piece_length < length);
        assert(k * piece_length == j * piece_length + piece_length) by (nonlinear_arith)
            requires
                k == j + 1,
        ;
        assert(pieces_total(length, piece_length, k) == pieces_total(length, piece_length, j)
            + piece_size_of(length, piece_length, j));
    }
}

impl Info {
    /// The size of piece `index`.
    pub fn piece_size(&self, index: u32) -> (r: u32)
        requires
            self.wf(),
            index < self.piece_count(),
        ensures
            r == piece_size_of(self.length as nat, self.piece_length as nat, index as nat),
            r > 0,
    {
        proof {
            lemma_piece_bounds(self.length as nat, self.piece_length as nat, index as nat);
        }
        let start = index as u64 * self.piece_length as u64;
        let left = self.length - start;
        if left < self.piece_length as u64 {
            left as u32
        } else {
            self.piece_length
        }
    }
}

/// Why a download cannot be completed.
#[derive(Debug, Clone, Copy, PartialEq, Eq)]
pub enum DownloadError {
    /// A piece index past the last piece.
    UnknownPiece(u32),
    /// A piece whose size is not the one it must have.
    WrongSize(u32),
    /// A piece that was already stored.
    Duplicate(u32),
    /// A piece that never arrived.
    MissingPiece(u32),
    /// A piece whose SHA-1 digest is not the one the metainfo lists.
    PieceHashMismatch(u32),
    /// Every peer failed this piece.
    PieceFailed(u32),
    /// There is no peer to ask.
    NoPeers,
}

/// The digest that the metainfo lists for piece `index`.
pub open spec fn listed_digest(info: Info, index: nat) -> Seq<u8> {
    info.pieces@.subrange(20 * index as int, 20 * index as int + 20)
}

impl Info {
    /// Checks a downloaded piece against its listed SHA-1 digest.
    pub fn check_piece(&self, index: u32, data: &[u8]) -> (r: Result<(), DownloadError>)
        requires
            self.wf(),
            index < self.piece_count(),
        ensures
            r is Ok <==> sha1_of(data@) == listed_digest(*self, index as nat),
            r matches Err(e) ==> e == DownloadError::PieceHashMismatch(index),
    {
        let digest = sha1_digest(data);
        let total = self.pieces.len();
        assert(20 * index + 20 <= total);
        let start = 20 * index as usize;
        if bytes_equal(digest.as_slice(), &self.pieces.as_slice()[start..start + 20]) {
            Ok(())
        } else {
            Err(DownloadError::PieceHashMismatch(index))
        }
    }
}

/// The pieces stored in the slots, concatenated in index order.
pub open spec fn joined(slots: Seq<Option<Vec<u8>>>) -> Seq<u8>
    decreases slots.len(),
{
    if slots.len() == 0 {
        Seq::empty()
    } else {
        joined(slots.drop_last()) + match slots.last() {
            Some(d) => d@,
            None => Seq::empty(),
        }
    }
}

/// The payload being assembled: one slot per piece, filled as pieces arrive
/// in any order.
pub struct Payload {
    pub length: u64,
    pub piece_length: u32,
    pub slots: Vec<Option<Vec<u8>>>,
}

impl Payload {
    /// One slot per piece, and each stored piece has its size.
    pub open spec fn wf(&self) -> bool {
        &&& self.piece_length > 0
        &&& self.slots@.len() <= u32::MAX
        &&& self.slots@.len() == num_pieces(self.length as nat, self.piece_length as nat)
        &&& forall|i: int|
            0 <= i < self.slots@.len() ==> (#[trigger] self.slots@[i] matches Some(d) ==> d@.len()
                == piece_size_of(self.length as nat, self.piece_length as nat, i as nat))
    }

    /// An empty payload for the pieces of `info`.
    pub fn new(info: &Info) -> (p: Self)
        requires
            info.wf(),
        ensures
            p.wf(),
            p.length == info.length,
            p.piece_length == info.piece_length,
            forall|i: int| 0 <= i < p.slots@.len() ==> #[trigger] p.slots@[i] is None,
    {
        proof {
            lemma_num_pieces(info.length as nat, info.piece_length as nat);
        }
        let count = info.length / info.piece_length as u64 + if info.length
            % info.piece_length as u64 != 0 {
            1
        } else {
            0
        };
        let pieces_len = info.pieces.len();
        let mut slots: Vec<Option<Vec<u8>>> = Vec::new();
        let mut i: u64 = 0;
        while i < count
            invariant
                count == num_pieces(info.length as nat, info.piece_length as nat),
                20 * count <= usize::MAX,
                i <= count,
                slots@.len() == i,
                forall|k: int| 0 <= k < slots@.len() ==> #[trigger] slots@[k] is None,
            decreases count - i,
        {
            slots.push(None);
            i = i + 1;
        }
        Payload { length: info.length, piece_length: info.piece_length, slots }
    }

    /// Stores piece `index`. Refuses an index past the last piece, a piece
    /// of the wrong size, and a piece stored already; a refused piece leaves
    /// the payload as it was.
    pub fn insert(&mut self, index: u32, data: Vec<u8>) -> (r: Result<(), DownloadError>)
        requires
            old(self).wf(),
        ensures
            final(self).wf(),
            final(self).length == old(self).length,
            final(self).piece_length == old(self).piece_length,
            match r {
                Ok(()) => {
                    &&& index < old(self).slots@.len()
                    &&& old(self).slots@[index as int] is None
                    &&& data@.len() == piece_size_of(
                        old(self).length as nat,
                        old(self).piece_length as nat,
                        index as nat,
                    )
                    &&& final(self).slots@ == old(self).slots@.update(index as int, Some(data))
                },
                Err(DownloadError::UnknownPiece(i)) => i == index && index >= old(self).slots@.len()
                    && *final(self) == *old(self),
                Err(DownloadError::WrongSize(i)) => {
                    &&& i == index
                    &&& index < old(self).slots@.len()
                    &&& data@.len() != piece_size_of(
                        old(self).length as nat,
                        old(self).piece_length as nat,
                        index as nat,
                    )
                    &&& *final(self) == *old(self)
                },
                Err(DownloadError::Duplicate(i)) => {
                    &&& i == index
                    &&& index < old(self).slots@.len()
                    &&& old(self).slots@[index as int] is Some
                    &&& *final(self) == *old(self)
                },
                Err(_) => false,
            },
    {
        if index as usize >= self.slots.len() {
            return Err(DownloadError::UnknownPiece(index));
        }
        proof {
            lemma_piece_bounds(self.length as nat, self.piece_length as nat, index as nat);
        }
        let start = index as u64 * self.piece_length as u64;
        let left = self.length - start;
        let size = if left < self.piece_length as u64 { left } else { self.piece_length as u64 };
        if data.len() as u64 != size {
            return Err(DownloadError::WrongSize(index));
        }
        match &self.slots[index as usize] {
            Some(_) => {
                return Err(DownloadError::Duplicate(index));
            },
            None => {},
        }
        self.slots.set(index as usize, Some(data));
        Ok(())
    }

    /// Concatenates the pieces in index order, once every piece is stored.
    /// The result is exactly `length` bytes long.
    pub fn finish(&self) -> (r: Result<Vec<u8>, DownloadError>)
        requires
            self.wf(),
        ensures
            match r {
                Ok(bytes) => {
                    &&& forall|i: int| 0 <= i < self.slots@.len() ==> #[trigger] self.slots@[i] is Some
                    &&& bytes@ == joined(self.slots@)
                    &&& bytes@.len() == self.length
                },
                Err(DownloadError::MissingPiece(i)) => i < self.slots@.len() && self.slots@[i as int] is None,
                Err(_) => false,
            },
    {
        let mut out: Vec<u8> = Vec::new();
        let mut i: usize = 0;
        while i < self.slots.len()
            invariant
                self.wf(),
                i <= self.slots@.len(),
                forall|k: int| 0 <= k < i ==> #[trigger] self.slots@[k] is Some,
                out@ == joined(self.slots@.subrange(0, i as int)),
                out@.len() == pieces_total(self.length as nat, self.piece_length as nat, i as nat),
            decreases self.slots@.len() - i,
        {
            proof {
                assert(self.slots@.subrange(0, i + 1).drop_last() =~= self.slots@.subrange(0, i as int));
            }
            match &self.slots[i] {
                Some(d) => {
                    out.extend_from_slice(d.as_slice());
                },
                None => {
                    return Err(DownloadError::MissingPiece(i as u32));
                },
            }
            i = i + 1;
        }
        proof {
            assert(self.slots@.subrange(0, i as int) =~= self.slots@);
            lemma_pieces_cover(self.length as nat, self.piece_length as nat);
        }
        Ok(out)
    }
}

/// The peer that attempt `attempt` of piece `index` goes to: pieces are
/// dealt round-robin, and each retry moves on to the next peer.
pub fn peer_for(index: u32, attempt: usize, peers: usize) -> (r: usize)
    requires
        peers > 0,
    ensures
        r == (index + attempt) % (peers as int),
        r < peers,
{
    let a = index as usize % peers;
    let b = attempt % peers;
    proof {
        lemma_add_mod_noop(index as int, attempt as int, peers as int);
    }
    if a >= peers - b {
        proof {
            lemma_fundamental_div_mod_converse(a + b, peers as int, 1, a + b - peers);
        }
        a - (peers - b)
    } else {
        proof {
            lemma_fundamental_div_mod_converse(a + b, peers as int, 0, a + b);
        }
        a + b
    }
}

/// The peer for the next attempt at piece `index` after attempt `attempt`
/// failed, or `PieceFailed` once every peer has failed it.
pub fn retry(index: u32, attempt: usize, peers: usize) -> (r: Result<usize, DownloadError>)
    ensures
        match r {
            Ok(p) => peers > 0 && attempt + 1 < peers && p == (index + attempt + 1) % (peers as int),
            Err(e) => peers == 0 && e == DownloadError::NoPeers || peers > 0 && attempt + 1 >= peers
                && e == DownloadError::PieceFailed(index),
        },
{
    if peers == 0 {
        return Err(DownloadError::NoPeers);
    }
    if attempt >= peers - 1 {
        return Err(DownloadError::PieceFailed(index));
    }
    Ok(peer_for(index, attempt + 1, peers))
}

/// Splits the piece indices `0..count` into consecutive batches of at most
/// `peers` pieces, so that each peer has at most one piece in flight.
pub fn batches(count: u32, peers: u32) -> (r: Vec<(u32, u32)>)
    requires
        peers > 0,
    ensures
        r@.len() == num_pieces(count as nat, peers as nat),
        forall|k: int|
            0 <= k < r@.len() ==> #[trigger] r@[k] == ((k * peers) as u32, if (k + 1) * peers
                <= count {
                ((k + 1) * peers) as u32
            } else {
                count
            }),
{
    let mut out: Vec<(u32, u32)> = Vec::new();
    proof {
        lemma_num_pieces(count as nat, peers as nat);
    }
    let n = count / peers + if count % peers != 0 { 1 } else { 0 };
    let mut k: u32 = 0;
    while k < n
        invariant
            k <= n,
            n == num_pieces(count as nat, peers as nat),
            out@.len() == k,
            forall|j: int|
                0 <= j < out@.len() ==> #[trigger] out@[j] == ((j * peers) as u32, if (j + 1)
                    * peers <= count {
                    ((j + 1) * peers) as u32
                } else {
                    count
                }),
        decreases n - k,
    {
        proof {
            lemma_piece_bounds(count as nat, peers as nat, k as nat);
            assert((k + 1) * peers == k * peers + peers) by (nonlinear_arith);
        }
        let start = k * peers;
        let end = if count - start <= peers { count } else { start + peers };
        out.push((start, end));
        k = k + 1;
    }
    out
}

} // verus!
