use vstd::prelude::*;
use vstd::slice::slice_to_vec;
use vstd::utf8::{valid_utf8, decode_utf8, encode_utf8, decode_utf8_encode_utf8};
use crate::bencode::{Value, encoding, string_encoding, entries_encoding, entry_encoding, int_text};
use crate::bencode::{well_formed, is_prefix, starts_with_value, push_nat, push_string, INT_START, END, DICT_START};
use crate::decode::{Decoder, DecodeError};
use crate::digest::{sha1_of, sha1_digest};
use crate::text::{hex_text, percent_text, ascii_text, hex_encode, percent_encode, utf8_string, decimal};
use crate::bencode::nat_text;
use vstd::string::StringExecFns;

verus! {

/// Dictionary key `announce`.
pub const KEY_ANNOUNCE: [u8; 8] = [97, 110, 110, 111, 117, 110, 99, 101];
/// Dictionary key `info`.
pub const KEY_INFO: [u8; 4] = [105, 110, 102, 111];
/// Dictionary key `length`.
pub const KEY_LENGTH: [u8; 6] = [108, 101, 110, 103, 116, 104];
/// Dictionary key `name`.
pub const KEY_NAME: [u8; 4] = [110, 97, 109, 101];
/// Dictionary key `piece length`.
pub const KEY_PIECE_LENGTH: [u8; 12] = [112, 105, 101, 99, 101, 32, 108, 101, 110, 103, 116, 104];
/// Dictionary key `pieces`.
pub const KEY_PIECES: [u8; 6] = [112, 105, 101, 99, 101, 115];

/// The value of the first entry with the given key.
pub open spec fn lookup(entries: Seq<(Vec<u8>, Value)>, key: Seq<u8>) -> Option<Value>
    decreases entries.len(),
{
    if entries.len() == 0 {
        None
    } else if entries[0].0@ == key {
        Some(entries[0].1)
    } else {
        lookup(entries.drop_first(), key)
    }
}

/// The value under `key` where `v` is a dictionary.
pub open spec fn field(v: Value, key: Seq<u8>) -> Option<Value> {
    match v {
        Value::Dictionary(entries) => lookup(entries@, key),
        _ => None,
    }
}

/// The text under `key`: a byte string that is valid UTF-8.
pub open spec fn text_field(v: Value, key: Seq<u8>) -> Option<Seq<char>> {
    match field(v, key) {
        Some(Value::ByteString(b)) => if valid_utf8(b@) {
            Some(decode_utf8(b@))
        } else {
            None
        },
        _ => None,
    }
}

/// The integer under `key`.
pub open spec fn int_field(v: Value, key: Seq<u8>) -> Option<int> {
    match field(v, key) {
        Some(Value::Integer(n)) => Some(n as int),
        _ => None,
    }
}

/// The byte string under `key`.
pub open spec fn bytes_field(v: Value, key: Seq<u8>) -> Option<Seq<u8>> {
    match field(v, key) {
        Some(Value::ByteString(b)) => Some(b@),
        _ => None,
    }
}

/// How many pieces a payload of `length` bytes has: the last may be short.
pub open spec fn num_pieces(length: nat, piece_length: nat) -> nat {
    if piece_length == 0 {
        0
    } else {
        ((length + piece_length - 1) as int / piece_length as int) as nat
    }
}

/// The `info` dictionary of a single-file torrent.
pub struct Info {
    /// Size of the payload in bytes.
    pub length: u64,
    pub name: String,
    /// Nominal size of each piece in bytes; the last piece may be shorter.
    pub piece_length: u32,
    /// The SHA-1 digests of the pieces, 20 bytes each, one after the other.
    pub pieces: Vec<u8>,
}

impl Info {
    /// The piece length is positive, there is one digest per piece, piece
    /// indices fit in the 32 bits that peer messages carry, and the length
    /// fits in a bencode integer.
    pub open spec fn wf(&self) -> bool {
        &&& self.piece_length > 0
        &&& self.pieces@.len() == 20 * num_pieces(self.length as nat, self.piece_length as nat)
        &&& num_pieces(self.length as nat, self.piece_length as nat) <= u32::MAX
        &&& self.length <= i64::MAX
    }

    pub open spec fn piece_count(&self) -> nat {
        num_pieces(self.length as nat, self.piece_length as nat)
    }
}

/// A torrent's metainfo.
pub struct Torrent {
    /// The tracker's URL.
    pub announce: String,
    pub info: Info,
    /// The bytes of the `info` dictionary exactly as the file holds them.
    pub info_bytes: Vec<u8>,
}

/// A field of the metainfo.
#[derive(Debug, Clone, Copy, PartialEq, Eq)]
pub enum Field {
    Announce,
    Info,
    Length,
    Name,
    PieceLength,
    Pieces,
}

/// Why bytes are not a torrent's metainfo.
#[derive(Debug, Clone, Copy, PartialEq, Eq)]
pub enum MetainfoError {
    /// The bytes are not bencoded.
    Decode(DecodeError),
    /// The decoded value is not a dictionary.
    NotADictionary,
    /// A required field is absent.
    Missing(Field),
    /// A field holds a value of the wrong kind or out of range.
    Mistyped(Field),
    /// `pieces` does not hold one 20-byte digest per piece.
    PieceCountMismatch,
}

/// True where `t` is the torrent that the decoded value `v` describes.
pub open spec fn describes(t: Torrent, v: Value) -> bool {
    match field(v, KEY_INFO@) {
        Some(info) => {
            &&& info is Dictionary
            &&& text_field(v, KEY_ANNOUNCE@) == Some(t.announce@)
            &&& text_field(info, KEY_NAME@) == Some(t.info.name@)
            &&& int_field(info, KEY_LENGTH@) == Some(t.info.length as int)
            &&& int_field(info, KEY_PIECE_LENGTH@) == Some(t.info.piece_length as int)
            &&& bytes_field(info, KEY_PIECES@) == Some(t.info.pieces@)
            &&& t.info_bytes@ == encoding(info)
            &&& t.info.wf()
        },
        None => false,
    }
}

/// Finds the value under `key` where `v` is a dictionary.
fn get_field<'v>(v: &'v Value, key: &[u8]) -> (r: Option<&'v Value>)
    ensures
        match r {
            Some(x) => field(*v, key@) == Some(*x),
            None => field(*v, key@) is None,
        },
{
    match v {
        Value::Dictionary(entries) => {
            let mut i: usize = 0;
            assert(entries@.subrange(0, entries@.len() as int) =~= entries@);
            while i < entries.len()
                invariant
                    i <= entries@.len(),
                    *v == Value::Dictionary(*entries),
                    lookup(entries@, key@) == lookup(
                        entries@.subrange(i as int, entries@.len() as int),
                        key@,
                    ),
                decreases entries@.len() - i,
            {
                let ghost rest = entries@.subrange(i as int, entries@.len() as int);
                assert(rest.drop_first() =~= entries@.subrange(i + 1, entries@.len() as int));
                assert(rest[0] == entries@[i as int]);
                if crate::decode::bytes_equal(entries[i].0.as_slice(), key) {
                    return Some(&entries[i].1);
                }
                i = i + 1;
            }
            None
        },
        _ => None,
    }
}

/// The bencoding of the typed `info` model: its four fields in ascending
/// key order.
pub open spec fn info_encoding(i: Info) -> Seq<u8> {
    seq![DICT_START] + string_encoding(KEY_LENGTH@) + seq![INT_START] + int_text(i.length as int)
        + seq![END] + string_encoding(KEY_NAME@) + string_encoding(encode_utf8(i.name@))
        + string_encoding(KEY_PIECE_LENGTH@) + seq![INT_START] + int_text(i.piece_length as int)
        + seq![END] + string_encoding(KEY_PIECES@) + string_encoding(i.pieces@) + seq![END]
}

/// Finds the byte string under `key` where `v` is a dictionary.
pub(crate) fn get_bytes<'v>(v: &'v Value, key: &[u8]) -> (r: Option<&'v Vec<u8>>)
    ensures
        match r {
            Some(b) => bytes_field(*v, key@) == Some(b@),
            None => bytes_field(*v, key@) is None,
        },
{
    match get_field(v, key) {
        Some(Value::ByteString(b)) => Some(b),
        _ => None,
    }
}

/// Reads the text under `key` of a dictionary.
fn text_of(v: &Value, key: &[u8], which: Field) -> (r: Result<String, MetainfoError>)
    ensures
        match r {
            Ok(s) => text_field(*v, key@) == Some(s@),
            Err(e) => {
                &&& text_field(*v, key@) is None
                &&& e == MetainfoError::Missing(which) <==> field(*v, key@) is None
                &&& e == MetainfoError::Missing(which) || e == MetainfoError::Mistyped(which)
            },
        },
{
    match get_field(v, key) {
        Some(Value::ByteString(b)) => match utf8_string(b.as_slice()) {
            Some(s) => Ok(s),
            None => Err(MetainfoError::Mistyped(which)),
        },
        Some(_) => Err(MetainfoError::Mistyped(which)),
        None => Err(MetainfoError::Missing(which)),
    }
}

/// Reads the integer under `key` of a dictionary.
fn int_of(v: &Value, key: &[u8], which: Field) -> (r: Result<i64, MetainfoError>)
    ensures
        match r {
            Ok(n) => int_field(*v, key@) == Some(n as int),
            Err(e) => {
                &&& int_field(*v, key@) is None
                &&& e == MetainfoError::Missing(which) <==> field(*v, key@) is None
                &&& e == MetainfoError::Missing(which) || e == MetainfoError::Mistyped(which)
            },
        },
{
    match get_field(v, key) {
        Some(Value::Integer(n)) => Ok(*n),
        Some(_) => Err(MetainfoError::Mistyped(which)),
        None => Err(MetainfoError::Missing(which)),
    }
}

impl Torrent {
    /// Lifts a decoded value into the metainfo it describes; fails exactly
    /// when no torrent fits it.
    pub fn from_value(v: &Value) -> (r: Result<Torrent, MetainfoError>)
        ensures
            match r {
                Ok(t) => describes(t, *v),
                Err(e) => {
                    &&& !(e is Decode)
                    &&& forall|t: Torrent| !#[trigger] describes(t, *v)
                    &&& e == MetainfoError::NotADictionary <==> !(v is Dictionary)
                    &&& e == MetainfoError::Missing(Field::Info) <==> (v is Dictionary && field(
                        *v,
                        KEY_INFO@,
                    ) is None)
                },
            },
    {
        if !matches!(v, Value::Dictionary(_)) {
            return Err(MetainfoError::NotADictionary);
        }
        let info = match get_field(v, &KEY_INFO) {
            Some(info) => info,
            None => return Err(MetainfoError::Missing(Field::Info)),
        };
        if !matches!(info, Value::Dictionary(_)) {
            return Err(MetainfoError::Mistyped(Field::Info));
        }
        let announce = text_of(v, &KEY_ANNOUNCE, Field::Announce)?;
        let name = text_of(info, &KEY_NAME, Field::Name)?;
        let length = int_of(info, &KEY_LENGTH, Field::Length)?;
        if length < 0 {
            return Err(MetainfoError::Mistyped(Field::Length));
        }
        let piece_length = int_of(info, &KEY_PIECE_LENGTH, Field::PieceLength)?;
        if piece_length <= 0 || piece_length > 0xffff_ffff {
            return Err(MetainfoError::Mistyped(Field::PieceLength));
        }
        let pieces = match get_field(info, &KEY_PIECES) {
            Some(Value::ByteString(b)) => b,
            Some(_) => return Err(MetainfoError::Mistyped(Field::Pieces)),
            None => return Err(MetainfoError::Missing(Field::Pieces)),
        };
        let length = length as u64;
        let piece_length = piece_length as u32;
        let count = (length + piece_length as u64 - 1) / piece_length as u64;
        if count > 0xffff_ffff {
            return Err(MetainfoError::Mistyped(Field::Length));
        }
        if count > pieces.len() as u64 / 20 || 20 * count != pieces.len() as u64 {
            return Err(MetainfoError::PieceCountMismatch);
        }
        let info_bytes = info.encode();
        let copied = slice_to_vec(pieces.as_slice());
        Ok(Torrent {
            announce,
            info: Info { length, name, piece_length, pieces: copied },
            info_bytes,
        })
    }

    /// Decodes a metainfo file. Fails with `Decode` exactly when the bytes do
    /// not start with a bencoded value, and otherwise exactly when no torrent
    /// fits the value they start with.
    pub fn from_bytes(bytes: &[u8]) -> (r: Result<Torrent, MetainfoError>)
        ensures
            match r {
                Ok(t) => exists|v: Value|
                    well_formed(v) && is_prefix(encoding(v), bytes@) && #[trigger] describes(t, v),
                Err(MetainfoError::Decode(_)) => !starts_with_value(bytes@),
                Err(_) => exists|v: Value|
                    well_formed(v) && is_prefix(#[trigger] encoding(v), bytes@) && forall|t: Torrent|
                        !#[trigger] describes(t, v),
            },
    {
        let mut decoder = Decoder::new(bytes);
        match decoder.decode() {
            Ok(v) => {
                proof {
                    assert(bytes@.subrange(0, encoding(v).len() as int) == encoding(v));
                }
                Torrent::from_value(&v)
            },
            Err(e) => {
                proof {
                    assert(bytes@.subrange(0, bytes@.len() as int) =~= bytes@);
                }
                Err(MetainfoError::Decode(e))
            },
        }
    }

    /// The SHA-1 digest of the `info` dictionary's bytes.
    pub fn raw_info_hash(&self) -> (r: Vec<u8>)
        ensures
            r@ == sha1_of(self.info_bytes@),
            r@.len() == 20,
    {
        sha1_digest(self.info_bytes.as_slice())
    }

    /// The info hash as 40 lowercase hex digits.
    pub fn info_hash(&self) -> (r: String)
        ensures
            r@ == hex_text(sha1_of(self.info_bytes@)),
    {
        let raw = self.raw_info_hash();
        hex_encode(raw.as_slice())
    }

    /// The info hash percent-encoded for a URL query: `%` before each pair of
    /// hex digits, 60 characters.
    pub fn url_encoded_info_hash(&self) -> (r: String)
        ensures
            r@ == percent_text(sha1_of(self.info_bytes@)),
            r@.len() == 60,
    {
        let raw = self.raw_info_hash();
        percent_encode(raw.as_slice())
    }
}

impl Info {
    /// Encodes the typed model back to bencode, fields in ascending key
    /// order.
    pub fn encode(&self) -> (r: Vec<u8>)
        requires
            self.length <= i64::MAX,
        ensures
            r@ == info_encoding(*self),
    {
        let mut out: Vec<u8> = Vec::new();
        out.push(DICT_START);
        push_string(&mut out, &KEY_LENGTH);
        out.push(INT_START);
        push_nat(&mut out, self.length);
        out.push(END);
        push_string(&mut out, &KEY_NAME);
        push_string(&mut out, self.name.as_str().as_bytes());
        push_string(&mut out, &KEY_PIECE_LENGTH);
        out.push(INT_START);
        push_nat(&mut out, self.piece_length as u64);
        out.push(END);
        push_string(&mut out, &KEY_PIECES);
        push_string(&mut out, self.pieces.as_slice());
        out.push(END);
        assert(out@ =~= info_encoding(*self));
        out
    }

    /// The SHA-1 digest of the typed model's encoding.
    pub fn hash(&self) -> (r: Vec<u8>)
        requires
            self.length <= i64::MAX,
        ensures
            r@ == sha1_of(info_encoding(*self)),
            r@.len() == 20,
    {
        let bytes = self.encode();
        sha1_digest(bytes.as_slice())
    }
}

/// The hex digests of the first `k` pieces, one per line.
pub open spec fn hash_lines(pieces: Seq<u8>, k: nat) -> Seq<char>
    decreases k,
{
    if k == 0 {
        Seq::empty()
    } else if k == 1 {
        hex_text(pieces.subrange(0, 20))
    } else {
        hash_lines(pieces, (k - 1) as nat) + seq!['\n'] + hex_text(
            pieces.subrange(20 * (k - 1), 20 * k as int),
        )
    }
}

/// The report of a torrent: tracker, length, info hash, piece length and
/// piece digests.
pub open spec fn summary_text(t: Torrent) -> Seq<char> {
    "Tracker URL: "@ + t.announce@ + "\nLength: "@ + ascii_text(nat_text(t.info.length as nat))
        + "\nInfo Hash: "@ + hex_text(sha1_of(t.info_bytes@)) + "\nPiece Length: "@ + ascii_text(
        nat_text(t.info.piece_length as nat),
    ) + "\nPiece Hashes:\n"@ + hash_lines(t.info.pieces@, t.info.piece_count())
}

impl Torrent {
    /// The report of the torrent, one item per line, the piece digests last.
    pub fn summary(&self) -> (r: String)
        requires
            self.info.wf(),
        ensures
            r@ == summary_text(*self),
    {
        let mut out = String::new();
        out.append("Tracker URL: ");
        out.append(self.announce.as_str());
        out.append("\nLength: ");
        let length = decimal(self.info.length);
        out.append(length.as_str());
        out.append("\nInfo Hash: ");
        let hash = self.info_hash();
        out.append(hash.as_str());
        out.append("\nPiece Length: ");
        let piece_length = decimal(self.info.piece_length as u64);
        out.append(piece_length.as_str());
        out.append("\nPiece Hashes:\n");
        let ghost head = out@;
        let count = self.info.pieces.len() / 20;
        let mut k: usize = 0;
        assert(out@ =~= head + hash_lines(self.info.pieces@, 0));
        while k < count
            invariant
                self.info.pieces@.len() <= usize::MAX,
                count == self.info.piece_count(),
                20 * count == self.info.pieces@.len(),
                k <= count,
                out@ == head + hash_lines(self.info.pieces@, k as nat),
            decreases count - k,
        {
            if k > 0 {
                proof {
                    reveal_strlit("\n");
                }
                out.append("\n");
            }
            let line = hex_encode(&self.info.pieces.as_slice()[20 * k..20 * k + 20]);
            out.append(line.as_str());
            k = k + 1;
            assert(out@ =~= head + hash_lines(self.info.pieces@, k as nat));
        }
        assert(out@ =~= summary_text(*self));
        out
    }
}

/// Piece count consistency: the torrent that a decoded value describes
/// holds one 20-byte digest per piece, `ceil(length / piece_length)` of
/// them.
pub proof fn lemma_piece_count(t: Torrent, v: Value)
    requires
        describes(t, v),
    ensures
        t.info.pieces@.len() == 20 * num_pieces(t.info.length as nat, t.info.piece_length as nat),
        t.info.piece_length > 0,
{
}

/// Info hash invariance: where the `info` dictionary of a torrent file holds
/// exactly its four fields in canonical order, the bytes captured from the
/// file and the encoding of the typed model are the same bytes, so their
/// SHA-1 digests agree.
#[verifier::rlimit(50)]
pub proof fn lemma_info_hash_invariance(t: Torrent, v: Value, entries: Vec<(Vec<u8>, Value)>)
    requires
        describes(t, v),
        field(v, KEY_INFO@) == Some(Value::Dictionary(entries)),
        entries@.len() == 4,
        entries@[0].0@ == KEY_LENGTH@,
        entries@[1].0@ == KEY_NAME@,
        entries@[2].0@ == KEY_PIECE_LENGTH@,
        entries@[3].0@ == KEY_PIECES@,
    ensures
        info_encoding(t.info) == t.info_bytes@,
        sha1_of(info_encoding(t.info)) == sha1_of(t.info_bytes@),
{
    let es = entries@;
    let info = Value::Dictionary(entries);
    assert(KEY_LENGTH@ != KEY_NAME@) by {
        assert(KEY_LENGTH@.len() != KEY_NAME@.len());
    }
    assert(KEY_PIECE_LENGTH@ != KEY_LENGTH@) by {
        assert(KEY_PIECE_LENGTH@.len() != KEY_LENGTH@.len());
    }
    assert(KEY_PIECE_LENGTH@ != KEY_NAME@) by {
        assert(KEY_PIECE_LENGTH@.len() != KEY_NAME@.len());
    }
    assert(KEY_PIECES@ != KEY_LENGTH@) by {
        assert(KEY_PIECES@[0] != KEY_LENGTH@[0]);
    }
    assert(KEY_PIECES@ != KEY_NAME@) by {
        assert(KEY_PIECES@.len() != KEY_NAME@.len());
    }
    assert(KEY_PIECES@ != KEY_PIECE_LENGTH@) by {
        assert(KEY_PIECES@.len() != KEY_PIECE_LENGTH@.len());
    }
    let s1 = es.drop_first();
    let s2 = s1.drop_first();
    let s3 = s2.drop_first();
    let s4 = s3.drop_first();
    assert(s1[0] == es[1] && s2[0] == es[2] && s3[0] == es[3]);
    assert(lookup(es, KEY_LENGTH@) == Some(es[0].1));
    assert(lookup(s1, KEY_NAME@) == Some(es[1].1));
    assert(lookup(es, KEY_NAME@) == lookup(s1, KEY_NAME@));
    assert(lookup(s2, KEY_PIECE_LENGTH@) == Some(es[2].1));
    assert(lookup(s1, KEY_PIECE_LENGTH@) == lookup(s2, KEY_PIECE_LENGTH@));
    assert(lookup(es, KEY_PIECE_LENGTH@) == lookup(s1, KEY_PIECE_LENGTH@));
    assert(lookup(s3, KEY_PIECES@) == Some(es[3].1));
    assert(lookup(s2, KEY_PIECES@) == lookup(s3, KEY_PIECES@));
    assert(lookup(s1, KEY_PIECES@) == lookup(s2, KEY_PIECES@));
    assert(lookup(es, KEY_PIECES@) == lookup(s1, KEY_PIECES@));
    if let Value::ByteString(b) = es[1].1 {
        decode_utf8_encode_utf8(b@);
        assert(encode_utf8(t.info.name@) == b@);
    }
    assert(s1 =~= es.subrange(1, 4));
    assert(s2 =~= es.subrange(2, 4));
    assert(s3 =~= es.subrange(3, 4));
    assert(s4 =~= es.subrange(4, 4));
    assert(entries_encoding(s4) == Seq::<u8>::empty());
    assert(entries_encoding(s3) == entry_encoding(es[3]) + entries_encoding(s4));
    assert(entries_encoding(s2) == entry_encoding(es[2]) + entries_encoding(s3));
    assert(entries_encoding(s1) == entry_encoding(es[1]) + entries_encoding(s2));
    assert(entries_encoding(es) == entry_encoding(es[0]) + entries_encoding(s1));
    assert(entry_encoding(es[0]) == string_encoding(KEY_LENGTH@) + encoding(es[0].1));
    assert(entry_encoding(es[1]) == string_encoding(KEY_NAME@) + encoding(es[1].1));
    assert(entry_encoding(es[2]) == string_encoding(KEY_PIECE_LENGTH@) + encoding(es[2].1));
    assert(entry_encoding(es[3]) == string_encoding(KEY_PIECES@) + encoding(es[3].1));
    assert(encoding(info) == seq![DICT_START] + entries_encoding(es) + seq![END]);
    assert(info_encoding(t.info) =~= t.info_bytes@);
}

} // verus!
