use vstd::prelude::*;
use vstd::string::StringExecFns;
use crate::bencode::{Value, nat_text, is_digit, lemma_nat_text, encoding, well_formed, is_prefix, starts_with_value, COLON};
use crate::decode::Decoder;
use crate::digest::sha1_of;
use crate::text::{ascii_text, ascii_string, percent_text, decimal, push_nat_ascii};
use crate::torrent::{Torrent, bytes_field};

verus! {

/// Dictionary key `peers`.
pub const KEY_PEERS: [u8; 5] = [112, 101, 101, 114, 115];

/// ASCII `.`.
pub const DOT: u8 = 46;

/// The peers that a tracker returned, each as `ip:port`.
pub struct Peers(pub Vec<String>);

/// Why a tracker's answer gives no peer list.
#[derive(Debug, Clone, Copy, PartialEq, Eq)]
pub enum TrackerError {
    /// The query could not be encoded.
    Query,
    /// The answer is not bencoded.
    Decode,
    /// The answer has no `peers` byte string.
    MissingPeers,
    /// The `peers` byte string is not a whole number of 6-byte entries.
    BadPeers,
}

/// The text of a compact peer entry: four address bytes in dotted decimal,
/// a colon, then the big-endian port.
pub open spec fn peer_text(w: Seq<u8>) -> Seq<char> {
    ascii_text(
        nat_text(w[0] as nat) + seq![DOT] + nat_text(w[1] as nat) + seq![DOT] + nat_text(
            w[2] as nat,
        ) + seq![DOT] + nat_text(w[3] as nat) + seq![COLON] + nat_text(
            (w[4] * 256 + w[5]) as nat,
        ),
    )
}

/// The text of one compact peer entry.
fn peer_string(w: &[u8]) -> (r: String)
    requires
        w@.len() == 6,
    ensures
        r@ == peer_text(w@),
{
    let mut out: Vec<u8> = Vec::new();
    push_nat_ascii(&mut out, w[0] as u64);
    out.push(DOT);
    push_nat_ascii(&mut out, w[1] as u64);
    out.push(DOT);
    push_nat_ascii(&mut out, w[2] as u64);
    out.push(DOT);
    push_nat_ascii(&mut out, w[3] as u64);
    out.push(COLON);
    push_nat_ascii(&mut out, w[4] as u64 * 256 + w[5] as u64);
    assert(out@ =~= nat_text(w@[0] as nat) + seq![DOT] + nat_text(w@[1] as nat) + seq![DOT]
        + nat_text(w@[2] as nat) + seq![DOT] + nat_text(w@[3] as nat) + seq![COLON] + nat_text(
        (w@[4] * 256 + w@[5]) as nat,
    ));
    ascii_string(out)
}

/// What reading the peer list of the decoded tracker answer `v` gives: the
/// `peers` byte string cut into 6-byte entries, each as `ip:port`;
/// `MissingPeers` where there is no such byte string, `BadPeers` where its
/// length is not a multiple of 6.
pub open spec fn peers_read(v: Value, r: Result<Peers, TrackerError>) -> bool {
    match r {
        Ok(p) => bytes_field(v, KEY_PEERS@) matches Some(b) && b.len() % 6 == 0 && p.0@.len()
            == b.len() / 6 && forall|i: int|
            0 <= i < p.0@.len() ==> (#[trigger] p.0@[i])@ == peer_text(b.subrange(6 * i, 6 * i + 6)),
        Err(TrackerError::MissingPeers) => bytes_field(v, KEY_PEERS@) is None,
        Err(TrackerError::BadPeers) => bytes_field(v, KEY_PEERS@) matches Some(b) && b.len() % 6
            != 0,
        Err(_) => false,
    }
}

impl Peers {
    /// Reads the peer list of a compact tracker answer: the `peers` byte
    /// string, cut into 6-byte entries.
    pub fn from_value(v: &Value) -> (r: Result<Peers, TrackerError>)
        ensures
            peers_read(*v, r),
    {
        let b = match crate::torrent::get_bytes(v, &KEY_PEERS) {
            Some(b) => b,
            None => return Err(TrackerError::MissingPeers),
        };
        if b.len() % 6 != 0 {
            return Err(TrackerError::BadPeers);
        }
        let mut out: Vec<String> = Vec::new();
        let mut i: usize = 0;
        while i < b.len() / 6
            invariant
                b@.len() % 6 == 0,
                i <= b@.len() / 6,
                out@.len() == i,
                forall|k: int|
                    0 <= k < i ==> (#[trigger] out@[k])@ == peer_text(b@.subrange(6 * k, 6 * k + 6)),
            decreases b@.len() / 6 - i,
        {
            let s = peer_string(&b[6 * i..6 * i + 6]);
            out.push(s);
            i = i + 1;
        }
        Ok(Peers(out))
    }

    /// Reads a tracker's answer: decodes it, then reads its peer list.
    pub fn from_response(bytes: &[u8]) -> (r: Result<Peers, TrackerError>)
        ensures
            r matches Err(TrackerError::Decode) <==> !starts_with_value(bytes@),
            starts_with_value(bytes@) ==> exists|v: Value|
                well_formed(v) && is_prefix(#[trigger] encoding(v), bytes@) && peers_read(v, r),
    {
        let mut decoder = Decoder::new(bytes);
        match decoder.decode() {
            Ok(v) => {
                proof {
                    assert(bytes@.subrange(0, encoding(v).len() as int) == encoding(v));
                }
                Peers::from_value(&v)
            },
            Err(_) => {
                proof {
                    assert(bytes@.subrange(0, bytes@.len() as int) =~= bytes@);
                }
                Err(TrackerError::Decode)
            },
        }
    }
}

/// A character that form-urlencoding writes as it is: an ASCII letter or
/// digit, or one of `*-._`.
pub open spec fn plain_char(c: char) -> bool {
    ('a' <= c <= 'z') || ('A' <= c <= 'Z') || ('0' <= c <= '9') || c == '*' || c == '-' || c
        == '.' || c == '_'
}

/// Text made of plain characters only.
pub open spec fn plain(s: Seq<char>) -> bool {
    forall|i: int| 0 <= i < s.len() ==> plain_char(#[trigger] s[i])
}

/// Keys and values made of plain characters only.
pub open spec fn all_plain(pairs: Seq<(String, String)>) -> bool {
    forall|i: int| 0 <= i < pairs.len() ==> plain((#[trigger] pairs[i]).0@) && plain(pairs[i].1@)
}

/// One pair as `key=value`.
pub open spec fn pair_text(pair: (String, String)) -> Seq<char> {
    pair.0@ + seq!['='] + pair.1@
}

/// `key=value` pairs joined by `&`.
pub open spec fn form_text(pairs: Seq<(String, String)>) -> Seq<char>
    decreases pairs.len(),
{
    if pairs.len() == 0 {
        Seq::empty()
    } else if pairs.len() == 1 {
        pair_text(pairs.last())
    } else {
        form_text(pairs.drop_last()) + seq!['&'] + pair_text(pairs.last())
    }
}

proof fn lemma_form_text_step(pairs: Seq<(String, String)>, k: int)
    requires
        1 <= k <= pairs.len(),
    ensures
        form_text(pairs.subrange(0, k)) == if k == 1 {
            pair_text(pairs[0])
        } else {
            form_text(pairs.subrange(0, k - 1)) + seq!['&'] + pair_text(pairs[k - 1])
        },
{
    assert(pairs.subrange(0, k).drop_last() =~= pairs.subrange(0, k - 1));
    assert(pairs.subrange(0, k).last() == pairs[k - 1]);
}

/// Relies on serde_urlencoded::to_string on a sequence of string pairs: it
/// appends each pair as `key=value`, joined by `&`, and writes the
/// characters of keys and values that form_urlencoded leaves unchanged as
/// they are. Its error (an unsupported input) becomes `None`.
#[verifier::external_body]
fn form_encode(pairs: &Vec<(String, String)>) -> (r: Option<String>)
    ensures
        all_plain(pairs@) ==> r is Some,
        all_plain(pairs@) ==> r->Some_0@ == form_text(pairs@),
{
    serde_urlencoded::to_string(pairs).ok()
}

/// The tracker announce URL for `torrent`: the announce URL, then the query
/// `peer_id=..&port=6881&uploaded=0&downloaded=0&left=<length>&compact=1`,
/// then the percent-encoded info hash. A peer id of plain characters (as
/// the default one is) always gives that URL.
pub fn tracker_url(torrent: &Torrent, peer_id: &str) -> (r: Result<String, TrackerError>)
    ensures
        plain(peer_id@) ==> (r matches Ok(u) && u@ == torrent.announce@ + "?peer_id="@ + peer_id@
            + "&port=6881&uploaded=0&downloaded=0&left="@ + ascii_text(
            nat_text(torrent.info.length as nat),
        ) + "&compact=1&info_hash="@ + percent_text(sha1_of(torrent.info_bytes@))),
        r matches Err(e) ==> e == TrackerError::Query && !plain(peer_id@),
{
    let left = decimal(torrent.info.length);
    let mut pairs: Vec<(String, String)> = Vec::new();
    pairs.push((String::from_str("peer_id"), String::from_str(peer_id)));
    pairs.push((String::from_str("port"), String::from_str("6881")));
    pairs.push((String::from_str("uploaded"), String::from_str("0")));
    pairs.push((String::from_str("downloaded"), String::from_str("0")));
    pairs.push((String::from_str("left"), left));
    pairs.push((String::from_str("compact"), String::from_str("1")));
    proof {
        reveal_strlit("peer_id");
        reveal_strlit("port");
        reveal_strlit("6881");
        reveal_strlit("uploaded");
        reveal_strlit("0");
        reveal_strlit("downloaded");
        reveal_strlit("left");
        reveal_strlit("compact");
        reveal_strlit("1");
        reveal_strlit("peer_id=");
        reveal_strlit("?peer_id=");
        reveal_strlit("&port=6881&uploaded=0&downloaded=0&left=");
        reveal_strlit("&compact=1&info_hash=");
        reveal_strlit("?");
        reveal_strlit("&info_hash=");
        reveal_strlit("&compact=1");
        lemma_nat_text(torrent.info.length as nat);
        let t = ascii_text(nat_text(torrent.info.length as nat));
        assert(plain(t)) by {
            assert forall|i: int| 0 <= i < t.len() implies plain_char(#[trigger] t[i]) by {
                assert(is_digit(nat_text(torrent.info.length as nat)[i]));
            }
        }
        if plain(peer_id@) {
            assert(all_plain(pairs@)) by {
                assert forall|i: int| 0 <= i < pairs@.len() implies plain(
                    (#[trigger] pairs@[i]).0@,
                ) && plain(pairs@[i].1@) by {
                    if i == 4 {
                        assert(pairs@[i].1@ == t);
                    }
                }
            }
        }
        lemma_form_text_step(pairs@, 1);
        lemma_form_text_step(pairs@, 2);
        lemma_form_text_step(pairs@, 3);
        lemma_form_text_step(pairs@, 4);
        lemma_form_text_step(pairs@, 5);
        lemma_form_text_step(pairs@, 6);
        assert(pairs@.subrange(0, 6) =~= pairs@);
        assert(form_text(pairs@) =~= "peer_id="@ + peer_id@ + "&port=6881&uploaded=0&downloaded=0&left="@
            + t + "&compact=1"@);
    }
    let query = match form_encode(&pairs) {
        Some(q) => q,
        None => return Err(TrackerError::Query),
    };
    let mut url = torrent.announce.clone();
    url.append("?");
    url.append(query.as_str());
    url.append("&info_hash=");
    let hash = torrent.url_encoded_info_hash();
    url.append(hash.as_str());
    Ok(url)
}

/// One line per peer, each ended by a newline.
pub open spec fn peer_lines(ps: Seq<String>) -> Seq<char>
    decreases ps.len(),
{
    if ps.len() == 0 {
        Seq::empty()
    } else {
        peer_lines(ps.drop_last()) + ps.last()@ + seq!['\n']
    }
}

impl Peers {
    /// The peers one per line.
    pub fn to_text(&self) -> (r: String)
        ensures
            r@ == peer_lines(self.0@),
    {
        let mut out = String::new();
        let mut i: usize = 0;
        proof {
            reveal_strlit("\n");
            assert(self.0@.subrange(0, 0) =~= Seq::<String>::empty());
        }
        while i < self.0.len()
            invariant
                i <= self.0@.len(),
                out@ == peer_lines(self.0@.subrange(0, i as int)),
            decreases self.0@.len() - i,
        {
            proof {
                reveal_strlit("\n");
                assert(self.0@.subrange(0, i + 1).drop_last() =~= self.0@.subrange(0, i as int));
                assert(self.0@.subrange(0, i + 1).last() == self.0@[i as int]);
            }
            out.append(self.0[i].as_str());
            out.append("\n");
            i = i + 1;
        }
        proof {
            assert(self.0@.subrange(0, i as int) =~= self.0@);
        }
        out
    }
}

} // verus!
