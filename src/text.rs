use vstd::prelude::*;
use vstd::utf8::{valid_utf8, decode_utf8};
use crate::bencode::{nat_text, is_digit, lemma_nat_text, push_nat};

verus! {

/// The ASCII code of the lowercase hexadecimal digit for `n` in `0..16`.
pub open spec fn hex_byte(n: int) -> u8 {
    if n < 10 {
        (48 + n) as u8
    } else {
        (87 + n) as u8
    }
}

/// The lowercase hexadecimal digit for `n` in `0..16`.
pub open spec fn hex_digit(n: int) -> char {
    hex_byte(n) as char
}

/// The nibble that position `i` of a byte sequence's hex text shows: the
/// high one at even positions, the low one at odd positions.
pub open spec fn nibble(b: Seq<u8>, i: int) -> int {
    if i % 2 == 0 {
        (b[i / 2] / 16) as int
    } else {
        (b[i / 2] % 16) as int
    }
}

/// Lowercase hexadecimal text of a byte sequence: two digits per byte, the
/// high nibble first.
pub open spec fn hex_text(b: Seq<u8>) -> Seq<char> {
    Seq::new(2 * b.len(), |i: int| hex_digit(nibble(b, i)))
}

/// Percent-encoded text of a byte sequence: `%` before each pair of hex
/// digits, so three characters per byte.
pub open spec fn percent_text(b: Seq<u8>) -> Seq<char> {
    Seq::new(
        3 * b.len(),
        |i: int|
            if i % 3 == 0 {
                '%'
            } else {
                hex_text(b)[2 * (i / 3) + i % 3 - 1]
            },
    )
}

/// The characters of ASCII bytes.
pub open spec fn ascii_text(b: Seq<u8>) -> Seq<char> {
    Seq::new(b.len(), |i: int| b[i] as char)
}

/// True where every byte is ASCII.
pub open spec fn all_ascii(b: Seq<u8>) -> bool {
    forall|i: int| 0 <= i < b.len() ==> #[trigger] b[i] < 128
}

/// How a byte string reads as text: its characters where it is UTF-8, else
/// its lowercase hexadecimal digits.
pub open spec fn bytes_text(b: Seq<u8>) -> Seq<char> {
    if valid_utf8(b) {
        decode_utf8(b)
    } else {
        hex_text(b)
    }
}

/// Relies on hex::encode: two lowercase hex digits for each byte, the high
/// nibble first.
#[verifier::external_body]
pub(crate) fn hex_encode(b: &[u8]) -> (r: String)
    ensures
        r@ == hex_text(b@),
{
    hex::encode(b)
}

/// Relies on String::from_utf8, which accepts every ASCII byte sequence and
/// keeps its characters.
#[verifier::external_body]
pub(crate) fn ascii_string(b: Vec<u8>) -> (r: String)
    requires
        all_ascii(b@),
    ensures
        r@ == ascii_text(b@),
{
    String::from_utf8(b).unwrap_or_default()
}

/// Relies on std::str::from_utf8: it accepts exactly the valid UTF-8
/// sequences, and the text holds the characters they encode.
#[verifier::external_body]
pub(crate) fn utf8_string(b: &[u8]) -> (r: Option<String>)
    ensures
        r is Some <==> valid_utf8(b@),
        r matches Some(s) ==> s@ == decode_utf8(b@),
{
    std::str::from_utf8(b).ok().map(|s| s.to_string())
}

/// The ASCII code of the hex digit for a nibble.
pub(crate) fn hex_byte_of(n: u8) -> (r: u8)
    requires
        n < 16,
    ensures
        r == hex_byte(n as int),
        r < 128,
{
    if n < 10 {
        n + 48
    } else {
        n + 87
    }
}

/// The percent-encoded text of bytes, as for a URL query.
pub fn percent_encode(b: &[u8]) -> (r: String)
    ensures
        r@ == percent_text(b@),
{
    let mut out: Vec<u8> = Vec::new();
    let mut i: usize = 0;
    while i < b.len()
        invariant
            i <= b@.len(),
            out@.len() == 3 * i,
            all_ascii(out@),
            forall|j: int| 0 <= j < 3 * i ==> (#[trigger] out@[j]) as char == percent_text(b@)[j],
        decreases b@.len() - i,
    {
        let hi = hex_byte_of(b[i] / 16);
        let lo = hex_byte_of(b[i] % 16);
        out.push(37);
        out.push(hi);
        out.push(lo);
        proof {
            assert(37u8 as char == '%');
            let k = 3 * i as int;
            assert(percent_text(b@)[k + 1] == hex_text(b@)[2 * i as int]);
            assert(percent_text(b@)[k + 2] == hex_text(b@)[2 * i as int + 1]);
            assert(nibble(b@, 2 * i as int) == (b@[i as int] / 16) as int);
            assert(nibble(b@, 2 * i as int + 1) == (b@[i as int] % 16) as int);
        }
        i = i + 1;
    }
    let r = ascii_string(out);
    assert(r@ =~= percent_text(b@));
    r
}

/// A byte string as text: its characters where it is UTF-8, else its
/// lowercase hexadecimal digits.
pub fn display_bytes(b: &[u8]) -> (r: String)
    ensures
        r@ == bytes_text(b@),
{
    match utf8_string(b) {
        Some(s) => s,
        None => hex_encode(b),
    }
}

pub proof fn lemma_nat_text_ascii(n: nat)
    ensures
        all_ascii(nat_text(n)),
{
    lemma_nat_text(n);
    assert forall|i: int| 0 <= i < nat_text(n).len() implies #[trigger] nat_text(n)[i] < 128 by {
        assert(is_digit(nat_text(n)[i]));
    }
}

pub(crate) fn push_nat_ascii(out: &mut Vec<u8>, n: u64)
    requires
        all_ascii(old(out)@),
    ensures
        final(out)@ == old(out)@ + nat_text(n as nat),
        all_ascii(final(out)@),
{
    let ghost before = out@;
    push_nat(out, n);
    proof {
        lemma_nat_text_ascii(n as nat);
        assert forall|i: int| 0 <= i < out@.len() implies #[trigger] out@[i] < 128 by {
            if i >= before.len() {
                assert(out@[i] == nat_text(n as nat)[i - before.len()]);
            }
        }
    }
}

/// The decimal text of a number.
pub fn decimal(n: u64) -> (r: String)
    ensures
        r@ == ascii_text(nat_text(n as nat)),
{
    let mut out: Vec<u8> = Vec::new();
    push_nat_ascii(&mut out, n);
    assert(out@ =~= nat_text(n as nat));
    ascii_string(out)
}

} // verus!
