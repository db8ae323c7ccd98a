use vstd::prelude::*;
use vstd::slice::slice_to_vec;
use crate::bencode::{
    Value, encoding, string_encoding, items_encoding, entries_encoding, entry_encoding,
    int_text, nat_text, digits_value, canonical_digits, is_digit, is_prefix, lex_less,
    lex_less_from, well_formed, starts_with_value, lemma_nat_text, lemma_nat_text_lead,
    lemma_canonical_text, lemma_digits_positive, lemma_int_text, lemma_first_byte,
    lemma_prefix_concat, lemma_prefix_range, lemma_string_unique, lemma_items_push,
    lemma_entries_push, lemma_list_continues, lemma_dict_continues, INT_START, LIST_START,
    DICT_START, END, COLON, MINUS, ZERO,
};

verus! {

/// Why a byte sequence is not a bencoded value.
#[derive(Debug, Clone, Copy, PartialEq, Eq)]
pub enum DecodeErrorKind {
    /// The input ends where more bytes are needed.
    UnexpectedEnd,
    /// A byte that cannot start a value stands where a value is expected.
    UnexpectedByte,
    /// An integer lacks its closing `e`.
    MissingTerminator,
    /// An integer's text is not canonical decimal (empty, stray bytes,
    /// leading zeros, or `-0`).
    MalformedInteger,
    /// An integer does not fit in 64 signed bits.
    IntegerOverflow,
    /// A string's length prefix is not canonical decimal followed by `:`.
    MalformedLength,
    /// A string's length runs past the end of the input.
    UnterminatedString,
    /// A dictionary key is not a byte string.
    KeyNotString,
    /// A dictionary key is not greater than the key before it.
    UnsortedKeys,
}

/// A decoding failure: where it was found and why.
#[derive(Debug, Clone, Copy, PartialEq, Eq)]
pub struct DecodeError {
    pub offset: usize,
    pub kind: DecodeErrorKind,
}

/// The cause of failure that the first bytes of `s` already show, where they
/// show one: no byte left, a byte that starts no value, or an integer with no
/// `e` after it. Other causes lie further in.
pub open spec fn leading_cause(s: Seq<u8>) -> Option<DecodeErrorKind> {
    if s.len() == 0 {
        Some(DecodeErrorKind::UnexpectedEnd)
    } else if s[0] != INT_START && s[0] != LIST_START && s[0] != DICT_START && !is_digit(s[0]) {
        Some(DecodeErrorKind::UnexpectedByte)
    } else if s[0] == INT_START && forall|i: int| 1 <= i < s.len() ==> s[i] != END {
        Some(DecodeErrorKind::MissingTerminator)
    } else {
        None
    }
}

/// The bytes of `s` from `pos` to its end.
pub open spec fn suffix(s: Seq<u8>, pos: int) -> Seq<u8> {
    s.subrange(pos, s.len() as int)
}

fn fail(offset: usize, kind: DecodeErrorKind) -> (e: DecodeError)
    ensures
        e.offset == offset,
        e.kind == kind,
{
    DecodeError { offset, kind }
}

/// The first index at or after `from` that holds an `e`, or the length.
fn find_end(input: &[u8], from: usize) -> (q: usize)
    requires
        from <= input@.len(),
    ensures
        from <= q <= input@.len(),
        forall|i: int| from <= i < q ==> input@[i] != END,
        q < input@.len() ==> input@[q as int] == END,
{
    let mut q = from;
    while q < input.len() && input[q] != END
        invariant
            from <= q <= input@.len(),
            forall|i: int| from <= i < q ==> input@[i] != END,
        decreases input@.len() - q,
    {
        q = q + 1;
    }
    q
}

/// The end of the run of digits that starts at `from`.
fn scan_digits(input: &[u8], from: usize) -> (q: usize)
    requires
        from <= input@.len(),
    ensures
        from <= q <= input@.len(),
        forall|i: int| from <= i < q ==> is_digit(#[trigger] input@[i]),
        q < input@.len() ==> !is_digit(input@[q as int]),
{
    let mut q = from;
    while q < input.len() && ZERO <= input[q] && input[q] <= ZERO + 9
        invariant
            from <= q <= input@.len(),
            forall|i: int| from <= i < q ==> is_digit(#[trigger] input@[i]),
        decreases input@.len() - q,
    {
        q = q + 1;
    }
    q
}

proof fn lemma_digits_grow(d: Seq<u8>, i: int, j: int)
    requires
        0 <= i <= j <= d.len(),
    ensures
        digits_value(d.subrange(0, i)) <= digits_value(d.subrange(0, j)),
    decreases j - i,
{
    if i < j {
        lemma_digits_grow(d, i, j - 1);
        assert(d.subrange(0, j).drop_last() =~= d.subrange(0, j - 1));
    }
}

/// The value of the digits in `from..to`, where it fits in 64 bits.
fn digits_number(input: &[u8], from: usize, to: usize) -> (r: Option<u64>)
    requires
        from <= to <= input@.len(),
        forall|i: int| from <= i < to ==> is_digit(#[trigger] input@[i]),
    ensures
        match r {
            Some(n) => n == digits_value(input@.subrange(from as int, to as int)),
            None => digits_value(input@.subrange(from as int, to as int)) > u64::MAX,
        },
{
    let ghost d = input@.subrange(from as int, to as int);
    let mut acc: u64 = 0;
    let mut i = from;
    assert(d.subrange(0, 0) =~= Seq::<u8>::empty());
    while i < to
        invariant
            from <= i <= to <= input@.len(),
            d == input@.subrange(from as int, to as int),
            forall|k: int| from <= k < to ==> is_digit(#[trigger] input@[k]),
            acc == digits_value(d.subrange(0, i - from)),
        decreases to - i,
    {
        let c = input[i] - ZERO;
        assert(is_digit(input@[i as int]));
        assert(d.subrange(0, i - from + 1).drop_last() =~= d.subrange(0, i - from));
        assert(d[i - from] == input@[i as int]);
        if acc > (u64::MAX - c as u64) / 10 {
            proof {
                lemma_digits_grow(d, i - from + 1, d.len() as int);
                assert(d.subrange(0, d.len() as int) =~= d);
                assert(acc * 10 + c > u64::MAX) by (nonlinear_arith)
                    requires
                        acc > (u64::MAX - c as u64) / 10,
                        c <= 9,
                ;
            }
            return None;
        }
        assert(acc * 10 + c <= u64::MAX) by (nonlinear_arith)
            requires
                acc <= (u64::MAX - c as u64) / 10,
                c <= 9,
        ;
        acc = acc * 10 + c as u64;
        i = i + 1;
    }
    assert(d.subrange(0, d.len() as int) =~= d);
    Some(acc)
}

/// Where an integer's encoding starts at `pos`, every check of
/// `parse_integer` passes: its text ends at the first `e`, the sign is read
/// from the first byte, and the digits are the canonical text of the
/// magnitude.
proof fn lemma_integer_checks(input: Seq<u8>, pos: int, q: int, neg: bool, ds: int, n: i64)
    requires
        0 <= pos < input.len(),
        pos + 1 <= q <= input.len(),
        forall|i: int| pos + 1 <= i < q ==> input[i] != END,
        q < input.len() ==> input[q] == END,
        neg == (pos + 1 < q && input[pos + 1] == MINUS),
        ds == if neg { pos + 2 } else { pos + 1 },
        is_prefix(encoding(Value::Integer(n)), suffix(input, pos)),
    ensures
        q < input.len(),
        neg == (n < 0),
        ds <= q,
        input.subrange(ds, q) == nat_text(if n < 0 { (-n) as nat } else { n as nat }),
        canonical_digits(input.subrange(ds, q)),
        forall|i: int| ds <= i < q ==> is_digit(#[trigger] input[i]),
        neg ==> input[ds] != ZERO,
        digits_value(input.subrange(ds, q)) == if n < 0 { (-n) as nat } else { n as nat },
{
    let s = suffix(input, pos);
    let t = int_text(n as int);
    let e = encoding(Value::Integer(n));
    let k = t.len() as int;
    let m: nat = if n < 0 { (-n) as nat } else { n as nat };
    lemma_int_text(n as int);
    lemma_nat_text(m);
    assert(e == seq![INT_START] + t + seq![END]);
    lemma_prefix_range(e, s, 1, 1 + k);
    assert(e.subrange(1, 1 + k) =~= t);
    assert(s[1 + k] == e[1 + k]);
    assert(s[1 + k] == input[pos + 1 + k]);
    if pos + 1 + k < q {
        assert(input[pos + 1 + k] != END);
    }
    if pos + 1 + k > q {
        assert(s[q - pos] == input[q]);
        assert(s[q - pos] == e[q - pos]);
        assert(e[q - pos] == t[q - pos - 1]);
    }
    assert(input.subrange(pos + 1, q) =~= s.subrange(1, 1 + k));
    assert(t[0] == input[pos + 1]);
    let d = input.subrange(ds, q);
    if n < 0 {
        assert(t == seq![MINUS] + nat_text(m));
        assert(d =~= t.subrange(1, k));
        assert(d =~= nat_text(m));
        lemma_nat_text_lead(m);
        assert(input[ds] == d[0]);
    } else {
        assert(is_digit(t[0]));
        assert(d =~= t);
    }
    assert forall|i: int| ds <= i < q implies is_digit(#[trigger] input[i]) by {
        assert(input[i] == d[i - ds]);
    }
}

/// Reads the integer whose `i` stands at `pos`.
fn parse_integer(input: &[u8], pos: usize) -> (r: Result<(i64, usize), DecodeError>)
    requires
        pos < input@.len(),
        input@[pos as int] == INT_START,
    ensures
        match r {
            Ok((n, end)) => pos < end <= input@.len() && encoding(Value::Integer(n))
                == input@.subrange(pos as int, end as int),
            Err(e) => pos <= e.offset <= input@.len() && forall|n: i64|
                !is_prefix(encoding(Value::Integer(n)), suffix(input@, pos as int)),
        },
        (forall|i: int| pos < i < input@.len() ==> input@[i] != END) ==> r == Err::<
            (i64, usize),
            DecodeError,
        >(DecodeError { offset: pos, kind: DecodeErrorKind::MissingTerminator }),
{
    let len = input.len();
    let ghost s = suffix(input@, pos as int);
    let start = pos + 1;
    let q = find_end(input, start);
    let neg = start < q && input[start] == MINUS;
    let ds = if neg { start + 1 } else { start };
    if q == len {
        proof {
            assert forall|n: i64| !is_prefix(encoding(Value::Integer(n)), s) by {
                if is_prefix(encoding(Value::Integer(n)), s) {
                    lemma_integer_checks(input@, pos as int, q as int, neg, ds as int, n);
                }
            }
        }
        return Err(fail(pos, DecodeErrorKind::MissingTerminator));
    }
    let de = scan_digits(input, ds);
    if de != q || ds == q || (q - ds > 1 && input[ds] == ZERO) || (neg && input[ds] == ZERO) {
        proof {
            assert forall|n: i64| !is_prefix(encoding(Value::Integer(n)), s) by {
                if is_prefix(encoding(Value::Integer(n)), s) {
                    lemma_integer_checks(input@, pos as int, q as int, neg, ds as int, n);
                    let d = input@.subrange(ds as int, q as int);
                    assert(d[0] == input@[ds as int]);
                    if de < q {
                        assert(is_digit(input@[de as int]));
                    }
                }
            }
        }
        return Err(fail(start, DecodeErrorKind::MalformedInteger));
    }
    let ghost d = input@.subrange(ds as int, q as int);
    proof {
        assert forall|i: int| 0 <= i < d.len() implies is_digit(#[trigger] d[i]) by {
            assert(d[i] == input@[ds as int + i]);
        }
        assert(d[0] == input@[ds as int]);
        assert(canonical_digits(d));
        lemma_canonical_text(d);
    }
    let magnitude = digits_number(input, ds, q);
    let limit: u64 = if neg { 0x8000_0000_0000_0000u64 } else { 0x7fff_ffff_ffff_ffffu64 };
    let m = match magnitude {
        Some(m) if m <= limit => m,
        _ => {
            proof {
                assert forall|n: i64| !is_prefix(encoding(Value::Integer(n)), s) by {
                    if is_prefix(encoding(Value::Integer(n)), s) {
                        lemma_integer_checks(input@, pos as int, q as int, neg, ds as int, n);
                    }
                }
            }
            return Err(fail(ds, DecodeErrorKind::IntegerOverflow));
        },
    };
    let n: i64 = if !neg {
        m as i64
    } else if m == 0x8000_0000_0000_0000u64 {
        i64::MIN
    } else {
        -(m as i64)
    };
    proof {
        if neg {
            lemma_digits_positive(d);
            assert(input@.subrange(start as int, q as int) =~= seq![MINUS] + d);
        } else {
            assert(input@.subrange(start as int, q as int) =~= d);
        }
        assert(encoding(Value::Integer(n)) =~= input@.subrange(pos as int, q as int + 1));
    }
    Ok((n, q + 1))
}

/// Where a string's encoding starts at `pos`, every check of `parse_string`
/// passes: the digit run is the canonical text of the length, a colon
/// follows, and the bytes fit in the input.
proof fn lemma_string_checks(input: Seq<u8>, pos: int, q: int, x: Seq<u8>)
    requires
        0 <= pos <= q <= input.len(),
        forall|i: int| pos <= i < q ==> is_digit(#[trigger] input[i]),
        q < input.len() ==> !is_digit(input[q]),
        is_prefix(string_encoding(x), suffix(input, pos)),
    ensures
        q < input.len(),
        input[q] == COLON,
        input.subrange(pos, q) == nat_text(x.len()),
        canonical_digits(input.subrange(pos, q)),
        digits_value(input.subrange(pos, q)) == x.len(),
        q + 1 + x.len() <= input.len(),
        input.subrange(q + 1, q + 1 + x.len()) == x,
{
    let s = suffix(input, pos);
    let t = nat_text(x.len());
    let e = string_encoding(x);
    let k = t.len() as int;
    lemma_nat_text(x.len());
    assert(s[k] == e[k]);
    assert(s[k] == input[pos + k]);
    if pos + k < q {
        assert(is_digit(input[pos + k]));
    }
    if pos + k > q {
        assert(s[q - pos] == input[q]);
        assert(s[q - pos] == e[q - pos]);
        assert(e[q - pos] == t[q - pos]);
    }
    lemma_prefix_range(e, s, 0, k);
    assert(e.subrange(0, k) =~= t);
    assert(input.subrange(pos, q) =~= s.subrange(0, k));
    lemma_prefix_range(e, s, k + 1, e.len() as int);
    assert(e.subrange(k + 1, e.len() as int) =~= x);
    assert(input.subrange(q + 1, q + 1 + x.len()) =~= s.subrange(k + 1, e.len() as int));
}

/// Reads the byte string whose length prefix starts at `pos`.
fn parse_string(input: &[u8], pos: usize) -> (r: Result<(Vec<u8>, usize), DecodeError>)
    requires
        pos < input@.len(),
        is_digit(input@[pos as int]),
    ensures
        match r {
            Ok((b, end)) => pos < end <= input@.len() && string_encoding(b@) == input@.subrange(
                pos as int,
                end as int,
            ),
            Err(e) => pos <= e.offset <= input@.len() && forall|x: Seq<u8>|
                !is_prefix(string_encoding(x), suffix(input@, pos as int)),
        },
{
    let len = input.len();
    let ghost s = suffix(input@, pos as int);
    let q = scan_digits(input, pos);
    if q == len || input[q] != COLON || (q - pos > 1 && input[pos] == ZERO) {
        proof {
            assert forall|x: Seq<u8>| !is_prefix(string_encoding(x), s) by {
                if is_prefix(string_encoding(x), s) {
                    lemma_string_checks(input@, pos as int, q as int, x);
                    assert(input@.subrange(pos as int, q as int)[0] == input@[pos as int]);
                }
            }
        }
        return Err(fail(pos, DecodeErrorKind::MalformedLength));
    }
    let ghost d = input@.subrange(pos as int, q as int);
    proof {
        assert forall|i: int| 0 <= i < d.len() implies is_digit(#[trigger] d[i]) by {
            assert(d[i] == input@[pos as int + i]);
        }
        assert(d[0] == input@[pos as int]);
        assert(canonical_digits(d));
        lemma_canonical_text(d);
    }
    let room = len - q - 1;
    let n = match digits_number(input, pos, q) {
        Some(n) if n <= room as u64 => n as usize,
        _ => {
            proof {
                assert forall|x: Seq<u8>| !is_prefix(string_encoding(x), s) by {
                    if is_prefix(string_encoding(x), s) {
                        lemma_string_checks(input@, pos as int, q as int, x);
                    }
                }
            }
            return Err(fail(q, DecodeErrorKind::UnterminatedString));
        },
    };
    let end = q + 1 + n;
    let bytes = slice_to_vec(&input[q + 1..end]);
    proof {
        assert(string_encoding(bytes@) =~= input@.subrange(pos as int, end as int));
    }
    Ok((bytes, end))
}

/// Whether two byte strings are equal.
pub fn bytes_equal(a: &[u8], b: &[u8]) -> (r: bool)
    ensures
        r == (a@ == b@),
{
    if a.len() != b.len() {
        return false;
    }
    let mut i: usize = 0;
    while i < a.len()
        invariant
            i <= a@.len(),
            a@.len() == b@.len(),
            a@.subrange(0, i as int) == b@.subrange(0, i as int),
        decreases a@.len() - i,
    {
        if a[i] != b[i] {
            return false;
        }
        i = i + 1;
        assert(a@.subrange(0, i as int) =~= a@.subrange(0, i - 1).push(a@[i - 1]));
        assert(b@.subrange(0, i as int) =~= b@.subrange(0, i - 1).push(b@[i - 1]));
    }
    assert(a@ =~= a@.subrange(0, i as int));
    assert(b@ =~= b@.subrange(0, i as int));
    true
}

/// Compares two byte strings in byte-wise lexicographic order.
pub fn bytes_less(a: &[u8], b: &[u8]) -> (r: bool)
    ensures
        r == lex_less(a@, b@),
{
    let mut i: usize = 0;
    while i < a.len() && i < b.len() && a[i] == b[i]
        invariant
            i <= a@.len(),
            i <= b@.len(),
            lex_less(a@, b@) == lex_less_from(a@, b@, i as nat),
        decreases a@.len() - i,
    {
        i = i + 1;
    }
    if i == a.len() {
        i < b.len()
    } else if i == b.len() {
        false
    } else {
        a[i] < b[i]
    }
}

/// Where a well-formed list's encoding starts at `pos` and the items parsed
/// so far fill `pos + 1 .. p`, the list either ends at `p` or its next item
/// starts there.
proof fn lemma_list_step(input: Seq<u8>, pos: int, p: int, ps: Seq<Value>, ws: Vec<Value>)
    requires
        0 <= pos < p <= input.len(),
        items_encoding(ps) == input.subrange(pos + 1, p),
        well_formed(Value::List(ws)),
        is_prefix(encoding(Value::List(ws)), suffix(input, pos)),
    ensures
        (p < input.len() && input[p] == END) || (ps.len() < ws@.len() && well_formed(
            ws@[ps.len() as int],
        ) && is_prefix(encoding(ws@[ps.len() as int]), suffix(input, p))),
{
    let s = suffix(input, pos);
    let t = suffix(input, pos + 1);
    assert(encoding(Value::List(ws)) =~= seq![LIST_START] + (items_encoding(ws@) + seq![END]));
    lemma_prefix_concat(seq![LIST_START], items_encoding(ws@) + seq![END], s);
    assert(s.subrange(1, s.len() as int) =~= t);
    assert(t.subrange(0, p - pos - 1) =~= input.subrange(pos + 1, p));
    lemma_list_continues(ws@, ps, t);
    assert(t.subrange(p - pos - 1, t.len() as int) =~= suffix(input, p));
    if ps.len() < ws@.len() {
        lemma_first_byte(ws@[ps.len() as int]);
    }
}

/// The dictionary counterpart of `lemma_list_step`: the next entry's key
/// string starts at `p`, its value follows, and its key comes after the key
/// parsed last.
proof fn lemma_dict_step(
    input: Seq<u8>,
    pos: int,
    p: int,
    ps: Seq<(Vec<u8>, Value)>,
    ws: Vec<(Vec<u8>, Value)>,
)
    requires
        0 <= pos < p <= input.len(),
        entries_encoding(ps) == input.subrange(pos + 1, p),
        well_formed(Value::Dictionary(ws)),
        is_prefix(encoding(Value::Dictionary(ws)), suffix(input, pos)),
    ensures
        (p < input.len() && input[p] == END) || ({
            let k = ps.len() as int;
            let key = ws@[k].0@;
            &&& k < ws@.len()
            &&& well_formed(ws@[k].1)
            &&& is_prefix(string_encoding(key), suffix(input, p))
            &&& is_prefix(
                encoding(ws@[k].1),
                suffix(input, p + string_encoding(key).len()),
            )
            &&& k > 0 ==> lex_less(ps[k - 1].0@, key)
        }),
{
    let s = suffix(input, pos);
    let t = suffix(input, pos + 1);
    assert(encoding(Value::Dictionary(ws)) =~= seq![DICT_START] + (entries_encoding(ws@)
        + seq![END]));
    lemma_prefix_concat(seq![DICT_START], entries_encoding(ws@) + seq![END], s);
    assert(s.subrange(1, s.len() as int) =~= t);
    assert(t.subrange(0, p - pos - 1) =~= input.subrange(pos + 1, p));
    lemma_dict_continues(ws@, ps, t);
    let r = suffix(input, p);
    assert(t.subrange(p - pos - 1, t.len() as int) =~= r);
    let k = ps.len() as int;
    if k < ws@.len() {
        let key = ws@[k].0@;
        let ke = string_encoding(key);
        assert(entry_encoding(ws@[k]) == ke + encoding(ws@[k].1));
        lemma_prefix_concat(ke, encoding(ws@[k].1), r);
        assert(r.subrange(ke.len() as int, r.len() as int) =~= suffix(input, p + ke.len()));
        if k > 0 {
            assert(ps[k - 1].0@ == ws@[k - 1].0@);
        }
    } else {
        lemma_nat_text(0);
    }
}

/// Decodes the value that starts at `pos`.
fn decode_value(input: &[u8], pos: usize) -> (r: Result<(Value, usize), DecodeError>)
    requires
        pos <= input@.len(),
    ensures
        match r {
            Ok((v, end)) => pos < end <= input@.len() && well_formed(v) && encoding(v)
                == input@.subrange(pos as int, end as int),
            Err(e) => {
                &&& pos <= e.offset <= input@.len()
                &&& !starts_with_value(suffix(input@, pos as int))
                &&& leading_cause(suffix(input@, pos as int)) matches Some(k) ==> e.kind == k
                    && e.offset == pos
            },
        },
    decreases input@.len() - pos, 1int,
{
    let ghost s = suffix(input@, pos as int);
    if pos == input.len() {
        proof {
            assert forall|v: Value| well_formed(v) implies !is_prefix(#[trigger] encoding(v), s) by {
                lemma_first_byte(v);
            }
        }
        return Err(fail(pos, DecodeErrorKind::UnexpectedEnd));
    }
    let b = input[pos];
    proof {
        assert(s[0] == b);
        if b == INT_START && (forall|i: int| 1 <= i < s.len() ==> s[i] != END) {
            assert forall|i: int| pos < i < input@.len() implies input@[i] != END by {
                assert(s[i - pos] == input@[i]);
            }
        }
    }
    let r = if b == INT_START {
        match parse_integer(input, pos) {
            Ok((n, end)) => Ok((Value::Integer(n), end)),
            Err(e) => Err(e),
        }
    } else if ZERO <= b && b <= ZERO + 9 {
        match parse_string(input, pos) {
            Ok((bytes, end)) => Ok((Value::ByteString(bytes), end)),
            Err(e) => Err(e),
        }
    } else if b == LIST_START {
        decode_list(input, pos)
    } else if b == DICT_START {
        decode_dict(input, pos)
    } else {
        Err(fail(pos, DecodeErrorKind::UnexpectedByte))
    };
    proof {
        if r is Err {
            assert forall|v: Value| well_formed(v) implies !is_prefix(#[trigger] encoding(v), s) by {
                lemma_first_byte(v);
                if is_prefix(encoding(v), s) {
                    assert(s[0] == encoding(v)[0]);
                    assert(s[0] == b);
                    match v {
                        Value::ByteString(x) => {
                            assert(encoding(v) == string_encoding(x@));
                        },
                        _ => {},
                    }
                }
            }
        }
    }
    r
}

/// Decodes the list whose `l` stands at `pos`.
fn decode_list(input: &[u8], pos: usize) -> (r: Result<(Value, usize), DecodeError>)
    requires
        pos < input@.len(),
        input@[pos as int] == LIST_START,
    ensures
        match r {
            Ok((v, end)) => pos < end <= input@.len() && well_formed(v) && encoding(v)
                == input@.subrange(pos as int, end as int),
            Err(e) => pos <= e.offset <= input@.len() && forall|ws: Vec<Value>|
                #[trigger] well_formed(Value::List(ws)) ==> !is_prefix(
                    encoding(Value::List(ws)),
                    suffix(input@, pos as int),
                ),
        },
    decreases input@.len() - pos, 0int,
{
    let len = input.len();
    let mut items: Vec<Value> = Vec::new();
    let mut p = pos + 1;
    assert(items_encoding(items@) =~= input@.subrange(pos as int + 1, p as int));
    loop
        invariant
            len == input@.len(),
            pos < input@.len(),
            input@[pos as int] == LIST_START,
            pos + 1 <= p <= len,
            forall|i: int| 0 <= i < items@.len() ==> well_formed(#[trigger] items@[i]),
            items_encoding(items@) == input@.subrange(pos as int + 1, p as int),
        decreases len - p,
    {
        if p == len {
            proof {
                assert forall|ws: Vec<Value>| #[trigger] well_formed(Value::List(ws)) implies !is_prefix(
                    encoding(Value::List(ws)),
                    suffix(input@, pos as int),
                ) by {
                    if is_prefix(encoding(Value::List(ws)), suffix(input@, pos as int)) {
                        lemma_list_step(input@, pos as int, p as int, items@, ws);
                        lemma_first_byte(ws@[items@.len() as int]);
                    }
                }
            }
            return Err(fail(p, DecodeErrorKind::UnexpectedEnd));
        }
        if input[p] == END {
            proof {
                assert(encoding(Value::List(items)) =~= input@.subrange(pos as int, p as int + 1));
            }
            return Ok((Value::List(items), p + 1));
        }
        match decode_value(input, p) {
            Ok((v, end)) => {
                proof {
                    lemma_items_push(items@, v);
                    assert(input@.subrange(pos as int + 1, end as int) =~= input@.subrange(
                        pos as int + 1,
                        p as int,
                    ) + input@.subrange(p as int, end as int));
                }
                items.push(v);
                p = end;
            },
            Err(e) => {
                proof {
                    assert forall|ws: Vec<Value>| #[trigger] well_formed(Value::List(ws)) implies !is_prefix(
                        encoding(Value::List(ws)),
                        suffix(input@, pos as int),
                    ) by {
                        if is_prefix(encoding(Value::List(ws)), suffix(input@, pos as int)) {
                            lemma_list_step(input@, pos as int, p as int, items@, ws);
                        }
                    }
                }
                return Err(e);
            },
        }
    }
}

/// Decodes the dictionary whose `d` stands at `pos`.
fn decode_dict(input: &[u8], pos: usize) -> (r: Result<(Value, usize), DecodeError>)
    requires
        pos < input@.len(),
        input@[pos as int] == DICT_START,
    ensures
        match r {
            Ok((v, end)) => pos < end <= input@.len() && well_formed(v) && encoding(v)
                == input@.subrange(pos as int, end as int),
            Err(e) => pos <= e.offset <= input@.len() && forall|ws: Vec<(Vec<u8>, Value)>|
                #[trigger] well_formed(Value::Dictionary(ws)) ==> !is_prefix(
                    encoding(Value::Dictionary(ws)),
                    suffix(input@, pos as int),
                ),
        },
    decreases input@.len() - pos, 0int,
{
    let len = input.len();
    let mut entries: Vec<(Vec<u8>, Value)> = Vec::new();
    let mut p = pos + 1;
    assert(entries_encoding(entries@) =~= input@.subrange(pos as int + 1, p as int));
    loop
        invariant
            len == input@.len(),
            pos < input@.len(),
            input@[pos as int] == DICT_START,
            pos + 1 <= p <= len,
            forall|i: int| 0 <= i < entries@.len() ==> well_formed(#[trigger] entries@[i].1),
            forall|i: int|
                0 <= i < entries@.len() - 1 ==> lex_less(
                    #[trigger] entries@[i].0@,
                    entries@[i + 1].0@,
                ),
            entries_encoding(entries@) == input@.subrange(pos as int + 1, p as int),
        decreases len - p,
    {
        let ghost ps = entries@;
        if p == len || (input[p] != END && !(ZERO <= input[p] && input[p] <= ZERO + 9)) {
            proof {
                assert forall|ws: Vec<(Vec<u8>, Value)>|
                    #[trigger] well_formed(Value::Dictionary(ws)) implies !is_prefix(
                    encoding(Value::Dictionary(ws)),
                    suffix(input@, pos as int),
                ) by {
                    if is_prefix(encoding(Value::Dictionary(ws)), suffix(input@, pos as int)) {
                        lemma_dict_step(input@, pos as int, p as int, ps, ws);
                        let key = ws@[ps.len() as int].0@;
                        lemma_nat_text(key.len());
                        assert(string_encoding(key)[0] == nat_text(key.len())[0]);
                        assert(suffix(input@, p as int)[0] == string_encoding(key)[0]);
                    }
                }
            }
            let kind = if p == len {
                DecodeErrorKind::UnexpectedEnd
            } else {
                DecodeErrorKind::KeyNotString
            };
            return Err(fail(p, kind));
        }
        if input[p] == END {
            proof {
                assert(encoding(Value::Dictionary(entries)) =~= input@.subrange(
                    pos as int,
                    p as int + 1,
                ));
            }
            return Ok((Value::Dictionary(entries), p + 1));
        }
        let (key, kend) = match parse_string(input, p) {
            Ok(found) => found,
            Err(e) => {
                proof {
                    assert forall|ws: Vec<(Vec<u8>, Value)>|
                        #[trigger] well_formed(Value::Dictionary(ws)) implies !is_prefix(
                        encoding(Value::Dictionary(ws)),
                        suffix(input@, pos as int),
                    ) by {
                        if is_prefix(encoding(Value::Dictionary(ws)), suffix(input@, pos as int)) {
                            lemma_dict_step(input@, pos as int, p as int, ps, ws);
                        }
                    }
                }
                return Err(e);
            },
        };
        proof {
            assert(input@.subrange(p as int, kend as int) =~= suffix(input@, p as int).subrange(
                0,
                kend - p,
            ));
        }
        let n = entries.len();
        if n > 0 && !bytes_less(entries[n - 1].0.as_slice(), key.as_slice()) {
            proof {
                assert forall|ws: Vec<(Vec<u8>, Value)>|
                    #[trigger] well_formed(Value::Dictionary(ws)) implies !is_prefix(
                    encoding(Value::Dictionary(ws)),
                    suffix(input@, pos as int),
                ) by {
                    if is_prefix(encoding(Value::Dictionary(ws)), suffix(input@, pos as int)) {
                        lemma_dict_step(input@, pos as int, p as int, ps, ws);
                        lemma_string_unique(ws@[n as int].0@, key@, suffix(input@, p as int));
                    }
                }
            }
            return Err(fail(p, DecodeErrorKind::UnsortedKeys));
        }
        match decode_value(input, kend) {
            Ok((v, end)) => {
                let ghost entry = (key, v);
                proof {
                    lemma_entries_push(entries@, entry);
                    assert(entry_encoding(entry) == string_encoding(key@) + encoding(v));
                    assert(input@.subrange(pos as int + 1, end as int) =~= input@.subrange(
                        pos as int + 1,
                        p as int,
                    ) + input@.subrange(p as int, kend as int) + input@.subrange(
                        kend as int,
                        end as int,
                    ));
                }
                entries.push((key, v));
                proof {
                    assert(entries@ == ps.push(entry));
                }
                p = end;
            },
            Err(e) => {
                proof {
                    assert forall|ws: Vec<(Vec<u8>, Value)>|
                        #[trigger] well_formed(Value::Dictionary(ws)) implies !is_prefix(
                        encoding(Value::Dictionary(ws)),
                        suffix(input@, pos as int),
                    ) by {
                        if is_prefix(encoding(Value::Dictionary(ws)), suffix(input@, pos as int)) {
                            lemma_dict_step(input@, pos as int, p as int, ps, ws);
                            lemma_string_unique(ws@[n as int].0@, key@, suffix(input@, p as int));
                        }
                    }
                }
                return Err(e);
            },
        }
    }
}

/// A cursor over bencoded input: each call of `decode` reads one value.
pub struct Decoder<'a> {
    full: &'a [u8],
    pos: usize,
}

impl<'a> Decoder<'a> {
    /// All of the input, read or not.
    pub closed spec fn input(&self) -> Seq<u8> {
        self.full@
    }

    /// How many bytes of the input have been read.
    pub closed spec fn offset(&self) -> nat {
        self.pos as nat
    }

    /// The cursor stays inside the input.
    pub open spec fn wf(&self) -> bool {
        self.offset() <= self.input().len()
    }

    /// Returns a [`Decoder`] at the start of `input`.
    pub fn new(input: &'a [u8]) -> (d: Self)
        ensures
            d.wf(),
            d.input() == input@,
            d.offset() == 0,
    {
        Self { full: input, pos: 0 }
    }

    /// The bytes not read yet.
    pub fn remaining(&self) -> (r: &'a [u8])
        requires
            self.wf(),
        ensures
            r@ == suffix(self.input(), self.offset() as int),
    {
        let (_, rest) = self.full.split_at(self.pos);
        rest
    }

    /// Reads the value at the cursor and moves past it. Succeeds exactly when
    /// the unread input starts with the canonical encoding of a well-formed
    /// value; on failure the cursor stays where it was.
    pub fn decode(&mut self) -> (r: Result<Value, DecodeError>)
        requires
            old(self).wf(),
        ensures
            final(self).wf(),
            final(self).input() == old(self).input(),
            match r {
                Ok(v) => {
                    &&& well_formed(v)
                    &&& final(self).offset() == old(self).offset() + encoding(v).len()
                    &&& encoding(v) == old(self).input().subrange(
                        old(self).offset() as int,
                        final(self).offset() as int,
                    )
                },
                Err(e) => {
                    &&& !starts_with_value(suffix(old(self).input(), old(self).offset() as int))
                    &&& final(self).offset() == old(self).offset()
                    &&& old(self).offset() <= e.offset <= old(self).input().len()
                    &&& leading_cause(suffix(old(self).input(), old(self).offset() as int))
                        matches Some(k) ==> e.kind == k && e.offset == old(self).offset()
                },
            },
    {
        match decode_value(self.full, self.pos) {
            Ok((v, end)) => {
                self.pos = end;
                Ok(v)
            },
            Err(e) => Err(e),
        }
    }
}

} // verus!
