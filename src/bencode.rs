use vstd::prelude::*;

verus! {

/// ASCII `i`, which opens an integer.
pub const INT_START: u8 = 105;
/// ASCII `l`, which opens a list.
pub const LIST_START: u8 = 108;
/// ASCII `d`, which opens a dictionary.
pub const DICT_START: u8 = 100;
/// ASCII `e`, which closes an integer, a list or a dictionary.
pub const END: u8 = 101;
/// ASCII `:`, between a string's length and its bytes.
pub const COLON: u8 = 58;
/// ASCII `-`.
pub const MINUS: u8 = 45;
/// ASCII `0`.
pub const ZERO: u8 = 48;

/// A decoded bencode value.
#[derive(Debug, PartialEq, Eq)]
pub enum Value {
    Integer(i64),
    ByteString(Vec<u8>),
    List(Vec<Value>),
    /// Entries in the order in which they appear on the wire.
    Dictionary(Vec<(Vec<u8>, Value)>),
}

/// ASCII text of a natural number in base ten, without leading zeros.
pub open spec fn nat_text(n: nat) -> Seq<u8>
    decreases n,
{
    if n < 10 {
        seq![(n + 48) as u8]
    } else {
        nat_text(n / 10) + seq![((n % 10) + 48) as u8]
    }
}

/// ASCII text of an integer in base ten: a minus sign for negative values.
pub open spec fn int_text(n: int) -> Seq<u8> {
    if n < 0 {
        seq![MINUS] + nat_text((-n) as nat)
    } else {
        nat_text(n as nat)
    }
}

/// The bencoding of a byte string: its length, a colon, the bytes verbatim.
pub open spec fn string_encoding(b: Seq<u8>) -> Seq<u8> {
    nat_text(b.len()) + seq![COLON] + b
}

/// The canonical bencoding of a value.
pub open spec fn encoding(v: Value) -> Seq<u8>
    decreases v,
{
    match v {
        Value::Integer(n) => seq![INT_START] + int_text(n as int) + seq![END],
        Value::ByteString(b) => string_encoding(b@),
        Value::List(items) => seq![LIST_START] + items_encoding(items@) + seq![END],
        Value::Dictionary(entries) => seq![DICT_START] + entries_encoding(entries@) + seq![END],
    }
}

/// The encodings of a sequence of values, one after the other.
pub open spec fn items_encoding(s: Seq<Value>) -> Seq<u8>
    decreases s,
{
    if s.len() == 0 {
        Seq::empty()
    } else {
        encoding(s[0]) + items_encoding(s.subrange(1, s.len() as int))
    }
}

/// A dictionary entry: its key as a byte string, then its value.
pub open spec fn entry_encoding(e: (Vec<u8>, Value)) -> Seq<u8>
    decreases e,
{
    string_encoding(e.0@) + encoding(e.1)
}

/// Dictionary entries encoded as key string followed by value, one after the other.
pub open spec fn entries_encoding(s: Seq<(Vec<u8>, Value)>) -> Seq<u8>
    decreases s,
{
    if s.len() == 0 {
        Seq::empty()
    } else {
        entry_encoding(s[0]) + entries_encoding(s.subrange(1, s.len() as int))
    }
}


/// True of the ASCII digits `0` to `9`.
pub open spec fn is_digit(b: u8) -> bool {
    ZERO <= b <= ZERO + 9
}

/// The value of a run of ASCII digits read in base ten.
pub open spec fn digits_value(d: Seq<u8>) -> nat
    decreases d.len(),
{
    if d.len() == 0 {
        0
    } else {
        digits_value(d.drop_last()) * 10 + (d.last() - ZERO) as nat
    }
}

/// A non-empty run of digits with no leading zero (`0` alone is allowed).
pub open spec fn canonical_digits(d: Seq<u8>) -> bool {
    &&& d.len() >= 1
    &&& forall|i: int| 0 <= i < d.len() ==> is_digit(#[trigger] d[i])
    &&& (d.len() == 1 || d[0] != ZERO)
}

/// True where `p` is a prefix of `s`.
pub open spec fn is_prefix(p: Seq<u8>, s: Seq<u8>) -> bool {
    p.len() <= s.len() && s.subrange(0, p.len() as int) == p
}

/// Byte-wise lexicographic comparison from index `i` on, both sequences
/// agreeing below `i`.
pub open spec fn lex_less_from(a: Seq<u8>, b: Seq<u8>, i: nat) -> bool
    decreases a.len() - i,
{
    if i >= a.len() {
        i < b.len()
    } else if i >= b.len() {
        false
    } else if a[i as int] != b[i as int] {
        a[i as int] < b[i as int]
    } else {
        lex_less_from(a, b, i + 1)
    }
}

/// Strict byte-wise lexicographic order, a proper prefix coming first.
pub open spec fn lex_less(a: Seq<u8>, b: Seq<u8>) -> bool {
    lex_less_from(a, b, 0)
}

/// Every dictionary holds its keys in strictly ascending byte order, at
/// every depth.
pub open spec fn well_formed(v: Value) -> bool
    decreases v,
{
    match v {
        Value::Integer(_) => true,
        Value::ByteString(_) => true,
        Value::List(items) => forall|i: int|
            0 <= i < items@.len() ==> well_formed(#[trigger] items@[i]),
        Value::Dictionary(entries) => {
            &&& forall|i: int| 0 <= i < entries@.len() ==> well_formed(#[trigger] entries@[i].1)
            &&& forall|i: int|
                0 <= i < entries@.len() - 1 ==> lex_less(
                    #[trigger] entries@[i].0@,
                    entries@[i + 1].0@,
                )
        },
    }
}

/// True where some well-formed value's encoding starts `s`.
pub open spec fn starts_with_value(s: Seq<u8>) -> bool {
    exists|v: Value| well_formed(v) && is_prefix(#[trigger] encoding(v), s)
}

pub proof fn lemma_nat_text(n: nat)
    ensures
        canonical_digits(nat_text(n)),
        digits_value(nat_text(n)) == n,
    decreases n,
{
    let t = nat_text(n);
    if n < 10 {
        assert(t.len() == 1);
        assert(t[0] == (n + 48) as u8);
        assert(t.drop_last() =~= Seq::<u8>::empty());
        assert(digits_value(t.drop_last()) == 0);
        assert(digits_value(t) == n);
        assert(is_digit(t[0]));
    } else {
        let q = n / 10;
        lemma_nat_text(q);
        assert(t.drop_last() =~= nat_text(q));
        assert(t.last() == ((n % 10) + 48) as u8);
        assert(digits_value(t) == q * 10 + n % 10);
        assert forall|i: int| 0 <= i < t.len() implies is_digit(#[trigger] t[i]) by {
            if i < t.len() - 1 {
                assert(t[i] == nat_text(q)[i]);
            }
        }
        assert(t[0] == nat_text(q)[0]);
        if nat_text(q).len() == 1 {
            assert(nat_text(q).drop_last() =~= Seq::<u8>::empty());
            assert(digits_value(nat_text(q).drop_last()) == 0);
            assert(t[0] != ZERO);
        }
        assert(canonical_digits(t));
    }
}

pub proof fn lemma_nat_text_lead(n: nat)
    requires
        n >= 1,
    ensures
        nat_text(n)[0] != ZERO,
{
    lemma_nat_text(n);
    if nat_text(n).len() == 1 {
        assert(nat_text(n).drop_last() =~= Seq::<u8>::empty());
        assert(digits_value(nat_text(n).drop_last()) == 0);
    }
}

pub proof fn lemma_digits_positive(d: Seq<u8>)
    requires
        d.len() >= 1,
        forall|i: int| 0 <= i < d.len() ==> is_digit(#[trigger] d[i]),
        d[0] != ZERO,
    ensures
        digits_value(d) >= 1,
        d.len() >= 2 ==> digits_value(d) >= 10,
    decreases d.len(),
{
    if d.len() >= 2 {
        let p = d.drop_last();
        assert(p[0] == d[0]);
        assert forall|i: int| 0 <= i < p.len() implies is_digit(#[trigger] p[i]) by {
            assert(p[i] == d[i]);
        }
        lemma_digits_positive(p);
    }
}

pub proof fn lemma_canonical_text(d: Seq<u8>)
    requires
        canonical_digits(d),
    ensures
        nat_text(digits_value(d)) == d,
    decreases d.len(),
{
    let v = digits_value(d);
    if d.len() == 1 {
        assert(d.drop_last() =~= Seq::<u8>::empty());
        assert(digits_value(d.drop_last()) == 0);
        assert(nat_text(v) =~= d);
    } else {
        let p = d.drop_last();
        assert(p[0] == d[0]);
        assert forall|i: int| 0 <= i < p.len() implies is_digit(#[trigger] p[i]) by {
            assert(p[i] == d[i]);
        }
        lemma_digits_positive(d);
        lemma_canonical_text(p);
        let c = (d.last() - ZERO) as nat;
        assert(v == digits_value(p) * 10 + c);
        assert(v / 10 == digits_value(p) && v % 10 == c) by (nonlinear_arith)
            requires
                v == digits_value(p) * 10 + c,
                c < 10,
        ;
        assert(nat_text(v) =~= d);
    }
}

/// The text of a number is the number's digits alone.
pub proof fn lemma_nat_text_injective(m: nat, n: nat)
    requires
        nat_text(m) == nat_text(n),
    ensures
        m == n,
{
    lemma_nat_text(m);
    lemma_nat_text(n);
}

pub proof fn lemma_int_text(n: int)
    ensures
        int_text(n).len() >= 1,
        forall|i: int|
            0 <= i < int_text(n).len() ==> is_digit(#[trigger] int_text(n)[i]) || int_text(n)[i]
                == MINUS,
{
    if n < 0 {
        lemma_nat_text((-n) as nat);
        let t = nat_text((-n) as nat);
        assert forall|i: int| 0 <= i < int_text(n).len() implies is_digit(
            #[trigger] int_text(n)[i],
        ) || int_text(n)[i] == MINUS by {
            if i > 0 {
                assert(int_text(n)[i] == t[i - 1]);
            }
        }
    } else {
        lemma_nat_text(n as nat);
    }
}

/// The first byte of an encoding tells the kind of value, and is never `e`.
pub proof fn lemma_first_byte(v: Value)
    ensures
        encoding(v).len() >= 2,
        match v {
            Value::Integer(_) => encoding(v)[0] == INT_START,
            Value::ByteString(_) => is_digit(encoding(v)[0]),
            Value::List(_) => encoding(v)[0] == LIST_START,
            Value::Dictionary(_) => encoding(v)[0] == DICT_START,
        },
{
    match v {
        Value::ByteString(b) => {
            lemma_nat_text(b@.len());
            assert(encoding(v)[0] == nat_text(b@.len())[0]);
        },
        Value::Integer(n) => {
            lemma_int_text(n as int);
        },
        _ => {},
    }
}


/// A prefix of `t` agrees with `t` on every range inside it.
pub proof fn lemma_prefix_range(p: Seq<u8>, t: Seq<u8>, lo: int, hi: int)
    requires
        is_prefix(p, t),
        0 <= lo <= hi <= p.len(),
    ensures
        p.subrange(lo, hi) == t.subrange(lo, hi),
{
    assert forall|i: int| 0 <= i < hi - lo implies #[trigger] t.subrange(lo, hi)[i] == p.subrange(
        lo,
        hi,
    )[i] by {
        assert(t.subrange(0, p.len() as int)[lo + i] == t[lo + i]);
    }
    assert(p.subrange(lo, hi) =~= t.subrange(lo, hi));
}

pub proof fn lemma_prefix_concat(a: Seq<u8>, b: Seq<u8>, t: Seq<u8>)
    requires
        is_prefix(a + b, t),
    ensures
        is_prefix(a, t),
        is_prefix(b, t.subrange(a.len() as int, t.len() as int)),
{
    let ab = a + b;
    lemma_prefix_range(ab, t, 0, a.len() as int);
    lemma_prefix_range(ab, t, a.len() as int, ab.len() as int);
    assert(ab.subrange(0, a.len() as int) =~= a);
    assert(ab.subrange(a.len() as int, ab.len() as int) =~= b);
    assert(t.subrange(a.len() as int, t.len() as int).subrange(0, b.len() as int) =~= t.subrange(
        a.len() as int,
        ab.len() as int,
    ));
}

/// Two string encodings that both start `t` are the same encoding.
pub proof fn lemma_string_unique(x: Seq<u8>, y: Seq<u8>, t: Seq<u8>)
    requires
        is_prefix(string_encoding(x), t),
        is_prefix(string_encoding(y), t),
    ensures
        x == y,
{
    let a = nat_text(x.len());
    let b = nat_text(y.len());
    lemma_nat_text(x.len());
    lemma_nat_text(y.len());
    assert(t[a.len() as int] == string_encoding(x)[a.len() as int]);
    assert(t[b.len() as int] == string_encoding(y)[b.len() as int]);
    if a.len() < b.len() {
        assert(t[a.len() as int] == b[a.len() as int]);
        assert(false);
    }
    if b.len() < a.len() {
        assert(t[b.len() as int] == a[b.len() as int]);
        assert(false);
    }
    let ex = string_encoding(x);
    let ey = string_encoding(y);
    lemma_prefix_range(ex, t, 0, a.len() as int);
    lemma_prefix_range(ey, t, 0, b.len() as int);
    assert(ex.subrange(0, a.len() as int) =~= a);
    assert(ey.subrange(0, b.len() as int) =~= b);
    lemma_nat_text_injective(x.len(), y.len());
    lemma_prefix_range(ex, t, a.len() as int + 1, ex.len() as int);
    lemma_prefix_range(ey, t, b.len() as int + 1, ey.len() as int);
    assert(ex.subrange(a.len() as int + 1, ex.len() as int) =~= x);
    assert(ey.subrange(b.len() as int + 1, ey.len() as int) =~= y);
}

/// Encodings are prefix-free: two that both start `t` are equal.
pub proof fn lemma_encoding_unique(v: Value, w: Value, t: Seq<u8>)
    requires
        is_prefix(encoding(v), t),
        is_prefix(encoding(w), t),
    ensures
        encoding(v) == encoding(w),
    decreases v,
{
    lemma_first_byte(v);
    lemma_first_byte(w);
    assert(t[0] == encoding(v)[0]);
    assert(t[0] == encoding(w)[0]);
    match v {
        Value::Integer(n) => {
            if let Value::Integer(m) = w {
                let a = int_text(n as int);
                let b = int_text(m as int);
                lemma_int_text(n as int);
                lemma_int_text(m as int);
                assert(t[a.len() as int + 1] == encoding(v)[a.len() as int + 1]);
                assert(t[b.len() as int + 1] == encoding(w)[b.len() as int + 1]);
                if a.len() < b.len() {
                    assert(t[a.len() as int + 1] == b[a.len() as int]);
                    assert(false);
                }
                if b.len() < a.len() {
                    assert(t[b.len() as int + 1] == a[b.len() as int]);
                    assert(false);
                }
                assert(encoding(v) =~= t.subrange(0, encoding(v).len() as int));
                assert(encoding(w) =~= t.subrange(0, encoding(w).len() as int));
            }
        },
        Value::ByteString(x) => {
            if let Value::ByteString(y) = w {
                lemma_string_unique(x@, y@, t);
            }
        },
        Value::List(a) => {
            if let Value::List(b) = w {
                let rest = t.subrange(1, t.len() as int);
                assert(encoding(v) =~= seq![LIST_START] + (items_encoding(a@) + seq![END]));
                assert(encoding(w) =~= seq![LIST_START] + (items_encoding(b@) + seq![END]));
                lemma_prefix_concat(seq![LIST_START], items_encoding(a@) + seq![END], t);
                lemma_prefix_concat(seq![LIST_START], items_encoding(b@) + seq![END], t);
                lemma_items_unique(a@, b@, rest);
            }
        },
        Value::Dictionary(a) => {
            if let Value::Dictionary(b) = w {
                let rest = t.subrange(1, t.len() as int);
                assert(encoding(v) =~= seq![DICT_START] + (entries_encoding(a@) + seq![END]));
                assert(encoding(w) =~= seq![DICT_START] + (entries_encoding(b@) + seq![END]));
                lemma_prefix_concat(seq![DICT_START], entries_encoding(a@) + seq![END], t);
                lemma_prefix_concat(seq![DICT_START], entries_encoding(b@) + seq![END], t);
                lemma_entries_unique(a@, b@, rest);
            }
        },
    }
}

pub proof fn lemma_items_unique(a: Seq<Value>, b: Seq<Value>, t: Seq<u8>)
    requires
        is_prefix(items_encoding(a) + seq![END], t),
        is_prefix(items_encoding(b) + seq![END], t),
    ensures
        items_encoding(a) == items_encoding(b),
    decreases a,
{
    if a.len() == 0 && b.len() == 0 {
    } else if a.len() == 0 {
        lemma_first_byte(b[0]);
        assert(t[0] == (items_encoding(a) + seq![END])[0]);
        assert(t[0] == (items_encoding(b) + seq![END])[0]);
    } else if b.len() == 0 {
        lemma_first_byte(a[0]);
        assert(t[0] == (items_encoding(a) + seq![END])[0]);
        assert(t[0] == (items_encoding(b) + seq![END])[0]);
    } else {
        let ra = a.subrange(1, a.len() as int);
        let rb = b.subrange(1, b.len() as int);
        assert(items_encoding(a) + seq![END] =~= encoding(a[0]) + (items_encoding(ra) + seq![END]));
        assert(items_encoding(b) + seq![END] =~= encoding(b[0]) + (items_encoding(rb) + seq![END]));
        lemma_prefix_concat(encoding(a[0]), items_encoding(ra) + seq![END], t);
        lemma_prefix_concat(encoding(b[0]), items_encoding(rb) + seq![END], t);
        lemma_encoding_unique(a[0], b[0], t);
        let n = encoding(a[0]).len() as int;
        lemma_items_unique(ra, rb, t.subrange(n, t.len() as int));
    }
}

pub proof fn lemma_entries_unique(a: Seq<(Vec<u8>, Value)>, b: Seq<(Vec<u8>, Value)>, t: Seq<u8>)
    requires
        is_prefix(entries_encoding(a) + seq![END], t),
        is_prefix(entries_encoding(b) + seq![END], t),
    ensures
        entries_encoding(a) == entries_encoding(b),
    decreases a,
{
    if a.len() == 0 && b.len() == 0 {
    } else if a.len() == 0 {
        lemma_nat_text(b[0].0@.len());
        let rb = b.subrange(1, b.len() as int);
        assert(entries_encoding(b) == entry_encoding(b[0]) + entries_encoding(rb));
        assert(entry_encoding(b[0]) == string_encoding(b[0].0@) + encoding(b[0].1));
        assert((entries_encoding(b) + seq![END])[0] == nat_text(b[0].0@.len())[0]);
        assert(t[0] == (entries_encoding(a) + seq![END])[0]);
        assert(t[0] == (entries_encoding(b) + seq![END])[0]);
    } else if b.len() == 0 {
        lemma_nat_text(a[0].0@.len());
        let ra = a.subrange(1, a.len() as int);
        assert(entries_encoding(a) == entry_encoding(a[0]) + entries_encoding(ra));
        assert(entry_encoding(a[0]) == string_encoding(a[0].0@) + encoding(a[0].1));
        assert((entries_encoding(a) + seq![END])[0] == nat_text(a[0].0@.len())[0]);
        assert(t[0] == (entries_encoding(a) + seq![END])[0]);
        assert(t[0] == (entries_encoding(b) + seq![END])[0]);
    } else {
        let ra = a.subrange(1, a.len() as int);
        let rb = b.subrange(1, b.len() as int);
        let ka = string_encoding(a[0].0@);
        let kb = string_encoding(b[0].0@);
        assert(entries_encoding(a) == entry_encoding(a[0]) + entries_encoding(ra));
        assert(entries_encoding(b) == entry_encoding(b[0]) + entries_encoding(rb));
        assert(entry_encoding(a[0]) == ka + encoding(a[0].1));
        assert(entry_encoding(b[0]) == kb + encoding(b[0].1));
        assert(entries_encoding(a) + seq![END] =~= ka + (encoding(a[0].1) + (entries_encoding(ra)
            + seq![END])));
        assert(entries_encoding(b) + seq![END] =~= kb + (encoding(b[0].1) + (entries_encoding(rb)
            + seq![END])));
        lemma_prefix_concat(ka, encoding(a[0].1) + (entries_encoding(ra) + seq![END]), t);
        lemma_prefix_concat(kb, encoding(b[0].1) + (entries_encoding(rb) + seq![END]), t);
        lemma_string_unique(a[0].0@, b[0].0@, t);
        assert(ka == kb);
        let t1 = t.subrange(ka.len() as int, t.len() as int);
        lemma_prefix_concat(encoding(a[0].1), entries_encoding(ra) + seq![END], t1);
        lemma_prefix_concat(encoding(b[0].1), entries_encoding(rb) + seq![END], t1);
        lemma_encoding_unique(a[0].1, b[0].1, t1);
        let n = encoding(a[0].1).len() as int;
        lemma_entries_unique(ra, rb, t1.subrange(n, t1.len() as int));
        assert(t1.subrange(n, t1.len() as int) =~= t.subrange(ka.len() + n, t.len() as int));
    }
}


pub proof fn lemma_items_split(ws: Seq<Value>, k: int)
    requires
        0 <= k <= ws.len(),
    ensures
        items_encoding(ws) == items_encoding(ws.subrange(0, k)) + items_encoding(
            ws.subrange(k, ws.len() as int),
        ),
    decreases k,
{
    if k == 0 {
        assert(ws.subrange(0, 0) =~= Seq::<Value>::empty());
        assert(ws.subrange(0, ws.len() as int) =~= ws);
        assert(items_encoding(ws.subrange(0, 0)) =~= Seq::<u8>::empty());
        assert(Seq::<u8>::empty() + items_encoding(ws) =~= items_encoding(ws));
    } else {
        let r = ws.subrange(1, ws.len() as int);
        lemma_items_split(r, k - 1);
        assert(ws.subrange(0, k).subrange(1, k) =~= r.subrange(0, k - 1));
        assert(ws.subrange(0, k)[0] == ws[0]);
        assert(r.subrange(k - 1, r.len() as int) =~= ws.subrange(k, ws.len() as int));
        assert(items_encoding(ws) =~= items_encoding(ws.subrange(0, k)) + items_encoding(
            ws.subrange(k, ws.len() as int),
        ));
    }
}

pub proof fn lemma_items_push(ps: Seq<Value>, v: Value)
    ensures
        items_encoding(ps.push(v)) == items_encoding(ps) + encoding(v),
{
    let q = ps.push(v);
    lemma_items_split(q, ps.len() as int);
    assert(q.subrange(0, ps.len() as int) =~= ps);
    let tail = q.subrange(ps.len() as int, q.len() as int);
    assert(tail.subrange(1, 1) =~= Seq::<Value>::empty());
    assert(tail[0] == v);
    assert(items_encoding(tail.subrange(1, 1)) =~= Seq::<u8>::empty());
    assert(items_encoding(tail) == encoding(v) + items_encoding(tail.subrange(1, 1)));
    assert(items_encoding(tail) =~= encoding(v));
}

pub proof fn lemma_entries_split(ws: Seq<(Vec<u8>, Value)>, k: int)
    requires
        0 <= k <= ws.len(),
    ensures
        entries_encoding(ws) == entries_encoding(ws.subrange(0, k)) + entries_encoding(
            ws.subrange(k, ws.len() as int),
        ),
    decreases k,
{
    if k == 0 {
        assert(ws.subrange(0, 0) =~= Seq::<(Vec<u8>, Value)>::empty());
        assert(ws.subrange(0, ws.len() as int) =~= ws);
        assert(entries_encoding(ws.subrange(0, 0)) =~= Seq::<u8>::empty());
        assert(Seq::<u8>::empty() + entries_encoding(ws) =~= entries_encoding(ws));
    } else {
        let r = ws.subrange(1, ws.len() as int);
        lemma_entries_split(r, k - 1);
        assert(ws.subrange(0, k).subrange(1, k) =~= r.subrange(0, k - 1));
        assert(ws.subrange(0, k)[0] == ws[0]);
        assert(r.subrange(k - 1, r.len() as int) =~= ws.subrange(k, ws.len() as int));
        assert(entries_encoding(ws) =~= entries_encoding(ws.subrange(0, k)) + entries_encoding(
            ws.subrange(k, ws.len() as int),
        ));
    }
}

pub proof fn lemma_entries_push(ps: Seq<(Vec<u8>, Value)>, e: (Vec<u8>, Value))
    ensures
        entries_encoding(ps.push(e)) == entries_encoding(ps) + entry_encoding(e),
{
    let q = ps.push(e);
    lemma_entries_split(q, ps.len() as int);
    assert(q.subrange(0, ps.len() as int) =~= ps);
    let tail = q.subrange(ps.len() as int, q.len() as int);
    assert(tail.subrange(1, 1) =~= Seq::<(Vec<u8>, Value)>::empty());
    assert(tail[0] == e);
    assert(entries_encoding(tail.subrange(1, 1)) =~= Seq::<u8>::empty());
    assert(entries_encoding(tail) == entry_encoding(e) + entries_encoding(tail.subrange(1, 1)));
    assert(entries_encoding(tail) =~= entry_encoding(e));
}

/// Where a closed list's items and some parsed items both start `t`, the
/// parsed ones are the list's first items, and after them comes either the
/// list's next item or its end.
pub proof fn lemma_list_continues(ws: Seq<Value>, ps: Seq<Value>, t: Seq<u8>)
    requires
        is_prefix(items_encoding(ws) + seq![END], t),
        is_prefix(items_encoding(ps), t),
    ensures
        ({
            let r = t.subrange(items_encoding(ps).len() as int, t.len() as int);
            ||| ps.len() == ws.len() && r.len() > 0 && r[0] == END
            ||| ps.len() < ws.len() && is_prefix(encoding(ws[ps.len() as int]), r)
        }),
    decreases ps.len(),
{
    if ps.len() == 0 {
        assert(t.subrange(0, t.len() as int) =~= t);
        if ws.len() == 0 {
            assert(t[0] == (items_encoding(ws) + seq![END])[0]);
        } else {
            let rw = ws.subrange(1, ws.len() as int);
            assert(items_encoding(ws) + seq![END] =~= encoding(ws[0]) + (items_encoding(rw)
                + seq![END]));
            lemma_prefix_concat(encoding(ws[0]), items_encoding(rw) + seq![END], t);
        }
    } else {
        let rp = ps.subrange(1, ps.len() as int);
        lemma_first_byte(ps[0]);
        assert(items_encoding(ps) == encoding(ps[0]) + items_encoding(rp));
        lemma_prefix_concat(encoding(ps[0]), items_encoding(rp), t);
        assert(t[0] == encoding(ps[0])[0]);
        if ws.len() == 0 {
            assert(t[0] == (items_encoding(ws) + seq![END])[0]);
            assert(false);
        }
        let rw = ws.subrange(1, ws.len() as int);
        assert(items_encoding(ws) + seq![END] =~= encoding(ws[0]) + (items_encoding(rw)
            + seq![END]));
        lemma_prefix_concat(encoding(ws[0]), items_encoding(rw) + seq![END], t);
        lemma_encoding_unique(ws[0], ps[0], t);
        let n = encoding(ps[0]).len() as int;
        let t1 = t.subrange(n, t.len() as int);
        lemma_list_continues(rw, rp, t1);
        assert(t1.subrange(items_encoding(rp).len() as int, t1.len() as int) =~= t.subrange(
            items_encoding(ps).len() as int,
            t.len() as int,
        ));
        if ps.len() < ws.len() {
            assert(rw[ps.len() - 1] == ws[ps.len() as int]);
        }
    }
}

/// The dictionary counterpart of `lemma_list_continues`: the parsed entries
/// also carry the dictionary's first keys.
pub proof fn lemma_dict_continues(
    ws: Seq<(Vec<u8>, Value)>,
    ps: Seq<(Vec<u8>, Value)>,
    t: Seq<u8>,
)
    requires
        is_prefix(entries_encoding(ws) + seq![END], t),
        is_prefix(entries_encoding(ps), t),
    ensures
        ps.len() <= ws.len(),
        forall|i: int| 0 <= i < ps.len() ==> (#[trigger] ps[i]).0@ == ws[i].0@,
        ({
            let r = t.subrange(entries_encoding(ps).len() as int, t.len() as int);
            ||| ps.len() == ws.len() && r.len() > 0 && r[0] == END
            ||| ps.len() < ws.len() && is_prefix(entry_encoding(ws[ps.len() as int]), r)
        }),
    decreases ps.len(),
{
    if ps.len() == 0 {
        assert(t.subrange(0, t.len() as int) =~= t);
        if ws.len() == 0 {
            assert(t[0] == (entries_encoding(ws) + seq![END])[0]);
        } else {
            let rw = ws.subrange(1, ws.len() as int);
            assert(entries_encoding(ws) + seq![END] =~= entry_encoding(ws[0]) + (
            entries_encoding(rw) + seq![END]));
            lemma_prefix_concat(entry_encoding(ws[0]), entries_encoding(rw) + seq![END], t);
        }
    } else {
        let rp = ps.subrange(1, ps.len() as int);
        let kp = string_encoding(ps[0].0@);
        lemma_nat_text(ps[0].0@.len());
        assert(entries_encoding(ps) == entry_encoding(ps[0]) + entries_encoding(rp));
        assert(entry_encoding(ps[0]) == kp + encoding(ps[0].1));
        assert(entries_encoding(ps) =~= kp + (encoding(ps[0].1) + entries_encoding(rp)));
        lemma_prefix_concat(kp, encoding(ps[0].1) + entries_encoding(rp), t);
        assert(t[0] == kp[0]);
        if ws.len() == 0 {
            assert(t[0] == (entries_encoding(ws) + seq![END])[0]);
            assert(false);
        }
        let rw = ws.subrange(1, ws.len() as int);
        let kw = string_encoding(ws[0].0@);
        assert(entries_encoding(ws) == entry_encoding(ws[0]) + entries_encoding(rw));
        assert(entry_encoding(ws[0]) == kw + encoding(ws[0].1));
        assert(entries_encoding(ws) + seq![END] =~= kw + (encoding(ws[0].1) + (entries_encoding(
            rw,
        ) + seq![END])));
        lemma_prefix_concat(kw, encoding(ws[0].1) + (entries_encoding(rw) + seq![END]), t);
        lemma_string_unique(ws[0].0@, ps[0].0@, t);
        assert(kw == kp);
        let t1 = t.subrange(kp.len() as int, t.len() as int);
        lemma_prefix_concat(encoding(ws[0].1), entries_encoding(rw) + seq![END], t1);
        lemma_prefix_concat(encoding(ps[0].1), entries_encoding(rp), t1);
        lemma_encoding_unique(ws[0].1, ps[0].1, t1);
        let n = encoding(ps[0].1).len() as int;
        let t2 = t1.subrange(n, t1.len() as int);
        lemma_dict_continues(rw, rp, t2);
        assert(t2.subrange(entries_encoding(rp).len() as int, t2.len() as int) =~= t.subrange(
            entries_encoding(ps).len() as int,
            t.len() as int,
        ));
        assert forall|i: int| 0 <= i < ps.len() implies (#[trigger] ps[i]).0@ == ws[i].0@ by {
            if i > 0 {
                assert(ps[i] == rp[i - 1]);
                assert(ws[i] == rw[i - 1]);
            }
        }
        if ps.len() < ws.len() {
            assert(rw[ps.len() - 1] == ws[ps.len() as int]);
        }
    }
}

/// Round trip: decoding the canonical encoding `encoding(v)` of a
/// well-formed value succeeds (some value starts it), and any value that
/// decoding can return there re-encodes to exactly those bytes.
pub proof fn lemma_round_trip(v: Value, w: Value)
    requires
        well_formed(v),
    ensures
        starts_with_value(encoding(v)),
        well_formed(w) && is_prefix(encoding(w), encoding(v)) ==> encoding(w) == encoding(v),
{
    let e = encoding(v);
    assert(e.subrange(0, e.len() as int) =~= e);
    assert(is_prefix(e, e));
    if is_prefix(encoding(w), e) {
        lemma_encoding_unique(w, v, e);
    }
}

/// Appends the decimal text of `n`.
pub(crate) fn push_nat(out: &mut Vec<u8>, n: u64)
    ensures
        final(out)@ == old(out)@ + nat_text(n as nat),
    decreases n,
{
    if n < 10 {
        out.push(n as u8 + ZERO);
    } else {
        push_nat(out, n / 10);
        out.push((n % 10) as u8 + ZERO);
    }
    proof {
        if n < 10 {
            assert(final(out)@ =~= old(out)@ + nat_text(n as nat));
        } else {
            assert(final(out)@ =~= old(out)@ + nat_text(n as nat));
        }
    }
}

/// Appends the decimal text of `n`, with a minus sign when negative.
pub(crate) fn push_int(out: &mut Vec<u8>, n: i64)
    ensures
        final(out)@ == old(out)@ + int_text(n as int),
{
    if n < 0 {
        out.push(MINUS);
        let magnitude: u64 = (-(n + 1)) as u64 + 1;
        push_nat(out, magnitude);
        assert(final(out)@ =~= old(out)@ + int_text(n as int));
    } else {
        push_nat(out, n as u64);
    }
}

/// Appends the encoding of a byte string.
pub(crate) fn push_string(out: &mut Vec<u8>, b: &[u8])
    ensures
        final(out)@ == old(out)@ + string_encoding(b@),
{
    push_nat(out, b.len() as u64);
    out.push(COLON);
    let mut i: usize = 0;
    while i < b.len()
        invariant
            i <= b@.len(),
            out@ == old(out)@ + nat_text(b@.len()) + seq![COLON] + b@.subrange(0, i as int),
        decreases b@.len() - i,
    {
        out.push(b[i]);
        i = i + 1;
        assert(out@ =~= old(out)@ + nat_text(b@.len()) + seq![COLON] + b@.subrange(0, i as int));
    }
    assert(b@.subrange(0, b@.len() as int) =~= b@);
    assert(final(out)@ =~= old(out)@ + string_encoding(b@));
}

/// Appends the canonical encoding of `v`.
fn push_value(out: &mut Vec<u8>, v: &Value)
    ensures
        final(out)@ == old(out)@ + encoding(*v),
    decreases v,
{
    match v {
        Value::Integer(n) => {
            out.push(INT_START);
            push_int(out, *n);
            out.push(END);
            assert(final(out)@ =~= old(out)@ + encoding(*v));
        },
        Value::ByteString(b) => {
            push_string(out, b.as_slice());
        },
        Value::List(items) => {
            out.push(LIST_START);
            let mut i: usize = 0;
            assert(items@.subrange(0, 0) =~= Seq::<Value>::empty());
            while i < items.len()
                invariant
                    *v == Value::List(*items),
                    i <= items@.len(),
                    out@ == old(out)@ + seq![LIST_START] + items_encoding(
                        items@.subrange(0, i as int),
                    ),
                decreases items@.len() - i,
            {
                proof {
                    assert(decreases_to!(*v => v->List_0));
                    assert(decreases_to!(*items => items@));
                    assert(decreases_to!(items@ => items@[i as int]));
                    lemma_items_push(items@.subrange(0, i as int), items@[i as int]);
                    assert(items@.subrange(0, i as int).push(items@[i as int]) =~= items@.subrange(
                        0,
                        i as int + 1,
                    ));
                }
                push_value(out, &items[i]);
                i = i + 1;
            }
            out.push(END);
            assert(items@.subrange(0, items@.len() as int) =~= items@);
            assert(final(out)@ =~= old(out)@ + encoding(*v));
        },
        Value::Dictionary(entries) => {
            out.push(DICT_START);
            let mut i: usize = 0;
            assert(entries@.subrange(0, 0) =~= Seq::<(Vec<u8>, Value)>::empty());
            while i < entries.len()
                invariant
                    *v == Value::Dictionary(*entries),
                    i <= entries@.len(),
                    out@ == old(out)@ + seq![DICT_START] + entries_encoding(
                        entries@.subrange(0, i as int),
                    ),
                decreases entries@.len() - i,
            {
                proof {
                    assert(decreases_to!(*v => v->Dictionary_0));
                    assert(decreases_to!(*entries => entries@));
                    assert(decreases_to!(entries@ => entries@[i as int]));
                    assert(decreases_to!(entries@[i as int] => entries@[i as int].1));
                    lemma_entries_push(entries@.subrange(0, i as int), entries@[i as int]);
                    assert(entries@.subrange(0, i as int).push(entries@[i as int])
                        =~= entries@.subrange(0, i as int + 1));
                    assert(entry_encoding(entries@[i as int]) == string_encoding(
                        entries@[i as int].0@,
                    ) + encoding(entries@[i as int].1));
                }
                push_string(out, entries[i].0.as_slice());
                push_value(out, &entries[i].1);
                i = i + 1;
                assert(out@ =~= old(out)@ + seq![DICT_START] + entries_encoding(
                    entries@.subrange(0, i as int),
                ));
            }
            out.push(END);
            assert(entries@.subrange(0, entries@.len() as int) =~= entries@);
            assert(final(out)@ =~= old(out)@ + encoding(*v));
        },
    }
}

impl Value {
    /// The canonical bencoding of this value: dictionary entries are written
    /// in the order held, so a well-formed value is written with sorted keys.
    pub fn encode(&self) -> (r: Vec<u8>)
        ensures
            r@ == encoding(*self),
    {
        let mut out: Vec<u8> = Vec::new();
        push_value(&mut out, self);
        assert(out@ =~= encoding(*self));
        out
    }
}

} // verus!
