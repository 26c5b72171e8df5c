//! Bencode, the binary encoding of torrent metainfo files: dictionaries,
//! lists, byte strings and integers.
//!
//! The decoder accepts exactly the canonical form of the format (minimal
//! integers, minimal length prefixes, strictly sorted dictionary keys) and
//! its contract ties every decoded value back to the bytes it came from:
//! re-encoding the value reproduces the consumed input. Malformed input is
//! a hard error, never a partial value.

use vstd::prelude::*;
use vstd::arithmetic::div_mod::{
    lemma_fundamental_div_mod_converse_div,
    lemma_fundamental_div_mod_converse_mod,
};

verus! {

/// A decoded bencode value.
///
/// Dictionary entries are kept in the order the input gave them, which the
/// decoder requires to be strictly sorted by key, as the format demands.
pub enum BValue {
    Int(i64),
    Bytes(Vec<u8>),
    List(Vec<BValue>),
    Dict(Vec<(Vec<u8>, BValue)>),
}

/// ASCII code of `'0'`.
pub const DIGIT_ZERO: u8 = 0x30;

/// ASCII code of `'9'`.
pub const DIGIT_NINE: u8 = 0x39;

/// The decimal digit characters of `n`, most significant first, as bytes.
pub open spec fn spec_digits(n: nat) -> Seq<u8>
    decreases n,
{
    if n < 10 {
        seq![(DIGIT_ZERO + n) as u8]
    } else {
        spec_digits(n / 10).push((DIGIT_ZERO + n % 10) as u8)
    }
}

/// The numeric value of a run of decimal digit bytes, accumulated left to
/// right.
pub open spec fn spec_digits_value(s: Seq<u8>) -> int
    decreases s.len(),
{
    if s.len() == 0 {
        0
    } else {
        spec_digits_value(s.drop_last()) * 10 + (s.last() - DIGIT_ZERO)
    }
}

/// Every byte of `s` is a decimal digit character.
pub open spec fn spec_all_digits(s: Seq<u8>) -> bool {
    forall|i: int| 0 <= i < s.len() ==> DIGIT_ZERO <= #[trigger] s[i] <= DIGIT_NINE
}

/// A digit run is minimal when it does not start with a superfluous zero.
pub open spec fn spec_minimal_digits(s: Seq<u8>) -> bool {
    s.len() == 1 || (s.len() > 1 && s[0] != DIGIT_ZERO)
}

/// The value of a single digit byte.
proof fn lemma_digits_value_single(s: Seq<u8>)
    requires
        s.len() == 1,
    ensures
        spec_digits_value(s) == s[0] - DIGIT_ZERO,
{
    assert(s.drop_last() =~= Seq::<u8>::empty());
    assert(spec_digits_value(Seq::<u8>::empty()) == 0);
}

/// A digit run whose first digit is nonzero has a positive value.
proof fn lemma_digits_value_positive(s: Seq<u8>)
    requires
        s.len() >= 1,
        spec_all_digits(s),
        s[0] > DIGIT_ZERO,
    ensures
        spec_digits_value(s) >= 1,
    decreases s.len(),
{
    if s.len() == 1 {
        lemma_digits_value_single(s);
    } else {
        assert(spec_all_digits(s.drop_last())) by {
            assert forall|i: int| 0 <= i < s.drop_last().len() implies DIGIT_ZERO <= #[trigger] s
                .drop_last()[i] <= DIGIT_NINE by {
                assert(s.drop_last()[i] == s[i]);
            }
        }
        lemma_digits_value_positive(s.drop_last());
        assert(DIGIT_ZERO <= s[s.len() - 1]);
    }
}

/// The value of a digit run is never negative.
proof fn lemma_digits_value_nonneg(s: Seq<u8>)
    requires
        spec_all_digits(s),
    ensures
        spec_digits_value(s) >= 0,
    decreases s.len(),
{
    if s.len() > 0 {
        assert(spec_all_digits(s.drop_last())) by {
            assert forall|i: int| 0 <= i < s.drop_last().len() implies DIGIT_ZERO <= #[trigger] s
                .drop_last()[i] <= DIGIT_NINE by {
                assert(s.drop_last()[i] == s[i]);
            }
        }
        lemma_digits_value_nonneg(s.drop_last());
        assert(DIGIT_ZERO <= s[s.len() - 1]);
    }
}

/// Reading a minimal digit run and printing its value again gives back
/// exactly the same digits.
pub proof fn lemma_digits_roundtrip(s: Seq<u8>)
    requires
        s.len() >= 1,
        spec_all_digits(s),
        spec_minimal_digits(s),
    ensures
        spec_digits_value(s) >= 0,
        spec_digits(spec_digits_value(s) as nat) == s,
    decreases s.len(),
{
    lemma_digits_value_nonneg(s);
    if s.len() == 1 {
        lemma_digits_value_single(s);
        assert(spec_digits(spec_digits_value(s) as nat) =~= s);
    } else {
        let s0 = s.drop_last();
        assert(spec_all_digits(s0)) by {
            assert forall|i: int| 0 <= i < s0.len() implies DIGIT_ZERO <= #[trigger] s0[i]
                <= DIGIT_NINE by {
                assert(s0[i] == s[i]);
            }
        }
        assert(s0[0] == s[0]);
        let d = s.last() - DIGIT_ZERO;
        assert(DIGIT_ZERO <= s[s.len() - 1] <= DIGIT_NINE);
        let v0 = spec_digits_value(s0);
        lemma_digits_roundtrip(s0);
        lemma_digits_value_positive(s0);
        let v = spec_digits_value(s);
        assert(v == v0 * 10 + d);
        lemma_fundamental_div_mod_converse_div(v, 10, v0, d);
        lemma_fundamental_div_mod_converse_mod(v, 10, v0, d);
        assert(v / 10 == v0 && v % 10 == d);
        assert(v >= 10) by {
            assert(v0 >= 1);
        }
        assert(spec_digits(v as nat) == spec_digits((v / 10) as nat).push(
            (DIGIT_ZERO + v % 10) as u8,
        ));
        assert(spec_digits(v as nat) =~= s);
    }
}

/// Write the decimal digits of `n`, most significant first.
pub fn u64_digits(n: u64) -> (r: Vec<u8>)
    ensures
        r@ == spec_digits(n as nat),
{
    let mut rev: Vec<u8> = Vec::new();
    let mut m = n;
    proof {
        assert(spec_digits(n as nat) =~= spec_digits(n as nat) + rev@.reverse());
    }
    // collect the digits least significant first
    while m >= 10
        invariant
            spec_digits(n as nat) == spec_digits(m as nat) + rev@.reverse(),
        decreases m,
    {
        let d = (m % 10) as u8;
        rev.push(DIGIT_ZERO + d);
        proof {
            let old_rev = rev@.drop_last();
            assert(spec_digits(m as nat) == spec_digits((m / 10) as nat).push(
                (DIGIT_ZERO + m % 10) as u8,
            ));
            assert(spec_digits((m / 10) as nat) + rev@.reverse() =~= spec_digits(
                (m / 10) as nat,
            ).push((DIGIT_ZERO + m % 10) as u8) + old_rev.reverse());
        }
        m = m / 10;
    }
    let mut r: Vec<u8> = Vec::new();
    r.push(DIGIT_ZERO + (m % 10) as u8);
    proof {
        assert(r@ =~= spec_digits(m as nat));
    }
    let mut i = rev.len();
    proof {
        assert(rev@.subrange(rev@.len() as int, rev@.len() as int) =~= Seq::<u8>::empty());
        assert(r@ =~= spec_digits(m as nat) + rev@.subrange(
            rev@.len() as int,
            rev@.len() as int,
        ).reverse());
    }
    while i > 0
        invariant
            i <= rev@.len(),
            m < 10,
            spec_digits(n as nat) == spec_digits(m as nat) + rev@.reverse(),
            r@ == spec_digits(m as nat) + rev@.subrange(i as int, rev@.len() as int).reverse(),
        decreases i,
    {
        i = i - 1;
        r.push(rev[i]);
        proof {
            assert(r@ =~= spec_digits(m as nat) + rev@.subrange(i as int, rev@.len() as int)
                .reverse());
        }
    }
    proof {
        assert(rev@.subrange(0, rev@.len() as int) =~= rev@);
    }
    r
}

/// ASCII code of `'i'`, opening an integer.
pub const INT_MARK: u8 = 0x69;

/// ASCII code of `'l'`, opening a list.
pub const LIST_MARK: u8 = 0x6c;

/// ASCII code of `'d'`, opening a dictionary.
pub const DICT_MARK: u8 = 0x64;

/// ASCII code of `'e'`, closing an integer, list or dictionary.
pub const END_MARK: u8 = 0x65;

/// ASCII code of `':'`, separating a length prefix from its bytes.
pub const COLON: u8 = 0x3a;

/// ASCII code of `'-'`, the sign of a negative integer.
pub const HYPHEN: u8 = 0x2d;

/// The digit characters of a possibly negative number.
pub open spec fn spec_int_bytes(i: int) -> Seq<u8> {
    if i < 0 {
        seq![HYPHEN] + spec_digits((-i) as nat)
    } else {
        spec_digits(i as nat)
    }
}

/// The encoding of a byte string: its length in decimal, a colon, and the
/// bytes themselves.
pub open spec fn spec_string_bytes(b: Seq<u8>) -> Seq<u8> {
    spec_digits(b.len()) + seq![COLON] + b
}

/// The canonical encoding of a value.
pub open spec fn spec_encode(v: BValue) -> Seq<u8>
    decreases v,
{
    match v {
        BValue::Int(i) => seq![INT_MARK] + spec_int_bytes(i as int) + seq![END_MARK],
        BValue::Bytes(b) => spec_string_bytes(b@),
        BValue::List(items) => seq![LIST_MARK] + spec_encode_items(items@) + seq![END_MARK],
        BValue::Dict(entries) => seq![DICT_MARK] + spec_encode_entries(entries@) + seq![
            END_MARK,
        ],
    }
}

/// The concatenated encodings of a sequence of values.
pub open spec fn spec_encode_items(items: Seq<BValue>) -> Seq<u8>
    decreases items,
{
    if items.len() == 0 {
        Seq::empty()
    } else {
        spec_encode(items[0]) + spec_encode_items(items.drop_first())
    }
}

/// The concatenated encodings of a sequence of dictionary entries.
pub open spec fn spec_encode_entries(entries: Seq<(Vec<u8>, BValue)>) -> Seq<u8>
    decreases entries,
{
    if entries.len() == 0 {
        Seq::empty()
    } else {
        spec_string_bytes(entries[0].0@) + spec_encode(entries[0].1) + spec_encode_entries(
            entries.drop_first(),
        )
    }
}

/// Byte-wise lexicographic strict order, the order the format demands of
/// dictionary keys.
pub open spec fn spec_key_lt(a: Seq<u8>, b: Seq<u8>) -> bool {
    ||| (exists|i: int|
        0 <= i < a.len() && i < b.len() && a[i] < b[i] && a.subrange(0, i) == b.subrange(0, i))
    ||| (a.len() < b.len() && a == b.subrange(0, a.len() as int))
}

/// A value is canonical when every dictionary in it has strictly
/// increasing keys.
pub open spec fn spec_canonical(v: BValue) -> bool
    decreases v,
{
    match v {
        BValue::Int(_) => true,
        BValue::Bytes(_) => true,
        BValue::List(items) => forall|i: int|
            0 <= i < items@.len() ==> spec_canonical(#[trigger] items@[i]),
        BValue::Dict(entries) => {
            &&& forall|i: int|
                0 <= i < entries@.len() ==> spec_canonical(#[trigger] entries@[i].1)
            &&& forall|i: int|
                0 <= i < entries@.len() - 1 ==> spec_key_lt(
                    #[trigger] entries@[i].0@,
                    entries@[i + 1].0@,
                )
        },
    }
}

/// The first position at or after `pos` that does not hold a digit
/// character, or the end of the input.
pub open spec fn spec_digit_run_end(bytes: Seq<u8>, pos: int) -> int
    decreases bytes.len() - pos,
{
    if pos < 0 || pos >= bytes.len() {
        pos
    } else if DIGIT_ZERO <= bytes[pos] <= DIGIT_NINE {
        spec_digit_run_end(bytes, pos + 1)
    } else {
        pos
    }
}

/// Where an integer `i...e` starting at `pos` ends, if the bytes from
/// `pos` hold a canonically written integer that fits a 64-bit signed
/// word; the position just after its closing mark.
pub open spec fn spec_parse_int(bytes: Seq<u8>, pos: int) -> Option<int> {
    let neg = pos + 1 < bytes.len() && bytes[pos + 1] == HYPHEN;
    let dstart = if neg {
        pos + 2
    } else {
        pos + 1
    };
    let dend = spec_digit_run_end(bytes, dstart);
    let digits = bytes.subrange(dstart, dend);
    let v = spec_digits_value(digits);
    if digits.len() >= 1 && spec_minimal_digits(digits) && (!neg || digits[0] != DIGIT_ZERO)
        && dend < bytes.len() && bytes[dend] == END_MARK && (if neg {
        v <= 0x8000_0000_0000_0000
    } else {
        v <= 0x7fff_ffff_ffff_ffff
    }) {
        Some(dend + 1)
    } else {
        None
    }
}

/// Where a length-prefixed byte string starting at `pos` ends, if the
/// bytes from `pos` hold one with a minimal length prefix.
pub open spec fn spec_parse_str(bytes: Seq<u8>, pos: int) -> Option<int> {
    let dend = spec_digit_run_end(bytes, pos);
    let digits = bytes.subrange(pos, dend);
    let n = spec_digits_value(digits);
    if digits.len() >= 1 && spec_minimal_digits(digits) && dend < bytes.len() && bytes[dend]
        == COLON && dend + 1 + n <= bytes.len() {
        Some(dend + 1 + n)
    } else {
        None
    }
}

/// Where the canonical bencode value starting at `pos` ends: the exact
/// grammar the decoder accepts. `None` when the bytes from `pos` do not
/// open a canonical value.
pub open spec fn spec_parse(bytes: Seq<u8>, pos: int) -> Option<int>
    decreases bytes.len() - pos, 0int,
{
    if pos < 0 || pos >= bytes.len() {
        None
    } else if bytes[pos] == INT_MARK {
        spec_parse_int(bytes, pos)
    } else if bytes[pos] == LIST_MARK {
        spec_parse_items(bytes, pos + 1)
    } else if bytes[pos] == DICT_MARK {
        spec_parse_entries(bytes, pos + 1, None)
    } else {
        spec_parse_str(bytes, pos)
    }
}

/// Where the remaining items of a list end, the closing mark included.
pub open spec fn spec_parse_items(bytes: Seq<u8>, pos: int) -> Option<int>
    decreases bytes.len() - pos, 1int,
{
    if pos < 0 || pos >= bytes.len() {
        None
    } else if bytes[pos] == END_MARK {
        Some(pos + 1)
    } else {
        match spec_parse(bytes, pos) {
            None => None,
            Some(end) => if pos < end <= bytes.len() {
                spec_parse_items(bytes, end)
            } else {
                None
            },
        }
    }
}

/// Where the remaining entries of a dictionary end, the closing mark
/// included; each key must be a byte string strictly greater than the
/// previous one.
pub open spec fn spec_parse_entries(bytes: Seq<u8>, pos: int, prev: Option<Seq<u8>>) -> Option<
    int,
>
    decreases bytes.len() - pos, 1int,
{
    if pos < 0 || pos >= bytes.len() {
        None
    } else if bytes[pos] == END_MARK {
        Some(pos + 1)
    } else {
        match spec_parse_str(bytes, pos) {
            None => None,
            Some(kend) => {
                let dend = spec_digit_run_end(bytes, pos);
                let key = bytes.subrange(dend + 1, kend);
                if !(prev is None || spec_key_lt(prev->0, key)) {
                    None
                } else if !(pos < kend <= bytes.len()) {
                    None
                } else {
                    match spec_parse(bytes, kend) {
                        None => None,
                        Some(vend) => if kend < vend <= bytes.len() {
                            spec_parse_entries(bytes, vend, Some(key))
                        } else {
                            None
                        },
                    }
                }
            },
        }
    }
}

/// Appending a value to a sequence appends its encoding.
proof fn lemma_encode_items_push(items: Seq<BValue>, v: BValue)
    ensures
        spec_encode_items(items.push(v)) == spec_encode_items(items) + spec_encode(v),
    decreases items,
{
    assert(items.push(v)[0] == if items.len() == 0 {
        v
    } else {
        items[0]
    });
    if items.len() == 0 {
        assert(items.push(v).drop_first() =~= Seq::<BValue>::empty());
        assert(spec_encode_items(Seq::<BValue>::empty()) =~= Seq::<u8>::empty());
        assert(spec_encode_items(items.push(v)) == spec_encode(v) + Seq::<u8>::empty());
        assert(spec_encode_items(items.push(v)) =~= spec_encode_items(items) + spec_encode(v));
    } else {
        assert(items.push(v).drop_first() =~= items.drop_first().push(v));
        lemma_encode_items_push(items.drop_first(), v);
        assert(spec_encode_items(items.push(v)) =~= spec_encode_items(items) + spec_encode(v));
    }
}

/// Appending an entry to a sequence of entries appends its encoding.
proof fn lemma_encode_entries_push(entries: Seq<(Vec<u8>, BValue)>, e: (Vec<u8>, BValue))
    ensures
        spec_encode_entries(entries.push(e)) == spec_encode_entries(entries) + spec_string_bytes(
            e.0@,
        ) + spec_encode(e.1),
    decreases entries,
{
    assert(entries.push(e)[0] == if entries.len() == 0 {
        e
    } else {
        entries[0]
    });
    if entries.len() == 0 {
        assert(entries.push(e).drop_first() =~= Seq::<(Vec<u8>, BValue)>::empty());
        assert(spec_encode_entries(Seq::<(Vec<u8>, BValue)>::empty()) =~= Seq::<u8>::empty());
        assert(spec_encode_entries(entries.push(e)) =~= spec_encode_entries(entries)
            + spec_string_bytes(e.0@) + spec_encode(e.1));
    } else {
        assert(entries.push(e).drop_first() =~= entries.drop_first().push(e));
        lemma_encode_entries_push(entries.drop_first(), e);
        assert(spec_encode_entries(entries.push(e)) =~= spec_encode_entries(entries)
            + spec_string_bytes(e.0@) + spec_encode(e.1));
    }
}

/// Once a digit taken at position `i` pushes the running value past a
/// non-negative bound, the value of the whole digit run exceeds it too.
proof fn lemma_digits_value_exceeds(s: Seq<u8>, i: int, bound: int)
    requires
        spec_all_digits(s),
        0 <= i < s.len(),
        bound >= 0,
        spec_digits_value(s.subrange(0, i)) * 10 + (s[i] - DIGIT_ZERO) > bound,
    ensures
        spec_digits_value(s) > bound,
    decreases s.len() - i,
{
    if i == s.len() - 1 {
        assert(s.subrange(0, s.len() as int) =~= s);
        assert(s.drop_last() =~= s.subrange(0, i));
    } else {
        assert(s.subrange(0, i + 1).drop_last() =~= s.subrange(0, i));
        assert(s.subrange(0, i + 1).last() == s[i]);
        assert(spec_digits_value(s.subrange(0, i + 1)) > bound);
        assert(s[i + 1] - DIGIT_ZERO >= 0);
        lemma_digits_value_exceeds(s, i + 1, bound);
    }
}

/// Find the end of the digit run starting at `pos`.
fn digit_run_end(bytes: &Vec<u8>, pos: usize) -> (r: usize)
    requires
        pos <= bytes@.len(),
    ensures
        pos <= r <= bytes@.len(),
        r == spec_digit_run_end(bytes@, pos as int),
        forall|i: int| pos <= i < r ==> DIGIT_ZERO <= #[trigger] bytes@[i] <= DIGIT_NINE,
{
    let mut cur = pos;
    while cur < bytes.len() && DIGIT_ZERO <= bytes[cur] && bytes[cur] <= DIGIT_NINE
        invariant
            pos <= cur <= bytes@.len(),
            spec_digit_run_end(bytes@, pos as int) == spec_digit_run_end(bytes@, cur as int),
            forall|i: int| pos <= i < cur ==> DIGIT_ZERO <= #[trigger] bytes@[i] <= DIGIT_NINE,
        decreases bytes@.len() - cur,
    {
        cur += 1;
    }
    cur
}

/// Read the value of the digit run `bytes[start..end)`; `None` when it
/// does not fit in `u64`.
fn parse_u64_range(bytes: &Vec<u8>, start: usize, end: usize) -> (r: Option<u64>)
    requires
        start <= end <= bytes@.len(),
        forall|i: int| start <= i < end ==> DIGIT_ZERO <= #[trigger] bytes@[i] <= DIGIT_NINE,
    ensures
        r is Some <==> spec_digits_value(bytes@.subrange(start as int, end as int)) <= u64::MAX,
        r matches Some(n) ==> n == spec_digits_value(bytes@.subrange(start as int, end as int)),
{
    let ghost s = bytes@.subrange(start as int, end as int);
    proof {
        assert(spec_all_digits(s)) by {
            assert forall|i: int| 0 <= i < s.len() implies DIGIT_ZERO <= #[trigger] s[i]
                <= DIGIT_NINE by {
                assert(s[i] == bytes@[start + i]);
            }
        }
    }
    let mut acc: u64 = 0;
    let mut i: usize = start;
    while i < end
        invariant
            start <= i <= end <= bytes@.len(),
            s == bytes@.subrange(start as int, end as int),
            spec_all_digits(s),
            forall|t: int| start <= t < end ==> DIGIT_ZERO <= #[trigger] bytes@[t] <= DIGIT_NINE,
            acc == spec_digits_value(s.subrange(0, i - start)),
        decreases end - i,
    {
        let c = bytes[i];
        proof {
            assert(DIGIT_ZERO <= bytes@[i as int] <= DIGIT_NINE);
        }
        let d: u64 = (c - DIGIT_ZERO) as u64;
        let next = match acc.checked_mul(10) {
            Some(x) => x.checked_add(d),
            None => None,
        };
        match next {
            Some(x) => {
                acc = x;
            },
            None => {
                proof {
                    assert(s[i - start] == bytes@[i as int]);
                    lemma_digits_value_exceeds(s, i - start, u64::MAX as int);
                }
                return None;
            },
        }
        proof {
            assert(s.subrange(0, i - start + 1).drop_last() =~= s.subrange(0, i - start));
            assert(s.subrange(0, i - start + 1).last() == bytes@[i as int]);
        }
        i += 1;
    }
    proof {
        assert(s.subrange(0, s.len() as int) =~= s);
    }
    Some(acc)
}

/// Copy `bytes[start..end)` into a fresh vector.
fn copy_range(bytes: &Vec<u8>, start: usize, end: usize) -> (r: Vec<u8>)
    requires
        start <= end <= bytes@.len(),
    ensures
        r@ == bytes@.subrange(start as int, end as int),
{
    let mut r: Vec<u8> = Vec::new();
    let mut i = start;
    while i < end
        invariant
            start <= i <= end <= bytes@.len(),
            r@ == bytes@.subrange(start as int, i as int),
        decreases end - i,
    {
        r.push(bytes[i]);
        proof {
            assert(bytes@.subrange(start as int, i + 1 as int) =~= bytes@.subrange(
                start as int,
                i as int,
            ).push(bytes@[i as int]));
        }
        i += 1;
    }
    r
}

/// Compare two byte vectors for equality.
pub fn bytes_eq(a: &Vec<u8>, b: &Vec<u8>) -> (r: bool)
    ensures
        r == (a@ == b@),
{
    if a.len() != b.len() {
        return false;
    }
    let mut i: usize = 0;
    while i < a.len()
        invariant
            a@.len() == b@.len(),
            i <= a@.len(),
            forall|j: int| 0 <= j < i ==> a@[j] == b@[j],
        decreases a@.len() - i,
    {
        if a[i] != b[i] {
            return false;
        }
        i += 1;
    }
    proof {
        assert(a@ =~= b@);
    }
    true
}

/// The value stored under `key` in a dictionary's entry list; the first
/// match counts.
pub open spec fn spec_dict_get(entries: Seq<(Vec<u8>, BValue)>, key: Seq<u8>) -> Option<BValue>
    decreases entries.len(),
{
    if entries.len() == 0 {
        None
    } else if entries[0].0@ == key {
        Some(entries[0].1)
    } else {
        spec_dict_get(entries.drop_first(), key)
    }
}

/// Look a key up in a dictionary's entry list.
pub fn dict_get<'a>(entries: &'a Vec<(Vec<u8>, BValue)>, key: &Vec<u8>) -> (r: Option<
    &'a BValue,
>)
    ensures
        r matches Some(v) ==> spec_dict_get(entries@, key@) == Some(*v),
        r is None ==> spec_dict_get(entries@, key@) is None,
{
    let mut i: usize = 0;
    proof {
        assert(entries@.skip(0) =~= entries@);
    }
    while i < entries.len()
        invariant
            i <= entries@.len(),
            spec_dict_get(entries@, key@) == spec_dict_get(entries@.skip(i as int), key@),
        decreases entries@.len() - i,
    {
        proof {
            assert(entries@.skip(i as int)[0] == entries@[i as int]);
            assert(entries@.skip(i as int).drop_first() =~= entries@.skip(i + 1 as int));
        }
        if bytes_eq(&entries[i].0, key) {
            return Some(&entries[i].1);
        }
        i += 1;
    }
    None
}

/// Compare two keys in the byte-wise lexicographic order.
pub fn key_lt(a: &Vec<u8>, b: &Vec<u8>) -> (r: bool)
    ensures
        r == spec_key_lt(a@, b@),
{
    let mut i: usize = 0;
    while i < a.len() && i < b.len()
        invariant
            i <= a@.len(),
            i <= b@.len(),
            forall|j: int| 0 <= j < i ==> a@[j] == b@[j],
        decreases a@.len() - i,
    {
        if a[i] < b[i] {
            proof {
                assert(a@.subrange(0, i as int) =~= b@.subrange(0, i as int));
            }
            return true;
        }
        if a[i] > b[i] {
            proof {
                assert forall|k: int|
                    !(0 <= k < a@.len() && k < b@.len() && a@[k] < b@[k] && a@.subrange(0, k)
                        == b@.subrange(0, k)) by {
                    if 0 <= k < a@.len() && k < b@.len() && a@.subrange(0, k) == b@.subrange(
                        0,
                        k,
                    ) {
                        if k > i {
                            assert(a@.subrange(0, k)[i as int] == b@.subrange(0, k)[i as int]);
                        }
                    }
                }
                if a@.len() < b@.len() && a@ == b@.subrange(0, a@.len() as int) {
                    assert(a@[i as int] == b@.subrange(0, a@.len() as int)[i as int]);
                }
            }
            return false;
        }
        i += 1;
    }
    if a.len() < b.len() {
        proof {
            assert(a@ =~= b@.subrange(0, a@.len() as int));
        }
        true
    } else {
        proof {
            assert forall|k: int|
                !(0 <= k < a@.len() && k < b@.len() && a@[k] < b@[k] && a@.subrange(0, k)
                    == b@.subrange(0, k)) by {}
        }
        false
    }
}

/// Append every byte of `src` to `dst`.
fn push_all(dst: &mut Vec<u8>, src: &Vec<u8>)
    ensures
        final(dst)@ == old(dst)@ + src@,
{
    let mut i: usize = 0;
    while i < src.len()
        invariant
            i <= src@.len(),
            dst@ == old(dst)@ + src@.subrange(0, i as int),
        decreases src@.len() - i,
    {
        dst.push(src[i]);
        proof {
            assert(old(dst)@ + src@.subrange(0, i + 1 as int) =~= (old(dst)@ + src@.subrange(
                0,
                i as int,
            )).push(src@[i as int]));
        }
        i += 1;
    }
    proof {
        assert(src@.subrange(0, src@.len() as int) =~= src@);
    }
}

/// The key of the last entry parsed so far, the bound the next key must
/// exceed.
pub open spec fn spec_prev_key(entries: Seq<(Vec<u8>, BValue)>) -> Option<Seq<u8>> {
    if entries.len() == 0 {
        None
    } else {
        Some(entries.last().0@)
    }
}

/// Parse a length-prefixed byte string at `pos`: its content and its end.
pub fn parse_str(bytes: &Vec<u8>, pos: usize) -> (r: Option<(Vec<u8>, usize)>)
    requires
        pos <= bytes@.len(),
    ensures
        r is None ==> spec_parse_str(bytes@, pos as int) is None,
        r matches Some((content, end)) ==> {
            &&& pos < end <= bytes@.len()
            &&& spec_parse_str(bytes@, pos as int) == Some(end as int)
            &&& content@ == bytes@.subrange(
                spec_digit_run_end(bytes@, pos as int) + 1,
                end as int,
            )
            &&& bytes@.subrange(pos as int, end as int) == spec_string_bytes(content@)
        },
{
    let dend = digit_run_end(bytes, pos);
    let ghost digits = bytes@.subrange(pos as int, dend as int);
    proof {
        assert(spec_all_digits(digits)) by {
            assert forall|i: int| 0 <= i < digits.len() implies DIGIT_ZERO <= #[trigger] digits[i]
                <= DIGIT_NINE by {
                assert(digits[i] == bytes@[pos + i]);
            }
        }
    }
    if dend == pos {
        return None;
    }
    proof {
        assert(digits[0] == bytes@[pos as int]);
    }
    if bytes[pos] == DIGIT_ZERO && dend - pos > 1 {
        return None;
    }
    if dend == bytes.len() {
        return None;
    }
    if bytes[dend] != COLON {
        return None;
    }
    match parse_u64_range(bytes, pos, dend) {
        None => {
            proof {
                assert(spec_digits_value(digits) > u64::MAX);
            }
            None
        },
        Some(n) => {
            let rem = bytes.len() - dend - 1;
            if n > rem as u64 {
                return None;
            }
            let nn = n as usize;
            let content = copy_range(bytes, dend + 1, dend + 1 + nn);
            proof {
                lemma_digits_roundtrip(digits);
                assert(content@.len() == nn);
                assert(bytes@.subrange(pos as int, (dend + 1 + nn) as int) =~= spec_string_bytes(
                    content@,
                ));
            }
            Some((content, dend + 1 + nn))
        },
    }
}

/// Parse the canonical bencode value starting at `pos`.
///
/// On success the decoded value is canonical and re-encoding it gives
/// back exactly the consumed bytes; the parse succeeds precisely on the
/// inputs the grammar `spec_parse` accepts.
pub fn parse_value(bytes: &Vec<u8>, pos: usize) -> (r: Option<(BValue, usize)>)
    requires
        pos <= bytes@.len(),
    ensures
        r is None ==> spec_parse(bytes@, pos as int) is None,
        r matches Some((v, end)) ==> {
            &&& pos < end <= bytes@.len()
            &&& spec_parse(bytes@, pos as int) == Some(end as int)
            &&& spec_canonical(v)
            &&& bytes@.subrange(pos as int, end as int) == spec_encode(v)
        },
    decreases bytes@.len() - pos,
{
    if pos == bytes.len() {
        return None;
    }
    let b = bytes[pos];
    if b == INT_MARK {
        let neg = pos + 1 < bytes.len() && bytes[pos + 1] == HYPHEN;
        let dstart = if neg {
            pos + 2
        } else {
            pos + 1
        };
        let dend = digit_run_end(bytes, dstart);
        let ghost digits = bytes@.subrange(dstart as int, dend as int);
        proof {
            assert(spec_all_digits(digits)) by {
                assert forall|i: int| 0 <= i < digits.len() implies DIGIT_ZERO
                    <= #[trigger] digits[i] <= DIGIT_NINE by {
                    assert(digits[i] == bytes@[dstart + i]);
                }
            }
        }
        if dend == dstart {
            return None;
        }
        proof {
            assert(digits[0] == bytes@[dstart as int]);
        }
        if bytes[dstart] == DIGIT_ZERO && (neg || dend - dstart > 1) {
            return None;
        }
        if dend == bytes.len() {
            return None;
        }
        if bytes[dend] != END_MARK {
            return None;
        }
        match parse_u64_range(bytes, dstart, dend) {
            None => {
                proof {
                    assert(spec_digits_value(digits) > u64::MAX);
                }
                None
            },
            Some(n) => {
                if neg {
                    if n > 0x8000_0000_0000_0000u64 {
                        return None;
                    }
                    let i: i64 = if n == 0x8000_0000_0000_0000u64 {
                        i64::MIN
                    } else {
                        -(n as i64)
                    };
                    let v = BValue::Int(i);
                    proof {
                        lemma_digits_roundtrip(digits);
                        assert(spec_parse_int(bytes@, pos as int) == Some((dend + 1) as int));
                        assert(bytes@.subrange(pos as int, (dend + 1) as int) =~= spec_encode(v));
                    }
                    Some((v, dend + 1))
                } else {
                    if n > 0x7fff_ffff_ffff_ffffu64 {
                        return None;
                    }
                    let v = BValue::Int(n as i64);
                    proof {
                        lemma_digits_roundtrip(digits);
                        assert(spec_parse_int(bytes@, pos as int) == Some((dend + 1) as int));
                        assert(bytes@.subrange(pos as int, (dend + 1) as int) =~= spec_encode(v));
                    }
                    Some((v, dend + 1))
                }
            },
        }
    } else if b == LIST_MARK {
        let mut items: Vec<BValue> = Vec::new();
        let mut cur = pos + 1;
        proof {
            assert(spec_encode_items(items@) =~= bytes@.subrange(
                (pos + 1) as int,
                (pos + 1) as int,
            ));
        }
        while cur < bytes.len()
            invariant
                pos < cur <= bytes@.len(),
                pos < bytes@.len(),
                bytes@[pos as int] == LIST_MARK,
                spec_parse_items(bytes@, (pos + 1) as int) == spec_parse_items(
                    bytes@,
                    cur as int,
                ),
                forall|k: int| 0 <= k < items@.len() ==> spec_canonical(#[trigger] items@[k]),
                spec_encode_items(items@) == bytes@.subrange((pos + 1) as int, cur as int),
            decreases bytes@.len() - cur,
        {
            if bytes[cur] == END_MARK {
                let ghost itemsg = items@;
                let v = BValue::List(items);
                proof {
                    assert(spec_parse_items(bytes@, cur as int) == Some((cur + 1) as int));
                    assert(bytes@.subrange(pos as int, (cur + 1) as int) =~= seq![LIST_MARK]
                        + spec_encode_items(itemsg) + seq![END_MARK]);
                }
                return Some((v, cur + 1));
            }
            match parse_value(bytes, cur) {
                None => {
                    return None;
                },
                Some((v, end)) => {
                    proof {
                        lemma_encode_items_push(items@, v);
                        assert(bytes@.subrange((pos + 1) as int, end as int) =~= bytes@.subrange(
                            (pos + 1) as int,
                            cur as int,
                        ) + bytes@.subrange(cur as int, end as int));
                    }
                    items.push(v);
                    cur = end;
                },
            }
        }
        None
    } else if b == DICT_MARK {
        let mut entries: Vec<(Vec<u8>, BValue)> = Vec::new();
        let mut cur = pos + 1;
        proof {
            assert(spec_encode_entries(entries@) =~= bytes@.subrange(
                (pos + 1) as int,
                (pos + 1) as int,
            ));
        }
        while cur < bytes.len()
            invariant
                pos < cur <= bytes@.len(),
                pos < bytes@.len(),
                bytes@[pos as int] == DICT_MARK,
                spec_parse_entries(bytes@, (pos + 1) as int, None::<Seq<u8>>)
                    == spec_parse_entries(bytes@, cur as int, spec_prev_key(entries@)),
                forall|k: int|
                    0 <= k < entries@.len() ==> spec_canonical(#[trigger] entries@[k].1),
                forall|k: int|
                    0 <= k < entries@.len() - 1 ==> spec_key_lt(
                        #[trigger] entries@[k].0@,
                        entries@[k + 1].0@,
                    ),
                spec_encode_entries(entries@) == bytes@.subrange((pos + 1) as int, cur as int),
            decreases bytes@.len() - cur,
        {
            if bytes[cur] == END_MARK {
                let ghost entriesg = entries@;
                let v = BValue::Dict(entries);
                proof {
                    assert(spec_parse_entries(bytes@, cur as int, spec_prev_key(entriesg))
                        == Some((cur + 1) as int));
                    assert(bytes@.subrange(pos as int, (cur + 1) as int) =~= seq![DICT_MARK]
                        + spec_encode_entries(entriesg) + seq![END_MARK]);
                }
                return Some((v, cur + 1));
            }
            match parse_str(bytes, cur) {
                None => {
                    return None;
                },
                Some((key, kend)) => {
                    if entries.len() > 0 {
                        let last = entries.len() - 1;
                        if !key_lt(&entries[last].0, &key) {
                            return None;
                        }
                    }
                    match parse_value(bytes, kend) {
                        None => {
                            return None;
                        },
                        Some((v, vend)) => {
                            proof {
                                lemma_encode_entries_push(entries@, (key, v));
                                assert(bytes@.subrange((pos + 1) as int, vend as int)
                                    =~= bytes@.subrange((pos + 1) as int, cur as int)
                                    + bytes@.subrange(cur as int, kend as int) + bytes@.subrange(
                                    kend as int,
                                    vend as int,
                                ));
                                assert(spec_prev_key(entries@.push((key, v))) == Some(key@));
                            }
                            entries.push((key, v));
                            cur = vend;
                        },
                    }
                },
            }
        }
        None
    } else {
        match parse_str(bytes, pos) {
            None => None,
            Some((content, end)) => {
                let v = BValue::Bytes(content);
                Some((v, end))
            },
        }
    }
}

/// Decode a whole canonical bencode document: exactly one value spanning
/// all of the input.
pub fn decode(bytes: &Vec<u8>) -> (r: Option<BValue>)
    ensures
        r is None <==> spec_parse(bytes@, 0) != Some(bytes@.len() as int),
        r matches Some(v) ==> {
            &&& spec_parse(bytes@, 0) == Some(bytes@.len() as int)
            &&& spec_canonical(v)
            &&& spec_encode(v) == bytes@
        },
{
    match parse_value(bytes, 0) {
        None => None,
        Some((v, end)) => {
            if end == bytes.len() {
                proof {
                    assert(bytes@.subrange(0, bytes@.len() as int) =~= bytes@);
                }
                Some(v)
            } else {
                None
            }
        },
    }
}

/// Encode the length prefix and content of a byte string.
fn encode_string_into(out: &mut Vec<u8>, b: &Vec<u8>)
    ensures
        final(out)@ == old(out)@ + spec_string_bytes(b@),
{
    let digits = u64_digits(b.len() as u64);
    push_all(out, &digits);
    out.push(COLON);
    push_all(out, b);
    proof {
        assert(final(out)@ =~= old(out)@ + spec_string_bytes(b@));
    }
}

/// Canonically encode a value.
///
/// Together with the decoder's contract this is the "canonical
/// re-encoding" that the info hash is computed over: for any decoded
/// value it reproduces exactly the bytes the value was decoded from.
pub fn encode(v: &BValue) -> (r: Vec<u8>)
    ensures
        r@ == spec_encode(*v),
    decreases *v,
{
    let mut out: Vec<u8> = Vec::new();
    match v {
        BValue::Int(i) => {
            out.push(INT_MARK);
            if *i < 0 {
                out.push(HYPHEN);
                let m: u64 = if *i == i64::MIN {
                    0x8000_0000_0000_0000u64
                } else {
                    (-*i) as u64
                };
                let digits = u64_digits(m);
                push_all(&mut out, &digits);
            } else {
                let digits = u64_digits(*i as u64);
                push_all(&mut out, &digits);
            }
            out.push(END_MARK);
            proof {
                assert(out@ =~= spec_encode(*v));
            }
        },
        BValue::Bytes(b) => {
            encode_string_into(&mut out, b);
            proof {
                assert(out@ =~= spec_encode(*v));
            }
        },
        BValue::List(items) => {
            out.push(LIST_MARK);
            let mut j: usize = 0;
            while j < items.len()
                invariant
                    *v == BValue::List(*items),
                    j <= items@.len(),
                    out@ == seq![LIST_MARK] + spec_encode_items(items@.subrange(0, j as int)),
                decreases items@.len() - j,
            {
                proof {
                    assert((*v)->List_0 == *items);
                    assert(decreases_to!(*v => (*v)->List_0));
                    assert(decreases_to!(*items => items@));
                    assert(decreases_to!(items@ => items@[j as int]));
                }
                let enc = encode(&items[j]);
                push_all(&mut out, &enc);
                proof {
                    assert(items@.subrange(0, j + 1 as int) =~= items@.subrange(
                        0,
                        j as int,
                    ).push(items@[j as int]));
                    lemma_encode_items_push(items@.subrange(0, j as int), items@[j as int]);
                }
                j += 1;
            }
            out.push(END_MARK);
            proof {
                assert(items@.subrange(0, items@.len() as int) =~= items@);
                assert(out@ =~= spec_encode(*v));
            }
        },
        BValue::Dict(entries) => {
            out.push(DICT_MARK);
            let mut j: usize = 0;
            while j < entries.len()
                invariant
                    *v == BValue::Dict(*entries),
                    j <= entries@.len(),
                    out@ == seq![DICT_MARK] + spec_encode_entries(entries@.subrange(0, j as int)),
                decreases entries@.len() - j,
            {
                encode_string_into(&mut out, &entries[j].0);
                proof {
                    assert((*v)->Dict_0 == *entries);
                    assert(decreases_to!(*v => (*v)->Dict_0));
                    assert(decreases_to!(*entries => entries@));
                    assert(decreases_to!(entries@ => entries@[j as int]));
                    assert(decreases_to!(entries@[j as int] => entries@[j as int].1));
                }
                let enc = encode(&entries[j].1);
                push_all(&mut out, &enc);
                proof {
                    assert(entries@.subrange(0, j + 1 as int) =~= entries@.subrange(
                        0,
                        j as int,
                    ).push(entries@[j as int]));
                    lemma_encode_entries_push(entries@.subrange(0, j as int), entries@[j as int]);
                }
                j += 1;
            }
            out.push(END_MARK);
            proof {
                assert(entries@.subrange(0, entries@.len() as int) =~= entries@);
                assert(out@ =~= spec_encode(*v));
            }
        },
    }
    out
}

} // verus!
