//! Human-readable sizes: decimal numbers with the tracker's French unit
//! suffixes, converted to bytes at base-1024 multipliers with exact
//! integer arithmetic.

use vstd::prelude::*;
use vstd::arithmetic::power::pow;
use crate::errors::YggError;
use crate::text::{
    chars_of, parse_u64_chars, spec_digits_value, spec_all_digits, spec_find_char, find_char,
    spec_trim, trim_chars,
};

verus! {

/// A digit or the decimal dot, the characters a number's prefix may
/// hold.
pub open spec fn spec_is_numch(c: char) -> bool {
    ('0' <= c <= '9') || c == '.'
}

/// The end of the number prefix starting the string.
pub open spec fn spec_num_end(s: Seq<char>, pos: int) -> int
    decreases s.len() - pos,
{
    if pos < 0 || pos >= s.len() {
        pos
    } else if spec_is_numch(s[pos]) {
        spec_num_end(s, pos + 1)
    } else {
        pos
    }
}

/// The digits of a number prefix with its single optional dot removed:
/// the integer digits followed by the fraction digits.
pub open spec fn spec_num_digits(p: Seq<char>) -> Seq<char> {
    let d = spec_find_char(p, 0, '.');
    if d >= p.len() {
        p
    } else {
        p.subrange(0, d) + p.subrange(d + 1, p.len() as int)
    }
}

/// The number of fraction digits of a number prefix.
pub open spec fn spec_num_frac_len(p: Seq<char>) -> int {
    let d = spec_find_char(p, 0, '.');
    if d >= p.len() {
        0
    } else {
        p.len() - d - 1
    }
}

/// A well-formed number prefix: at most one dot and at least one digit.
pub open spec fn spec_num_ok(p: Seq<char>) -> bool {
    let d = spec_find_char(p, 0, '.');
    &&& (d >= p.len() || spec_find_char(p, d + 1, '.') >= p.len())
    &&& spec_num_digits(p).len() >= 1
}

/// The tracker's result-table unit suffixes, by exponent.
pub open spec fn spec_table_unit_index(u: Seq<char>) -> Option<nat> {
    if u == "o"@ {
        Some(0nat)
    } else if u == "ko"@ {
        Some(1nat)
    } else if u == "Mo"@ {
        Some(2nat)
    } else if u == "Go"@ {
        Some(3nat)
    } else if u == "To"@ {
        Some(4nat)
    } else {
        None
    }
}

/// The exact number of bytes a digit string with `frac` fraction digits
/// names at the multiplier `1024^idx`, rounded half away from zero.
pub open spec fn spec_scaled_bytes(digits: Seq<char>, frac: int, idx: nat) -> int {
    let v = spec_digits_value(digits);
    let m = pow(1024, idx);
    let d = pow(10, frac as nat);
    (v * m * 2 + d) / (2 * d)
}

/// A result-table size string is well formed when its number prefix is,
/// its suffix is a known unit, and the value stays within bounds: at
/// most eighteen fraction digits, digits within a 64-bit word, and a
/// byte count within a 64-bit word.
pub open spec fn spec_size_ok(s: Seq<char>) -> bool {
    let e = spec_num_end(s, 0);
    let p = s.subrange(0, e);
    let u = spec_trim(s.subrange(e, s.len() as int));
    &&& e > 0
    &&& spec_num_ok(p)
    &&& spec_table_unit_index(u) is Some
    &&& spec_num_frac_len(p) <= 18
    &&& spec_digits_value(spec_num_digits(p)) <= u64::MAX
    &&& spec_scaled_bytes(spec_num_digits(p), spec_num_frac_len(p), spec_table_unit_index(u)->0)
        <= u64::MAX
}

/// The byte count a well-formed result-table size string names.
pub open spec fn spec_size_bytes(s: Seq<char>) -> int {
    let e = spec_num_end(s, 0);
    let p = s.subrange(0, e);
    let u = spec_trim(s.subrange(e, s.len() as int));
    spec_scaled_bytes(spec_num_digits(p), spec_num_frac_len(p), spec_table_unit_index(u)->0)
}

/// The values of the small powers the size table uses, by unfolding
/// the definition step by step.
proof fn lemma_small_pows()
    ensures
        pow(1024, 0) == 1,
        pow(1024, 1) == 0x400,
        pow(1024, 2) == 0x100000,
        pow(1024, 3) == 0x40000000,
        pow(1024, 4) == 0x10000000000,
        pow(1024, 5) == 0x4000000000000,
        pow(10, 0) == 1,
        pow(10, 18) == 1000000000000000000,
        forall|k: nat| k <= 17 ==> pow(10, (k + 1) as nat) == 10 * #[trigger] pow(10, k),
        forall|k: nat| #[trigger] pow(10, k) >= 1,
        forall|k: nat| k <= 18 ==> #[trigger] pow(10, k) <= 1000000000000000000,
{
    reveal(pow);
    assert(pow(1024, 1) == 1024 * pow(1024, 0));
    assert(pow(1024, 2) == 1024 * pow(1024, 1));
    assert(pow(1024, 3) == 1024 * pow(1024, 2));
    assert(pow(1024, 4) == 1024 * pow(1024, 3));
    assert(pow(1024, 5) == 1024 * pow(1024, 4));
    assert(pow(10, 1) == 10 * pow(10, 0));
    assert(pow(10, 2) == 10 * pow(10, 1));
    assert(pow(10, 3) == 10 * pow(10, 2));
    assert(pow(10, 4) == 10 * pow(10, 3));
    assert(pow(10, 5) == 10 * pow(10, 4));
    assert(pow(10, 6) == 10 * pow(10, 5));
    assert(pow(10, 7) == 10 * pow(10, 6));
    assert(pow(10, 8) == 10 * pow(10, 7));
    assert(pow(10, 9) == 10 * pow(10, 8));
    assert(pow(10, 10) == 10 * pow(10, 9));
    assert(pow(10, 11) == 10 * pow(10, 10));
    assert(pow(10, 12) == 10 * pow(10, 11));
    assert(pow(10, 13) == 10 * pow(10, 12));
    assert(pow(10, 14) == 10 * pow(10, 13));
    assert(pow(10, 15) == 10 * pow(10, 14));
    assert(pow(10, 16) == 10 * pow(10, 15));
    assert(pow(10, 17) == 10 * pow(10, 16));
    assert(pow(10, 18) == 10 * pow(10, 17));
    assert forall|k: nat| k <= 17 implies pow(10, (k + 1) as nat) == 10 * #[trigger] pow(
        10,
        k,
    ) by {
        reveal(pow);
        assert(pow(10, (k + 1) as nat) == 10 * pow(10, k));
    }
    assert forall|k: nat| #[trigger] pow(10, k) >= 1 by {
        vstd::arithmetic::power::lemma_pow_positive(10, k);
    }
    assert forall|k: nat| k <= 18 implies #[trigger] pow(10, k) <= 1000000000000000000 by {
        vstd::arithmetic::power::lemma_pow_increases(10, k, 18);
    }
}

/// `1024^idx` for the unit exponents in use.
fn pow1024(idx: usize) -> (r: u64)
    requires
        idx <= 5,
    ensures
        r == pow(1024, idx as nat),
{
    proof {
        lemma_small_pows();
    }
    if idx == 0 {
        1
    } else if idx == 1 {
        1024
    } else if idx == 2 {
        0x100000
    } else if idx == 3 {
        0x40000000
    } else if idx == 4 {
        0x10000000000
    } else {
        0x4000000000000
    }
}

/// `10^frac` for fraction lengths up to eighteen.
fn pow10(frac: usize) -> (r: u64)
    requires
        frac <= 18,
    ensures
        r == pow(10, frac as nat),
        1 <= r <= 1000000000000000000,
{
    let mut r: u64 = 1;
    let mut k: usize = 0;
    proof {
        lemma_small_pows();
    }
    while k < frac
        invariant
            k <= frac <= 18,
            r == pow(10, k as nat),
            1 <= r <= 1000000000000000000,
        decreases frac - k,
    {
        proof {
            lemma_small_pows();
        }
        r = r * 10;
        k += 1;
    }
    r
}

/// The scan for the number prefix.
fn num_end(s: &Vec<char>, pos: usize) -> (r: usize)
    requires
        pos <= s@.len(),
    ensures
        pos <= r <= s@.len(),
        r == spec_num_end(s@, pos as int),
        forall|i: int| pos <= i < r ==> spec_is_numch(s@[i]),
{
    let mut cur = pos;
    while cur < s.len() && (('0' <= s[cur] && s[cur] <= '9') || s[cur] == '.')
        invariant
            pos <= cur <= s@.len(),
            spec_num_end(s@, pos as int) == spec_num_end(s@, cur as int),
            forall|i: int| pos <= i < cur ==> spec_is_numch(s@[i]),
        decreases s@.len() - cur,
    {
        cur += 1;
    }
    cur
}

/// Copy `s[start..end)` into a fresh vector.
fn copy_chars(s: &Vec<char>, start: usize, end: usize) -> (r: Vec<char>)
    requires
        start <= end <= s@.len(),
    ensures
        r@ == s@.subrange(start as int, end as int),
{
    let mut r: Vec<char> = Vec::new();
    let mut i = start;
    while i < end
        invariant
            start <= i <= end <= s@.len(),
            r@ == s@.subrange(start as int, i as int),
        decreases end - i,
    {
        r.push(s[i]);
        proof {
            assert(s@.subrange(start as int, i + 1 as int) =~= s@.subrange(
                start as int,
                i as int,
            ).push(s@[i as int]));
        }
        i += 1;
    }
    r
}

/// Whether two char vectors hold the same characters.
fn chars_eq_lit(v: &Vec<char>, lit: &str) -> (r: bool)
    ensures
        r == (v@ == lit@),
{
    let lv = chars_of(lit);
    if v.len() != lv.len() {
        return false;
    }
    let mut i: usize = 0;
    while i < v.len()
        invariant
            lv@ == lit@,
            v@.len() == lv@.len(),
            i <= v@.len(),
            forall|j: int| 0 <= j < i ==> v@[j] == lv@[j],
        decreases v@.len() - i,
    {
        if v[i] != lv[i] {
            return false;
        }
        i += 1;
    }
    proof {
        assert(v@ =~= lit@);
    }
    true
}

/// Parse a size from the tracker's result table: a decimal number, an
/// optional run of whitespace, and one of the unit suffixes `o`, `ko`,
/// `Mo`, `Go`, `To`, converted at base-1024 with exact arithmetic and
/// rounded half away from zero. A string without a well-formed number,
/// with an unrecognized unit, or naming a value out of range is a parse
/// error; the caller keeps the row and falls back to zero for the
/// field.
pub fn human_readable_size_to_bytes(size: &str) -> (r: Result<u64, YggError>)
    ensures
        r is Ok <==> spec_size_ok(size@),
        r matches Ok(b) ==> b == spec_size_bytes(size@),
        r matches Err(e) ==> e == YggError::Parse,
{
    let s = chars_of(size);
    let e = num_end(&s, 0);
    if e == 0 {
        return Err(YggError::Parse);
    }
    let p = copy_chars(&s, 0, e);
    let ghost pg = s@.subrange(0, e as int);
    // locate the optional dot and reject a second one
    let d = find_char(&p, 0, '.');
    let digits: Vec<char> = if d == p.len() {
        copy_chars(&p, 0, p.len())
    } else {
        let d2 = find_char(&p, d + 1, '.');
        if d2 != p.len() {
            return Err(YggError::Parse);
        }
        let mut dg = copy_chars(&p, 0, d);
        let tail = copy_chars(&p, d + 1, p.len());
        let mut t: usize = 0;
        while t < tail.len()
            invariant
                t <= tail@.len(),
                dg@ == p@.subrange(0, d as int) + tail@.subrange(0, t as int),
            decreases tail@.len() - t,
        {
            dg.push(tail[t]);
            proof {
                assert(tail@.subrange(0, t + 1 as int) =~= tail@.subrange(0, t as int).push(
                    tail@[t as int],
                ));
                assert(dg@ =~= p@.subrange(0, d as int) + tail@.subrange(0, t + 1 as int));
            }
            t += 1;
        }
        proof {
            assert(tail@.subrange(0, tail@.len() as int) =~= tail@);
        }
        dg
    };
    proof {
        if d == p@.len() {
            assert(p@.subrange(0, p@.len() as int) =~= p@);
        }
        assert(digits@ == spec_num_digits(p@));
    }
    if digits.len() == 0 {
        return Err(YggError::Parse);
    }
    let frac = if d == p.len() {
        0
    } else {
        p.len() - d - 1
    };
    if frac > 18 {
        return Err(YggError::Parse);
    }
    // the prefix holds only digits once the dot is gone
    proof {
        assert(spec_all_digits(digits@)) by {
            assert forall|i: int| 0 <= i < digits@.len() implies '0' <= #[trigger] digits@[i]
                <= '9' by {
                if i < d {
                    assert(digits@[i] == p@[i]);
                    assert(spec_is_numch(s@[i]));
                    assert(p@[i] != '.');
                } else {
                    assert(digits@[i] == p@[i + 1]);
                    assert(spec_is_numch(s@[i + 1]));
                    assert(p@[i + 1] != '.');
                }
            }
        }
    }
    let v = match parse_u64_chars(&digits) {
        Some(v) => v,
        None => {
            return Err(YggError::Parse);
        },
    };
    // the unit suffix
    let rest = copy_chars(&s, e, s.len());
    let unit = trim_chars(&rest);
    let idx: usize = if chars_eq_lit(&unit, "o") {
        0
    } else if chars_eq_lit(&unit, "ko") {
        1
    } else if chars_eq_lit(&unit, "Mo") {
        2
    } else if chars_eq_lit(&unit, "Go") {
        3
    } else if chars_eq_lit(&unit, "To") {
        4
    } else {
        return Err(YggError::Parse);
    };
    let m = pow1024(idx);
    let dd = pow10(frac);
    proof {
        lemma_small_pows();
        assert(idx == 0 || idx == 1 || idx == 2 || idx == 3 || idx == 4);
        assert(m <= 0x4000000000000);
        assert(v * m <= u64::MAX * 0x4000000000000) by (nonlinear_arith)
            requires
                0 <= v <= u64::MAX,
                0 <= m <= 0x4000000000000,
        ;
    }
    let wide: u128 = (v as u128) * (m as u128) * 2 + (dd as u128);
    let b128: u128 = wide / (2 * (dd as u128));
    proof {
        assert(b128 == spec_scaled_bytes(digits@, frac as int, idx as nat));
    }
    if b128 > u64::MAX as u128 {
        return Err(YggError::Parse);
    }
    Ok(b128 as u64)
}

/// The suffix `u` ends the string.
pub open spec fn spec_ends_with(s: Seq<char>, u: Seq<char>) -> bool {
    s.len() >= u.len() && s.subrange(s.len() - u.len(), s.len() as int) == u
}

/// The account page's unit suffixes, tried longest exponent first.
pub open spec fn spec_acct_unit(s: Seq<char>) -> Option<nat> {
    if spec_ends_with(s, "Po"@) {
        Some(5nat)
    } else if spec_ends_with(s, "To"@) {
        Some(4nat)
    } else if spec_ends_with(s, "Go"@) {
        Some(3nat)
    } else if spec_ends_with(s, "Mo"@) {
        Some(2nat)
    } else if spec_ends_with(s, "Ko"@) {
        Some(1nat)
    } else if spec_ends_with(s, "o"@) {
        Some(0nat)
    } else {
        None
    }
}

/// The suffix length each exponent's unit takes.
pub open spec fn spec_acct_unit_len(idx: nat) -> int {
    if idx == 0 {
        1
    } else {
        2
    }
}

/// The number text in front of the unit, commas read as decimal dots
/// and whitespace trimmed.
pub open spec fn spec_acct_num(s: Seq<char>) -> Seq<char> {
    let idx = spec_acct_unit(s)->0;
    spec_trim(
        s.subrange(0, s.len() - spec_acct_unit_len(idx)).map_values(
            |c: char|
                if c == ',' {
                    '.'
                } else {
                    c
                },
        ),
    )
}

/// An account-page size string is well formed when a unit suffix ends
/// it, everything before is one decimal number, and the value stays
/// within bounds.
pub open spec fn spec_acct_size_ok(s: Seq<char>) -> bool {
    &&& spec_acct_unit(s) is Some
    &&& ({
        let t = spec_acct_num(s);
        &&& spec_num_end(t, 0) == t.len()
        &&& spec_num_ok(t)
        &&& spec_num_frac_len(t) <= 18
        &&& spec_digits_value(spec_num_digits(t)) <= u64::MAX
    })
}

/// The byte count a well-formed account-page size string names: the
/// value at base-1024, truncated toward zero.
pub open spec fn spec_acct_size_bytes(s: Seq<char>) -> int {
    let idx = spec_acct_unit(s)->0;
    let t = spec_acct_num(s);
    let v = spec_digits_value(spec_num_digits(t));
    (v * pow(1024, idx)) / pow(10, spec_num_frac_len(t) as nat)
}

/// Whether the char vector ends with the literal.
fn ends_with_lit(v: &Vec<char>, lit: &str) -> (r: bool)
    ensures
        r == spec_ends_with(v@, lit@),
{
    let lv = chars_of(lit);
    if v.len() < lv.len() {
        return false;
    }
    let off = v.len() - lv.len();
    let mut i: usize = 0;
    while i < lv.len()
        invariant
            lv@ == lit@,
            v@.len() <= usize::MAX,
            off == v@.len() - lv@.len(),
            lv@.len() <= v@.len(),
            i <= lv@.len(),
            forall|j: int| 0 <= j < i ==> v@[off + j] == lv@[j],
        decreases lv@.len() - i,
    {
        if v[off + i] != lv[i] {
            proof {
                assert(v@.subrange(v@.len() - lv@.len(), v@.len() as int)[i as int] == v@[off
                    + i]);
            }
            return false;
        }
        i += 1;
    }
    proof {
        assert(v@.subrange(v@.len() - lv@.len(), v@.len() as int) =~= lit@);
    }
    true
}

/// Parse a size from the account page: a decimal number, commas read
/// as decimal dots, directly followed by one of the unit suffixes `o`,
/// `Ko`, `Mo`, `Go`, `To`, `Po`, converted at base-1024 with exact
/// arithmetic and truncated toward zero. An unknown unit or a malformed
/// number is a parse error.
pub fn convert_size_to_bytes(size_str: &str) -> (r: Result<u128, YggError>)
    ensures
        r is Ok <==> spec_acct_size_ok(size_str@),
        r matches Ok(b) ==> b == spec_acct_size_bytes(size_str@),
        r matches Err(e) ==> e == YggError::Parse,
{
    let s = chars_of(size_str);
    let idx: usize = if ends_with_lit(&s, "Po") {
        5
    } else if ends_with_lit(&s, "To") {
        4
    } else if ends_with_lit(&s, "Go") {
        3
    } else if ends_with_lit(&s, "Mo") {
        2
    } else if ends_with_lit(&s, "Ko") {
        1
    } else if ends_with_lit(&s, "o") {
        0
    } else {
        return Err(YggError::Parse);
    };
    let ulen: usize = if idx == 0 {
        1
    } else {
        2
    };
    proof {
        reveal_strlit("Po");
        reveal_strlit("To");
        reveal_strlit("Go");
        reveal_strlit("Mo");
        reveal_strlit("Ko");
        reveal_strlit("o");
        assert(s@.len() >= ulen);
    }
    let cut = s.len() - ulen;
    let mut replaced: Vec<char> = Vec::new();
    let mut i: usize = 0;
    while i < cut
        invariant
            cut <= s@.len(),
            i <= cut,
            replaced@ == s@.subrange(0, cut as int).map_values(
                |c: char|
                    if c == ',' {
                        '.'
                    } else {
                        c
                    },
            ).take(i as int),
        decreases cut - i,
    {
        let c = s[i];
        let c2 = if c == ',' {
            '.'
        } else {
            c
        };
        replaced.push(c2);
        proof {
            let f = |c: char|
                if c == ',' {
                    '.'
                } else {
                    c
                };
            let mapped = s@.subrange(0, cut as int).map_values(f);
            assert(mapped[i as int] == f(s@[i as int]));
            assert(replaced@ =~= mapped.take(i + 1 as int));
        }
        i += 1;
    }
    proof {
        let f = |c: char|
            if c == ',' {
                '.'
            } else {
                c
            };
        let mapped = s@.subrange(0, cut as int).map_values(f);
        assert(mapped.take(mapped.len() as int) =~= mapped);
    }
    let t = trim_chars(&replaced);
    proof {
        assert(t@ == spec_acct_num(size_str@));
    }
    // the trimmed text must be one decimal number, nothing else
    let e = num_end(&t, 0);
    if e != t.len() {
        return Err(YggError::Parse);
    }
    if t.len() == 0 {
        return Err(YggError::Parse);
    }
    proof {
        assert(t@.subrange(0, t@.len() as int) =~= t@);
    }
    let d = find_char(&t, 0, '.');
    let digits: Vec<char> = if d == t.len() {
        copy_chars(&t, 0, t.len())
    } else {
        let d2 = find_char(&t, d + 1, '.');
        if d2 != t.len() {
            return Err(YggError::Parse);
        }
        let mut dg = copy_chars(&t, 0, d);
        let tail = copy_chars(&t, d + 1, t.len());
        let mut w: usize = 0;
        while w < tail.len()
            invariant
                w <= tail@.len(),
                dg@ == t@.subrange(0, d as int) + tail@.subrange(0, w as int),
            decreases tail@.len() - w,
        {
            dg.push(tail[w]);
            proof {
                assert(tail@.subrange(0, w + 1 as int) =~= tail@.subrange(0, w as int).push(
                    tail@[w as int],
                ));
                assert(dg@ =~= t@.subrange(0, d as int) + tail@.subrange(0, w + 1 as int));
            }
            w += 1;
        }
        proof {
            assert(tail@.subrange(0, tail@.len() as int) =~= tail@);
        }
        dg
    };
    proof {
        if d == t@.len() {
            assert(t@.subrange(0, t@.len() as int) =~= t@);
        }
        assert(digits@ == spec_num_digits(t@));
    }
    if digits.len() == 0 {
        return Err(YggError::Parse);
    }
    let frac = if d == t.len() {
        0
    } else {
        t.len() - d - 1
    };
    if frac > 18 {
        return Err(YggError::Parse);
    }
    proof {
        assert(spec_all_digits(digits@)) by {
            assert forall|k: int| 0 <= k < digits@.len() implies '0' <= #[trigger] digits@[k]
                <= '9' by {
                if k < d {
                    assert(digits@[k] == t@[k]);
                    assert(spec_is_numch(t@[k]));
                    assert(t@[k] != '.');
                } else {
                    assert(digits@[k] == t@[k + 1]);
                    assert(spec_is_numch(t@[k + 1]));
                    assert(t@[k + 1] != '.');
                }
            }
        }
    }
    let v = match parse_u64_chars(&digits) {
        Some(v) => v,
        None => {
            return Err(YggError::Parse);
        },
    };
    let m = pow1024(idx);
    let dd = pow10(frac);
    proof {
        lemma_small_pows();
        assert(idx <= 5);
        assert(m <= 0x4000000000000);
        assert(v * m <= u64::MAX * 0x4000000000000) by (nonlinear_arith)
            requires
                0 <= v <= u64::MAX,
                0 <= m <= 0x4000000000000,
        ;
    }
    let wide: u128 = (v as u128) * (m as u128);
    let b: u128 = wide / (dd as u128);
    proof {
        assert(b == spec_acct_size_bytes(size_str@));
    }
    Ok(b)
}

} // verus!
