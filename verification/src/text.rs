//! Small verified text utilities: substring search, digit parsing and
//! byte/char conversions that the extraction and session code share.

use vstd::prelude::*;
use crate::bencode::{spec_digits, u64_digits};

verus! {

/// The decimal digit characters of a number, most significant first.
pub open spec fn spec_dec_chars(n: nat) -> Seq<char> {
    spec_digits(n).map_values(|b: u8| b as char)
}

/// Write a number in decimal.
pub fn u64_to_string(n: u64) -> (r: String)
    ensures
        r@ == spec_dec_chars(n as nat),
{
    let digits = u64_digits(n);
    let mut r = String::new();
    let mut i: usize = 0;
    while i < digits.len()
        invariant
            i <= digits@.len(),
            digits@ == spec_digits(n as nat),
            r@ == spec_dec_chars(n as nat).take(i as int),
        decreases digits@.len() - i,
    {
        let b = digits[i];
        r = push_char(r, b as char);
        proof {
            assert(spec_dec_chars(n as nat)[i as int] == digits@[i as int] as char);
            assert(r@ =~= spec_dec_chars(n as nat).take(i + 1 as int));
        }
        i += 1;
    }
    proof {
        assert(spec_dec_chars(n as nat).take(spec_digits(n as nat).len() as int) =~= spec_dec_chars(
            n as nat,
        ));
    }
    r
}

/// Collect a character vector back into a string.
pub fn chars_to_string(v: &Vec<char>) -> (r: String)
    ensures
        r@ == v@,
{
    let mut s = String::new();
    let mut i: usize = 0;
    while i < v.len()
        invariant
            i <= v@.len(),
            s@ == v@.take(i as int),
        decreases v@.len() - i,
    {
        s = push_char(s, v[i]);
        proof {
            assert(s@ =~= v@.take(i + 1 as int));
        }
        i += 1;
    }
    proof {
        assert(v@.take(v@.len() as int) =~= v@);
    }
    s
}

/// Relies on String::push from std: appends one character.
#[verifier::external_body]
pub fn push_char(s: String, c: char) -> (r: String)
    ensures
        r@ == s@.push(c),
{
    let mut s = s;
    s.push(c);
    s
}

/// The needle `n` occurs in the haystack `h` starting at position `i`.
pub open spec fn spec_contains_at(h: Seq<char>, n: Seq<char>, i: int) -> bool {
    0 <= i && i + n.len() <= h.len() && h.subrange(i, i + n.len()) == n
}

/// The needle `n` occurs somewhere in the haystack `h`.
pub open spec fn spec_contains(h: Seq<char>, n: Seq<char>) -> bool {
    exists|i: int| spec_contains_at(h, n, i)
}

/// Collect the characters of a string slice into a vector.
pub fn chars_of(s: &str) -> (r: Vec<char>)
    ensures
        r@ == s@,
{
    let n = s.unicode_len();
    let mut r: Vec<char> = Vec::new();
    let mut i: usize = 0;
    while i < n
        invariant
            n == s@.len(),
            i <= n,
            r@ == s@.subrange(0, i as int),
        decreases n - i,
    {
        let c = s.get_char(i);
        r.push(c);
        proof {
            assert(r@ =~= s@.subrange(0, i + 1 as int));
        }
        i += 1;
    }
    proof {
        assert(r@ =~= s@);
    }
    r
}

/// Whether `n` occurs in `h` at position `i`.
fn matches_at(h: &Vec<char>, n: &Vec<char>, i: usize) -> (r: bool)
    requires
        i + n@.len() <= h@.len(),
    ensures
        r == spec_contains_at(h@, n@, i as int),
{
    let hl = h.len();
    let mut k: usize = 0;
    while k < n.len()
        invariant
            hl == h@.len(),
            i + n@.len() <= h@.len(),
            k <= n@.len(),
            forall|j: int| 0 <= j < k ==> h@[i + j] == n@[j],
        decreases n@.len() - k,
    {
        proof {
            assert(i + k < hl);
        }
        if h[i + k] != n[k] {
            proof {
                assert(h@.subrange(i as int, i + n@.len())[k as int] != n@[k as int]);
            }
            return false;
        }
        k += 1;
    }
    proof {
        assert(h@.subrange(i as int, i + n@.len()) =~= n@);
    }
    true
}

/// Substring search over character vectors.
pub fn contains_chars(h: &Vec<char>, n: &Vec<char>) -> (r: bool)
    ensures
        r == spec_contains(h@, n@),
{
    if n.len() > h.len() {
        proof {
            assert(forall|i: int| !spec_contains_at(h@, n@, i));
        }
        return false;
    }
    if n.len() == 0 {
        proof {
            assert(h@.subrange(0, 0) =~= n@);
            assert(spec_contains_at(h@, n@, 0));
        }
        return true;
    }
    let hl = h.len();
    let last = hl - n.len();
    let mut i: usize = 0;
    while i <= last
        invariant
            hl == h@.len(),
            1 <= n@.len() <= h@.len(),
            last == h@.len() - n@.len(),
            i <= last + 1,
            forall|j: int| 0 <= j < i ==> !spec_contains_at(h@, n@, j),
        decreases last + 1 - i,
    {
        if matches_at(h, n, i) {
            return true;
        }
        i += 1;
    }
    proof {
        assert(forall|j: int| j > last ==> !spec_contains_at(h@, n@, j));
    }
    false
}

/// Substring search over string slices.
pub fn str_contains(h: &str, n: &str) -> (r: bool)
    ensures
        r == spec_contains(h@, n@),
{
    let hv = chars_of(h);
    let nv = chars_of(n);
    contains_chars(&hv, &nv)
}

/// The first index at or after `pos` holding `c`, or the end.
pub open spec fn spec_find_char(s: Seq<char>, pos: int, c: char) -> int
    decreases s.len() - pos,
{
    if pos < 0 || pos >= s.len() {
        pos
    } else if s[pos] == c {
        pos
    } else {
        spec_find_char(s, pos + 1, c)
    }
}

/// Find the first occurrence of `c` at or after `pos`.
pub fn find_char(s: &Vec<char>, pos: usize, c: char) -> (r: usize)
    requires
        pos <= s@.len(),
    ensures
        pos <= r <= s@.len(),
        r == spec_find_char(s@, pos as int, c),
        r < s@.len() ==> s@[r as int] == c,
        forall|i: int| pos <= i < r ==> s@[i] != c,
{
    let mut cur = pos;
    while cur < s.len() && s[cur] != c
        invariant
            pos <= cur <= s@.len(),
            spec_find_char(s@, pos as int, c) == spec_find_char(s@, cur as int, c),
            forall|i: int| pos <= i < cur ==> s@[i] != c,
        decreases s@.len() - cur,
    {
        cur += 1;
    }
    cur
}

/// A whitespace character, as trimming counts them.
pub open spec fn spec_is_space(c: char) -> bool {
    c == ' ' || c == '\t' || c == '\n' || c == '\r'
}

/// The first non-whitespace index at or after `pos`.
pub open spec fn spec_skip_space(s: Seq<char>, pos: int) -> int
    decreases s.len() - pos,
{
    if pos < 0 || pos >= s.len() {
        pos
    } else if spec_is_space(s[pos]) {
        spec_skip_space(s, pos + 1)
    } else {
        pos
    }
}

/// The end of the content once trailing whitespace before `end` is
/// dropped.
pub open spec fn spec_rskip_space(s: Seq<char>, end: int) -> int
    decreases end,
{
    if end <= 0 {
        0
    } else if spec_is_space(s[end - 1]) {
        spec_rskip_space(s, end - 1)
    } else {
        end
    }
}

/// A sequence with its leading and trailing whitespace removed.
pub open spec fn spec_trim(s: Seq<char>) -> Seq<char> {
    let a = spec_skip_space(s, 0);
    let b = spec_rskip_space(s, s.len() as int);
    if a >= b {
        Seq::empty()
    } else {
        s.subrange(a, b)
    }
}

/// Trim leading and trailing whitespace from a character vector.
pub fn trim_chars(s: &Vec<char>) -> (r: Vec<char>)
    ensures
        r@ == spec_trim(s@),
{
    let mut a: usize = 0;
    while a < s.len() && (s[a] == ' ' || s[a] == '\t' || s[a] == '\n' || s[a] == '\r')
        invariant
            a <= s@.len(),
            spec_skip_space(s@, 0) == spec_skip_space(s@, a as int),
        decreases s@.len() - a,
    {
        a += 1;
    }
    let mut b: usize = s.len();
    while b > 0 && (s[b - 1] == ' ' || s[b - 1] == '\t' || s[b - 1] == '\n' || s[b - 1] == '\r')
        invariant
            b <= s@.len(),
            spec_rskip_space(s@, s@.len() as int) == spec_rskip_space(s@, b as int),
        decreases b,
    {
        b -= 1;
    }
    let mut r: Vec<char> = Vec::new();
    if a >= b {
        proof {
            assert(r@ =~= spec_trim(s@));
        }
        return r;
    }
    let mut i = a;
    while i < b
        invariant
            a <= i <= b <= s@.len(),
            r@ == s@.subrange(a as int, i as int),
        decreases b - i,
    {
        r.push(s[i]);
        proof {
            assert(s@.subrange(a as int, i + 1 as int) =~= s@.subrange(a as int, i as int).push(
                s@[i as int],
            ));
        }
        i += 1;
    }
    proof {
        assert(r@ =~= spec_trim(s@));
    }
    r
}

/// The numeric value of a sequence of decimal digit characters,
/// accumulated left to right.
pub open spec fn spec_digits_value(s: Seq<char>) -> int
    decreases s.len(),
{
    if s.len() == 0 {
        0
    } else {
        spec_digits_value(s.drop_last()) * 10 + (s.last() as int - '0' as int)
    }
}

/// Every character of `s` is a decimal digit.
pub open spec fn spec_all_digits(s: Seq<char>) -> bool {
    forall|i: int| 0 <= i < s.len() ==> '0' <= #[trigger] s[i] <= '9'
}

/// Parse a vector of characters as an unsigned decimal number.
/// Returns `None` when `s` is empty, holds a non-digit, or the value
/// does not fit in `u64`.
pub fn parse_u64_chars(s: &Vec<char>) -> (r: Option<u64>)
    ensures
        r is Some <==> s@.len() > 0 && spec_all_digits(s@) && spec_digits_value(s@) <= u64::MAX,
        r is Some ==> r->0 == spec_digits_value(s@),
{
    if s.len() == 0 {
        return None;
    }
    let mut acc: u64 = 0;
    let mut i: usize = 0;
    while i < s.len()
        invariant
            i <= s@.len(),
            spec_all_digits(s@.subrange(0, i as int)),
            acc == spec_digits_value(s@.subrange(0, i as int)),
        decreases s@.len() - i,
    {
        let c = s[i];
        if c < '0' || c > '9' {
            return None;
        }
        let d: u64 = (c as u32 as u64) - ('0' as u32 as u64);
        let next = match acc.checked_mul(10) {
            Some(x) => x.checked_add(d),
            None => None,
        };
        match next {
            Some(x) => {
                acc = x;
            },
            None => {
                // The value already exceeds u64::MAX here; whether the
                // tail is all digits only decides which clause of the
                // contract rejects the input.
                let mut j: usize = i + 1;
                while j < s.len()
                    invariant
                        i < j <= s@.len(),
                        spec_all_digits(s@.subrange(0, i as int)),
                        '0' <= s@[i as int] <= '9',
                        spec_digits_value(s@.subrange(0, i as int)) * 10 + (s@[i as int] as int
                            - '0' as int) > u64::MAX,
                        forall|t: int| i < t < j ==> '0' <= #[trigger] s@[t] <= '9',
                    decreases s@.len() - j,
                {
                    let c2 = s[j];
                    if c2 < '0' || c2 > '9' {
                        return None;
                    }
                    j += 1;
                }
                proof {
                    assert forall|t: int| 0 <= t < s@.len() implies '0' <= #[trigger] s@[t]
                        <= '9' by {
                        if t < i {
                            assert(s@.subrange(0, i as int)[t] == s@[t]);
                        }
                    }
                    lemma_digits_value_grows(s@, i as int);
                }
                return None;
            },
        }
        proof {
            assert(s@.subrange(0, i + 1 as int).drop_last() =~= s@.subrange(0, i as int));
        }
        i += 1;
    }
    proof {
        assert(s@.subrange(0, s@.len() as int) =~= s@);
    }
    Some(acc)
}

/// Once a prefix of digits exceeds `u64::MAX`, the value of any longer
/// digit string does too.
proof fn lemma_digits_value_grows(s: Seq<char>, i: int)
    requires
        0 <= i < s.len(),
        spec_all_digits(s),
        spec_digits_value(s.subrange(0, i)) * 10 + (s[i] as int - '0' as int) > u64::MAX,
    ensures
        spec_digits_value(s) > u64::MAX,
    decreases s.len() - i,
{
    if i == s.len() - 1 {
        assert(s.subrange(0, s.len() as int) =~= s);
        assert(s.drop_last() =~= s.subrange(0, i));
    } else {
        assert(s.subrange(0, i + 1).drop_last() =~= s.subrange(0, i));
        assert(spec_digits_value(s.subrange(0, i + 1)) > u64::MAX);
        assert(s[i + 1] as int - '0' as int >= 0);
        lemma_digits_value_grows(s, i + 1);
    }
}

} // verus!
