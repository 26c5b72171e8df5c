//! The info hash of a torrent: the SHA-1 digest, written in hex, of the
//! canonical encoding of the metainfo's `info` dictionary.

use vstd::prelude::*;
use crate::bencode::{
    parse_value, parse_str, encode, bytes_eq, spec_parse, spec_parse_str, spec_digit_run_end,
    DICT_MARK, END_MARK,
};
use crate::errors::YggError;
use crate::text::push_char;
use sha1::{Digest, Sha1};

verus! {

/// What SHA-1 returns for a given input; the digest depends on the bytes
/// alone.
pub uninterp spec fn sha1_of(bytes: Seq<u8>) -> Seq<u8>;

/// Relies on sha1::Sha1 (through digest::Digest::digest): a 20-byte
/// digest computed from the input bytes alone.
#[verifier::external_body]
fn sha1_digest(bytes: &Vec<u8>) -> (r: Vec<u8>)
    ensures
        r@ == sha1_of(bytes@),
        r@.len() == 20,
{
    Sha1::digest(bytes.as_slice()).to_vec()
}

/// The lower-case hex digit of a value below sixteen.
pub open spec fn spec_hex_digit(n: u8) -> char {
    if n < 10 {
        (('0' as u8) + n) as char
    } else {
        (('a' as u8) + (n - 10)) as char
    }
}

/// The lower-case hex expansion of a byte sequence, two digits per byte.
pub open spec fn spec_hex_of(bytes: Seq<u8>) -> Seq<char>
    decreases bytes.len(),
{
    if bytes.len() == 0 {
        Seq::empty()
    } else {
        spec_hex_of(bytes.drop_last()) + seq![
            spec_hex_digit(bytes.last() / 16),
            spec_hex_digit(bytes.last() % 16),
        ]
    }
}

/// Hex expansion doubles the length.
pub proof fn lemma_hex_len(bytes: Seq<u8>)
    ensures
        spec_hex_of(bytes).len() == 2 * bytes.len(),
    decreases bytes.len(),
{
    if bytes.len() > 0 {
        lemma_hex_len(bytes.drop_last());
    }
}

/// Write a byte sequence in lower-case hex.
pub fn to_hex(bytes: &Vec<u8>) -> (r: String)
    ensures
        r@ == spec_hex_of(bytes@),
{
    let mut r = String::new();
    let mut i: usize = 0;
    while i < bytes.len()
        invariant
            i <= bytes@.len(),
            r@ == spec_hex_of(bytes@.subrange(0, i as int)),
        decreases bytes@.len() - i,
    {
        let b = bytes[i];
        let hi = b / 16;
        let lo = b % 16;
        let hc: u8 = if hi < 10 {
            ('0' as u8) + hi
        } else {
            ('a' as u8) + (hi - 10)
        };
        let lc: u8 = if lo < 10 {
            ('0' as u8) + lo
        } else {
            ('a' as u8) + (lo - 10)
        };
        r = push_char(r, hc as char);
        r = push_char(r, lc as char);
        proof {
            assert(bytes@.subrange(0, i + 1 as int).drop_last() =~= bytes@.subrange(0, i as int));
            assert(bytes@.subrange(0, i + 1 as int).last() == bytes@[i as int]);
            assert(r@ =~= spec_hex_of(bytes@.subrange(0, i + 1 as int)));
        }
        i += 1;
    }
    proof {
        assert(bytes@.subrange(0, bytes@.len() as int) =~= bytes@);
    }
    r
}

/// The key under which a torrent's metainfo holds the info dictionary.
pub open spec fn spec_info_key() -> Seq<u8> {
    seq![0x69u8, 0x6eu8, 0x66u8, 0x6fu8]
}

/// Walk the entries of a dictionary from `pos` and give the byte span of
/// the value stored under `key`, if the entries are well formed and the
/// key occurs.
pub open spec fn spec_find_value_span(bytes: Seq<u8>, pos: int, key: Seq<u8>) -> Option<
    (int, int),
>
    decreases bytes.len() - pos,
{
    if pos < 0 || pos >= bytes.len() {
        None
    } else if bytes[pos] == END_MARK {
        None
    } else {
        match spec_parse_str(bytes, pos) {
            None => None,
            Some(kend) => {
                let dend = spec_digit_run_end(bytes, pos);
                let k = bytes.subrange(dend + 1, kend);
                if !(pos < kend <= bytes.len()) {
                    None
                } else {
                    match spec_parse(bytes, kend) {
                        None => None,
                        Some(vend) => if !(kend < vend <= bytes.len()) {
                            None
                        } else if k == key {
                            Some((kend, vend))
                        } else {
                            spec_find_value_span(bytes, vend, key)
                        },
                    }
                }
            },
        }
    }
}

/// The byte span of the `info` value of a torrent document: the document
/// must be one canonical dictionary spanning the whole input and holding
/// the key.
pub open spec fn spec_info_span(bytes: Seq<u8>) -> Option<(int, int)> {
    if bytes.len() >= 1 && bytes[0] == DICT_MARK && spec_parse(bytes, 0) == Some(
        bytes.len() as int,
    ) {
        spec_find_value_span(bytes, 1, spec_info_key())
    } else {
        None
    }
}

/// The info hash of a torrent document, as a function of its bytes
/// alone: the hex of the SHA-1 digest of the `info` value's span.
pub open spec fn spec_info_hash(bytes: Seq<u8>) -> Seq<char> {
    spec_hex_of(
        sha1_of(
            bytes.subrange((spec_info_span(bytes)->0).0, (spec_info_span(bytes)->0).1),
        ),
    )
}

/// Decoding is deterministic: the info hash is a function of the input
/// bytes alone, so two inputs holding the same bytes always yield the
/// same hex info hash.
pub proof fn lemma_info_hash_deterministic(a: Seq<u8>, b: Seq<u8>)
    requires
        a == b,
    ensures
        spec_info_hash(a) == spec_info_hash(b),
{
}

/// Compute the info hash of a torrent document: the SHA-1 digest of the
/// canonical re-encoding of its `info` dictionary, written as forty
/// lower-case hex characters.
///
/// Succeeds exactly when the input is one canonical bencode dictionary
/// and an `info` key occurs in it; malformed input is a hard decode
/// error.
pub fn calculate_torrent_hash(bytes: &Vec<u8>) -> (r: Result<String, YggError>)
    ensures
        r is Ok <==> spec_info_span(bytes@) is Some,
        r matches Ok(h) ==> h@ == spec_info_hash(bytes@) && h@.len() == 40,
        r matches Err(e) ==> e == YggError::Decode,
{
    match parse_value(bytes, 0) {
        None => {
            return Err(YggError::Decode);
        },
        Some((_v, end)) => {
            if end != bytes.len() {
                return Err(YggError::Decode);
            }
        },
    }
    if bytes.len() == 0 {
        return Err(YggError::Decode);
    }
    if bytes[0] != DICT_MARK {
        return Err(YggError::Decode);
    }
    let info_key: Vec<u8> = make_info_key();
    let mut cur: usize = 1;
    while cur < bytes.len()
        invariant
            1 <= cur <= bytes@.len(),
            bytes@.len() >= 1,
            bytes@[0] == DICT_MARK,
            spec_parse(bytes@, 0) == Some(bytes@.len() as int),
            info_key@ == spec_info_key(),
            spec_find_value_span(bytes@, 1, spec_info_key()) == spec_find_value_span(
                bytes@,
                cur as int,
                spec_info_key(),
            ),
        decreases bytes@.len() - cur,
    {
        if bytes[cur] == END_MARK {
            return Err(YggError::Decode);
        }
        match parse_str(bytes, cur) {
            None => {
                return Err(YggError::Decode);
            },
            Some((key, kend)) => {
                match parse_value(bytes, kend) {
                    None => {
                        return Err(YggError::Decode);
                    },
                    Some((v, vend)) => {
                        if bytes_eq(&key, &info_key) {
                            let enc = encode(&v);
                            let digest = sha1_digest(&enc);
                            let hex = to_hex(&digest);
                            proof {
                                lemma_hex_len(digest@);
                            }
                            return Ok(hex);
                        }
                        cur = vend;
                    },
                }
            },
        }
    }
    Err(YggError::Decode)
}

/// The literal bytes of the `info` key.
fn make_info_key() -> (r: Vec<u8>)
    ensures
        r@ == spec_info_key(),
{
    let mut r: Vec<u8> = Vec::new();
    r.push(0x69);
    r.push(0x6e);
    r.push(0x66);
    r.push(0x6f);
    proof {
        assert(r@ =~= spec_info_key());
    }
    r
}

} // verus!
