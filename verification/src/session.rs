//! Session lifecycle: expiry detection and the `name=value; ...` cookie
//! line that a session file stores.

use vstd::prelude::*;
use crate::text::{
    spec_contains, str_contains, spec_find_char, find_char, spec_trim, trim_chars, chars_of,
    chars_to_string,
};
use crate::LOGIN_PAGE;

verus! {

/// A session file's one line: the cookie pairs written `name=value`
/// and joined with `; `, mirroring a cookie header so the line is
/// round-trippable through any cookie jar.
pub open spec fn spec_format_cookies(pairs: Seq<(Seq<char>, Seq<char>)>) -> Seq<char>
    decreases pairs.len(),
{
    if pairs.len() == 0 {
        Seq::empty()
    } else if pairs.len() == 1 {
        pairs[0].0 + seq!['='] + pairs[0].1
    } else {
        spec_format_cookies(pairs.drop_last()) + seq![';', ' '] + pairs.last().0 + seq!['=']
            + pairs.last().1
    }
}

/// Write the cookie pairs as one session-file line.
pub fn format_cookies(pairs: &Vec<(String, String)>) -> (r: String)
    ensures
        r@ == spec_format_cookies(
            pairs@.map_values(|p: (String, String)| (p.0@, p.1@)),
        ),
{
    let ghost pg = pairs@.map_values(|p: (String, String)| (p.0@, p.1@));
    let mut out: Vec<char> = Vec::new();
    let mut i: usize = 0;
    proof {
        assert(pg.take(0int) =~= Seq::<(Seq<char>, Seq<char>)>::empty());
        assert(out@ =~= spec_format_cookies(pg.take(0int)));
    }
    while i < pairs.len()
        invariant
            pg == pairs@.map_values(|p: (String, String)| (p.0@, p.1@)),
            i <= pg.len(),
            out@ == spec_format_cookies(pg.take(i as int)),
        decreases pg.len() - i,
    {
        proof {
            assert(pg[i as int] == (pairs@[i as int].0@, pairs@[i as int].1@));
            assert(pg.take(i + 1 as int).drop_last() =~= pg.take(i as int));
            assert(pg.take(i + 1 as int).last() == pg[i as int]);
        }
        let ghost prev = out@;
        if i > 0 {
            out.push(';');
            out.push(' ');
        }
        let nv = chars_of(pairs[i].0.as_str());
        let mut k: usize = 0;
        let ghost mid = out@;
        while k < nv.len()
            invariant
                i < pairs@.len(),
                nv@ == pairs@[i as int].0@,
                k <= nv@.len(),
                out@ == mid + nv@.take(k as int),
            decreases nv@.len() - k,
        {
            out.push(nv[k]);
            proof {
                assert(mid + nv@.take(k + 1 as int) =~= (mid + nv@.take(k as int)).push(
                    nv@[k as int],
                ));
            }
            k += 1;
        }
        out.push('=');
        let vv = chars_of(pairs[i].1.as_str());
        let mut k2: usize = 0;
        let ghost mid2 = out@;
        while k2 < vv.len()
            invariant
                i < pairs@.len(),
                vv@ == pairs@[i as int].1@,
                k2 <= vv@.len(),
                out@ == mid2 + vv@.take(k2 as int),
            decreases vv@.len() - k2,
        {
            out.push(vv[k2]);
            proof {
                assert(mid2 + vv@.take(k2 + 1 as int) =~= (mid2 + vv@.take(k2 as int)).push(
                    vv@[k2 as int],
                ));
            }
            k2 += 1;
        }
        proof {
            assert(nv@.take(nv@.len() as int) =~= nv@);
            assert(vv@.take(vv@.len() as int) =~= vv@);
            assert(out@ =~= spec_format_cookies(pg.take(i + 1 as int)));
        }
        i += 1;
    }
    proof {
        assert(pg.take(pg.len() as int) =~= pg);
    }
    chars_to_string(&out)
}

/// The cookie pairs a session-file line holds: semicolon-separated
/// segments, each trimmed; a segment with exactly one equals sign
/// contributes its trimmed name and value, anything else is skipped.
pub open spec fn spec_parse_cookies(s: Seq<char>, pos: int) -> Seq<(Seq<char>, Seq<char>)>
    decreases s.len() - pos,
{
    if pos < 0 || pos > s.len() {
        Seq::empty()
    } else {
        let e = spec_find_char(s, pos, ';');
        let seg = spec_trim(s.subrange(pos, e));
        let entry: Seq<(Seq<char>, Seq<char>)> = if seg.len() == 0 {
            Seq::empty()
        } else {
            let q = spec_find_char(seg, 0, '=');
            if q >= seg.len() {
                Seq::empty()
            } else {
                let q2 = spec_find_char(seg, q + 1, '=');
                if q2 < seg.len() {
                    Seq::empty()
                } else {
                    seq![
                        (
                            spec_trim(seg.subrange(0, q)),
                            spec_trim(seg.subrange(q + 1, seg.len() as int)),
                        ),
                    ]
                }
            }
        };
        if e < pos || e >= s.len() {
            entry
        } else {
            entry + spec_parse_cookies(s, e + 1)
        }
    }
}

/// Read the cookie pairs back out of a session-file line.
pub fn parse_cookies(line: &str) -> (r: Vec<(String, String)>)
    ensures
        r@.map_values(|p: (String, String)| (p.0@, p.1@)) == spec_parse_cookies(line@, 0),
{
    let lv = chars_of(line);
    let mut r: Vec<(String, String)> = Vec::new();
    let mut pos: usize = 0;
    proof {
        assert(r@.map_values(|p: (String, String)| (p.0@, p.1@)) + spec_parse_cookies(line@, 0)
            =~= spec_parse_cookies(line@, 0));
    }
    while pos <= lv.len()
        invariant
            lv@ == line@,
            pos <= lv@.len() + 1,
            r@.map_values(|p: (String, String)| (p.0@, p.1@)) + spec_parse_cookies(
                line@,
                pos as int,
            ) == spec_parse_cookies(line@, 0),
        decreases lv@.len() + 1 - pos,
    {
        let e = find_char(&lv, pos, ';');
        let raw = copy_chars_range(&lv, pos, e);
        let seg = trim_chars(&raw);
        let ghost prevm = r@.map_values(|p: (String, String)| (p.0@, p.1@));
        if seg.len() > 0 {
            let q = find_char(&seg, 0, '=');
            if q < seg.len() {
                let q2 = find_char(&seg, q + 1, '=');
                if q2 == seg.len() {
                    let nraw = copy_chars_range(&seg, 0, q);
                    let ntr = trim_chars(&nraw);
                    let vraw = copy_chars_range(&seg, q + 1, seg.len());
                    let vtr = trim_chars(&vraw);
                    let name = chars_to_string(&ntr);
                    let value = chars_to_string(&vtr);
                    r.push((name, value));
                    proof {
                        assert(r@.map_values(|p: (String, String)| (p.0@, p.1@)) =~= prevm
                            + seq![
                            (
                                spec_trim(seg@.subrange(0, q as int)),
                                spec_trim(seg@.subrange(q + 1 as int, seg@.len() as int)),
                            ),
                        ]);
                    }
                }
            }
        }
        proof {
            let m = r@.map_values(|p: (String, String)| (p.0@, p.1@));
            assert(m + spec_parse_cookies(line@, (e + 1) as int) =~= spec_parse_cookies(
                line@,
                0,
            ) || e >= lv@.len());
        }
        if e == lv.len() {
            proof {
                let m = r@.map_values(|p: (String, String)| (p.0@, p.1@));
                assert(m =~= spec_parse_cookies(line@, 0));
            }
            return r;
        }
        pos = e + 1;
    }
    r
}

/// Copy `s[start..end)` into a fresh vector.
fn copy_chars_range(s: &Vec<char>, start: usize, end: usize) -> (r: Vec<char>)
    requires
        start <= end <= s@.len(),
    ensures
        r@ == s@.subrange(start as int, end as int),
{
    let mut r: Vec<char> = Vec::new();
    let mut i = start;
    while i < end
        invariant
            start <= i <= end <= s@.len(),
            r@ == s@.subrange(start as int, i as int),
        decreases end - i,
    {
        r.push(s[i]);
        proof {
            assert(s@.subrange(start as int, i + 1 as int) =~= s@.subrange(
                start as int,
                i as int,
            ).push(s@[i as int]));
        }
        i += 1;
    }
    r
}

/// The redirect status code the origin has historically used to mean
/// "not authenticated".
pub const EXPIRED_REDIRECT_STATUS: u16 = 307;

/// A response shows an expired session exactly when its status is the
/// origin's "not authenticated" redirect code, or its final resolved URL
/// contains the login-page path.
pub open spec fn spec_session_expired(status: u16, final_url: Seq<char>) -> bool {
    status == EXPIRED_REDIRECT_STATUS || spec_contains(final_url, LOGIN_PAGE@)
}

/// Decide from a response's status code and final URL whether the
/// session it was made with has expired. Callers holding a session run
/// this after every response; on `true` they re-login and retry the
/// operation exactly once.
pub fn check_session_expired(status: u16, final_url: &str) -> (r: bool)
    ensures
        r == spec_session_expired(status, final_url@),
{
    if status == EXPIRED_REDIRECT_STATUS {
        return true;
    }
    str_contains(final_url, LOGIN_PAGE)
}

} // verus!
