//! Alternate-title queries: cleaning the titles an external metadata
//! lookup returns and assembling the fan-out query list.

use vstd::prelude::*;
use crate::search::str_eq;
use crate::text::{chars_of, trim_chars, chars_to_string, spec_trim, spec_dec_chars,
    u64_to_string};

verus! {

/// The replacement a character gets before filtering: typographic marks
/// fold to plain ones, accented vowels lose their accents, anything
/// else stays. A character may become two (a ligature), one, or keep
/// itself.
pub open spec fn spec_fix_char(c: char) -> Seq<char> {
    if c == '\u{2019}' || c == '\u{2018}' || c == ',' {
        seq![' ']
    } else if c == '\u{201c}' || c == '\u{201d}' {
        seq!['"']
    } else if c == '\u{2013}' || c == '\u{2014}' {
        seq!['-']
    } else if c == '\u{b4}' || c == '`' {
        seq!['\'']
    } else if c == '\u{153}' {
        seq!['o', 'e']
    } else if c == '\u{152}' {
        seq!['O', 'e']
    } else if c == '\u{e1}' || c == '\u{e0}' || c == '\u{e4}' || c == '\u{e2}' {
        seq!['a']
    } else if c == '\u{c1}' || c == '\u{c0}' || c == '\u{c4}' || c == '\u{c2}' {
        seq!['A']
    } else if c == '\u{e9}' || c == '\u{e8}' || c == '\u{eb}' || c == '\u{ea}' {
        seq!['e']
    } else if c == '\u{c9}' || c == '\u{c8}' || c == '\u{cb}' || c == '\u{ca}' {
        seq!['E']
    } else if c == '\u{ed}' || c == '\u{ec}' || c == '\u{ef}' || c == '\u{ee}' {
        seq!['i']
    } else if c == '\u{cd}' || c == '\u{cc}' || c == '\u{cf}' || c == '\u{ce}' {
        seq!['I']
    } else if c == '\u{f3}' || c == '\u{f2}' || c == '\u{f6}' || c == '\u{f4}' {
        seq!['o']
    } else if c == '\u{d3}' || c == '\u{d2}' || c == '\u{d6}' || c == '\u{d4}' {
        seq!['O']
    } else if c == '\u{fa}' || c == '\u{f9}' || c == '\u{fc}' || c == '\u{fb}' {
        seq!['u']
    } else if c == '\u{da}' || c == '\u{d9}' || c == '\u{dc}' || c == '\u{db}' {
        seq!['U']
    } else {
        seq![c]
    }
}

/// A character the cleaned titles may keep: letters, digits, and a few
/// separators.
pub open spec fn spec_allowed_char(c: char) -> bool {
    ('a' <= c <= 'z') || ('A' <= c <= 'Z') || ('0' <= c <= '9') || c == '-' || c == '_' || c
        == '.' || c == ' '
}

/// One title cleaned: every character folded, everything not allowed
/// dropped, and the result trimmed.
pub open spec fn spec_fix_title(s: Seq<char>) -> Seq<char> {
    spec_trim(spec_fold_chars(s).filter(|c: char| spec_allowed_char(c)))
}

/// Every character's replacement, concatenated.
pub open spec fn spec_fold_chars(s: Seq<char>) -> Seq<char>
    decreases s.len(),
{
    if s.len() == 0 {
        Seq::empty()
    } else {
        spec_fold_chars(s.drop_last()) + spec_fix_char(s.last())
    }
}

/// Clean one title: fold typographic and accented characters to plain
/// ones, drop everything else but letters, digits and separators, and
/// trim.
pub fn fix_title(s: &str) -> (r: String)
    ensures
        r@ == spec_fix_title(s@),
{
    let v = chars_of(s);
    let mut folded: Vec<char> = Vec::new();
    let mut i: usize = 0;
    proof {
        reveal(Seq::filter);
        assert(v@.take(0int) =~= Seq::<char>::empty());
        assert(spec_fold_chars(v@.take(0int)).filter(|c: char| spec_allowed_char(c)) =~= Seq::<
            char,
        >::empty());
    }
    while i < v.len()
        invariant
            v@ == s@,
            i <= v@.len(),
            folded@ == spec_fold_chars(v@.take(i as int)).filter(
                |c: char| spec_allowed_char(c),
            ),
        decreases v@.len() - i,
    {
        let c = v[i];
        let ghost prevf = spec_fold_chars(v@.take(i as int));
        proof {
            reveal(Seq::filter);
            assert(v@.take(i + 1 as int).drop_last() =~= v@.take(i as int));
            assert(v@.take(i + 1 as int).last() == v@[i as int]);
            assert(spec_fold_chars(v@.take(i + 1 as int)) == prevf + spec_fix_char(v@[i as int]));
        }
        let rep = fix_char(c);
        let mut k: usize = 0;
        while k < rep.len()
            invariant
                i < v@.len(),
                v@ == s@,
                k <= rep@.len(),
                rep@ == spec_fix_char(v@[i as int]),
                prevf == spec_fold_chars(v@.take(i as int)),
                folded@ == (prevf + rep@.take(k as int)).filter(
                    |c: char| spec_allowed_char(c),
                ),
            decreases rep@.len() - k,
        {
            let rc = rep[k];
            proof {
                reveal(Seq::filter);
                assert((prevf + rep@.take(k + 1 as int)).drop_last() =~= prevf + rep@.take(
                    k as int,
                ));
                assert((prevf + rep@.take(k + 1 as int)).last() == rep@[k as int]);
            }
            if ('a' <= rc && rc <= 'z') || ('A' <= rc && rc <= 'Z') || ('0' <= rc && rc <= '9')
                || rc == '-' || rc == '_' || rc == '.' || rc == ' ' {
                folded.push(rc);
            }
            k += 1;
        }
        proof {
            assert(rep@.take(rep@.len() as int) =~= rep@);
        }
        i += 1;
    }
    proof {
        assert(v@.take(v@.len() as int) =~= v@);
    }
    let trimmed = trim_chars(&folded);
    chars_to_string(&trimmed)
}

/// One character's replacement.
fn fix_char(c: char) -> (r: Vec<char>)
    ensures
        r@ == spec_fix_char(c),
{
    let mut r: Vec<char> = Vec::new();
    if c == '\u{2019}' || c == '\u{2018}' || c == ',' {
        r.push(' ');
    } else if c == '\u{201c}' || c == '\u{201d}' {
        r.push('"');
    } else if c == '\u{2013}' || c == '\u{2014}' {
        r.push('-');
    } else if c == '\u{b4}' || c == '`' {
        r.push('\'');
    } else if c == '\u{153}' {
        r.push('o');
        r.push('e');
    } else if c == '\u{152}' {
        r.push('O');
        r.push('e');
    } else if c == '\u{e1}' || c == '\u{e0}' || c == '\u{e4}' || c == '\u{e2}' {
        r.push('a');
    } else if c == '\u{c1}' || c == '\u{c0}' || c == '\u{c4}' || c == '\u{c2}' {
        r.push('A');
    } else if c == '\u{e9}' || c == '\u{e8}' || c == '\u{eb}' || c == '\u{ea}' {
        r.push('e');
    } else if c == '\u{c9}' || c == '\u{c8}' || c == '\u{cb}' || c == '\u{ca}' {
        r.push('E');
    } else if c == '\u{ed}' || c == '\u{ec}' || c == '\u{ef}' || c == '\u{ee}' {
        r.push('i');
    } else if c == '\u{cd}' || c == '\u{cc}' || c == '\u{cf}' || c == '\u{ce}' {
        r.push('I');
    } else if c == '\u{f3}' || c == '\u{f2}' || c == '\u{f6}' || c == '\u{f4}' {
        r.push('o');
    } else if c == '\u{d3}' || c == '\u{d2}' || c == '\u{d6}' || c == '\u{d4}' {
        r.push('O');
    } else if c == '\u{fa}' || c == '\u{f9}' || c == '\u{fc}' || c == '\u{fb}' {
        r.push('u');
    } else if c == '\u{da}' || c == '\u{d9}' || c == '\u{dc}' || c == '\u{db}' {
        r.push('U');
    } else {
        r.push(c);
    }
    proof {
        assert(r@ =~= spec_fix_char(c));
    }
    r
}

/// Clean every title in place.
pub fn fix_titles(titles: Vec<String>) -> (r: Vec<String>)
    ensures
        r@.len() == titles@.len(),
        forall|i: int|
            0 <= i < r@.len() ==> (#[trigger] r@[i])@ == spec_fix_title(titles@[i]@),
{
    let ghost orig = titles@;
    let n = titles.len();
    proof {
        assert(orig.len() == n);
    }
    let mut rest = titles;
    let mut r: Vec<String> = Vec::new();
    let mut i: usize = 0;
    while rest.len() > 0
        invariant
            orig.len() <= usize::MAX,
            i <= orig.len(),
            rest@ == orig.skip(i as int),
            r@.len() == i,
            forall|k: int|
                0 <= k < i ==> (#[trigger] r@[k])@ == spec_fix_title(orig[k]@),
        decreases rest@.len(),
    {
        let t = rest.remove(0);
        proof {
            assert(orig.skip(i as int)[0] == orig[i as int]);
            assert(orig.skip(i as int).remove(0) =~= orig.skip(i + 1 as int));
        }
        let fixed = fix_title(t.as_str());
        r.push(fixed);
        i += 1;
    }
    r
}

/// One title joined with its release year, the way the fan-out queries
/// carry them.
pub open spec fn spec_titled_query(title: Seq<char>, year: nat) -> Seq<char> {
    title + seq![' '] + spec_dec_chars(year)
}

/// Join a title and a year into one query string.
pub fn titled_query(title: &str, year: u32) -> (r: String)
    ensures
        r@ == spec_titled_query(title@, year as nat),
{
    let mut s = String::from_str(title);
    s.append(" ");
    let ys = u64_to_string(year as u64);
    s.append(ys.as_str());
    proof {
        reveal_strlit(" ");
        assert(s@ =~= spec_titled_query(title@, year as nat));
    }
    s
}

/// An alternate title counts only when its region is one the search
/// cares for.
pub open spec fn spec_alt_iso_kept(iso: Seq<char>) -> bool {
    iso == "FR"@ || iso == "US"@ || iso == "GB"@ || iso == "EN"@
}

/// Fold the alternate titles into the query list: a kept region's
/// title joins, with the year appended, unless the bare title already
/// stands in the list.
pub open spec fn spec_add_alts(
    acc: Seq<Seq<char>>,
    alts: Seq<(Seq<char>, Seq<char>)>,
    year: nat,
) -> Seq<Seq<char>>
    decreases alts.len(),
{
    if alts.len() == 0 {
        acc
    } else {
        let next = if spec_alt_iso_kept(alts[0].0) && !acc.contains(alts[0].1) {
            acc.push(spec_titled_query(alts[0].1, year))
        } else {
            acc
        };
        spec_add_alts(next, alts.drop_first(), year)
    }
}

/// The queries the two main titles seed: the original title first when
/// it differs from the main one.
pub open spec fn spec_base_queries(orig: Seq<char>, title: Seq<char>, year: nat) -> Seq<
    Seq<char>,
> {
    if orig != title {
        seq![spec_titled_query(orig, year), spec_titled_query(title, year)]
    } else {
        seq![spec_titled_query(title, year)]
    }
}

/// Assemble the fan-out query list from a lookup's titles: the original
/// title when it differs from the main one, then the main title, then
/// each alternate title from a kept region and not yet listed, each
/// joined with the release year; the whole list cleaned at the end.
pub fn build_title_queries(
    original_title: &String,
    title: &String,
    year: u32,
    alternates: Vec<(String, String)>,
) -> (r: Vec<String>)
    ensures
        r@.map_values(|s: String| s@) == spec_add_alts(
            spec_base_queries(original_title@, title@, year as nat),
            alternates@.map_values(|p: (String, String)| (p.0@, p.1@)),
            year as nat,
        ).map_values(|q: Seq<char>| spec_fix_title(q)),
        r@.len() >= 1,
{
    let ghost baseg = spec_base_queries(original_title@, title@, year as nat);
    let ghost altsg = alternates@.map_values(|p: (String, String)| (p.0@, p.1@));
    let mut titles: Vec<String> = Vec::new();
    if !crate::search::str_eq(original_title.as_str(), title.as_str()) {
        titles.push(titled_query(original_title.as_str(), year));
    }
    titles.push(titled_query(title.as_str(), year));
    proof {
        assert(titles@.map_values(|s: String| s@) =~= baseg);
    }
    let nn = alternates.len();
    let ghost n = altsg.len();
    proof {
        assert(n == nn);
        assert(altsg.skip(0int) =~= altsg);
    }
    let mut rest = alternates;
    let mut i: usize = 0;
    while rest.len() > 0
        invariant
            n == altsg.len(),
            n <= usize::MAX,
            i <= n,
            rest@.map_values(|p: (String, String)| (p.0@, p.1@)) == altsg.skip(i as int),
            rest@.len() == n - i,
            titles@.len() >= 1,
            spec_add_alts(titles@.map_values(|s: String| s@), altsg.skip(i as int), year as nat)
                == spec_add_alts(baseg, altsg, year as nat),
        decreases rest@.len(),
    {
        let ghost oldrest = rest@;
        let (iso, alt) = rest.remove(0);
        proof {
            let f = |p: (String, String)| (p.0@, p.1@);
            assert(oldrest.map_values(f)[0] == f(oldrest[0]));
            assert(altsg.skip(i as int)[0] == f((iso, alt)));
            assert(rest@ =~= oldrest.drop_first());
            assert(altsg.skip(i as int).drop_first() =~= altsg.skip(i + 1 as int));
            assert forall|j: int| 0 <= j < rest@.len() implies #[trigger] rest@.map_values(f)[j]
                == altsg.skip(i + 1 as int)[j] by {
                assert(rest@.map_values(f)[j] == f(rest@[j]));
                assert(rest@[j] == oldrest[j + 1]);
                assert(oldrest.map_values(f)[j + 1] == f(oldrest[j + 1]));
            }
            assert(rest@.map_values(f) =~= altsg.skip(i + 1 as int));
        }
        let region_kept = str_eq(iso.as_str(), "FR") || str_eq(iso.as_str(), "US") || str_eq(
            iso.as_str(),
            "GB",
        ) || str_eq(iso.as_str(), "EN");
        let mut seen = false;
        let mut k: usize = 0;
        while k < titles.len()
            invariant
                k <= titles@.len(),
                seen == (exists|j: int|
                    0 <= j < k && (#[trigger] titles@[j])@ == alt@),
            decreases titles@.len() - k,
        {
            if str_eq(titles[k].as_str(), alt.as_str()) {
                seen = true;
            }
            k += 1;
        }
        proof {
            let tm = titles@.map_values(|s: String| s@);
            assert(seen == tm.contains(alt@)) by {
                if seen {
                    let j = choose|j: int| 0 <= j < titles@.len() && (#[trigger] titles@[j])@
                        == alt@;
                    assert(tm[j] == alt@);
                }
                if tm.contains(alt@) {
                    let j = choose|j: int| 0 <= j < tm.len() && tm[j] == alt@;
                    assert(titles@[j]@ == alt@);
                }
            }
        }
        if region_kept && !seen {
            let q = titled_query(alt.as_str(), year);
            let ghost prev = titles@.map_values(|s: String| s@);
            titles.push(q);
            proof {
                assert(titles@.map_values(|s: String| s@) =~= prev.push(
                    spec_titled_query(alt@, year as nat),
                ));
            }
        }
        i += 1;
    }
    proof {
        assert(altsg.skip(n as int).len() == 0);
        assert(spec_add_alts(
            titles@.map_values(|s: String| s@),
            altsg.skip(n as int),
            year as nat,
        ) == titles@.map_values(|s: String| s@));
    }
    let fixed = fix_titles(titles);
    proof {
        assert(fixed@.map_values(|s: String| s@) =~= spec_add_alts(
            baseg,
            altsg,
            year as nat,
        ).map_values(|q: Seq<char>| spec_fix_title(q)));
    }
    fixed
}

/// The release year in front of a date's first dash, zero when it does
/// not parse.
pub open spec fn spec_release_year(s: Seq<char>) -> nat {
    let seg = s.subrange(0, crate::text::spec_find_char(s, 0, '-'));
    if seg.len() > 0 && crate::text::spec_all_digits(seg) && crate::text::spec_digits_value(seg)
        <= u32::MAX {
        crate::text::spec_digits_value(seg) as nat
    } else {
        0
    }
}

/// Read the year off a release date.
pub fn year_of_release_date(s: &str) -> (r: u32)
    ensures
        r == spec_release_year(s@),
{
    let v = chars_of(s);
    let e = crate::text::find_char(&v, 0, '-');
    let mut seg: Vec<char> = Vec::new();
    let mut i: usize = 0;
    while i < e
        invariant
            i <= e <= v@.len(),
            seg@ == v@.subrange(0, i as int),
        decreases e - i,
    {
        seg.push(v[i]);
        proof {
            assert(v@.subrange(0, i + 1 as int) =~= v@.subrange(0, i as int).push(v@[i as int]));
        }
        i += 1;
    }
    match crate::text::parse_u64_chars(&seg) {
        Some(n) => {
            if n <= u32::MAX as u64 {
                n as u32
            } else {
                0
            }
        },
        None => 0,
    }
}

/// Which external database a lookup id names.
#[derive(Clone, Copy, PartialEq, Eq, Structural)]
pub enum DbQueryType {
    TMDB,
    IMDB,
}

/// The lookup URL for an id: the movie endpoint for a native id, the
/// find endpoint for a foreign one.
pub fn lookup_url(id: &str, db_type: DbQueryType) -> (r: String)
    ensures
        r@ == match db_type {
            DbQueryType::TMDB => "https://api.themoviedb.org/3/movie/"@ + id@,
            DbQueryType::IMDB => "https://api.themoviedb.org/3/find/"@ + id@
                + "?external_source=imdb_id"@,
        },
{
    match db_type {
        DbQueryType::TMDB => {
            let mut s = String::from_str("https://api.themoviedb.org/3/movie/");
            s.append(id);
            s
        },
        DbQueryType::IMDB => {
            let mut s = String::from_str("https://api.themoviedb.org/3/find/");
            s.append(id);
            s.append("?external_source=imdb_id");
            proof {
                assert(s@ =~= "https://api.themoviedb.org/3/find/"@ + id@
                    + "?external_source=imdb_id"@);
            }
            s
        },
    }
}

} // verus!
