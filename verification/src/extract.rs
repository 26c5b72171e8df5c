//! HTML-to-entity extraction: search result rows, the category tree and
//! the account page. The CSS selection itself is the work of an outside
//! crate and stands behind trusted wrappers whose results are named;
//! every decision made on the selected text is verified.

use vstd::prelude::*;
use crate::errors::YggError;
use crate::search::{Torrent, Category};
use crate::sizes::{spec_size_ok, spec_size_bytes, human_readable_size_to_bytes};
use crate::text::{
    chars_of, trim_chars, spec_trim, spec_contains, str_contains, spec_all_digits,
    spec_digits_value, parse_u64_chars,
};

verus! {

/// The outer HTML of each element the selector matches in the document;
/// the result depends on the document and selector texts alone.
pub uninterp spec fn htmls_of(doc: Seq<char>, sel: Seq<char>) -> Seq<Seq<char>>;

/// The joined text of each element the selector matches, text nodes
/// separated by single spaces; a function of the document and selector
/// texts alone.
pub uninterp spec fn texts_of(doc: Seq<char>, sel: Seq<char>) -> Seq<Seq<char>>;

/// The value of the given attribute on each element the selector
/// matches, absent where an element does not carry it; a function of
/// the document, selector and attribute texts alone.
pub uninterp spec fn attr_opts_of(doc: Seq<char>, sel: Seq<char>, attr: Seq<char>) -> Seq<
    Option<Seq<char>>,
>;

/// Relies on scraper::Html::parse_document and CSS selection: the outer
/// HTML of every match, in document order. An invalid selector matches
/// nothing.
#[verifier::external_body]
pub(crate) fn sel_htmls(doc: &str, sel: &str) -> (r: Vec<String>)
    ensures
        r@.map_values(|s: String| s@) == htmls_of(doc@, sel@),
{
    let d = scraper::Html::parse_document(doc);
    match scraper::Selector::parse(sel) {
        Ok(s) => d.select(&s).map(|e| e.html()).collect(),
        Err(_) => Vec::new(),
    }
}

/// Relies on scraper::Html::parse_document and CSS selection: each
/// match's text nodes joined with single spaces, in document order. An
/// invalid selector matches nothing.
#[verifier::external_body]
pub(crate) fn sel_texts(doc: &str, sel: &str) -> (r: Vec<String>)
    ensures
        r@.map_values(|s: String| s@) == texts_of(doc@, sel@),
{
    let d = scraper::Html::parse_document(doc);
    match scraper::Selector::parse(sel) {
        Ok(s) => d.select(&s).map(|e| e.text().collect::<Vec<_>>().join(" ")).collect(),
        Err(_) => Vec::new(),
    }
}

/// Relies on scraper::Html::parse_document and CSS selection: the given
/// attribute of every match, in document order, absent where unset. An
/// invalid selector matches nothing.
#[verifier::external_body]
pub(crate) fn sel_attr_opts(doc: &str, sel: &str, attr: &str) -> (r: Vec<Option<String>>)
    ensures
        r@.map_values(
            |o: Option<String>|
                match o {
                    Some(s) => Some(s@),
                    None => None,
                },
        ) == attr_opts_of(doc@, sel@, attr@),
{
    let d = scraper::Html::parse_document(doc);
    match scraper::Selector::parse(sel) {
        Ok(s) => d.select(&s).map(|e| e.value().attr(attr).map(|v| v.to_string())).collect(),
        Err(_) => Vec::new(),
    }
}

/// The first element of a selection, or the empty text.
pub open spec fn spec_first_or_empty(s: Seq<Seq<char>>) -> Seq<char> {
    if s.len() == 0 {
        Seq::empty()
    } else {
        s[0]
    }
}

/// A row or body fragment re-parsed on its own needs its table context
/// back, or the parser drops it.
pub open spec fn spec_table_wrap(s: Seq<char>) -> Seq<char> {
    "<table>"@ + s + "</table>"@
}

/// Give a table fragment its table context back.
pub fn table_wrap(s: &str) -> (r: String)
    ensures
        r@ == spec_table_wrap(s@),
{
    let mut w = String::from_str("<table>");
    w.append(s);
    w.append("</table>");
    proof {
        assert(w@ =~= spec_table_wrap(s@));
    }
    w
}

/// A lone cell needs its row and table back as well.
pub open spec fn spec_cell_wrap(s: Seq<char>) -> Seq<char> {
    "<table><tr>"@ + s + "</tr></table>"@
}

/// Give a cell fragment its row and table context back.
pub fn cell_wrap(s: &str) -> (r: String)
    ensures
        r@ == spec_cell_wrap(s@),
{
    let mut w = String::from_str("<table><tr>");
    w.append(s);
    w.append("</tr></table>");
    proof {
        assert(w@ =~= spec_cell_wrap(s@));
    }
    w
}

/// A trimmed decimal field read defensively: its value when it parses,
/// zero otherwise.
pub open spec fn spec_field_num(t: Seq<char>) -> nat {
    let tt = spec_trim(t);
    if tt.len() > 0 && spec_all_digits(tt) && spec_digits_value(tt) <= usize::MAX {
        spec_digits_value(tt) as nat
    } else {
        0
    }
}

/// Read a trimmed decimal field, falling back to zero: a malformed
/// cell must not drop the whole row.
pub fn parse_field_num(t: &str) -> (r: usize)
    ensures
        r == spec_field_num(t@),
{
    let v = chars_of(t);
    let tt = trim_chars(&v);
    match parse_u64_chars(&tt) {
        Some(n) => {
            if n <= usize::MAX as u64 {
                n as usize
            } else {
                0
            }
        },
        None => 0,
    }
}

/// A size field read defensively: its byte count when it parses, zero
/// otherwise.
pub open spec fn spec_field_size(t: Seq<char>) -> nat {
    if spec_size_ok(spec_trim(t)) {
        spec_size_bytes(spec_trim(t)) as nat
    } else {
        0
    }
}

/// Read a size field, falling back to zero.
pub fn parse_field_size(t: &str) -> (r: u64)
    ensures
        r == spec_field_size(t@),
{
    let v = chars_of(t);
    let tt = trim_chars(&v);
    let s = crate::text::chars_to_string(&tt);
    match human_readable_size_to_bytes(s.as_str()) {
        Ok(b) => b,
        Err(_) => 0,
    }
}

/// The first position where `pat` occurs in `s` at or after `pos`, or
/// the length of `s` when it does not.
pub open spec fn spec_find_sub(s: Seq<char>, pat: Seq<char>, pos: int) -> int
    decreases s.len() - pos,
{
    if pat.len() == 0 || pos < 0 || pos + pat.len() > s.len() {
        s.len() as int
    } else if s.subrange(pos, pos + pat.len()) == pat {
        pos
    } else {
        spec_find_sub(s, pat, pos + 1)
    }
}

/// Find the first occurrence of `pat` in `s`, or the end.
pub fn find_sub(s: &Vec<char>, pat: &Vec<char>) -> (r: usize)
    requires
        pat@.len() >= 1,
    ensures
        r == spec_find_sub(s@, pat@, 0),
        r <= s@.len(),
        r < s@.len() ==> r + pat@.len() <= s@.len(),
{
    if pat.len() > s.len() {
        proof {
            assert(spec_find_sub(s@, pat@, 0) == s@.len());
        }
        return s.len();
    }
    let last = s.len() - pat.len();
    let mut pos: usize = 0;
    while pos <= last
        invariant
            pat@.len() >= 1,
            pat@.len() <= s@.len(),
            s@.len() <= usize::MAX,
            last == s@.len() - pat@.len(),
            pos <= last + 1,
            spec_find_sub(s@, pat@, 0) == spec_find_sub(s@, pat@, pos as int),
        decreases last + 1 - pos,
    {
        let mut k: usize = 0;
        let mut matched = true;
        while k < pat.len()
            invariant
                pos + pat@.len() <= s@.len(),
                s@.len() <= usize::MAX,
                k <= pat@.len(),
                matched == (forall|j: int| 0 <= j < k ==> s@[pos + j] == pat@[j]),
            decreases pat@.len() - k,
        {
            if s[pos + k] != pat[k] {
                matched = false;
                proof {
                    assert(s@[pos + k as int] != pat@[k as int]);
                }
                k = pat.len();
            } else {
                k += 1;
            }
        }
        if matched {
            proof {
                assert(s@.subrange(pos as int, pos + pat@.len()) =~= pat@);
            }
            return pos;
        }
        proof {
            if s@.subrange(pos as int, pos + pat@.len()) == pat@ {
                assert(forall|j: int|
                    0 <= j < pat@.len() ==> s@.subrange(pos as int, pos + pat@.len())[j]
                        == pat@[j]);
                assert(forall|j: int| 0 <= j < pat@.len() ==> s@[pos + j] == pat@[j]);
                assert(false);
            }
        }
        pos += 1;
    }
    proof {
        assert(pos + pat@.len() > s@.len());
        assert(spec_find_sub(s@, pat@, pos as int) == s@.len());
    }
    s.len()
}

/// The first attribute of a selection, absent when nothing matched or
/// the first match carries none.
pub open spec fn spec_first_attr(s: Seq<Option<Seq<char>>>) -> Option<Seq<char>> {
    if s.len() == 0 {
        None
    } else {
        s[0]
    }
}

/// The prefix `p` starts the string.
pub open spec fn spec_starts_with(s: Seq<char>, p: Seq<char>) -> bool {
    s.len() >= p.len() && s.subrange(0, p.len() as int) == p
}

/// Whether the char vector starts with the literal.
fn starts_with_lit(v: &Vec<char>, lit: &str) -> (r: bool)
    ensures
        r == spec_starts_with(v@, lit@),
{
    let lv = chars_of(lit);
    if v.len() < lv.len() {
        return false;
    }
    let mut i: usize = 0;
    while i < lv.len()
        invariant
            lv@ == lit@,
            lv@.len() <= v@.len(),
            i <= lv@.len(),
            forall|j: int| 0 <= j < i ==> v@[j] == lv@[j],
        decreases lv@.len() - i,
    {
        if v[i] != lv[i] {
            proof {
                assert(v@.subrange(0, lv@.len() as int)[i as int] == v@[i as int]);
            }
            return false;
        }
        i += 1;
    }
    proof {
        assert(v@.subrange(0, lv@.len() as int) =~= lit@);
    }
    true
}

/// The outward link of a row: the href as given when it is absolute,
/// else the href behind the mirror domain; empty when the row carries
/// no link.
pub open spec fn spec_link_of(href: Option<Seq<char>>, domain: Seq<char>) -> Seq<char> {
    match href {
        None => Seq::empty(),
        Some(h) => if spec_starts_with(h, "http"@) {
            h
        } else {
            "https://"@ + domain + h
        },
    }
}

/// The library-relative info path of a row: the link's torrent segment
/// re-rooted under the info path; empty when the row carries no link
/// or the link holds no torrent segment.
pub open spec fn spec_info_url_of(href: Option<Seq<char>>, domain: Seq<char>) -> Seq<char> {
    match href {
        None => Seq::empty(),
        Some(_) => {
            let link = spec_link_of(href, domain);
            let pat = "/torrent/"@;
            let p = spec_find_sub(link, pat, 0);
            if p == link.len() {
                Seq::empty()
            } else {
                let q = spec_find_sub(link, pat, p + pat.len());
                "/torrent/info/"@ + link.subrange(p + pat.len(), q)
            }
        },
    }
}

/// Every field of a torrent read from one result row: each cell is
/// looked up defensively and falls back to zero or to emptiness, so a
/// malformed cell never drops the whole row.
pub open spec fn spec_torrent_matches(t: Torrent, row: Seq<char>, domain: Seq<char>) -> bool {
    let wrapped = spec_table_wrap(row);
    let cells = htmls_of(wrapped, "td"@);
    let href = spec_first_attr(
        attr_opts_of(spec_cell_wrap(cells[1]), "a#torrent_name"@, "href"@),
    );
    &&& t.category_id == spec_field_num(spec_first_or_empty(texts_of(wrapped, "div"@)))
    &&& t.name@ == spec_trim(spec_first_or_empty(texts_of(spec_cell_wrap(cells[1]), "td"@)))
    &&& t.id == spec_field_num(
        match spec_first_attr(
            attr_opts_of(spec_cell_wrap(cells[2]), "#get_nfo"@, "target"@),
        ) {
            Some(a) => a,
            None => Seq::empty(),
        },
    )
    &&& t.comments_count == spec_field_num(
        spec_first_or_empty(texts_of(spec_cell_wrap(cells[3]), "td"@)),
    )
    &&& t.age_stamp == spec_field_num(
        spec_first_or_empty(texts_of(spec_cell_wrap(cells[4]), "div.hidden"@)),
    )
    &&& t.size == spec_field_size(
        spec_first_or_empty(texts_of(spec_cell_wrap(cells[5]), "td"@)),
    )
    &&& t.completed == spec_field_num(
        spec_first_or_empty(texts_of(spec_cell_wrap(cells[6]), "td"@)),
    )
    &&& t.seed == spec_field_num(
        spec_first_or_empty(texts_of(spec_cell_wrap(cells[7]), "td"@)),
    )
    &&& t.leech == spec_field_num(
        spec_first_or_empty(texts_of(spec_cell_wrap(cells[8]), "td"@)),
    )
    &&& t.link@ == spec_link_of(href, domain)
    &&& t.info_url@ == spec_info_url_of(href, domain)
}

/// The first text of a selection as an owned string.
pub(crate) fn first_text(texts: Vec<String>, Ghost(spec): Ghost<Seq<Seq<char>>>) -> (r: String)
    requires
        texts@.map_values(|s: String| s@) == spec,
    ensures
        r@ == spec_first_or_empty(spec),
{
    let mut texts = texts;
    if texts.len() == 0 {
        proof {
            assert(spec.len() == 0);
        }
        String::new()
    } else {
        let r = texts.remove(0);
        proof {
            assert(texts@.map_values(|s: String| s@).len() == spec.len() - 1);
            assert(spec[0] == r@);
        }
        r
    }
}

/// Build one torrent from one result row.
pub fn row_torrent(row: &str, domain: &str) -> (t: Torrent)
    requires
        htmls_of(spec_table_wrap(row@), "td"@).len() >= 9,
    ensures
        spec_torrent_matches(t, row@, domain@),
{
    let wrapped = table_wrap(row);
    let ghost cellsg = htmls_of(spec_table_wrap(row@), "td"@);
    let cells = sel_htmls(wrapped.as_str(), "td");
    proof {
        assert(cells@.map_values(|s: String| s@).len() == cellsg.len());
        assert(forall|i: int|
            0 <= i < cells@.len() ==> (#[trigger] cells@[i])@ == cellsg[i]);
    }
    let category_id = {
        let ts = sel_texts(wrapped.as_str(), "div");
        let t0 = first_text(ts, Ghost(texts_of(spec_table_wrap(row@), "div"@)));
        parse_field_num(t0.as_str())
    };
    let name = {
        let w1 = cell_wrap(cells[1].as_str());
        let ts = sel_texts(w1.as_str(), "td");
        let t0 = first_text(ts, Ghost(texts_of(spec_cell_wrap(cellsg[1]), "td"@)));
        let tv = chars_of(t0.as_str());
        let tt = trim_chars(&tv);
        crate::text::chars_to_string(&tt)
    };
    let id = {
        let w2 = cell_wrap(cells[2].as_str());
        let ats = sel_attr_opts(w2.as_str(), "#get_nfo", "target");
        let a0 = first_attr(
            ats,
            Ghost(attr_opts_of(spec_cell_wrap(cellsg[2]), "#get_nfo"@, "target"@)),
        );
        match a0 {
            Some(a) => parse_field_num(a.as_str()),
            None => {
                proof {
                    assert(spec_field_num(Seq::<char>::empty()) == 0) by {
                        assert(crate::text::spec_trim(Seq::<char>::empty()) =~= Seq::<
                            char,
                        >::empty());
                    }
                }
                0
            },
        }
    };
    let comments_count = {
        let w3 = cell_wrap(cells[3].as_str());
        let ts = sel_texts(w3.as_str(), "td");
        let t0 = first_text(ts, Ghost(texts_of(spec_cell_wrap(cellsg[3]), "td"@)));
        parse_field_num(t0.as_str())
    };
    let age_stamp = {
        let w4 = cell_wrap(cells[4].as_str());
        let ts = sel_texts(w4.as_str(), "div.hidden");
        let t0 = first_text(ts, Ghost(texts_of(spec_cell_wrap(cellsg[4]), "div.hidden"@)));
        parse_field_num(t0.as_str())
    };
    let size = {
        let w5 = cell_wrap(cells[5].as_str());
        let ts = sel_texts(w5.as_str(), "td");
        let t0 = first_text(ts, Ghost(texts_of(spec_cell_wrap(cellsg[5]), "td"@)));
        parse_field_size(t0.as_str())
    };
    let completed = {
        let w6 = cell_wrap(cells[6].as_str());
        let ts = sel_texts(w6.as_str(), "td");
        let t0 = first_text(ts, Ghost(texts_of(spec_cell_wrap(cellsg[6]), "td"@)));
        parse_field_num(t0.as_str())
    };
    let seed = {
        let w7 = cell_wrap(cells[7].as_str());
        let ts = sel_texts(w7.as_str(), "td");
        let t0 = first_text(ts, Ghost(texts_of(spec_cell_wrap(cellsg[7]), "td"@)));
        parse_field_num(t0.as_str())
    };
    let leech = {
        let w8 = cell_wrap(cells[8].as_str());
        let ts = sel_texts(w8.as_str(), "td");
        let t0 = first_text(ts, Ghost(texts_of(spec_cell_wrap(cellsg[8]), "td"@)));
        parse_field_num(t0.as_str())
    };
    let href = {
        let w1 = cell_wrap(cells[1].as_str());
        let ats = sel_attr_opts(w1.as_str(), "a#torrent_name", "href");
        first_attr(
            ats,
            Ghost(attr_opts_of(spec_cell_wrap(cellsg[1]), "a#torrent_name"@, "href"@)),
        )
    };
    let ghost hrefg = spec_first_attr(
        attr_opts_of(spec_cell_wrap(cellsg[1]), "a#torrent_name"@, "href"@),
    );
    let (link, info_url) = match href {
        None => (String::new(), String::new()),
        Some(h) => {
            let hv = chars_of(h.as_str());
            let link: String = if starts_with_lit(&hv, "http") {
                h
            } else {
                let mut l = String::from_str("https://");
                l.append(domain);
                l.append(h.as_str());
                proof {
                    assert(l@ =~= "https://"@ + domain@ + hv@);
                }
                l
            };
            let lv = chars_of(link.as_str());
            let pat = chars_of("/torrent/");
            proof {
                reveal_strlit("/torrent/");
            }
            let p = find_sub(&lv, &pat);
            let info_url: String = if p == lv.len() {
                String::new()
            } else {
                let ghost q = spec_find_sub(lv@, pat@, p + pat@.len());
                let tail = tail_after(&lv, &pat, p);
                let mut iu = String::from_str("/torrent/info/");
                iu.append(tail.as_str());
                proof {
                    assert(iu@ =~= "/torrent/info/"@ + lv@.subrange(p + pat@.len(), q));
                }
                iu
            };
            (link, info_url)
        },
    };
    Torrent {
        category_id,
        name,
        id,
        comments_count,
        age_stamp,
        size,
        completed,
        seed,
        leech,
        info_url,
        link,
    }
}

/// The first attribute of a selection as an owned option.
pub(crate) fn first_attr(ats: Vec<Option<String>>, Ghost(spec): Ghost<Seq<Option<Seq<char>>>>) -> (r:
    Option<String>)
    requires
        ats@.map_values(
            |o: Option<String>|
                match o {
                    Some(s) => Some(s@),
                    None => None,
                },
        ) == spec,
    ensures
        match r {
            Some(s) => spec_first_attr(spec) == Some(s@),
            None => spec_first_attr(spec) is None,
        },
{
    let mut ats = ats;
    if ats.len() == 0 {
        proof {
            assert(spec.len() == 0);
        }
        None
    } else {
        let r = ats.remove(0);
        proof {
            let f = |o: Option<String>|
                match o {
                    Some(s) => Some(s@),
                    None => None,
                };
            assert(spec[0] == f(r));
        }
        r
    }
}

/// The segment of `s` after the occurrence of `pat` at `p`, up to the
/// next occurrence of `pat`.
fn tail_after(s: &Vec<char>, pat: &Vec<char>, p: usize) -> (r: String)
    requires
        pat@.len() >= 1,
        p + pat@.len() <= s@.len(),
    ensures
        r@ == s@.subrange(p + pat@.len(), spec_find_sub(s@, pat@, p + pat@.len())),
{
    let sl = s.len();
    proof {
        assert(p + pat@.len() <= sl);
    }
    let start = p + pat.len();
    let q = find_sub_from(s, pat, start);
    let mut r: Vec<char> = Vec::new();
    let mut i = start;
    while i < q
        invariant
            start <= i <= q <= s@.len(),
            r@ == s@.subrange(start as int, i as int),
        decreases q - i,
    {
        r.push(s[i]);
        proof {
            assert(s@.subrange(start as int, i + 1 as int) =~= s@.subrange(
                start as int,
                i as int,
            ).push(s@[i as int]));
        }
        i += 1;
    }
    crate::text::chars_to_string(&r)
}

/// Find the first occurrence of `pat` at or after `from`, or the end.
fn find_sub_from(s: &Vec<char>, pat: &Vec<char>, from: usize) -> (r: usize)
    requires
        pat@.len() >= 1,
        from <= s@.len(),
    ensures
        r == spec_find_sub(s@, pat@, from as int),
        from <= r <= s@.len(),
        r < s@.len() ==> r + pat@.len() <= s@.len(),
{
    if pat.len() > s.len() - from {
        proof {
            assert(spec_find_sub(s@, pat@, from as int) == s@.len());
        }
        return s.len();
    }
    let last = s.len() - pat.len();
    let mut pos: usize = from;
    while pos <= last
        invariant
            pat@.len() >= 1,
            pat@.len() <= s@.len(),
            s@.len() <= usize::MAX,
            last == s@.len() - pat@.len(),
            from <= pos <= last + 1,
            spec_find_sub(s@, pat@, from as int) == spec_find_sub(s@, pat@, pos as int),
        decreases last + 1 - pos,
    {
        let mut k: usize = 0;
        let mut matched = true;
        while k < pat.len()
            invariant
                pos + pat@.len() <= s@.len(),
                s@.len() <= usize::MAX,
                k <= pat@.len(),
                matched == (forall|j: int| 0 <= j < k ==> s@[pos + j] == pat@[j]),
            decreases pat@.len() - k,
        {
            if s[pos + k] != pat[k] {
                matched = false;
                proof {
                    assert(s@[pos + k as int] != pat@[k as int]);
                }
                k = pat.len();
            } else {
                k += 1;
            }
        }
        if matched {
            proof {
                assert(s@.subrange(pos as int, pos + pat@.len()) =~= pat@);
            }
            return pos;
        }
        proof {
            if s@.subrange(pos as int, pos + pat@.len()) == pat@ {
                assert(forall|j: int|
                    0 <= j < pat@.len() ==> s@.subrange(pos as int, pos + pat@.len())[j]
                        == pat@[j]);
                assert(forall|j: int| 0 <= j < pat@.len() ==> s@[pos + j] == pat@[j]);
                assert(false);
            }
        }
        pos += 1;
    }
    proof {
        assert(pos + pat@.len() > s@.len());
        assert(spec_find_sub(s@, pat@, pos as int) == s@.len());
    }
    s.len()
}

/// The marker the origin puts on a result page holding nothing.
pub const NO_RESULTS_MARKER: &'static str = "Aucun r\u{e9}sultat ";

/// The selector of the result table's body.
pub const RESULTS_TBODY_SEL: &'static str = "#\\#torrents div.table-responsive > table > tbody";

/// The rows of the result table: the table body's `tr` elements.
pub open spec fn spec_result_rows(body: Seq<char>) -> Seq<Seq<char>> {
    htmls_of(spec_table_wrap(spec_first_or_empty(htmls_of(body, RESULTS_TBODY_SEL@))), "tr"@)
}

/// A row with enough cells to read.
pub open spec fn spec_row_complete(row: Seq<char>) -> bool {
    htmls_of(spec_table_wrap(row), "td"@).len() >= 9
}

/// Extract the search results of a page.
///
/// A page carrying the no-results marker yields the empty list; a page
/// without the result table is a parse error; otherwise every row with
/// enough cells becomes one torrent, each field read defensively, and
/// short rows are dropped.
pub fn extract_torrents(body: &str, domain: &str) -> (r: Result<Vec<Torrent>, YggError>)
    ensures
        spec_contains(body@, NO_RESULTS_MARKER@) ==> (r matches Ok(ts) && ts@.len() == 0),
        !spec_contains(body@, NO_RESULTS_MARKER@) ==> ((r is Err <==> htmls_of(
            body@,
            RESULTS_TBODY_SEL@,
        ).len() == 0) && (r matches Ok(ts) ==> {
            let kept = spec_result_rows(body@).filter(|row: Seq<char>| spec_row_complete(row));
            &&& ts@.len() == kept.len()
            &&& forall|i: int|
                0 <= i < ts@.len() ==> spec_torrent_matches(#[trigger] ts@[i], kept[i], domain@)
        })),
        r matches Err(e) ==> e == YggError::Parse,
{
    if str_contains(body, NO_RESULTS_MARKER) {
        return Ok(Vec::new());
    }
    let tbodies = sel_htmls(body, RESULTS_TBODY_SEL);
    if tbodies.len() == 0 {
        proof {
            assert(htmls_of(body@, RESULTS_TBODY_SEL@).len() == 0);
        }
        return Err(YggError::Parse);
    }
    proof {
        assert(tbodies@[0]@ == htmls_of(body@, RESULTS_TBODY_SEL@)[0]);
        assert(tbodies@[0]@ == spec_first_or_empty(htmls_of(body@, RESULTS_TBODY_SEL@)));
    }
    let wrapped_tbody = table_wrap(tbodies[0].as_str());
    let rows = sel_htmls(wrapped_tbody.as_str(), "tr");
    let ghost rowsg = spec_result_rows(body@);
    proof {
        assert(rows@.map_values(|s: String| s@) == rowsg);
    }
    let mut ts: Vec<Torrent> = Vec::new();
    let mut i: usize = 0;
    proof {
        reveal(Seq::filter);
        assert(rowsg.take(0int).filter(|row: Seq<char>| spec_row_complete(row)) =~= Seq::<
            Seq<char>,
        >::empty());
    }
    while i < rows.len()
        invariant
            rows@.map_values(|s: String| s@) == rowsg,
            i <= rowsg.len(),
            ts@.len() == rowsg.take(i as int).filter(
                |row: Seq<char>| spec_row_complete(row),
            ).len(),
            forall|k: int|
                0 <= k < ts@.len() ==> spec_torrent_matches(
                    #[trigger] ts@[k],
                    rowsg.take(i as int).filter(|row: Seq<char>| spec_row_complete(row))[k],
                    domain@,
                ),
        decreases rowsg.len() - i,
    {
        proof {
            reveal(Seq::filter);
            assert(rows@[i as int]@ == rowsg[i as int]);
            assert(rowsg.take(i + 1 as int).drop_last() =~= rowsg.take(i as int));
            assert(rowsg.take(i + 1 as int).last() == rowsg[i as int]);
        }
        let wrapped_row = table_wrap(rows[i].as_str());
        let cells = sel_htmls(wrapped_row.as_str(), "td");
        proof {
            assert(cells@.map_values(|s: String| s@).len() == htmls_of(
                spec_table_wrap(rowsg[i as int]),
                "td"@,
            ).len());
        }
        if cells.len() >= 9 {
            let t = row_torrent(rows[i].as_str(), domain);
            ts.push(t);
        }
        i += 1;
    }
    proof {
        assert(rowsg.take(rowsg.len() as int) =~= rowsg);
    }
    Ok(ts)
}

/// The value of a query parameter inside a URL: the text between the
/// first and second equals sign of the first ampersand-separated
/// segment that mentions the parameter's name.
pub open spec fn spec_extract_param(url: Seq<char>, param: Seq<char>, pos: int) -> Option<
    Seq<char>,
>
    decreases url.len() - pos,
{
    if pos < 0 || pos > url.len() {
        None
    } else {
        let e = crate::text::spec_find_char(url, pos, '&');
        let seg = url.subrange(pos, e);
        if spec_contains(seg, param) {
            let q1 = crate::text::spec_find_char(seg, 0, '=');
            if q1 >= seg.len() {
                None
            } else {
                let q2 = crate::text::spec_find_char(seg, q1 + 1, '=');
                Some(seg.subrange(q1 + 1, q2))
            }
        } else if e < pos || e >= url.len() {
            None
        } else {
            spec_extract_param(url, param, e + 1)
        }
    }
}

/// Pull a query parameter's value out of a URL, or nothing when no
/// segment mentions it or the segment carries no value.
pub fn extract_param(url: &str, param: &str) -> (r: Option<String>)
    ensures
        r matches Some(v) ==> spec_extract_param(url@, param@, 0) == Some(v@),
        r is None ==> spec_extract_param(url@, param@, 0) is None,
{
    let uv = chars_of(url);
    let pv = chars_of(param);
    let mut pos: usize = 0;
    while pos <= uv.len()
        invariant
            uv@ == url@,
            pv@ == param@,
            pos <= uv@.len() + 1,
            spec_extract_param(url@, param@, 0) == spec_extract_param(url@, param@, pos as int),
        decreases uv@.len() + 1 - pos,
    {
        let e = crate::text::find_char(&uv, pos, '&');
        let seg = copy_range_chars(&uv, pos, e);
        if crate::text::contains_chars(&seg, &pv) {
            let q1 = crate::text::find_char(&seg, 0, '=');
            if q1 == seg.len() {
                return None;
            }
            let q2 = crate::text::find_char(&seg, q1 + 1, '=');
            let out = copy_range_chars(&seg, q1 + 1, q2);
            let v = crate::text::chars_to_string(&out);
            return Some(v);
        }
        if e == uv.len() {
            return None;
        }
        pos = e + 1;
    }
    None
}

/// Copy `s[start..end)` into a fresh vector.
fn copy_range_chars(s: &Vec<char>, start: usize, end: usize) -> (r: Vec<char>)
    requires
        start <= end <= s@.len(),
    ensures
        r@ == s@.subrange(start as int, end as int),
{
    let mut r: Vec<char> = Vec::new();
    let mut i = start;
    while i < end
        invariant
            start <= i <= end <= s@.len(),
            r@ == s@.subrange(start as int, i as int),
        decreases end - i,
    {
        r.push(s[i]);
        proof {
            assert(s@.subrange(start as int, i + 1 as int) =~= s@.subrange(
                start as int,
                i as int,
            ).push(s@[i as int]));
        }
        i += 1;
    }
    r
}

/// The string with every occurrence of `pat` replaced by `rep`,
/// scanning left to right.
pub open spec fn spec_replace(s: Seq<char>, pat: Seq<char>, rep: Seq<char>) -> Seq<char>
    decreases s.len(),
{
    if pat.len() == 0 {
        s
    } else {
        let p = spec_find_sub(s, pat, 0);
        if p < 0 || p + pat.len() > s.len() {
            s
        } else {
            s.subrange(0, p) + rep + spec_replace(
                s.subrange(p + pat.len(), s.len() as int),
                pat,
                rep,
            )
        }
    }
}

/// Replace every occurrence of `pat` by `rep`.
fn replace_all(v: &Vec<char>, pat: &Vec<char>, rep: &Vec<char>) -> (r: Vec<char>)
    requires
        pat@.len() >= 1,
    ensures
        r@ == spec_replace(v@, pat@, rep@),
{
    let mut out: Vec<char> = Vec::new();
    let mut rest = copy_range_chars(v, 0, v.len());
    proof {
        assert(rest@ =~= v@);
        assert(out@ + spec_replace(rest@, pat@, rep@) =~= spec_replace(v@, pat@, rep@));
    }
    loop
        invariant
            pat@.len() >= 1,
            out@ + spec_replace(rest@, pat@, rep@) == spec_replace(v@, pat@, rep@),
        decreases rest@.len(),
    {
        let p = find_sub(&rest, pat);
        if p == rest.len() {
            proof {
                assert(spec_replace(rest@, pat@, rep@) == rest@);
            }
            let mut i: usize = 0;
            let ghost outg = out@;
            while i < rest.len()
                invariant
                    i <= rest@.len(),
                    out@ == outg + rest@.take(i as int),
                decreases rest@.len() - i,
            {
                out.push(rest[i]);
                proof {
                    assert(outg + rest@.take(i + 1 as int) =~= (outg + rest@.take(i as int)).push(
                        rest@[i as int],
                    ));
                }
                i += 1;
            }
            proof {
                assert(rest@.take(rest@.len() as int) =~= rest@);
                assert(out@ =~= outg + rest@);
            }
            return out;
        }
        proof {
            assert(spec_replace(rest@, pat@, rep@) == rest@.subrange(0, p as int) + rep@
                + spec_replace(rest@.subrange(p + pat@.len(), rest@.len() as int), pat@, rep@));
        }
        let ghost outg = out@;
        let prefix = copy_range_chars(&rest, 0, p);
        let mut i: usize = 0;
        while i < prefix.len()
            invariant
                i <= prefix@.len(),
                out@ == outg + prefix@.take(i as int),
            decreases prefix@.len() - i,
        {
            out.push(prefix[i]);
            proof {
                assert(outg + prefix@.take(i + 1 as int) =~= (outg + prefix@.take(
                    i as int,
                )).push(prefix@[i as int]));
            }
            i += 1;
        }
        proof {
            assert(prefix@.take(prefix@.len() as int) =~= prefix@);
        }
        let ghost outg2 = out@;
        let mut k: usize = 0;
        while k < rep.len()
            invariant
                k <= rep@.len(),
                out@ == outg2 + rep@.take(k as int),
            decreases rep@.len() - k,
        {
            out.push(rep[k]);
            proof {
                assert(outg2 + rep@.take(k + 1 as int) =~= (outg2 + rep@.take(k as int)).push(
                    rep@[k as int],
                ));
            }
            k += 1;
        }
        proof {
            assert(rep@.take(rep@.len() as int) =~= rep@);
            assert(out@ =~= outg + rest@.subrange(0, p as int) + rep@);
        }
        let next = copy_range_chars(&rest, p + pat.len(), rest.len());
        proof {
            assert(out@ + spec_replace(next@, pat@, rep@) =~= spec_replace(v@, pat@, rep@));
        }
        rest = next;
    }
}

/// The run of tabs the category names carry after a line break, folded
/// to one space.
pub const CATEGORY_NAME_NOISE: &'static str = "\n\t\t\t\t\t\t\t";

/// The selector of the category menu's entries.
pub const CATEGORY_LI_SEL: &'static str = "#cat > ul > li:not(.misc)";

/// A category name cleaned: trimmed, the tab noise folded to spaces.
pub open spec fn spec_cat_name(t: Seq<char>) -> Seq<char> {
    spec_replace(spec_trim(t), CATEGORY_NAME_NOISE@, " "@)
}

/// A selected text parsed as a plain decimal id.
pub open spec fn spec_parse_id(v: Seq<char>) -> Option<nat> {
    if v.len() > 0 && spec_all_digits(v) && spec_digits_value(v) <= usize::MAX {
        Some(spec_digits_value(v) as nat)
    } else {
        None
    }
}

/// The id a menu link carries under the given parameter, if any.
pub open spec fn spec_link_id(href: Option<Seq<char>>, param: Seq<char>) -> Option<nat> {
    let h = match href {
        Some(h) => h,
        None => Seq::empty(),
    };
    match spec_extract_param(h, param, 0) {
        Some(v) => spec_parse_id(v),
        None => None,
    }
}

/// A menu entry contributes a category exactly when it holds at least
/// one link and its first link carries a category id.
pub open spec fn spec_li_keeps(li: Seq<char>) -> bool {
    let hrefs = attr_opts_of(li, "a"@, "href"@);
    hrefs.len() > 0 && spec_link_id(spec_first_attr(hrefs), "category"@) is Some
}

/// The sub-categories a menu entry contributes: its links after the
/// first, those carrying a sub-category id, each with its cleaned name.
pub open spec fn spec_li_subs(li: Seq<char>, k: int) -> Seq<(nat, Seq<char>)>
    decreases attr_opts_of(li, "a"@, "href"@).len() - k,
{
    let hrefs = attr_opts_of(li, "a"@, "href"@);
    let names = texts_of(li, "a"@);
    if k < 1 || k >= hrefs.len() {
        Seq::empty()
    } else {
        let tail = spec_li_subs(li, k + 1);
        match spec_link_id(hrefs[k], "sub_category"@) {
            Some(id) => seq![
                (
                    id,
                    spec_cat_name(
                        if k < names.len() {
                            names[k]
                        } else {
                            Seq::empty()
                        },
                    ),
                ),
            ] + tail,
            None => tail,
        }
    }
}

/// One category read from one menu entry.
pub open spec fn spec_cat_matches(c: Category, li: Seq<char>) -> bool {
    let hrefs = attr_opts_of(li, "a"@, "href"@);
    let names = texts_of(li, "a"@);
    &&& Some(c.id as nat) == spec_link_id(spec_first_attr(hrefs), "category"@)
    &&& c.name@ == spec_cat_name(spec_first_or_empty(names))
    &&& c.sub_categories@.map_values(|sc: Category| (sc.id as nat, sc.name@)) == spec_li_subs(
        li,
        1,
    )
    &&& forall|j: int|
        0 <= j < c.sub_categories@.len() ==> (#[trigger] c.sub_categories@[j]).sub_categories@.len()
            == 0
}

/// Parse the category menu into the category tree: one category per
/// menu entry whose first link names one, with its sub-categories one
/// level below. Entries without links or without a readable id are
/// dropped, never the whole tree.
pub fn parse_category_tree(body: &str) -> (r: Vec<Category>)
    ensures
        ({
            let kept = htmls_of(body@, CATEGORY_LI_SEL@).filter(
                |li: Seq<char>| spec_li_keeps(li),
            );
            &&& r@.len() == kept.len()
            &&& forall|i: int|
                0 <= i < r@.len() ==> spec_cat_matches(#[trigger] r@[i], kept[i])
        }),
{
    let lis = sel_htmls(body, CATEGORY_LI_SEL);
    let ghost lisg = htmls_of(body@, CATEGORY_LI_SEL@);
    let mut r: Vec<Category> = Vec::new();
    let mut i: usize = 0;
    proof {
        reveal(Seq::filter);
        assert(lisg.take(0int).filter(|li: Seq<char>| spec_li_keeps(li)) =~= Seq::<
            Seq<char>,
        >::empty());
    }
    while i < lis.len()
        invariant
            lis@.map_values(|s: String| s@) == lisg,
            i <= lisg.len(),
            r@.len() == lisg.take(i as int).filter(|li: Seq<char>| spec_li_keeps(li)).len(),
            forall|k: int|
                0 <= k < r@.len() ==> spec_cat_matches(
                    #[trigger] r@[k],
                    lisg.take(i as int).filter(|li: Seq<char>| spec_li_keeps(li))[k],
                ),
        decreases lisg.len() - i,
    {
        proof {
            reveal(Seq::filter);
            assert(lis@[i as int]@ == lisg[i as int]);
            assert(lisg.take(i + 1 as int).drop_last() =~= lisg.take(i as int));
            assert(lisg.take(i + 1 as int).last() == lisg[i as int]);
        }
        let li = lis[i].as_str();
        let ghost lig = lisg[i as int];
        let hrefs = sel_attr_opts(li, "a", "href");
        let names = sel_texts(li, "a");
        let ghost hrefsg = attr_opts_of(lig, "a"@, "href"@);
        let ghost namesg = texts_of(lig, "a"@);
        if hrefs.len() == 0 {
            proof {
                assert(!spec_li_keeps(lig));
            }
            i += 1;
            continue;
        }
        let main_id: Option<usize> = link_id(&hrefs, 0, "category", Ghost(hrefsg));
        match main_id {
            None => {
                proof {
                    assert(!spec_li_keeps(lig));
                }
                i += 1;
                continue;
            },
            Some(cat_id) => {
                proof {
                    assert(spec_li_keeps(lig));
                }
                proof {
                    assert(names@.map_values(|s: String| s@).len() == namesg.len());
                    if names@.len() > 0 {
                        assert(names@.map_values(|s: String| s@)[0] == names@[0]@);
                    }
                }
                let main_name = if names.len() > 0 {
                    cat_name(names[0].as_str())
                } else {
                    proof {
                        reveal_strlit("");
                        assert(namesg.len() == 0);
                    }
                    cat_name("")
                };
                proof {
                    assert(main_name@ == spec_cat_name(spec_first_or_empty(namesg)));
                }
                let mut subs: Vec<Category> = Vec::new();
                let mut k: usize = hrefs.len();
                proof {
                    assert(hrefs@.map_values(
                        |o: Option<String>|
                            match o {
                                Some(s) => Some(s@),
                                None => None,
                            },
                    ).len() == hrefsg.len());
                    assert(subs@.map_values(|sc: Category| (sc.id as nat, sc.name@))
                        =~= spec_li_subs(lig, k as int));
                }
                // walk the links backwards so each step prepends
                while k > 1
                    invariant
                        i < lisg.len(),
                        hrefsg == attr_opts_of(lig, "a"@, "href"@),
                        namesg == texts_of(lig, "a"@),
                        1 <= k <= hrefsg.len(),
                        hrefs@.map_values(
                            |o: Option<String>|
                                match o {
                                    Some(s) => Some(s@),
                                    None => None,
                                },
                        ) == hrefsg,
                        names@.map_values(|s: String| s@) == namesg,
                        lisg[i as int] == lig,
                        subs@.map_values(|sc: Category| (sc.id as nat, sc.name@))
                            == spec_li_subs(lig, k as int),
                        forall|j: int|
                            0 <= j < subs@.len() ==> (
                            #[trigger] subs@[j]).sub_categories@.len() == 0,
                    decreases k,
                {
                    k -= 1;
                    proof {
                        assert(names@.map_values(|s: String| s@).len() == namesg.len());
                        if k < names@.len() {
                            assert(names@.map_values(|s: String| s@)[k as int] == names@[
                                k as int]@);
                        }
                    }
                    match link_id(&hrefs, k, "sub_category", Ghost(hrefsg)) {
                        Some(sub_id) => {
                            let nm = if k < names.len() {
                                cat_name(names[k].as_str())
                            } else {
                                proof {
                                    reveal_strlit("");
                                }
                                cat_name("")
                            };
                            let sc = Category {
                                id: sub_id,
                                name: nm,
                                sub_categories: Vec::new(),
                            };
                            subs.insert(0, sc);
                            proof {
                                assert(subs@.map_values(
                                    |sc: Category| (sc.id as nat, sc.name@),
                                ) =~= spec_li_subs(lig, k as int));
                            }
                        },
                        None => {},
                    }
                }
                let c = Category { id: cat_id, name: main_name, sub_categories: subs };
                r.push(c);
            },
        }
        i += 1;
    }
    proof {
        assert(lisg.take(lisg.len() as int) =~= lisg);
    }
    r
}

/// Clean one category name.
fn cat_name(t: &str) -> (r: String)
    ensures
        r@ == spec_cat_name(t@),
{
    let v = chars_of(t);
    let tt = trim_chars(&v);
    let pat = chars_of(CATEGORY_NAME_NOISE);
    let rep = chars_of(" ");
    proof {
        reveal_strlit("\n\t\t\t\t\t\t\t");
        reveal_strlit(" ");
    }
    let folded = replace_all(&tt, &pat, &rep);
    crate::text::chars_to_string(&folded)
}

/// The id the link at `k` carries under `param`, when it parses.
fn link_id(
    hrefs: &Vec<Option<String>>,
    k: usize,
    param: &str,
    Ghost(hrefsg): Ghost<Seq<Option<Seq<char>>>>,
) -> (r: Option<usize>)
    requires
        k < hrefsg.len(),
        hrefs@.map_values(
            |o: Option<String>|
                match o {
                    Some(s) => Some(s@),
                    None => None,
                },
        ) == hrefsg,
    ensures
        match r {
            Some(id) => spec_link_id(hrefsg[k as int], param@) == Some(id as nat),
            None => spec_link_id(hrefsg[k as int], param@) is None,
        },
{
    proof {
        let f = |o: Option<String>|
            match o {
                Some(s) => Some(s@),
                None => None,
            };
        assert(hrefs@.map_values(f)[k as int] == f(hrefs@[k as int]));
    }
    let h: &str = match &hrefs[k] {
        Some(s) => s.as_str(),
        None => "",
    };
    proof {
        if hrefs@[k as int] is None {
            reveal_strlit("");
        }
    }
    match extract_param(h, param) {
        Some(v) => {
            let vv = chars_of(v.as_str());
            match parse_u64_chars(&vv) {
                Some(n) => {
                    if n <= usize::MAX as u64 {
                        Some(n as usize)
                    } else {
                        None
                    }
                },
                None => None,
            }
        },
        None => None,
    }
}

/// A text with its spaces removed, the way grouped digit counts are
/// written on the detail page.
pub open spec fn spec_strip_spaces(s: Seq<char>) -> Seq<char> {
    s.filter(|c: char| c != ' ')
}

/// The seeders, leechers and completed counts read from a detail-table
/// row laid out as alternating key and value cells; keys decide by
/// containment, values are read with spaces removed and default to the
/// count already in hand.
pub open spec fn spec_stats_walk(
    cells: Seq<Seq<char>>,
    i: int,
    seed: nat,
    leech: nat,
    done: nat,
) -> (nat, nat, nat)
    decreases cells.len() - i,
{
    if i < 0 || i + 1 >= cells.len() {
        (seed, leech, done)
    } else {
        let key = cells[i];
        let v = spec_field_num(spec_strip_spaces(cells[i + 1]));
        let next_seed = if spec_contains(key, "Seeders"@) {
            v
        } else {
            seed
        };
        let next_leech = if spec_contains(key, "Leechers"@) {
            v
        } else {
            leech
        };
        let next_done = if spec_contains(key, "Compl\u{e9}t\u{e9}s"@) {
            v
        } else {
            done
        };
        spec_stats_walk(cells, i + 2, next_seed, next_leech, next_done)
    }
}

/// Walk a detail-table row's cells as alternating key and value pairs
/// and pick up the seeders, leechers and completed counts.
pub fn stats_from_cells(cells: &Vec<String>) -> (r: (usize, usize, usize))
    ensures
        (r.0 as nat, r.1 as nat, r.2 as nat) == spec_stats_walk(
            cells@.map_values(|s: String| s@),
            0,
            0,
            0,
            0,
        ),
{
    let ghost cg = cells@.map_values(|s: String| s@);
    let mut seed: usize = 0;
    let mut leech: usize = 0;
    let mut done: usize = 0;
    let mut i: usize = 0;
    while i < cells.len() && i + 1 < cells.len()
        invariant
            cg == cells@.map_values(|s: String| s@),
            i <= cg.len() + 1,
            spec_stats_walk(cg, 0, 0, 0, 0) == spec_stats_walk(
                cg,
                i as int,
                seed as nat,
                leech as nat,
                done as nat,
            ),
        decreases cg.len() - i,
    {
        proof {
            assert(cg[i as int] == cells@[i as int]@);
            assert(cg[i + 1 as int] == cells@[i + 1 as int]@);
        }
        let key = cells[i].as_str();
        let stripped = strip_spaces(cells[i + 1].as_str());
        let v = parse_field_num(stripped.as_str());
        if str_contains(key, "Seeders") {
            seed = v;
        }
        if str_contains(key, "Leechers") {
            leech = v;
        }
        if str_contains(key, "Compl\u{e9}t\u{e9}s") {
            done = v;
        }
        i += 2;
    }
    (seed, leech, done)
}

/// Remove every space from a text.
fn strip_spaces(s: &str) -> (r: String)
    ensures
        r@ == spec_strip_spaces(s@),
{
    let v = chars_of(s);
    let mut out: Vec<char> = Vec::new();
    let mut i: usize = 0;
    proof {
        reveal(Seq::filter);
        assert(v@.take(0int).filter(|c: char| c != ' ') =~= Seq::<char>::empty());
    }
    while i < v.len()
        invariant
            v@ == s@,
            i <= v@.len(),
            out@ == v@.take(i as int).filter(|c: char| c != ' '),
        decreases v@.len() - i,
    {
        proof {
            reveal(Seq::filter);
            assert(v@.take(i + 1 as int).drop_last() =~= v@.take(i as int));
            assert(v@.take(i + 1 as int).last() == v@[i as int]);
        }
        let c = v[i];
        if c != ' ' {
            out.push(c);
        }
        i += 1;
    }
    proof {
        assert(v@.take(v@.len() as int) =~= v@);
    }
    crate::text::chars_to_string(&out)
}

/// The keywords of a detail page: the term links' texts, trimmed, the
/// empty ones dropped.
pub open spec fn spec_keywords(texts: Seq<Seq<char>>) -> Seq<Seq<char>> {
    texts.map_values(|t: Seq<char>| spec_trim(t)).filter(|t: Seq<char>| t.len() > 0)
}

/// Collect the keyword texts: each trimmed, empty ones dropped.
pub fn keywords_from_texts(texts: &Vec<String>) -> (r: Vec<String>)
    ensures
        r@.map_values(|s: String| s@) == spec_keywords(texts@.map_values(|s: String| s@)),
{
    let ghost tg = texts@.map_values(|s: String| s@);
    let ghost mapped = tg.map_values(|t: Seq<char>| spec_trim(t));
    let mut r: Vec<String> = Vec::new();
    let mut i: usize = 0;
    proof {
        reveal(Seq::filter);
        assert(r@.map_values(|s: String| s@) =~= mapped.take(0int).filter(
            |t: Seq<char>| t.len() > 0,
        ));
    }
    while i < texts.len()
        invariant
            tg == texts@.map_values(|s: String| s@),
            mapped == tg.map_values(|t: Seq<char>| spec_trim(t)),
            i <= tg.len(),
            r@.map_values(|s: String| s@) == mapped.take(i as int).filter(
                |t: Seq<char>| t.len() > 0,
            ),
        decreases tg.len() - i,
    {
        proof {
            reveal(Seq::filter);
            assert(tg[i as int] == texts@[i as int]@);
            assert(mapped[i as int] == spec_trim(tg[i as int]));
            assert(mapped.take(i + 1 as int).drop_last() =~= mapped.take(i as int));
            assert(mapped.take(i + 1 as int).last() == mapped[i as int]);
        }
        let tv = chars_of(texts[i].as_str());
        let tt = trim_chars(&tv);
        if tt.len() > 0 {
            let ghost prev = r@.map_values(|s: String| s@);
            let kw = crate::text::chars_to_string(&tt);
            r.push(kw);
            proof {
                assert(r@.map_values(|s: String| s@) =~= prev.push(mapped[i as int]));
            }
        }
        i += 1;
    }
    proof {
        assert(mapped.take(mapped.len() as int) =~= mapped);
    }
    r
}

/// The marker of a profile link on the detail page.
pub const PROFILE_MARKER: &'static str = "/profile/";

/// The author id a profile link carries: the digits between the
/// profile marker and the next dash, zero when they do not parse.
pub open spec fn spec_author_id(href: Seq<char>) -> nat {
    let p = spec_find_sub(href, PROFILE_MARKER@, 0);
    if p == href.len() {
        0
    } else {
        let start = p + PROFILE_MARKER@.len();
        let dash = crate::text::spec_find_char(href, start, '-');
        spec_field_num(href.subrange(start, dash))
    }
}

/// Read the author id out of a profile link.
pub fn author_id_from_href(href: &str) -> (r: usize)
    ensures
        r == spec_author_id(href@),
{
    let hv = chars_of(href);
    let pat = chars_of(PROFILE_MARKER);
    proof {
        reveal_strlit("/profile/");
    }
    let p = find_sub(&hv, &pat);
    if p == hv.len() {
        return 0;
    }
    let start = p + pat.len();
    let dash = crate::text::find_char(&hv, start, '-');
    let seg = copy_range_chars(&hv, start, dash);
    let s = crate::text::chars_to_string(&seg);
    parse_field_num(s.as_str())
}

/// The partial details read off a torrent's page.
pub struct TorrentDetails {
    pub created_at: u64,
    pub completed: usize,
    pub seed: usize,
    pub leech: usize,
    pub keywords: Vec<String>,
    pub author_name: String,
    pub author_id: usize,
    pub html_description: String,
    pub text_description: String,
}

/// The selector of the description block: the sibling right after the
/// description header.
pub const DESCRIPTION_SEL: &'static str = "div.description-header + div";

/// What chrono gives for a date written `day/month/year hour:minute`:
/// its UTC timestamp; the result depends on the text alone.
pub uninterp spec fn date_epoch_of(s: Seq<char>) -> Option<int>;

/// Relies on chrono::NaiveDateTime::parse_from_str with the
/// `%d/%m/%Y %H:%M` format and on its UTC timestamp: a function of the
/// date text alone.
#[verifier::external_body]
fn parse_date_to_timestamp(s: &str) -> (r: Option<i64>)
    ensures
        r matches Some(t) ==> date_epoch_of(s@) == Some(t as int),
        r is None ==> date_epoch_of(s@) is None,
{
    chrono::NaiveDateTime::parse_from_str(s, "%d/%m/%Y %H:%M")
        .ok()
        .map(|dt| dt.and_utc().timestamp())
}

/// The marker of the details section's heading.
pub const DETAILS_HEADING: &'static str = "T\u{e9}l\u{e9}chargement & D\u{e9}tails";

/// The marker of the keywords row.
pub const KEYWORDS_MARKER: &'static str = "Mots cl\u{e9}s";

/// The marker of the upload-date row.
pub const UPLOADED_MARKER: &'static str = "Upload\u{e9} le";

/// The name shown when no author link is on the page.
pub const ANONYMOUS_AUTHOR: &'static str = "Pirate Anonyme";

/// The index of the first section whose heading mentions the details
/// marker, or the end.
pub open spec fn spec_details_section(sections: Seq<Seq<char>>, i: int) -> int
    decreases sections.len() - i,
{
    if i < 0 || i >= sections.len() {
        sections.len() as int
    } else if spec_contains(
        spec_first_or_empty(texts_of(sections[i], "h2"@)),
        DETAILS_HEADING@,
    ) {
        i
    } else {
        spec_details_section(sections, i + 1)
    }
}

/// The texts of a table row's cells.
pub open spec fn spec_row_cell_texts(row: Seq<char>) -> Seq<Seq<char>> {
    texts_of(spec_table_wrap(row), "td"@)
}

/// The stats the details table yields: the walk of each row's cells,
/// in row order, each row folding into the counts gathered so far.
pub open spec fn spec_details_stats(rows: Seq<Seq<char>>, i: int, acc: (nat, nat, nat)) -> (
    nat,
    nat,
    nat,
)
    decreases rows.len() - i,
{
    if i < 0 || i >= rows.len() {
        acc
    } else {
        let cells = spec_row_cell_texts(rows[i]);
        spec_details_stats(rows, i + 1, spec_stats_walk(cells, 0, acc.0, acc.1, acc.2))
    }
}

/// The keywords the details table yields: the term links of the first
/// row whose leading cell mentions the keywords marker, or none.
pub open spec fn spec_details_keywords(rows: Seq<Seq<char>>, i: int) -> Seq<Seq<char>>
    decreases rows.len() - i,
{
    if i < 0 || i >= rows.len() {
        Seq::empty()
    } else {
        let cells = spec_row_cell_texts(rows[i]);
        if cells.len() > 0 && spec_contains(cells[0], KEYWORDS_MARKER@) {
            spec_keywords(texts_of(spec_table_wrap(rows[i]), "a.term"@))
        } else {
            spec_details_keywords(rows, i + 1)
        }
    }
}

/// The rows of the details section's first table, or none when the
/// page carries no such section or table.
pub open spec fn spec_details_rows(body: Seq<char>) -> Seq<Seq<char>> {
    let sections = htmls_of(body, "section.content"@);
    let si = spec_details_section(sections, 0);
    if si >= sections.len() {
        Seq::empty()
    } else {
        let tables = htmls_of(sections[si], "table"@);
        if tables.len() == 0 {
            Seq::empty()
        } else {
            htmls_of(tables[0], "tr"@)
        }
    }
}

/// The upload timestamp: in the first document row with two cells
/// whose leading cell mentions the upload marker, the second cell's
/// text up to an opening parenthesis, read as a date; zero without
/// such a row, on a malformed date, or for a date before the epoch.
pub open spec fn spec_created_at(rows: Seq<Seq<char>>, i: int) -> nat
    decreases rows.len() - i,
{
    if i < 0 || i >= rows.len() {
        0
    } else {
        let cells = spec_row_cell_texts(rows[i]);
        if cells.len() >= 2 && spec_contains(cells[0], UPLOADED_MARKER@) {
            let whole = spec_trim(cells[1]);
            let cut = whole.subrange(0, crate::text::spec_find_char(whole, 0, '('));
            match date_epoch_of(spec_trim(cut)) {
                Some(t) => if t >= 0 {
                    t as nat
                } else {
                    0
                },
                None => 0,
            }
        } else {
            spec_created_at(rows, i + 1)
        }
    }
}

/// The author link: the first anchor whose target mentions the profile
/// marker, or none.
pub open spec fn spec_author_link(
    hrefs: Seq<Option<Seq<char>>>,
    texts: Seq<Seq<char>>,
    i: int,
) -> Option<(Seq<char>, Seq<char>)>
    decreases hrefs.len() - i,
{
    if i < 0 || i >= hrefs.len() {
        None
    } else {
        match hrefs[i] {
            Some(h) => if spec_contains(h, PROFILE_MARKER@) {
                Some(
                    (
                        h,
                        if i < texts.len() {
                            texts[i]
                        } else {
                            Seq::empty()
                        },
                    ),
                )
            } else {
                spec_author_link(hrefs, texts, i + 1)
            },
            None => spec_author_link(hrefs, texts, i + 1),
        }
    }
}

/// Extract the partial details of a torrent's page: the counts and
/// keywords of the details table, the upload timestamp, and the
/// author behind the first profile link, an anonymous default without
/// one. Every field is read defensively; nothing here aborts.
pub fn extract_partial_torrent_infos(body: &str) -> (r: TorrentDetails)
    ensures
        ({
            let rows = spec_details_rows(body@);
            let stats = spec_details_stats(rows, 0, (0nat, 0nat, 0nat));
            &&& (r.seed as nat, r.leech as nat, r.completed as nat) == stats
            &&& r.keywords@.map_values(|s: String| s@) == spec_details_keywords(rows, 0)
            &&& r.created_at as nat == spec_created_at(htmls_of(body@, "tr"@), 0)
            &&& match spec_author_link(
                attr_opts_of(body@, "a"@, "href"@),
                texts_of(body@, "a"@),
                0,
            ) {
                Some(link) => r.author_name@ == spec_trim(link.1) && r.author_id
                    == spec_author_id(link.0),
                None => r.author_name@ == ANONYMOUS_AUTHOR@ && r.author_id == 0,
            }
            &&& r.html_description@ == spec_first_or_empty(htmls_of(body@, DESCRIPTION_SEL@))
            &&& r.text_description@ == spec_trim(
                spec_first_or_empty(texts_of(body@, DESCRIPTION_SEL@)),
            )
        }),
{
    let rows = details_rows(body);
    let (seed, leech, done) = details_stats(&rows, Ghost(spec_details_rows(body@)));
    let keywords = details_keywords(&rows, Ghost(spec_details_rows(body@)));
    let created_at = scan_created_at(body);
    let (author_name, author_id) = find_author(body);
    let dhs = sel_htmls(body, DESCRIPTION_SEL);
    let html_description = first_text(dhs, Ghost(htmls_of(body@, DESCRIPTION_SEL@)));
    let dts = sel_texts(body, DESCRIPTION_SEL);
    let dt0 = first_text(dts, Ghost(texts_of(body@, DESCRIPTION_SEL@)));
    let dtv = chars_of(dt0.as_str());
    let dtt = trim_chars(&dtv);
    let text_description = crate::text::chars_to_string(&dtt);
    TorrentDetails {
        created_at,
        completed: done,
        seed,
        leech,
        keywords,
        author_name,
        author_id,
        html_description,
        text_description,
    }
}

/// The rows of the details section's first table.
fn details_rows(body: &str) -> (r: Vec<String>)
    ensures
        r@.map_values(|s: String| s@) == spec_details_rows(body@),
{
    let sections = sel_htmls(body, "section.content");
    let ghost sectionsg = htmls_of(body@, "section.content"@);
    let mut si: usize = 0;
    let mut sfound = false;
    while si < sections.len() && !sfound
        invariant
            sectionsg == htmls_of(body@, "section.content"@),
            sections@.map_values(|s: String| s@) == sectionsg,
            si <= sectionsg.len(),
            sfound ==> si < sectionsg.len() && spec_details_section(sectionsg, 0) == si,
            !sfound ==> spec_details_section(sectionsg, 0) == spec_details_section(
                sectionsg,
                si as int,
            ),
        decreases sectionsg.len() - si + (if sfound { 0int } else { 1int }),
    {
        proof {
            assert(sections@[si as int]@ == sectionsg[si as int]);
        }
        let hs = sel_texts(sections[si].as_str(), "h2");
        let h0 = first_text(hs, Ghost(texts_of(sectionsg[si as int], "h2"@)));
        if str_contains(h0.as_str(), DETAILS_HEADING) {
            sfound = true;
        } else {
            si += 1;
        }
    }
    if !sfound {
        proof {
            assert(spec_details_section(sectionsg, si as int) == sectionsg.len());
            assert(spec_details_rows(body@) =~= Seq::<Seq<char>>::empty());
        }
        return Vec::new();
    }
    let tables = sel_htmls(sections[si].as_str(), "table");
    proof {
        assert(sections@[si as int]@ == sectionsg[si as int]);
        assert(tables@.map_values(|s: String| s@) == htmls_of(sectionsg[si as int], "table"@));
    }
    if tables.len() == 0 {
        proof {
            assert(spec_details_rows(body@) =~= Seq::<Seq<char>>::empty());
        }
        return Vec::new();
    }
    proof {
        assert(tables@[0]@ == htmls_of(sectionsg[si as int], "table"@)[0]);
    }
    sel_htmls(tables[0].as_str(), "tr")
}

/// The stats the details rows yield.
fn details_stats(rows: &Vec<String>, Ghost(rowsg): Ghost<Seq<Seq<char>>>) -> (r: (
    usize,
    usize,
    usize,
))
    requires
        rows@.map_values(|s: String| s@) == rowsg,
    ensures
        (r.0 as nat, r.1 as nat, r.2 as nat) == spec_details_stats(rowsg, 0, (0nat, 0nat, 0nat)),
{
    let mut seed: usize = 0;
    let mut leech: usize = 0;
    let mut done: usize = 0;
    let mut ri: usize = 0;
    while ri < rows.len()
        invariant
            rows@.map_values(|s: String| s@) == rowsg,
            ri <= rowsg.len(),
            spec_details_stats(rowsg, 0, (0nat, 0nat, 0nat)) == spec_details_stats(
                rowsg,
                ri as int,
                (seed as nat, leech as nat, done as nat),
            ),
        decreases rowsg.len() - ri,
    {
        proof {
            assert(rows@[ri as int]@ == rowsg[ri as int]);
        }
        let wrapped = table_wrap(rows[ri].as_str());
        let cells = sel_texts(wrapped.as_str(), "td");
        let ghost cellsg = spec_row_cell_texts(rowsg[ri as int]);
        proof {
            assert(cells@.map_values(|s: String| s@) == cellsg);
        }
        let (s2, l2, d2) = stats_walk_step(&cells, seed, leech, done, Ghost(cellsg));
        seed = s2;
        leech = l2;
        done = d2;
        ri += 1;
    }
    (seed, leech, done)
}

/// The keywords the details rows yield.
fn details_keywords(rows: &Vec<String>, Ghost(rowsg): Ghost<Seq<Seq<char>>>) -> (r: Vec<
    String,
>)
    requires
        rows@.map_values(|s: String| s@) == rowsg,
    ensures
        r@.map_values(|s: String| s@) == spec_details_keywords(rowsg, 0),
{
    let mut ri: usize = 0;
    while ri < rows.len()
        invariant
            rows@.map_values(|s: String| s@) == rowsg,
            ri <= rowsg.len(),
            spec_details_keywords(rowsg, 0) == spec_details_keywords(rowsg, ri as int),
        decreases rowsg.len() - ri,
    {
        proof {
            assert(rows@[ri as int]@ == rowsg[ri as int]);
        }
        let wrapped = table_wrap(rows[ri].as_str());
        let cells = sel_texts(wrapped.as_str(), "td");
        let ghost cellsg = spec_row_cell_texts(rowsg[ri as int]);
        proof {
            assert(cells@.map_values(|s: String| s@) == cellsg);
        }
        if cells.len() > 0 {
            proof {
                assert(cells@[0]@ == cellsg[0]);
            }
            if str_contains(cells[0].as_str(), KEYWORDS_MARKER) {
                let terms = sel_texts(wrapped.as_str(), "a.term");
                proof {
                    assert(terms@.map_values(|s: String| s@) == texts_of(
                        spec_table_wrap(rowsg[ri as int]),
                        "a.term"@,
                    ));
                }
                return keywords_from_texts(&terms);
            }
        }
        ri += 1;
    }
    Vec::new()
}

/// The upload timestamp, scanned over every document row.
fn scan_created_at(body: &str) -> (r: u64)
    ensures
        r as nat == spec_created_at(htmls_of(body@, "tr"@), 0),
{
    let all_rows = sel_htmls(body, "tr");
    let ghost arg = htmls_of(body@, "tr"@);
    let mut di: usize = 0;
    while di < all_rows.len()
        invariant
            arg == htmls_of(body@, "tr"@),
            all_rows@.map_values(|s: String| s@) == arg,
            di <= arg.len(),
            spec_created_at(arg, 0) == spec_created_at(arg, di as int),
        decreases arg.len() - di,
    {
        proof {
            assert(all_rows@[di as int]@ == arg[di as int]);
        }
        let wrapped = table_wrap(all_rows[di].as_str());
        let cells = sel_texts(wrapped.as_str(), "td");
        let ghost cellsg = spec_row_cell_texts(arg[di as int]);
        proof {
            assert(cells@.map_values(|s: String| s@) == cellsg);
        }
        if cells.len() >= 2 {
            proof {
                assert(cells@[0]@ == cellsg[0]);
                assert(cells@[1]@ == cellsg[1]);
            }
            if str_contains(cells[0].as_str(), UPLOADED_MARKER) {
                let wv = chars_of(cells[1].as_str());
                let whole = trim_chars(&wv);
                let paren = crate::text::find_char(&whole, 0, '(');
                let cutv = copy_range_chars(&whole, 0, paren);
                let cut = trim_chars(&cutv);
                let ds = crate::text::chars_to_string(&cut);
                match parse_date_to_timestamp(ds.as_str()) {
                    Some(t) => {
                        if t >= 0 {
                            return t as u64;
                        }
                        return 0;
                    },
                    None => {
                        return 0;
                    },
                }
            }
        }
        di += 1;
    }
    0
}

/// The author behind the first profile link on the page.
fn find_author(body: &str) -> (r: (String, usize))
    ensures
        match spec_author_link(attr_opts_of(body@, "a"@, "href"@), texts_of(body@, "a"@), 0) {
            Some(link) => r.0@ == spec_trim(link.1) && r.1 == spec_author_id(link.0),
            None => r.0@ == ANONYMOUS_AUTHOR@ && r.1 == 0,
        },
{
    let hrefs = sel_attr_opts(body, "a", "href");
    let texts = sel_texts(body, "a");
    let ghost hrefsg = attr_opts_of(body@, "a"@, "href"@);
    let ghost textsg = texts_of(body@, "a"@);
    let mut ai: usize = 0;
    while ai < hrefs.len()
        invariant
            hrefsg == attr_opts_of(body@, "a"@, "href"@),
            textsg == texts_of(body@, "a"@),
            hrefs@.map_values(
                |o: Option<String>|
                    match o {
                        Some(s) => Some(s@),
                        None => None,
                    },
            ) == hrefsg,
            texts@.map_values(|s: String| s@) == textsg,
            ai <= hrefsg.len(),
            spec_author_link(hrefsg, textsg, 0) == spec_author_link(hrefsg, textsg, ai as int),
        decreases hrefsg.len() - ai,
    {
        proof {
            let f = |o: Option<String>|
                match o {
                    Some(s) => Some(s@),
                    None => None,
                };
            assert(hrefs@.map_values(f)[ai as int] == f(hrefs@[ai as int]));
        }
        match &hrefs[ai] {
            Some(h) => {
                if str_contains(h.as_str(), PROFILE_MARKER) {
                    let nm: String = if ai < texts.len() {
                        proof {
                            assert(texts@.map_values(|s: String| s@)[ai as int] == texts@[
                                ai as int]@);
                        }
                        let tv = chars_of(texts[ai].as_str());
                        let tt = trim_chars(&tv);
                        crate::text::chars_to_string(&tt)
                    } else {
                        proof {
                            assert(spec_trim(Seq::<char>::empty()) =~= Seq::<char>::empty());
                        }
                        String::new()
                    };
                    let id = author_id_from_href(h.as_str());
                    return (nm, id);
                }
            },
            None => {},
        }
        ai += 1;
    }
    (String::from_str(ANONYMOUS_AUTHOR), 0)
}

/// One row's contribution to the stats walk.
fn stats_walk_step(
    cells: &Vec<String>,
    seed0: usize,
    leech0: usize,
    done0: usize,
    Ghost(cellsg): Ghost<Seq<Seq<char>>>,
) -> (r: (usize, usize, usize))
    requires
        cells@.map_values(|s: String| s@) == cellsg,
    ensures
        (r.0 as nat, r.1 as nat, r.2 as nat) == spec_stats_walk(
            cellsg,
            0,
            seed0 as nat,
            leech0 as nat,
            done0 as nat,
        ),
{
    let mut seed = seed0;
    let mut leech = leech0;
    let mut done = done0;
    let mut i: usize = 0;
    while i < cells.len() && i + 1 < cells.len()
        invariant
            cellsg == cells@.map_values(|s: String| s@),
            i <= cellsg.len() + 1,
            spec_stats_walk(cellsg, 0, seed0 as nat, leech0 as nat, done0 as nat)
                == spec_stats_walk(cellsg, i as int, seed as nat, leech as nat, done as nat),
        decreases cellsg.len() - i,
    {
        proof {
            assert(cellsg[i as int] == cells@[i as int]@);
            assert(cellsg[i + 1 as int] == cells@[i + 1 as int]@);
        }
        let key = cells[i].as_str();
        let stripped = strip_spaces(cells[i + 1].as_str());
        let v = parse_field_num(stripped.as_str());
        if str_contains(key, "Seeders") {
            seed = v;
        }
        if str_contains(key, "Leechers") {
            leech = v;
        }
        if str_contains(key, "Compl\u{e9}t\u{e9}s") {
            done = v;
        }
        i += 2;
    }
    (seed, leech, done)
}

} // verus!
