//! The account page: profile and tracker-stat fields scraped into a
//! record whose fields default to empty or zero when a section is
//! absent; a missing sub-section never aborts the whole parse.

use vstd::prelude::*;
use crate::extract::{
    texts_of, htmls_of, attr_opts_of, spec_first_or_empty, spec_first_attr, spec_row_cell_texts,
};
use crate::sizes::{convert_size_to_bytes, spec_acct_size_ok, spec_acct_size_bytes};
use crate::text::{
    chars_of, trim_chars, chars_to_string, spec_trim, spec_contains, str_contains,
    spec_find_char, find_char, spec_all_digits, spec_digits_value, parse_u64_chars,
};

verus! {

/// The account record. Sizes are exact byte counts; the share ratio is
/// left to the layer around the library, which may divide them as it
/// pleases.
pub struct UserAccount {
    pub username: String,
    pub rank: String,
    pub join_date: String,
    pub last_activity: String,
    pub torrents_count: u16,
    pub comments_count: u16,
    pub reputation_score: i32,
    pub passkey: String,
    pub uploaded: u128,
    pub downloaded: u128,
    pub avatar_url: String,
    pub email: String,
    pub age: Option<u16>,
    pub gender: Option<String>,
    pub country: Option<String>,
    pub country_code: Option<String>,
}

/// The ghost image of an account record, for contracts.
pub ghost struct AccountView {
    pub username: Seq<char>,
    pub rank: Seq<char>,
    pub join_date: Seq<char>,
    pub last_activity: Seq<char>,
    pub torrents_count: int,
    pub comments_count: int,
    pub reputation_score: int,
    pub passkey: Seq<char>,
    pub uploaded: int,
    pub downloaded: int,
}

impl UserAccount {
    /// The ghost image of the fields the row parsers write.
    pub open spec fn view_rows(self) -> AccountView {
        AccountView {
            username: self.username@,
            rank: self.rank@,
            join_date: self.join_date@,
            last_activity: self.last_activity@,
            torrents_count: self.torrents_count as int,
            comments_count: self.comments_count as int,
            reputation_score: self.reputation_score as int,
            passkey: self.passkey@,
            uploaded: self.uploaded as int,
            downloaded: self.downloaded as int,
        }
    }

    /// A fresh record: every field empty, zero or absent.
    pub fn new_empty() -> (r: UserAccount)
        ensures
            r.view_rows() == (AccountView {
                username: Seq::<char>::empty(),
                rank: Seq::<char>::empty(),
                join_date: Seq::<char>::empty(),
                last_activity: Seq::<char>::empty(),
                torrents_count: 0int,
                comments_count: 0int,
                reputation_score: 0int,
                passkey: Seq::<char>::empty(),
                uploaded: 0int,
                downloaded: 0int,
            }),
            r.avatar_url@ == Seq::<char>::empty(),
            r.email@ == Seq::<char>::empty(),
            r.age is None,
            r.gender is None,
            r.country is None,
            r.country_code is None,
    {
        UserAccount {
            username: String::new(),
            rank: String::new(),
            join_date: String::new(),
            last_activity: String::new(),
            torrents_count: 0,
            comments_count: 0,
            reputation_score: 0,
            passkey: String::new(),
            uploaded: 0,
            downloaded: 0,
            avatar_url: String::new(),
            email: String::new(),
            age: None,
            gender: None,
            country: None,
            country_code: None,
        }
    }
}

/// A bounded decimal field: its value when it parses and fits, zero
/// otherwise.
pub open spec fn spec_u16_or_zero(v: Seq<char>) -> int {
    if v.len() > 0 && spec_all_digits(v) && spec_digits_value(v) <= u16::MAX {
        spec_digits_value(v)
    } else {
        0
    }
}

/// A signed decimal field: its value when it parses and fits a 32-bit
/// word, zero otherwise.
pub open spec fn spec_i32_or_zero(v: Seq<char>) -> int {
    if v.len() >= 1 && v[0] == '-' {
        let d = v.drop_first();
        if d.len() > 0 && spec_all_digits(d) && spec_digits_value(d) <= 0x8000_0000 {
            -spec_digits_value(d)
        } else {
            0
        }
    } else if v.len() > 0 && spec_all_digits(v) && spec_digits_value(v) <= 0x7fff_ffff {
        spec_digits_value(v)
    } else {
        0
    }
}

/// Parse a bounded decimal field, falling back to zero.
fn parse_u16_or_zero(v: &Vec<char>) -> (r: u16)
    ensures
        r == spec_u16_or_zero(v@),
{
    match parse_u64_chars(v) {
        Some(n) => {
            if n <= u16::MAX as u64 {
                n as u16
            } else {
                0
            }
        },
        None => 0,
    }
}

/// Parse a signed decimal field, falling back to zero.
fn parse_i32_or_zero(v: &Vec<char>) -> (r: i32)
    ensures
        r == spec_i32_or_zero(v@),
{
    if v.len() >= 1 && v[0] == '-' {
        let mut d: Vec<char> = Vec::new();
        let mut i: usize = 1;
        while i < v.len()
            invariant
                1 <= i <= v@.len(),
                v@.len() >= 1,
                d@ == v@.subrange(1, i as int),
            decreases v@.len() - i,
        {
            d.push(v[i]);
            proof {
                assert(v@.subrange(1, i + 1 as int) =~= v@.subrange(1, i as int).push(
                    v@[i as int],
                ));
            }
            i += 1;
        }
        proof {
            assert(d@ =~= v@.drop_first());
        }
        match parse_u64_chars(&d) {
            Some(n) => {
                if n <= 0x8000_0000u64 {
                    if n == 0x8000_0000u64 {
                        i32::MIN
                    } else {
                        -(n as i32)
                    }
                } else {
                    0
                }
            },
            None => 0,
        }
    } else {
        match parse_u64_chars(v) {
            Some(n) => {
                if n <= 0x7fff_ffffu64 {
                    n as i32
                } else {
                    0
                }
            },
            None => 0,
        }
    }
}

/// What one profile-table row does to the record: the key decides the
/// field, the value is read with a zero or empty default. The username
/// row carries the name and, in parentheses, the rank.
pub open spec fn spec_apply_base_row(
    a: AccountView,
    key: Seq<char>,
    value: Seq<char>,
) -> AccountView {
    if spec_contains(key, "Pseudo"@) {
        let p = spec_find_char(value, 0, '(');
        let username = spec_trim(value.subrange(0, p));
        let rank = if p >= value.len() {
            Seq::<char>::empty()
        } else {
            let q = spec_find_char(value, p + 1, '(');
            let seg = value.subrange(p + 1, q);
            if seg.len() >= 1 && seg.last() == ')' {
                spec_trim(seg.drop_last())
            } else {
                Seq::<char>::empty()
            }
        };
        AccountView { username, rank, ..a }
    } else if spec_contains(key, "Date d'inscription"@) {
        AccountView { join_date: value, ..a }
    } else if spec_contains(key, "Derni\u{e8}re activit\u{e9}"@) {
        AccountView { last_activity: value, ..a }
    } else if spec_contains(key, "Mes torrents"@) {
        AccountView { torrents_count: spec_u16_or_zero(value), ..a }
    } else if spec_contains(key, "Commentaires"@) {
        AccountView { comments_count: spec_u16_or_zero(value), ..a }
    } else if spec_contains(key, "R\u{e9}putation"@) {
        AccountView { reputation_score: spec_i32_or_zero(value), ..a }
    } else {
        a
    }
}

/// Apply one profile-table row to the record.
pub fn apply_base_row(acc: &mut UserAccount, key: &str, value: &str)
    ensures
        final(acc).view_rows() == spec_apply_base_row(old(acc).view_rows(), key@, value@),
        final(acc).avatar_url == old(acc).avatar_url,
        final(acc).email == old(acc).email,
        final(acc).age == old(acc).age,
        final(acc).gender == old(acc).gender,
        final(acc).country == old(acc).country,
        final(acc).country_code == old(acc).country_code,
{
    if str_contains(key, "Pseudo") {
        let vv = chars_of(value);
        let p = find_char(&vv, 0, '(');
        let before = copy_chars(&vv, 0, p);
        let trimmed = trim_chars(&before);
        acc.username = chars_to_string(&trimmed);
        if p == vv.len() {
            acc.rank = String::new();
        } else {
            let q = find_char(&vv, p + 1, '(');
            let seg = copy_chars(&vv, p + 1, q);
            if seg.len() >= 1 && seg[seg.len() - 1] == ')' {
                let inner = copy_chars(&seg, 0, seg.len() - 1);
                proof {
                    assert(inner@ =~= seg@.drop_last());
                }
                let rt = trim_chars(&inner);
                acc.rank = chars_to_string(&rt);
            } else {
                acc.rank = String::new();
            }
        }
    } else if str_contains(key, "Date d'inscription") {
        acc.join_date = String::from_str(value);
    } else if str_contains(key, "Derni\u{e8}re activit\u{e9}") {
        acc.last_activity = String::from_str(value);
    } else if str_contains(key, "Mes torrents") {
        let vv = chars_of(value);
        acc.torrents_count = parse_u16_or_zero(&vv);
    } else if str_contains(key, "Commentaires") {
        let vv = chars_of(value);
        acc.comments_count = parse_u16_or_zero(&vv);
    } else if str_contains(key, "R\u{e9}putation") {
        let vv = chars_of(value);
        acc.reputation_score = parse_i32_or_zero(&vv);
    }
}

/// What one tracker-stats row does to the record: the passkey is taken
/// verbatim, the transfer totals are read as sizes, kept unchanged when
/// a size does not parse.
pub open spec fn spec_apply_stats_row(
    a: AccountView,
    key: Seq<char>,
    value: Seq<char>,
) -> AccountView {
    if spec_contains(key, "Passkey"@) {
        AccountView { passkey: value, ..a }
    } else if spec_contains(key, "Qtt upload\u{e9}e"@) {
        if spec_acct_size_ok(spec_trim(value)) {
            AccountView { uploaded: spec_acct_size_bytes(spec_trim(value)), ..a }
        } else {
            a
        }
    } else if spec_contains(key, "Qtt t\u{e9}l\u{e9}charg\u{e9}e"@) {
        if spec_acct_size_ok(spec_trim(value)) {
            AccountView { downloaded: spec_acct_size_bytes(spec_trim(value)), ..a }
        } else {
            a
        }
    } else {
        a
    }
}

/// Apply one tracker-stats row to the record.
pub fn apply_stats_row(acc: &mut UserAccount, key: &str, value: &str)
    ensures
        final(acc).view_rows() == spec_apply_stats_row(old(acc).view_rows(), key@, value@),
        final(acc).avatar_url == old(acc).avatar_url,
        final(acc).email == old(acc).email,
        final(acc).age == old(acc).age,
        final(acc).gender == old(acc).gender,
        final(acc).country == old(acc).country,
        final(acc).country_code == old(acc).country_code,
{
    if str_contains(key, "Passkey") {
        acc.passkey = String::from_str(value);
    } else if str_contains(key, "Qtt upload\u{e9}e") {
        let vv = chars_of(value);
        let tt = trim_chars(&vv);
        let ts = chars_to_string(&tt);
        match convert_size_to_bytes(ts.as_str()) {
            Ok(b) => {
                acc.uploaded = b;
            },
            Err(_) => {},
        }
    } else if str_contains(key, "Qtt t\u{e9}l\u{e9}charg\u{e9}e") {
        let vv = chars_of(value);
        let tt = trim_chars(&vv);
        let ts = chars_to_string(&tt);
        match convert_size_to_bytes(ts.as_str()) {
            Ok(b) => {
                acc.downloaded = b;
            },
            Err(_) => {},
        }
    }
}

/// Copy `s[start..end)` into a fresh vector.
fn copy_chars(s: &Vec<char>, start: usize, end: usize) -> (r: Vec<char>)
    requires
        start <= end <= s@.len(),
    ensures
        r@ == s@.subrange(start as int, end as int),
{
    let mut r: Vec<char> = Vec::new();
    let mut i = start;
    while i < end
        invariant
            start <= i <= end <= s@.len(),
            r@ == s@.subrange(start as int, i as int),
        decreases end - i,
    {
        r.push(s[i]);
        proof {
            assert(s@.subrange(start as int, i + 1 as int) =~= s@.subrange(
                start as int,
                i as int,
            ).push(s@[i as int]));
        }
        i += 1;
    }
    r
}

/// What one profile or stats table does to the record: its rows
/// applied in order, each key cell deciding and each value cell read.
pub open spec fn spec_fold_rows(
    a: AccountView,
    rows: Seq<Seq<char>>,
    i: int,
    stats: bool,
) -> AccountView
    decreases rows.len() - i,
{
    if i < 0 || i >= rows.len() {
        a
    } else {
        let cells = spec_row_cell_texts(rows[i]);
        let next = if cells.len() >= 2 {
            if stats {
                spec_apply_stats_row(a, cells[0], spec_trim(cells[1]))
            } else {
                spec_apply_base_row(a, cells[0], spec_trim(cells[1]))
            }
        } else {
            a
        };
        spec_fold_rows(next, rows, i + 1, stats)
    }
}

/// Apply a table's rows to the record, each row's first cell the key
/// and its trimmed second cell the value.
fn fold_rows(acc: &mut UserAccount, rows: &Vec<String>, stats: bool, Ghost(rowsg): Ghost<
    Seq<Seq<char>>,
>)
    requires
        rows@.map_values(|s: String| s@) == rowsg,
    ensures
        final(acc).view_rows() == spec_fold_rows(old(acc).view_rows(), rowsg, 0, stats),
        final(acc).avatar_url == old(acc).avatar_url,
        final(acc).email == old(acc).email,
        final(acc).age == old(acc).age,
        final(acc).gender == old(acc).gender,
        final(acc).country == old(acc).country,
        final(acc).country_code == old(acc).country_code,
{
    let mut i: usize = 0;
    while i < rows.len()
        invariant
            rows@.map_values(|s: String| s@) == rowsg,
            i <= rowsg.len(),
            spec_fold_rows(old(acc).view_rows(), rowsg, 0, stats) == spec_fold_rows(
                acc.view_rows(),
                rowsg,
                i as int,
                stats,
            ),
            acc.avatar_url == old(acc).avatar_url,
            acc.email == old(acc).email,
            acc.age == old(acc).age,
            acc.gender == old(acc).gender,
            acc.country == old(acc).country,
            acc.country_code == old(acc).country_code,
        decreases rowsg.len() - i,
    {
        proof {
            assert(rows@[i as int]@ == rowsg[i as int]);
        }
        let wrapped = crate::extract::table_wrap(rows[i].as_str());
        let cells = crate::extract::sel_texts(wrapped.as_str(), "td");
        let ghost cellsg = spec_row_cell_texts(rowsg[i as int]);
        proof {
            assert(cells@.map_values(|s: String| s@) == cellsg);
        }
        if cells.len() >= 2 {
            proof {
                assert(cells@[0]@ == cellsg[0]);
                assert(cells@[1]@ == cellsg[1]);
            }
            let vv = chars_of(cells[1].as_str());
            let vt = trim_chars(&vv);
            let value = chars_to_string(&vt);
            if stats {
                apply_stats_row(acc, cells[0].as_str(), value.as_str());
            } else {
                apply_base_row(acc, cells[0].as_str(), value.as_str());
            }
        }
        i += 1;
    }
}

/// The heading of the tracker-stats section.
pub const TRACKER_STATS_HEADING: &'static str =
    "Informations relatives au Tracker";

/// The rows of the profile table.
pub open spec fn spec_base_rows(body: Seq<char>) -> Seq<Seq<char>> {
    let tables = htmls_of(body, "table.detail-account"@);
    if tables.len() == 0 {
        Seq::empty()
    } else {
        htmls_of(tables[0], "tr"@)
    }
}

/// The index of the first section whose heading mentions the stats
/// marker, or the end.
pub open spec fn spec_stats_section(sections: Seq<Seq<char>>, i: int) -> int
    decreases sections.len() - i,
{
    if i < 0 || i >= sections.len() {
        sections.len() as int
    } else if crate::text::spec_contains(
        spec_first_or_empty(texts_of(sections[i], "h2"@)),
        TRACKER_STATS_HEADING@,
    ) {
        i
    } else {
        spec_stats_section(sections, i + 1)
    }
}

/// The rows of the tracker-stats table.
pub open spec fn spec_stats_rows(body: Seq<char>) -> Seq<Seq<char>> {
    let sections = htmls_of(body, "section.content"@);
    let si = spec_stats_section(sections, 0);
    if si >= sections.len() {
        Seq::empty()
    } else {
        let tables = htmls_of(sections[si], "table"@);
        if tables.len() == 0 {
            Seq::empty()
        } else {
            htmls_of(tables[0], "tr"@)
        }
    }
}

/// Read the profile table into the record; a missing table leaves the
/// record as it stands.
pub fn parse_base_infos(acc: &mut UserAccount, body: &str)
    ensures
        final(acc).view_rows() == spec_fold_rows(
            old(acc).view_rows(),
            spec_base_rows(body@),
            0,
            false,
        ),
        final(acc).avatar_url == old(acc).avatar_url,
        final(acc).email == old(acc).email,
        final(acc).age == old(acc).age,
        final(acc).gender == old(acc).gender,
        final(acc).country == old(acc).country,
        final(acc).country_code == old(acc).country_code,
{
    let tables = crate::extract::sel_htmls(body, "table.detail-account");
    let ghost tablesg = htmls_of(body@, "table.detail-account"@);
    if tables.len() == 0 {
        proof {
            assert(spec_base_rows(body@) =~= Seq::<Seq<char>>::empty());
            assert(spec_fold_rows(
                old(acc).view_rows(),
                spec_base_rows(body@),
                0,
                false,
            ) == old(acc).view_rows());
        }
        return ;
    }
    proof {
        assert(tables@[0]@ == tablesg[0]);
    }
    let rows = crate::extract::sel_htmls(tables[0].as_str(), "tr");
    fold_rows(acc, &rows, false, Ghost(spec_base_rows(body@)));
}

/// Read the tracker-stats table into the record; a page without the
/// stats section leaves the record as it stands.
pub fn parse_tracker_stats(acc: &mut UserAccount, body: &str)
    ensures
        final(acc).view_rows() == spec_fold_rows(
            old(acc).view_rows(),
            spec_stats_rows(body@),
            0,
            true,
        ),
        final(acc).avatar_url == old(acc).avatar_url,
        final(acc).email == old(acc).email,
        final(acc).age == old(acc).age,
        final(acc).gender == old(acc).gender,
        final(acc).country == old(acc).country,
        final(acc).country_code == old(acc).country_code,
{
    let sections = crate::extract::sel_htmls(body, "section.content");
    let ghost sectionsg = htmls_of(body@, "section.content"@);
    let mut si: usize = 0;
    let mut sfound = false;
    while si < sections.len() && !sfound
        invariant
            sectionsg == htmls_of(body@, "section.content"@),
            sections@.map_values(|s: String| s@) == sectionsg,
            si <= sectionsg.len(),
            sfound ==> si < sectionsg.len() && spec_stats_section(sectionsg, 0) == si,
            !sfound ==> spec_stats_section(sectionsg, 0) == spec_stats_section(
                sectionsg,
                si as int,
            ),
        decreases sectionsg.len() - si + (if sfound { 0int } else { 1int }),
    {
        proof {
            assert(sections@[si as int]@ == sectionsg[si as int]);
        }
        let hs = crate::extract::sel_texts(sections[si].as_str(), "h2");
        let h0 = crate::extract::first_text(hs, Ghost(texts_of(sectionsg[si as int], "h2"@)));
        if str_contains(h0.as_str(), TRACKER_STATS_HEADING) {
            sfound = true;
        } else {
            si += 1;
        }
    }
    if !sfound {
        proof {
            assert(spec_stats_section(sectionsg, si as int) == sectionsg.len());
            assert(spec_stats_rows(body@) =~= Seq::<Seq<char>>::empty());
            assert(spec_fold_rows(
                old(acc).view_rows(),
                spec_stats_rows(body@),
                0,
                true,
            ) == old(acc).view_rows());
        }
        return ;
    }
    let tables = crate::extract::sel_htmls(sections[si].as_str(), "table");
    proof {
        assert(sections@[si as int]@ == sectionsg[si as int]);
        assert(tables@.map_values(|s: String| s@) == htmls_of(sectionsg[si as int], "table"@));
    }
    if tables.len() == 0 {
        proof {
            assert(spec_stats_rows(body@) =~= Seq::<Seq<char>>::empty());
            assert(spec_fold_rows(
                old(acc).view_rows(),
                spec_stats_rows(body@),
                0,
                true,
            ) == old(acc).view_rows());
        }
        return ;
    }
    proof {
        assert(tables@[0]@ == htmls_of(sectionsg[si as int], "table"@)[0]);
    }
    let rows = crate::extract::sel_htmls(tables[0].as_str(), "tr");
    fold_rows(acc, &rows, true, Ghost(spec_stats_rows(body@)));
}

/// The selector of the chosen country option.
pub const COUNTRY_SEL: &'static str =
    "select[name=\"country\"] option[selected]:not([disabled])";

/// What the miscellaneous parse does to the avatar: the first matching
/// image's source, or the field as it stood.
pub open spec fn spec_misc_avatar_ok(newv: Seq<char>, oldv: Seq<char>, body: Seq<char>) -> bool {
    match spec_first_attr(attr_opts_of(body, "img.card-img-top"@, "src"@)) {
        Some(a) => newv == a,
        None => newv == oldv,
    }
}

/// What the miscellaneous parse does to the email field.
pub open spec fn spec_misc_email_ok(newv: Seq<char>, oldv: Seq<char>, body: Seq<char>) -> bool {
    match spec_first_attr(attr_opts_of(body, "input[name=\"email\"]"@, "value"@)) {
        Some(e) => newv == e,
        None => newv == oldv,
    }
}

/// What the miscellaneous parse does to the age: set only when the
/// input parses to a positive bounded number.
pub open spec fn spec_misc_age_ok(newv: Option<u16>, oldv: Option<u16>, body: Seq<char>) -> bool {
    match spec_first_attr(attr_opts_of(body, "input[name=\"age\"]"@, "value"@)) {
        Some(a) => {
            let n = crate::extract::spec_field_num(a);
            if n > 0 && n <= u16::MAX {
                newv == Some(n as u16)
            } else {
                newv == oldv
            }
        },
        None => newv == oldv,
    }
}

/// What the miscellaneous parse does to the gender field.
pub open spec fn spec_misc_gender_ok(
    newv: Option<String>,
    oldv: Option<String>,
    body: Seq<char>,
) -> bool {
    match spec_first_attr(attr_opts_of(body, "input[name=\"gender\"][checked]"@, "value"@)) {
        Some(vv) => (newv matches Some(s) && s@ == vv),
        None => newv == oldv,
    }
}

/// What the miscellaneous parse does to the country name: the chosen
/// option's trimmed text, when one is selected.
pub open spec fn spec_misc_country_ok(
    newv: Option<String>,
    oldv: Option<String>,
    body: Seq<char>,
) -> bool {
    let ct = texts_of(body, COUNTRY_SEL@);
    if ct.len() > 0 {
        newv matches Some(s) && s@ == spec_trim(spec_first_or_empty(ct))
    } else {
        newv == oldv
    }
}

/// What the miscellaneous parse does to the country code: the chosen
/// option's value attribute, when it carries one.
pub open spec fn spec_misc_country_code_ok(
    newv: Option<String>,
    oldv: Option<String>,
    body: Seq<char>,
) -> bool {
    match spec_first_attr(attr_opts_of(body, COUNTRY_SEL@, "value"@)) {
        Some(vv) => (newv matches Some(s) && s@ == vv),
        None => newv == oldv,
    }
}

/// The miscellaneous fields: the avatar, the email, and the optional
/// age, gender, country and country code, each read from its own
/// element and left alone when absent.
pub fn parse_misc_infos(acc: &mut UserAccount, body: &str)
    ensures
        final(acc).view_rows() == old(acc).view_rows(),
        spec_misc_avatar_ok(final(acc).avatar_url@, old(acc).avatar_url@, body@),
        spec_misc_email_ok(final(acc).email@, old(acc).email@, body@),
        spec_misc_age_ok(final(acc).age, old(acc).age, body@),
        spec_misc_gender_ok(final(acc).gender, old(acc).gender, body@),
        spec_misc_country_ok(final(acc).country, old(acc).country, body@),
        spec_misc_country_code_ok(final(acc).country_code, old(acc).country_code, body@),
{
    let av = crate::extract::sel_attr_opts(body, "img.card-img-top", "src");
    match crate::extract::first_attr(
        av,
        Ghost(attr_opts_of(body@, "img.card-img-top"@, "src"@)),
    ) {
        Some(a) => {
            acc.avatar_url = a;
        },
        None => {},
    }
    let em = crate::extract::sel_attr_opts(body, "input[name=\"email\"]", "value");
    match crate::extract::first_attr(
        em,
        Ghost(attr_opts_of(body@, "input[name=\"email\"]"@, "value"@)),
    ) {
        Some(e) => {
            acc.email = e;
        },
        None => {},
    }
    let ag = crate::extract::sel_attr_opts(body, "input[name=\"age\"]", "value");
    match crate::extract::first_attr(
        ag,
        Ghost(attr_opts_of(body@, "input[name=\"age\"]"@, "value"@)),
    ) {
        Some(a) => {
            let n = crate::extract::parse_field_num(a.as_str());
            if n > 0 && n <= u16::MAX as usize {
                acc.age = Some(n as u16);
            }
        },
        None => {},
    }
    let g = crate::extract::sel_attr_opts(body, "input[name=\"gender\"][checked]", "value");
    match crate::extract::first_attr(
        g,
        Ghost(attr_opts_of(body@, "input[name=\"gender\"][checked]"@, "value"@)),
    ) {
        Some(v) => {
            acc.gender = Some(v);
        },
        None => {},
    }
    let c = crate::extract::sel_texts(body, COUNTRY_SEL);
    if c.len() > 0 {
        proof {
            assert(c@.map_values(|s: String| s@)[0] == c@[0]@);
        }
        let tv = chars_of(c[0].as_str());
        let tt = trim_chars(&tv);
        acc.country = Some(chars_to_string(&tt));
    }
    let cc = crate::extract::sel_attr_opts(body, COUNTRY_SEL, "value");
    match crate::extract::first_attr(cc, Ghost(attr_opts_of(body@, COUNTRY_SEL@, "value"@))) {
        Some(v) => {
            acc.country_code = Some(v);
        },
        None => {},
    }
}

/// Read the whole account page: the three sub-parsers run one after
/// the other, and a missing sub-section yields partial defaults, never
/// an abort.
pub fn parse_account(body: &str) -> (r: UserAccount)
    ensures
        r.view_rows() == spec_fold_rows(
            spec_fold_rows(
                (AccountView {
                    username: Seq::<char>::empty(),
                    rank: Seq::<char>::empty(),
                    join_date: Seq::<char>::empty(),
                    last_activity: Seq::<char>::empty(),
                    torrents_count: 0int,
                    comments_count: 0int,
                    reputation_score: 0int,
                    passkey: Seq::<char>::empty(),
                    uploaded: 0int,
                    downloaded: 0int,
                }),
                spec_base_rows(body@),
                0,
                false,
            ),
            spec_stats_rows(body@),
            0,
            true,
        ),
        spec_misc_avatar_ok(r.avatar_url@, Seq::<char>::empty(), body@),
        spec_misc_email_ok(r.email@, Seq::<char>::empty(), body@),
        spec_misc_age_ok(r.age, None::<u16>, body@),
        spec_misc_gender_ok(r.gender, None::<String>, body@),
        spec_misc_country_ok(r.country, None::<String>, body@),
        spec_misc_country_code_ok(r.country_code, None::<String>, body@),
{
    let mut acc = UserAccount::new_empty();
    parse_base_infos(&mut acc, body);
    parse_tracker_stats(&mut acc, body);
    parse_misc_infos(&mut acc, body);
    acc
}

} // verus!
