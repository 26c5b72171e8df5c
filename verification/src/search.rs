//! Search queries against the tracker: the torrent record, sort fields,
//! query-URL building, the ban-word filter and the multi-query and
//! multi-category result merges.

use vstd::prelude::*;
use vstd::relations::sorted_by;
use vstd::seq_lib::lemma_multiset_commutative;
use crate::text::{spec_dec_chars, u64_to_string, spec_contains, str_contains};

verus! {

/// One search result row.
pub struct Torrent {
    pub category_id: usize,
    pub name: String,
    pub id: usize,
    pub comments_count: usize,
    pub age_stamp: usize,
    pub size: u64,
    pub completed: usize,
    pub seed: usize,
    pub leech: usize,
    pub info_url: String,
    pub link: String,
}

impl Torrent {
    /// The download URL of this torrent on the given mirror domain.
    pub fn get_url(&self, domain: &str) -> (r: String)
        ensures
            r@ == "https://"@ + domain@ + "/engine/download_torrent?id="@ + spec_dec_chars(
                self.id as nat,
            ),
    {
        let mut s = String::from_str("https://");
        s.append(domain);
        s.append("/engine/download_torrent?id=");
        let ids = u64_to_string(self.id as u64);
        s.append(ids.as_str());
        s
    }

    /// The library-relative download path of this torrent.
    pub fn get_download_url(&self) -> (r: String)
        ensures
            r@ == "/torrent/"@ + spec_dec_chars(self.id as nat),
    {
        let mut s = String::from_str("/torrent/");
        let ids = u64_to_string(self.id as u64);
        s.append(ids.as_str());
        s
    }
}

/// A category of the tracker, with its sub-categories one level below.
pub struct Category {
    pub id: usize,
    pub name: String,
    pub sub_categories: Vec<Category>,
}

/// The field a result list is sorted by.
#[derive(Clone, Copy, PartialEq, Eq, Structural)]
pub enum Sort {
    Name,
    Seed,
    Comments,
    PublishDate,
    Completed,
    Leech,
}

/// The direction a result list is sorted in.
#[derive(Clone, Copy, PartialEq, Eq, Structural)]
pub enum Order {
    Ascending,
    Descending,
}

impl Sort {
    /// The query-parameter value of this sort field.
    pub fn as_str(&self) -> (r: &'static str)
        ensures
            r@ == self.spec_str(),
    {
        match self {
            Sort::Name => "name",
            Sort::Seed => "seed",
            Sort::Comments => "comments",
            Sort::PublishDate => "publish_date",
            Sort::Completed => "completed",
            Sort::Leech => "leech",
        }
    }

    /// What `as_str` returns for each field.
    pub open spec fn spec_str(self) -> Seq<char> {
        match self {
            Sort::Name => "name"@,
            Sort::Seed => "seed"@,
            Sort::Comments => "comments"@,
            Sort::PublishDate => "publish_date"@,
            Sort::Completed => "completed"@,
            Sort::Leech => "leech"@,
        }
    }

    /// Read a sort field back from its query-parameter value.
    pub fn from_str(s: &str) -> (r: Option<Sort>)
        ensures
            r matches Some(v) ==> s@ == v.spec_str(),
            r is None ==> forall|v: Sort| s@ != v.spec_str(),
    {
        if str_eq(s, "name") {
            Some(Sort::Name)
        } else if str_eq(s, "seed") {
            Some(Sort::Seed)
        } else if str_eq(s, "comments") {
            Some(Sort::Comments)
        } else if str_eq(s, "publish_date") {
            Some(Sort::PublishDate)
        } else if str_eq(s, "completed") {
            Some(Sort::Completed)
        } else if str_eq(s, "leech") {
            Some(Sort::Leech)
        } else {
            proof {
                assert forall|v: Sort| s@ != v.spec_str() by {
                    match v {
                        Sort::Name => {},
                        Sort::Seed => {},
                        Sort::Comments => {},
                        Sort::PublishDate => {},
                        Sort::Completed => {},
                        Sort::Leech => {},
                    }
                }
            }
            None
        }
    }
}

impl Order {
    /// The query-parameter value of this direction.
    pub fn as_str(&self) -> (r: &'static str)
        ensures
            r@ == self.spec_str(),
    {
        match self {
            Order::Ascending => "asc",
            Order::Descending => "desc",
        }
    }

    /// What `as_str` returns for each direction.
    pub open spec fn spec_str(self) -> Seq<char> {
        match self {
            Order::Ascending => "asc"@,
            Order::Descending => "desc"@,
        }
    }

    /// Read a direction back from its query-parameter value.
    pub fn from_str(s: &str) -> (r: Option<Order>)
        ensures
            r matches Some(v) ==> s@ == v.spec_str(),
            r is None ==> forall|v: Order| s@ != v.spec_str(),
    {
        if str_eq(s, "asc") {
            Some(Order::Ascending)
        } else if str_eq(s, "desc") {
            Some(Order::Descending)
        } else {
            proof {
                assert forall|v: Order| s@ != v.spec_str() by {
                    match v {
                        Order::Ascending => {},
                        Order::Descending => {},
                    }
                }
            }
            None
        }
    }
}

/// Compare two string slices character for character.
pub fn str_eq(a: &str, b: &str) -> (r: bool)
    ensures
        r == (a@ == b@),
{
    let av = crate::text::chars_of(a);
    let bv = crate::text::chars_of(b);
    if av.len() != bv.len() {
        return false;
    }
    let mut i: usize = 0;
    while i < av.len()
        invariant
            av@ == a@,
            bv@ == b@,
            av@.len() == bv@.len(),
            i <= av@.len(),
            forall|j: int| 0 <= j < i ==> av@[j] == bv@[j],
        decreases av@.len() - i,
    {
        if av[i] != bv[i] {
            return false;
        }
        i += 1;
    }
    proof {
        assert(a@ =~= b@);
    }
    true
}

/// The category pair a query carries: a top-level id with `all`, when
/// the requested id names a top-level category, or the parent's id with
/// the requested id, when it names a sub-category. The first match in
/// tree order counts.
pub open spec fn spec_category_pair(cats: Seq<Category>, c: nat) -> Option<
    (Seq<char>, Seq<char>),
>
    decreases cats,
{
    if cats.len() == 0 {
        None
    } else if cats[0].id == c {
        Some((spec_dec_chars(c), "all"@))
    } else if exists|k: int| 0 <= k < cats[0].sub_categories@.len() && (
    #[trigger] cats[0].sub_categories@[k]).id == c {
        Some((spec_dec_chars(cats[0].id as nat), spec_dec_chars(c)))
    } else {
        spec_category_pair(cats.drop_first(), c)
    }
}

/// Resolve a requested category id against the category tree.
pub fn get_category_pair(cats: &Vec<Category>, category: usize) -> (r: Option<(String, String)>)
    ensures
        r matches Some(p) ==> spec_category_pair(cats@, category as nat) == Some((p.0@, p.1@)),
        r is None ==> spec_category_pair(cats@, category as nat) is None,
{
    let mut i: usize = 0;
    proof {
        assert(cats@.skip(0int) =~= cats@);
    }
    while i < cats.len()
        invariant
            i <= cats@.len(),
            spec_category_pair(cats@, category as nat) == spec_category_pair(
                cats@.skip(i as int),
                category as nat,
            ),
        decreases cats@.len() - i,
    {
        proof {
            assert(cats@.skip(i as int)[0] == cats@[i as int]);
            assert(cats@.skip(i as int).drop_first() =~= cats@.skip(i + 1 as int));
        }
        if cats[i].id == category {
            let c = u64_to_string(category as u64);
            let all = String::from_str("all");
            proof {
                reveal_strlit("all");
            }
            return Some((c, all));
        }
        let subs = &cats[i].sub_categories;
        let mut k: usize = 0;
        while k < subs.len()
            invariant
                i < cats@.len(),
                subs@ == cats@[i as int].sub_categories@,
                cats@[i as int].id != category,
                spec_category_pair(cats@, category as nat) == spec_category_pair(
                    cats@.skip(i as int),
                    category as nat,
                ),
                k <= subs@.len(),
                forall|t: int| 0 <= t < k ==> (#[trigger] subs@[t]).id != category,
            decreases subs@.len() - k,
        {
            if subs[k].id == category {
                let parent = u64_to_string(cats[i].id as u64);
                let own = u64_to_string(category as u64);
                return Some((parent, own));
            }
            k += 1;
        }
        i += 1;
    }
    None
}

/// The query URL a search request carries: every parameter in its fixed
/// place, absent options contributing nothing.
pub open spec fn spec_query_url(
    domain: Seq<char>,
    name: Seq<char>,
    offset: Option<usize>,
    pair: Option<(Seq<char>, Seq<char>)>,
    sub_category: Option<usize>,
    sort: Option<Sort>,
    order: Option<Order>,
) -> Seq<char> {
    "https://"@ + domain + "/engine/search?name="@ + name + (match offset {
        Some(o) => "&page="@ + spec_dec_chars(o as nat),
        None => Seq::empty(),
    }) + (match pair {
        Some(p) => "&category="@ + p.0 + "&sub_category="@ + p.1,
        None => Seq::empty(),
    }) + (match sub_category {
        Some(sc) => "&sub_category="@ + spec_dec_chars(sc as nat),
        None => Seq::empty(),
    }) + (match sort {
        Some(s) => "&sort="@ + s.spec_str(),
        None => Seq::empty(),
    }) + (match order {
        Some(o) => "&order="@ + o.spec_str(),
        None => Seq::empty(),
    }) + "&do=search"@
}

/// Build the query URL of a search against the given mirror domain; a
/// requested category resolves to its pair through the category tree.
#[verifier::rlimit(60)]
pub fn build_query_url(
    domain: &str,
    name: Option<&str>,
    offset: Option<usize>,
    category: Option<usize>,
    sub_category: Option<usize>,
    sort: Option<Sort>,
    order: Option<Order>,
    cats: &Vec<Category>,
) -> (r: String)
    ensures
        r@ == spec_query_url(
            domain@,
            match name {
                Some(n) => n@,
                None => Seq::empty(),
            },
            offset,
            match category {
                Some(c) => spec_category_pair(cats@, c as nat),
                None => None,
            },
            sub_category,
            sort,
            order,
        ),
{
    let mut s = String::from_str("https://");
    s.append(domain);
    s.append("/engine/search?name=");
    match name {
        Some(n) => {
            s.append(n);
        },
        None => {},
    }
    let p_page = page_part(offset);
    s.append(p_page.as_str());
    let p_pair = pair_part(category, cats);
    s.append(p_pair.as_str());
    let p_sub = subcat_part(sub_category);
    s.append(p_sub.as_str());
    let p_sort = sort_part(sort);
    s.append(p_sort.as_str());
    let p_order = order_part(order);
    s.append(p_order.as_str());
    s.append("&do=search");
    proof {
        assert(s@ =~= spec_query_url(
            domain@,
            match name {
                Some(n) => n@,
                None => Seq::empty(),
            },
            offset,
            match category {
                Some(c) => spec_category_pair(cats@, c as nat),
                None => None,
            },
            sub_category,
            sort,
            order,
        ));
    }
    s
}

/// The paging segment of a query URL.
fn page_part(offset: Option<usize>) -> (r: String)
    ensures
        r@ == match offset {
            Some(o) => "&page="@ + spec_dec_chars(o as nat),
            None => Seq::<char>::empty(),
        },
{
    match offset {
        Some(o) => {
            let mut s = String::from_str("&page=");
            let os = u64_to_string(o as u64);
            s.append(os.as_str());
            s
        },
        None => String::new(),
    }
}

/// The category segment of a query URL.
fn pair_part(category: Option<usize>, cats: &Vec<Category>) -> (r: String)
    ensures
        r@ == match (match category {
            Some(c) => spec_category_pair(cats@, c as nat),
            None => None,
        }) {
            Some(p) => "&category="@ + p.0 + "&sub_category="@ + p.1,
            None => Seq::<char>::empty(),
        },
{
    match category {
        Some(c) => {
            match get_category_pair(cats, c) {
                Some((cat, sub)) => {
                    let mut s = String::from_str("&category=");
                    s.append(cat.as_str());
                    s.append("&sub_category=");
                    s.append(sub.as_str());
                    proof {
                        assert(s@ =~= "&category="@ + cat@ + "&sub_category="@ + sub@);
                    }
                    s
                },
                None => String::new(),
            }
        },
        None => String::new(),
    }
}

/// The explicit sub-category segment of a query URL.
fn subcat_part(sub_category: Option<usize>) -> (r: String)
    ensures
        r@ == match sub_category {
            Some(sc) => "&sub_category="@ + spec_dec_chars(sc as nat),
            None => Seq::<char>::empty(),
        },
{
    match sub_category {
        Some(sc) => {
            let mut s = String::from_str("&sub_category=");
            let scs = u64_to_string(sc as u64);
            s.append(scs.as_str());
            s
        },
        None => String::new(),
    }
}

/// The sort-field segment of a query URL.
fn sort_part(sort: Option<Sort>) -> (r: String)
    ensures
        r@ == match sort {
            Some(s) => "&sort="@ + s.spec_str(),
            None => Seq::<char>::empty(),
        },
{
    match sort {
        Some(so) => {
            let mut s = String::from_str("&sort=");
            s.append(so.as_str());
            s
        },
        None => String::new(),
    }
}

/// The direction segment of a query URL.
fn order_part(order: Option<Order>) -> (r: String)
    ensures
        r@ == match order {
            Some(o) => "&order="@ + o.spec_str(),
            None => Seq::<char>::empty(),
        },
{
    match order {
        Some(o) => {
            let mut s = String::from_str("&order=");
            s.append(o.as_str());
            s
        },
        None => String::new(),
    }
}

/// What str::to_lowercase returns; the result depends on the characters
/// alone.
pub uninterp spec fn lower_of(s: Seq<char>) -> Seq<char>;

/// Relies on str::to_lowercase: the lowered form of the input, computed
/// from the characters alone.
#[verifier::external_body]
pub fn lowercase(s: &str) -> (r: String)
    ensures
        r@ == lower_of(s@),
{
    s.to_lowercase()
}

/// A name matches the ban list when its lowered form contains the
/// lowered form of some listed word.
pub open spec fn spec_name_banned(name: Seq<char>, words: Seq<String>) -> bool {
    exists|i: int|
        0 <= i < words.len() && spec_contains(lower_of(name), lower_of((#[trigger] words[i])@))
}

/// Decide whether a name matches the ban list, case-insensitively.
pub fn is_name_banned(name: &String, ban_words: &Vec<String>) -> (r: bool)
    ensures
        r == spec_name_banned(name@, ban_words@),
{
    let lowered = lowercase(name.as_str());
    let mut i: usize = 0;
    while i < ban_words.len()
        invariant
            i <= ban_words@.len(),
            lowered@ == lower_of(name@),
            forall|j: int|
                0 <= j < i ==> !spec_contains(lower_of(name@), lower_of(
                    (#[trigger] ban_words@[j])@,
                )),
        decreases ban_words@.len() - i,
    {
        let lw = lowercase(ban_words[i].as_str());
        if str_contains(lowered.as_str(), lw.as_str()) {
            return true;
        }
        i += 1;
    }
    false
}

/// The ban-word filter's keep condition.
pub open spec fn spec_keeps(words: Seq<String>) -> spec_fn(Torrent) -> bool {
    |t: Torrent| !spec_name_banned(t.name@, words)
}

/// Drop every torrent whose name case-insensitively contains a listed
/// ban word; the others stay, in order.
pub fn filter_banned(torrents: Vec<Torrent>, ban_words: &Vec<String>) -> (r: Vec<Torrent>)
    ensures
        r@ == torrents@.filter(spec_keeps(ban_words@)),
{
    let ghost orig = torrents@;
    let n = torrents.len();
    proof {
        assert(orig.len() == n);
    }
    let mut rest = torrents;
    let mut r: Vec<Torrent> = Vec::new();
    let mut i: usize = 0;
    proof {
        reveal(Seq::filter);
        assert(orig.take(0int).filter(spec_keeps(ban_words@)) =~= Seq::<Torrent>::empty());
    }
    while rest.len() > 0
        invariant
            orig.len() <= usize::MAX,
            i <= orig.len(),
            rest@ == orig.skip(i as int),
            r@ == orig.take(i as int).filter(spec_keeps(ban_words@)),
        decreases rest@.len(),
    {
        let t = rest.remove(0);
        proof {
            reveal(Seq::filter);
            assert(i < orig.len());
            assert(orig.skip(i as int)[0] == orig[i as int]);
            assert(orig.skip(i as int).remove(0) =~= orig.skip(i + 1 as int));
            assert(orig.take(i + 1 as int).drop_last() =~= orig.take(i as int));
            assert(orig.take(i + 1 as int).last() == orig[i as int]);
        }
        if !is_name_banned(&t.name, ban_words) {
            r.push(t);
        }
        i += 1;
    }
    proof {
        assert(orig.take(orig.len() as int) =~= orig);
    }
    r
}

/// Lexicographic order on character sequences.
pub open spec fn spec_chars_le(a: Seq<char>, b: Seq<char>) -> bool
    decreases a.len(),
{
    if a.len() == 0 {
        true
    } else if b.len() == 0 {
        false
    } else if a[0] < b[0] {
        true
    } else if a[0] > b[0] {
        false
    } else {
        spec_chars_le(a.drop_first(), b.drop_first())
    }
}

/// The lexicographic order is total.
proof fn lemma_chars_le_total(a: Seq<char>, b: Seq<char>)
    ensures
        spec_chars_le(a, b) || spec_chars_le(b, a),
    decreases a.len(),
{
    if a.len() > 0 && b.len() > 0 && a[0] == b[0] {
        lemma_chars_le_total(a.drop_first(), b.drop_first());
    }
}

/// The lexicographic order is transitive.
proof fn lemma_chars_le_trans(a: Seq<char>, b: Seq<char>, c: Seq<char>)
    requires
        spec_chars_le(a, b),
        spec_chars_le(b, c),
    ensures
        spec_chars_le(a, c),
    decreases a.len(),
{
    if a.len() > 0 && b.len() > 0 && c.len() > 0 && a[0] == b[0] && b[0] == c[0] {
        lemma_chars_le_trans(a.drop_first(), b.drop_first(), c.drop_first());
    }
}

/// Compare two strings in the lexicographic order.
fn chars_le_exec(a: &String, b: &String) -> (r: bool)
    ensures
        r == spec_chars_le(a@, b@),
{
    let av = crate::text::chars_of(a.as_str());
    let bv = crate::text::chars_of(b.as_str());
    let mut i: usize = 0;
    proof {
        assert(av@.skip(0int) =~= a@);
        assert(bv@.skip(0int) =~= b@);
    }
    while i < av.len() && i < bv.len()
        invariant
            av@ == a@,
            bv@ == b@,
            i <= av@.len(),
            i <= bv@.len(),
            spec_chars_le(a@, b@) == spec_chars_le(av@.skip(i as int), bv@.skip(i as int)),
            spec_chars_le(b@, a@) == spec_chars_le(bv@.skip(i as int), av@.skip(i as int)),
        decreases av@.len() - i,
    {
        proof {
            assert(av@.skip(i as int)[0] == av@[i as int]);
            assert(bv@.skip(i as int)[0] == bv@[i as int]);
            assert(av@.skip(i as int).drop_first() =~= av@.skip(i + 1 as int));
            assert(bv@.skip(i as int).drop_first() =~= bv@.skip(i + 1 as int));
        }
        if av[i] < bv[i] {
            return true;
        }
        if av[i] > bv[i] {
            return false;
        }
        i += 1;
    }
    proof {
        if i == av@.len() {
            assert(av@.skip(i as int).len() == 0);
        } else {
            assert(bv@.skip(i as int).len() == 0);
            assert(av@.skip(i as int).len() > 0);
        }
    }
    av.len() <= bv.len()
}

/// The order a result list is sorted in: the chosen field's value, in
/// the chosen direction, with ties allowed either way.
pub open spec fn spec_torrent_le(sort: Sort, order: Order, a: Torrent, b: Torrent) -> bool {
    let fwd = match sort {
        Sort::Name => spec_chars_le(a.name@, b.name@),
        Sort::Seed => a.seed <= b.seed,
        Sort::Comments => a.comments_count <= b.comments_count,
        Sort::PublishDate => a.age_stamp <= b.age_stamp,
        Sort::Completed => a.completed <= b.completed,
        Sort::Leech => a.leech <= b.leech,
    };
    let bwd = match sort {
        Sort::Name => spec_chars_le(b.name@, a.name@),
        Sort::Seed => b.seed <= a.seed,
        Sort::Comments => b.comments_count <= a.comments_count,
        Sort::PublishDate => b.age_stamp <= a.age_stamp,
        Sort::Completed => b.completed <= a.completed,
        Sort::Leech => b.leech <= a.leech,
    };
    match order {
        Order::Ascending => fwd,
        Order::Descending => bwd,
    }
}

/// The result order is total.
pub proof fn lemma_torrent_le_total(sort: Sort, order: Order, a: Torrent, b: Torrent)
    ensures
        spec_torrent_le(sort, order, a, b) || spec_torrent_le(sort, order, b, a),
{
    lemma_chars_le_total(a.name@, b.name@);
}

/// The result order is transitive.
pub proof fn lemma_torrent_le_trans(sort: Sort, order: Order, a: Torrent, b: Torrent, c: Torrent)
    requires
        spec_torrent_le(sort, order, a, b),
        spec_torrent_le(sort, order, b, c),
    ensures
        spec_torrent_le(sort, order, a, c),
{
    if sort is Name {
        if order is Ascending {
            lemma_chars_le_trans(a.name@, b.name@, c.name@);
        } else {
            lemma_chars_le_trans(c.name@, b.name@, a.name@);
        }
    }
}

/// Compare two torrents in the chosen order.
fn torrent_le(sort: Sort, order: Order, a: &Torrent, b: &Torrent) -> (r: bool)
    ensures
        r == spec_torrent_le(sort, order, *a, *b),
{
    let (x, y) = match order {
        Order::Ascending => (a, b),
        Order::Descending => (b, a),
    };
    match sort {
        Sort::Name => chars_le_exec(&x.name, &y.name),
        Sort::Seed => x.seed <= y.seed,
        Sort::Comments => x.comments_count <= y.comments_count,
        Sort::PublishDate => x.age_stamp <= y.age_stamp,
        Sort::Completed => x.completed <= y.completed,
        Sort::Leech => x.leech <= y.leech,
    }
}

/// Inserting an element anywhere adds it to the sequence's multiset.
proof fn lemma_insert_multiset(s: Seq<Torrent>, pos: int, e: Torrent)
    requires
        0 <= pos <= s.len(),
    ensures
        s.insert(pos, e).to_multiset() =~= s.to_multiset().insert(e),
{
    broadcast use vstd::seq_lib::group_to_multiset_ensures;
    broadcast use vstd::multiset::group_multiset_axioms;

    let left = s.subrange(0, pos);
    let right = s.subrange(pos, s.len() as int);
    assert(s.insert(pos, e) == left.push(e) + right);
    lemma_multiset_commutative(left.push(e), right);
    lemma_multiset_commutative(left, right);
    assert(left + right =~= s);
    assert(left.push(e).to_multiset() =~= left.to_multiset().insert(e));
}

/// Sort a result list in place by the chosen field and direction.
pub fn sort_torrents(v: &mut Vec<Torrent>, sort: Sort, order: Order)
    ensures
        sorted_by(final(v)@, |a: Torrent, b: Torrent| spec_torrent_le(sort, order, a, b)),
        final(v)@.to_multiset() == old(v)@.to_multiset(),
{
    let ghost le = |a: Torrent, b: Torrent| spec_torrent_le(sort, order, a, b);
    let mut out: Vec<Torrent> = Vec::new();
    proof {
        broadcast use vstd::seq_lib::group_to_multiset_ensures;
        broadcast use vstd::multiset::group_multiset_axioms;

        assert(out@.to_multiset().add(v@.to_multiset()) =~= old(v)@.to_multiset());
    }
    while v.len() > 0
        invariant
            le == (|a: Torrent, b: Torrent| spec_torrent_le(sort, order, a, b)),
            sorted_by(out@, le),
            out@.to_multiset().add(v@.to_multiset()) == old(v)@.to_multiset(),
        decreases v@.len(),
    {
        let ghost prev = v@;
        let t = v.remove(0);
        let mut p: usize = 0;
        while p < out.len() && torrent_le(sort, order, &out[p], &t)
            invariant
                le == (|a: Torrent, b: Torrent| spec_torrent_le(sort, order, a, b)),
                sorted_by(out@, le),
                p <= out@.len(),
                forall|k: int| 0 <= k < p ==> le(#[trigger] out@[k], t),
            decreases out@.len() - p,
        {
            p += 1;
        }
        let ghost prevout = out@;
        out.insert(p, t);
        proof {
            broadcast use vstd::seq_lib::group_to_multiset_ensures;
            broadcast use vstd::multiset::group_multiset_axioms;

            if p < prevout.len() {
                lemma_torrent_le_total(sort, order, prevout[p as int], t);
            }
            prevout.insert_ensures(p as int, t);
            assert(sorted_by(out@, le)) by {
                assert forall|x: int, y: int| 0 <= x < y < out@.len() implies le(
                    out@[x],
                    out@[y],
                ) by {
                    if y < p {
                        assert(out@[x] == prevout[x] && out@[y] == prevout[y]);
                    } else if x < p && y == p {
                        assert(out@[x] == prevout[x] && out@[y] == t);
                    } else if x < p && y > p {
                        assert(out@[x] == prevout[x] && out@[y] == prevout[y - 1]);
                        if y - 1 == p {
                            // the element right after the insertion point
                            assert(le(t, prevout[p as int]));
                            assert(le(out@[x], t));
                            lemma_torrent_le_trans(sort, order, out@[x], t, prevout[p as int]);
                        }
                    } else if x == p && y > p {
                        assert(out@[x] == t && out@[y] == prevout[y - 1]);
                        assert(le(t, prevout[p as int]));
                        if y - 1 > p {
                            assert(le(prevout[p as int], prevout[y - 1]));
                            lemma_torrent_le_trans(
                                sort,
                                order,
                                t,
                                prevout[p as int],
                                prevout[y - 1],
                            );
                        }
                    } else {
                        assert(out@[x] == prevout[x - 1] && out@[y] == prevout[y - 1]);
                    }
                }
            }
            lemma_insert_multiset(prevout, p as int, t);
            assert(prev.remove(0) =~= v@);
            assert(prev[0] == t);
            assert(out@.to_multiset().add(v@.to_multiset()) =~= old(v)@.to_multiset());
        }
    }
    proof {
        broadcast use vstd::seq_lib::group_to_multiset_ensures;
        broadcast use vstd::multiset::group_multiset_axioms;

        assert(v@.to_multiset().len() == 0);
        assert(out@.to_multiset().add(v@.to_multiset()) =~= out@.to_multiset());
    }
    *v = out;
}

/// More results than this from a single query are returned at once.
pub const PLENTY_THRESHOLD: usize = 5;

/// A result set at least this large joins the merged union.
pub const SUFFICIENT_THRESHOLD: usize = 5;

/// Some torrent in the sequence carries this id.
pub open spec fn spec_has_id(s: Seq<Torrent>, id: nat) -> bool {
    exists|i: int| 0 <= i < s.len() && (#[trigger] s[i]).id == id
}

/// Keep the first torrent of each id, in order.
pub open spec fn spec_dedup(s: Seq<Torrent>) -> Seq<Torrent>
    decreases s.len(),
{
    if s.len() == 0 {
        Seq::empty()
    } else if spec_has_id(s.drop_last(), s.last().id as nat) {
        spec_dedup(s.drop_last())
    } else {
        spec_dedup(s.drop_last()).push(s.last())
    }
}

/// Appending a torrent adds exactly its id to the ids present.
proof fn lemma_has_id_push(t: Seq<Torrent>, x: Torrent, id: nat)
    ensures
        spec_has_id(t.push(x), id) == (spec_has_id(t, id) || x.id == id),
{
    if spec_has_id(t.push(x), id) {
        let w = choose|i: int| 0 <= i < t.push(x).len() && (#[trigger] t.push(x)[i]).id == id;
        if w < t.len() {
            assert(t[w].id == id);
        } else {
            assert(x.id == id);
        }
    }
    if spec_has_id(t, id) {
        let w = choose|i: int| 0 <= i < t.len() && (#[trigger] t[i]).id == id;
        assert(t.push(x)[w].id == id);
    }
    if x.id == id {
        assert(t.push(x)[t.len() as int].id == id);
    }
}

/// Dedup keeps exactly the ids of its input.
proof fn lemma_dedup_has_id(s: Seq<Torrent>, id: nat)
    ensures
        spec_has_id(spec_dedup(s), id) == spec_has_id(s, id),
    decreases s.len(),
{
    if s.len() > 0 {
        let s0 = s.drop_last();
        let x = s.last();
        lemma_dedup_has_id(s0, id);
        assert(s =~= s0.push(x));
        lemma_has_id_push(s0, x, id);
        if spec_has_id(s0, x.id as nat) {
            assert(spec_dedup(s) == spec_dedup(s0));
            if x.id == id {
                assert(spec_has_id(s0, id));
            }
        } else {
            assert(spec_dedup(s) == spec_dedup(s0).push(x));
            lemma_has_id_push(spec_dedup(s0), x, id);
        }
    }
}

/// The index of the first set holding more than `bound` results.
pub open spec fn spec_first_over(sets: Seq<Vec<Torrent>>, bound: nat) -> Option<int>
    decreases sets.len(),
{
    if sets.len() == 0 {
        None
    } else if sets[0]@.len() > bound {
        Some(0int)
    } else {
        match spec_first_over(sets.drop_first(), bound) {
            Some(i) => Some(i + 1),
            None => None,
        }
    }
}

/// When everything before `i` is small and the set at `i` is over the
/// bound, `i` is the first set over it.
proof fn lemma_first_over_at(sets: Seq<Vec<Torrent>>, bound: nat, i: int)
    requires
        0 <= i < sets.len(),
        forall|j: int| 0 <= j < i ==> (#[trigger] sets[j])@.len() <= bound,
        sets[i]@.len() > bound,
    ensures
        spec_first_over(sets, bound) == Some(i),
    decreases i,
{
    if i > 0 {
        assert(forall|j: int|
            0 <= j < i - 1 ==> (#[trigger] sets.drop_first()[j])@.len() <= bound);
        assert(sets.drop_first()[i - 1] == sets[i]);
        lemma_first_over_at(sets.drop_first(), bound, i - 1);
    }
}

/// When every set is small there is none over the bound.
proof fn lemma_first_over_none(sets: Seq<Vec<Torrent>>, bound: nat)
    requires
        forall|j: int| 0 <= j < sets.len() ==> (#[trigger] sets[j])@.len() <= bound,
    ensures
        spec_first_over(sets, bound) is None,
    decreases sets.len(),
{
    if sets.len() > 0 {
        assert(forall|j: int|
            0 <= j < sets.len() - 1 ==> (#[trigger] sets.drop_first()[j])@.len() <= bound);
        lemma_first_over_none(sets.drop_first(), bound);
    }
}

/// The concatenation of every set holding at least `min_len` results.
pub open spec fn spec_concat_over(sets: Seq<Vec<Torrent>>, min_len: nat) -> Seq<Torrent>
    decreases sets.len(),
{
    if sets.len() == 0 {
        Seq::empty()
    } else {
        (if sets[0]@.len() >= min_len {
            sets[0]@
        } else {
            Seq::empty()
        }) + spec_concat_over(sets.drop_first(), min_len)
    }
}

/// Appending a set appends its contribution to the concatenation.
proof fn lemma_concat_over_push(sets: Seq<Vec<Torrent>>, v: Vec<Torrent>, min_len: nat)
    ensures
        spec_concat_over(sets.push(v), min_len) == spec_concat_over(sets, min_len) + (
        if v@.len() >= min_len {
            v@
        } else {
            Seq::<Torrent>::empty()
        }),
    decreases sets.len(),
{
    if sets.len() == 0 {
        assert(sets.push(v)[0] == v);
        assert(sets.push(v).drop_first() =~= Seq::<Vec<Torrent>>::empty());
        assert(spec_concat_over(Seq::<Vec<Torrent>>::empty(), min_len) == Seq::<
            Torrent,
        >::empty());
        assert(spec_concat_over(sets, min_len) == Seq::<Torrent>::empty());
        assert(spec_concat_over(sets.push(v), min_len) =~= spec_concat_over(sets, min_len) + (
        if v@.len() >= min_len {
            v@
        } else {
            Seq::<Torrent>::empty()
        }));
    } else {
        assert(sets.push(v)[0] == sets[0]);
        assert(sets.push(v).drop_first() =~= sets.drop_first().push(v));
        lemma_concat_over_push(sets.drop_first(), v, min_len);
        assert(spec_concat_over(sets.push(v), min_len) =~= spec_concat_over(sets, min_len) + (
        if v@.len() >= min_len {
            v@
        } else {
            Seq::<Torrent>::empty()
        }));
    }
}

/// What a multi-query merge selects, before sorting: the first set over
/// the plenty threshold, when one exists; else the id-deduplicated union
/// of the sets at or over the sufficient threshold, when any; else the
/// first non-empty set; else nothing.
pub open spec fn spec_best_selection(sets: Seq<Vec<Torrent>>) -> Seq<Torrent> {
    match spec_first_over(sets, PLENTY_THRESHOLD as nat) {
        Some(i) => sets[i]@,
        None => if exists|j: int|
            0 <= j < sets.len() && (#[trigger] sets[j])@.len() >= SUFFICIENT_THRESHOLD {
            spec_dedup(spec_concat_over(sets, SUFFICIENT_THRESHOLD as nat))
        } else {
            match spec_first_over(sets, 0) {
                Some(j) => sets[j]@,
                None => Seq::empty(),
            }
        },
    }
}

/// Does some torrent in the vector carry this id?
fn has_id(s: &Vec<Torrent>, id: usize) -> (r: bool)
    ensures
        r == spec_has_id(s@, id as nat),
{
    let mut i: usize = 0;
    while i < s.len()
        invariant
            i <= s@.len(),
            forall|j: int| 0 <= j < i ==> (#[trigger] s@[j]).id != id,
        decreases s@.len() - i,
    {
        if s[i].id == id {
            return true;
        }
        i += 1;
    }
    false
}

/// Append each torrent of `set` whose id is still unseen to `acc`,
/// keeping `acc` the id-deduplication of `pool + set`.
fn dedup_into(acc: &mut Vec<Torrent>, set: Vec<Torrent>, Ghost(pool): Ghost<Seq<Torrent>>)
    requires
        old(acc)@ == spec_dedup(pool),
    ensures
        final(acc)@ == spec_dedup(pool + set@),
{
    let ghost setg = set@;
    let n = set.len();
    proof {
        assert(setg.len() == n);
    }
    let mut rest = set;
    let mut m: usize = 0;
    proof {
        assert(pool + setg.take(0int) =~= pool);
    }
    while rest.len() > 0
        invariant
            setg.len() <= usize::MAX,
            m <= setg.len(),
            rest@ == setg.skip(m as int),
            acc@ == spec_dedup(pool + setg.take(m as int)),
        decreases rest@.len(),
    {
        let t = rest.remove(0);
        proof {
            assert(m < setg.len());
            assert(setg.skip(m as int)[0] == setg[m as int]);
            assert(setg.skip(m as int).remove(0) =~= setg.skip(m + 1 as int));
            assert((pool + setg.take(m + 1 as int)).drop_last() =~= pool + setg.take(m as int));
            assert((pool + setg.take(m + 1 as int)).last() == setg[m as int]);
            lemma_dedup_has_id(pool + setg.take(m as int), setg[m as int].id as nat);
        }
        if !has_id(acc, t.id) {
            acc.push(t);
        }
        m += 1;
    }
    proof {
        assert(setg.take(setg.len() as int) =~= setg);
        assert(pool + setg =~= pool + setg.take(setg.len() as int));
    }
}

/// Merge the result sets of a fan-out over several queries.
///
/// The first set with more than the plenty threshold of results wins
/// outright; failing that, every set reaching the sufficient threshold
/// joins an id-deduplicated union; failing that, the first non-empty
/// set is taken. The outcome is sorted by the caller's field and
/// direction.
pub fn merge_best(sets: Vec<Vec<Torrent>>, sort: Sort, order: Order) -> (r: Vec<Torrent>)
    ensures
        sorted_by(r@, |a: Torrent, b: Torrent| spec_torrent_le(sort, order, a, b)),
        r@.to_multiset() == spec_best_selection(sets@).to_multiset(),
{
    let ghost setsg = sets@;
    let mut work = sets;
    let mut i: usize = 0;
    while i < work.len()
        invariant
            sets@ == setsg,
            work@ == setsg,
            i <= setsg.len(),
            forall|j: int| 0 <= j < i ==> (#[trigger] setsg[j])@.len() <= PLENTY_THRESHOLD,
        decreases setsg.len() - i,
    {
        if work[i].len() > PLENTY_THRESHOLD {
            proof {
                lemma_first_over_at(setsg, PLENTY_THRESHOLD as nat, i as int);
                assert(spec_first_over(setsg, PLENTY_THRESHOLD as nat) == Some(i as int));
                assert(spec_best_selection(setsg) == setsg[i as int]@);
            }
            let mut chosen = work.remove(i);
            proof {
                assert(chosen@ == setsg[i as int]@);
            }
            sort_torrents(&mut chosen, sort, order);
            proof {
                assert(chosen@.to_multiset() == spec_best_selection(setsg).to_multiset());
            }
            return chosen;
        }
        i += 1;
    }
    proof {
        lemma_first_over_none(setsg, PLENTY_THRESHOLD as nat);
    }
    // no single set is plenty; is any sufficient?
    let mut any_sufficient = false;
    let mut k: usize = 0;
    while k < work.len()
        invariant
            work@ == setsg,
            k <= setsg.len(),
            any_sufficient == exists|j: int|
                0 <= j < k && (#[trigger] setsg[j])@.len() >= SUFFICIENT_THRESHOLD,
        decreases setsg.len() - k,
    {
        if work[k].len() >= SUFFICIENT_THRESHOLD {
            any_sufficient = true;
        }
        k += 1;
    }
    if any_sufficient {
        let mut acc: Vec<Torrent> = Vec::new();
        let nn = work.len();
        proof {
            assert(setsg.len() == nn);
        }
        let mut rest = work;
        let mut p: usize = 0;
        proof {
            assert(rest@ =~= setsg.skip(0int));
            assert(spec_concat_over(setsg.take(0int), SUFFICIENT_THRESHOLD as nat) =~= Seq::<
                Torrent,
            >::empty());
            assert(acc@ == spec_dedup(
                spec_concat_over(setsg.take(0int), SUFFICIENT_THRESHOLD as nat),
            ));
        }
        while rest.len() > 0
            invariant
                sets@ == setsg,
                setsg.len() <= usize::MAX,
                p <= setsg.len(),
                rest@ == setsg.skip(p as int),
                spec_first_over(setsg, PLENTY_THRESHOLD as nat) is None,
                exists|j: int|
                    0 <= j < setsg.len() && (#[trigger] setsg[j])@.len() >= SUFFICIENT_THRESHOLD,
                acc@ == spec_dedup(
                    spec_concat_over(setsg.take(p as int), SUFFICIENT_THRESHOLD as nat),
                ),
            decreases rest@.len(),
        {
            let set = rest.remove(0);
            proof {
                assert(p < setsg.len());
                assert(setsg.skip(p as int)[0] == setsg[p as int]);
                assert(setsg.skip(p as int).remove(0) =~= setsg.skip(p + 1 as int));
                assert(setsg.take(p + 1 as int) =~= setsg.take(p as int).push(setsg[p as int]));
                lemma_concat_over_push(
                    setsg.take(p as int),
                    setsg[p as int],
                    SUFFICIENT_THRESHOLD as nat,
                );
            }
            if set.len() >= SUFFICIENT_THRESHOLD {
                dedup_into(
                    &mut acc,
                    set,
                    Ghost(spec_concat_over(setsg.take(p as int), SUFFICIENT_THRESHOLD as nat)),
                );
            } else {
                proof {
                    assert(spec_concat_over(setsg.take(p + 1 as int), SUFFICIENT_THRESHOLD as nat)
                        =~= spec_concat_over(setsg.take(p as int), SUFFICIENT_THRESHOLD as nat));
                }
            }
            p += 1;
        }
        proof {
            assert(setsg.take(setsg.len() as int) =~= setsg);
        }
        sort_torrents(&mut acc, sort, order);
        return acc;
    }
    // nothing sufficient: the first non-empty set, if any
    let mut q: usize = 0;
    while q < work.len()
        invariant
            sets@ == setsg,
            work@ == setsg,
            q <= setsg.len(),
            spec_first_over(setsg, PLENTY_THRESHOLD as nat) is None,
            !(exists|j: int|
                0 <= j < setsg.len() && (#[trigger] setsg[j])@.len() >= SUFFICIENT_THRESHOLD),
            forall|j: int| 0 <= j < q ==> (#[trigger] setsg[j])@.len() == 0,
        decreases setsg.len() - q,
    {
        if work[q].len() > 0 {
            proof {
                lemma_first_over_at(setsg, 0, q as int);
                assert(spec_best_selection(setsg) == setsg[q as int]@);
            }
            let mut chosen = work.remove(q);
            proof {
                assert(chosen@ == setsg[q as int]@);
            }
            sort_torrents(&mut chosen, sort, order);
            return chosen;
        }
        q += 1;
    }
    proof {
        lemma_first_over_none(setsg, 0);
    }
    let empty: Vec<Torrent> = Vec::new();
    proof {
        broadcast use vstd::seq_lib::group_to_multiset_ensures;

        assert(empty@.to_multiset() =~= Seq::<Torrent>::empty().to_multiset());
    }
    empty
}

/// Merge the result sets of a fan-out over several categories: always
/// the id-deduplicated union of every set, sorted by the caller's field
/// and direction.
pub fn merge_categories(sets: Vec<Vec<Torrent>>, sort: Sort, order: Order) -> (r: Vec<Torrent>)
    ensures
        sorted_by(r@, |a: Torrent, b: Torrent| spec_torrent_le(sort, order, a, b)),
        r@.to_multiset() == spec_dedup(spec_concat_over(sets@, 0)).to_multiset(),
{
    let ghost setsg = sets@;
    let mut acc: Vec<Torrent> = Vec::new();
    let nn = sets.len();
    proof {
        assert(setsg.len() == nn);
    }
    let mut rest = sets;
    let mut p: usize = 0;
    proof {
        assert(rest@ =~= setsg.skip(0int));
        assert(spec_concat_over(setsg.take(0int), 0) =~= Seq::<Torrent>::empty());
        assert(acc@ == spec_dedup(spec_concat_over(setsg.take(0int), 0)));
    }
    while rest.len() > 0
        invariant
            setsg.len() <= usize::MAX,
            p <= setsg.len(),
            rest@ == setsg.skip(p as int),
            acc@ == spec_dedup(spec_concat_over(setsg.take(p as int), 0)),
        decreases rest@.len(),
    {
        let set = rest.remove(0);
        proof {
            assert(p < setsg.len());
            assert(setsg.skip(p as int)[0] == setsg[p as int]);
            assert(setsg.skip(p as int).remove(0) =~= setsg.skip(p + 1 as int));
            assert(setsg.take(p + 1 as int) =~= setsg.take(p as int).push(setsg[p as int]));
            lemma_concat_over_push(setsg.take(p as int), setsg[p as int], 0);
        }
        dedup_into(&mut acc, set, Ghost(spec_concat_over(setsg.take(p as int), 0)));
        p += 1;
    }
    proof {
        assert(setsg.take(setsg.len() as int) =~= setsg);
    }
    sort_torrents(&mut acc, sort, order);
    acc
}

/// With an empty ban list the filter keeps every torrent: a no-op.
pub proof fn lemma_empty_ban_list(torrents: Seq<Torrent>)
    ensures
        torrents.filter(spec_keeps(Seq::<String>::empty())) == torrents,
    decreases torrents.len(),
{
    reveal(Seq::filter);
    if torrents.len() == 0 {
        assert(torrents.filter(spec_keeps(Seq::<String>::empty())) =~= torrents);
    } else {
        lemma_empty_ban_list(torrents.drop_last());
        assert(spec_keeps(Seq::<String>::empty())(torrents.last()));
        assert(torrents.filter(spec_keeps(Seq::<String>::empty())) =~= torrents);
    }
}

} // verus!
