//! The file tree of a torrent: a single file, or a directory tree built
//! bottom-up from the metainfo's flat file-path list by grouping on
//! shared leading path segments.
//!
//! The tree's invariant: every directory's size is the sum of its
//! children's sizes, recursively, and the root's size is the sum of all
//! declared file lengths.

use vstd::prelude::*;
use vstd::seq_lib::lemma_multiset_commutative;
use crate::bencode::{BValue, decode, dict_get, spec_dict_get, spec_encode, spec_canonical, spec_parse};
use crate::errors::YggError;

verus! {

/// One file of a multi-file torrent, as the metainfo declares it: its
/// length in bytes and its path segments.
pub struct TorrentFile {
    pub length: i64,
    pub path: Vec<String>,
}

/// A node of the decoded file tree.
pub enum FileNode {
    File { name: String, size: i64 },
    Directory { name: String, size: i64, children: Vec<FileNode> },
}

impl FileNode {
    /// The size recorded in this node.
    pub open spec fn spec_size(self) -> int {
        match self {
            FileNode::File { size, .. } => size as int,
            FileNode::Directory { size, .. } => size as int,
        }
    }

    /// The name recorded in this node.
    pub open spec fn spec_name(self) -> Seq<char> {
        match self {
            FileNode::File { name, .. } => name@,
            FileNode::Directory { name, .. } => name@,
        }
    }

    /// The size of this node, file or directory alike.
    pub fn get_size(&self) -> (r: i64)
        ensures
            r == self.spec_size(),
    {
        match self {
            FileNode::File { size, .. } => *size,
            FileNode::Directory { size, .. } => *size,
        }
    }

    /// The name of this node, file or directory alike.
    pub fn get_name(&self) -> (r: &str)
        ensures
            r@ == self.spec_name(),
    {
        match self {
            FileNode::File { name, .. } => name.as_str(),
            FileNode::Directory { name, .. } => name.as_str(),
        }
    }
}

/// The sum of the sizes recorded in a sequence of nodes.
pub open spec fn spec_children_total(cs: Seq<FileNode>) -> int
    decreases cs,
{
    if cs.len() == 0 {
        0
    } else {
        spec_children_total(cs.drop_last()) + cs.last().spec_size()
    }
}

/// The tree invariant: file sizes are non-negative and every directory's
/// size equals the sum of its children's sizes, recursively.
pub open spec fn spec_well_sized(n: FileNode) -> bool
    decreases n,
{
    match n {
        FileNode::File { size, .. } => size >= 0,
        FileNode::Directory { size, children, .. } => {
            &&& size == spec_children_total(children@)
            &&& forall|i: int| 0 <= i < children@.len() ==> spec_well_sized(#[trigger] children@[i])
        },
    }
}

/// A well-sized node never records a negative size.
pub proof fn lemma_well_sized_nonneg(n: FileNode)
    requires
        spec_well_sized(n),
    ensures
        n.spec_size() >= 0,
    decreases n,
{
    match n {
        FileNode::File { .. } => {},
        FileNode::Directory { children, .. } => {
            lemma_children_total_nonneg(children@);
        },
    }
}

/// The sum of the sizes of well-sized nodes is non-negative.
proof fn lemma_children_total_nonneg(cs: Seq<FileNode>)
    requires
        forall|i: int| 0 <= i < cs.len() ==> spec_well_sized(#[trigger] cs[i]),
    ensures
        spec_children_total(cs) >= 0,
    decreases cs,
{
    if cs.len() > 0 {
        assert(forall|i: int|
            0 <= i < cs.drop_last().len() ==> spec_well_sized(#[trigger] cs.drop_last()[i]));
        lemma_children_total_nonneg(cs.drop_last());
        lemma_well_sized_nonneg(cs[cs.len() - 1]);
    }
}

/// Appending a node adds its size to the total.
proof fn lemma_children_total_push(cs: Seq<FileNode>, n: FileNode)
    ensures
        spec_children_total(cs.push(n)) == spec_children_total(cs) + n.spec_size(),
{
    assert(cs.push(n).drop_last() =~= cs);
    assert(cs.push(n).last() == n);
}

/// The sum of the declared lengths of a group of path entries.
pub open spec fn spec_entries_total(es: Seq<(Vec<String>, i64)>) -> int
    decreases es,
{
    if es.len() == 0 {
        0
    } else {
        spec_entries_total(es.drop_last()) + es.last().1
    }
}

/// The total number of path segments in a group of entries: the measure
/// the grouping recursion decreases.
pub open spec fn spec_entries_segs(es: Seq<(Vec<String>, i64)>) -> nat
    decreases es,
{
    if es.len() == 0 {
        0
    } else {
        spec_entries_segs(es.drop_last()) + es.last().0@.len()
    }
}

/// Appending an entry adds its length to the total and its segment count
/// to the measure.
proof fn lemma_entries_push(es: Seq<(Vec<String>, i64)>, e: (Vec<String>, i64))
    ensures
        spec_entries_total(es.push(e)) == spec_entries_total(es) + e.1,
        spec_entries_segs(es.push(e)) == spec_entries_segs(es) + e.0@.len(),
{
    assert(es.push(e).drop_last() =~= es);
    assert(es.push(e).last() == e);
}

/// Every declared length in the group is non-negative.
pub open spec fn spec_lengths_ok(es: Seq<(Vec<String>, i64)>) -> bool {
    forall|i: int| 0 <= i < es.len() ==> (#[trigger] es[i]).1 >= 0
}

/// The total of a group of non-negative lengths is non-negative.
proof fn lemma_entries_total_nonneg(es: Seq<(Vec<String>, i64)>)
    requires
        spec_lengths_ok(es),
    ensures
        spec_entries_total(es) >= 0,
    decreases es,
{
    if es.len() > 0 {
        assert(forall|i: int|
            0 <= i < es.drop_last().len() ==> (#[trigger] es.drop_last()[i]).1 >= 0);
        assert(es.last().1 >= 0);
        lemma_entries_total_nonneg(es.drop_last());
    }
}

/// The ghost image of one grouped entry: its path segments' characters
/// and its declared length.
pub open spec fn spec_entry_view(e: (Vec<String>, i64)) -> (Seq<Seq<char>>, int) {
    (e.0@.map_values(|s: String| s@), e.1 as int)
}

/// The ghost images of a whole group.
pub open spec fn spec_entry_views(g: Seq<(Vec<String>, i64)>) -> Seq<(Seq<Seq<char>>, int)> {
    g.map_values(|e: (Vec<String>, i64)| spec_entry_view(e))
}

/// One path is a leading prefix of another, equality included.
pub open spec fn spec_path_prefix(a: Seq<Seq<char>>, b: Seq<Seq<char>>) -> bool {
    a.len() <= b.len() && a == b.subrange(0, a.len() as int)
}

/// No declared path is a prefix of another: grouping by leading
/// segments then never makes one name both a file and a directory,
/// and never meets the same full path twice.
pub open spec fn spec_no_prefix_conflict(es: Seq<(Seq<Seq<char>>, int)>) -> bool {
    forall|i: int, j: int|
        0 <= i < es.len() && 0 <= j < es.len() && i != j ==> !spec_path_prefix(
            (#[trigger] es[i]).0,
            (#[trigger] es[j]).0,
        )
}

/// A base path extended segment by segment, slash-joined.
pub open spec fn spec_join_segs(base: Seq<char>, segs: Seq<Seq<char>>) -> Seq<char>
    decreases segs.len(),
{
    if segs.len() == 0 {
        base
    } else {
        spec_join_segs(spec_join_path(base, segs[0]), segs.drop_first())
    }
}

/// The leaves a group of entries declares under a base path: one per
/// entry, its full slash-joined path and its length, in group order.
pub open spec fn spec_entry_leaves(base: Seq<char>, es: Seq<(Seq<Seq<char>>, int)>) -> Seq<
    (Seq<char>, int),
>
    decreases es.len(),
{
    if es.len() == 0 {
        Seq::empty()
    } else {
        spec_entry_leaves(base, es.drop_last()).push(
            (spec_join_segs(base, es.last().0), es.last().1),
        )
    }
}

/// Sibling names never repeat anywhere in the tree.
pub open spec fn spec_distinct_children(n: FileNode) -> bool
    decreases n,
{
    match n {
        FileNode::File { .. } => true,
        FileNode::Directory { children, .. } => {
            &&& forall|i: int, j: int|
                0 <= i < j < children@.len() ==> (#[trigger] children@[i]).spec_name() != (
                #[trigger] children@[j]).spec_name()
            &&& forall|i: int|
                0 <= i < children@.len() ==> spec_distinct_children(#[trigger] children@[i])
        },
    }
}

/// One entry is another shortened by a shared leading segment.
pub open spec fn spec_is_strip(
    sv: (Seq<Seq<char>>, int),
    ev: (Seq<Seq<char>>, int),
    k: Seq<char>,
) -> bool {
    &&& ev.0.len() == sv.0.len() + 1
    &&& ev.0[0] == k
    &&& ev.0.drop_first() == sv.0
    &&& ev.1 == sv.1
}

/// Prepending one shared segment to both paths keeps and reflects the
/// prefix relation.
proof fn lemma_strip_prefix(
    a: (Seq<Seq<char>>, int),
    b: (Seq<Seq<char>>, int),
    ea: (Seq<Seq<char>>, int),
    eb: (Seq<Seq<char>>, int),
    k: Seq<char>,
)
    requires
        spec_is_strip(a, ea, k),
        spec_is_strip(b, eb, k),
        spec_path_prefix(a.0, b.0),
    ensures
        spec_path_prefix(ea.0, eb.0),
{
    assert(ea.0.len() <= eb.0.len());
    assert(ea.0 =~= eb.0.subrange(0, ea.0.len() as int)) by {
        assert forall|m: int| 0 <= m < ea.0.len() implies ea.0[m] == eb.0.subrange(
            0,
            ea.0.len() as int,
        )[m] by {
            if m == 0 {
            } else {
                assert(ea.0[m] == ea.0.drop_first()[m - 1]);
                assert(a.0[m - 1] == b.0.subrange(0, a.0.len() as int)[m - 1]);
                assert(eb.0[m] == eb.0.drop_first()[m - 1]);
            }
        }
    }
}

/// Under the no-conflict premise a group of two or more entries holds
/// no empty remainder: an empty path is a prefix of every other path.
proof fn lemma_conflict_free_nonempty(es: Seq<(Seq<Seq<char>>, int)>)
    requires
        spec_no_prefix_conflict(es),
        es.len() >= 2,
    ensures
        forall|t: int| 0 <= t < es.len() ==> (#[trigger] es[t]).0.len() >= 1,
{
    assert forall|t: int| 0 <= t < es.len() implies (#[trigger] es[t]).0.len() >= 1 by {
        if es[t].0.len() == 0 {
            let o: int = if t == 0 {
                1
            } else {
                0
            };
            assert(es[t].0 =~= es[o].0.subrange(0, 0));
            assert(spec_path_prefix(es[t].0, es[o].0));
        }
    }
}

/// Build the node named `name` from the group of entries that fell
/// under it; each entry's path is its remainder below this node.
///
/// A single entry with an empty remainder is this node itself as a
/// file; otherwise the entries are grouped by their first remaining
/// segment, in order of first appearance, and each group becomes a
/// child, built recursively. Free of prefix conflicts, the grouping
/// always succeeds, sibling names never repeat, and the node's leaves
/// are exactly the declared entries.
fn build_node(name: String, group: Vec<(Vec<String>, i64)>, Ghost(segs): Ghost<nat>) -> (n:
    FileNode)
    requires
        segs == spec_entries_segs(group@),
        spec_lengths_ok(group@),
        spec_entries_total(group@) <= i64::MAX,
        spec_no_prefix_conflict(spec_entry_views(group@)),
    ensures
        spec_well_sized(n),
        n.spec_size() == spec_entries_total(group@),
        n.spec_name() == name@,
        spec_distinct_children(n),
        n is Directory || (group@.len() == 1 && group@[0].0@.len() == 0),
        forall|p: Seq<char>|
            #[trigger] spec_flatten(n, p).to_multiset() == spec_entry_leaves(
                spec_join_path(p, name@),
                spec_entry_views(group@),
            ).to_multiset(),
    decreases segs,
{
    let ghost gv = spec_entry_views(group@);
    if group.len() == 1 && group[0].0.len() == 0 {
        proof {
            assert(group@.drop_last() =~= Seq::<(Vec<String>, i64)>::empty());
            assert(spec_entries_total(Seq::<(Vec<String>, i64)>::empty()) == 0);
            assert(group@[0].1 >= 0);
        }
        let size = group[0].1;
        let ghost nameg = name@;
        let node = FileNode::File { name, size };
        proof {
            assert(gv[0] == spec_entry_view(group@[0]));
            assert(gv[0].0 =~= Seq::<Seq<char>>::empty());
            assert forall|p: Seq<char>|
                #[trigger] spec_flatten(node, p).to_multiset() == spec_entry_leaves(
                    spec_join_path(p, nameg),
                    gv,
                ).to_multiset() by {
                let base = spec_join_path(p, nameg);
                assert(gv.drop_last() =~= Seq::<(Seq<Seq<char>>, int)>::empty());
                assert(spec_entry_leaves(base, Seq::<(Seq<Seq<char>>, int)>::empty()) == Seq::<
                    (Seq<char>, int),
                >::empty());
                assert(spec_join_segs(base, gv.last().0) == base);
                assert(spec_entry_leaves(base, gv) =~= seq![(base, group@[0].1 as int)]);
                assert(spec_flatten(node, p) =~= seq![(base, size as int)]);
            }
        }
        return node;
    }
    let ghost group0 = group@;
    let mut rest = group;
    let mut children: Vec<FileNode> = Vec::new();
    let mut total: i64 = 0;
    proof {
        if group0.len() >= 2 {
            lemma_conflict_free_nonempty(gv);
        }
        assert forall|t: int| 0 <= t < rest@.len() implies (#[trigger] rest@[t]).0@.len()
            >= 1 by {
            assert(gv[t] == spec_entry_view(group0[t]));
        }
        assert forall|b: Seq<char>|
            #[trigger] spec_flatten_children(children@, b).to_multiset().add(
                spec_entry_leaves(b, spec_entry_views(rest@)).to_multiset(),
            ) == spec_entry_leaves(b, gv).to_multiset() by {
            broadcast use vstd::seq_lib::group_to_multiset_ensures;
            broadcast use vstd::multiset::group_multiset_axioms;

            assert(spec_flatten_children(children@, b) =~= Seq::<(Seq<char>, int)>::empty());
            assert(spec_flatten_children(children@, b).to_multiset().len() == 0);
            assert(spec_flatten_children(children@, b).to_multiset().add(
                spec_entry_leaves(b, spec_entry_views(rest@)).to_multiset(),
            ) =~= spec_entry_leaves(b, gv).to_multiset());
        }
    }
    while rest.len() > 0
        invariant
            segs == spec_entries_segs(group0),
            gv == spec_entry_views(group0),
            spec_lengths_ok(rest@),
            spec_entries_total(group0) <= i64::MAX,
            spec_entries_segs(rest@) <= spec_entries_segs(group0),
            total == spec_children_total(children@),
            total + spec_entries_total(rest@) == spec_entries_total(group0),
            total >= 0,
            spec_no_prefix_conflict(spec_entry_views(rest@)),
            forall|t: int| 0 <= t < rest@.len() ==> (#[trigger] rest@[t]).0@.len() >= 1,
            forall|i: int|
                0 <= i < children@.len() ==> spec_well_sized(#[trigger] children@[i]),
            forall|i: int|
                0 <= i < children@.len() ==> spec_distinct_children(#[trigger] children@[i]),
            forall|i: int, j: int|
                0 <= i < j < children@.len() ==> (#[trigger] children@[i]).spec_name() != (
                #[trigger] children@[j]).spec_name(),
            forall|ci: int, t: int|
                0 <= ci < children@.len() && 0 <= t < rest@.len() ==> (
                #[trigger] children@[ci]).spec_name() != (#[trigger] rest@[t]).0@[0]@,
            forall|b: Seq<char>|
                #[trigger] spec_flatten_children(children@, b).to_multiset().add(
                    spec_entry_leaves(b, spec_entry_views(rest@)).to_multiset(),
                ) == spec_entry_leaves(b, gv).to_multiset(),
        decreases rest@.len(),
    {
        // split off every entry that shares the first entry's leading
        // segment, stripping that segment as it goes
        let ghost rest0 = rest@;
        let ghost rv = spec_entry_views(rest0);
        let key: String = clone_string(&rest[0].0[0]);
        proof {
            assert(rv[0] == spec_entry_view(rest0[0]));
            assert(key@ == rv[0].0[0]);
        }
        let mut sub: Vec<(Vec<String>, i64)> = Vec::new();
        let mut keep: Vec<(Vec<String>, i64)> = Vec::new();
        let mut i: usize = 0;
        proof {
            assert(spec_entry_views(sub@) =~= Seq::<(Seq<Seq<char>>, int)>::empty());
            assert(spec_entry_views(keep@) =~= Seq::<(Seq<Seq<char>>, int)>::empty());
            assert forall|b: Seq<char>|
                #[trigger] spec_entry_leaves(
                    b,
                    spec_entry_views(rest@.take(0int)),
                ).to_multiset() == spec_entry_leaves(
                    spec_join_path(b, key@),
                    spec_entry_views(sub@),
                ).to_multiset().add(spec_entry_leaves(b, spec_entry_views(keep@)).to_multiset())
                by {
                broadcast use vstd::seq_lib::group_to_multiset_ensures;
                broadcast use vstd::multiset::group_multiset_axioms;

                assert(rest@.take(0int) =~= Seq::<(Vec<String>, i64)>::empty());
                assert(spec_entry_views(rest@.take(0int)) =~= Seq::<
                    (Seq<Seq<char>>, int),
                >::empty());
                assert(spec_entry_leaves(b, spec_entry_views(rest@.take(0int))).to_multiset()
                    .len() == 0);
                assert(spec_entry_leaves(
                    spec_join_path(b, key@),
                    spec_entry_views(sub@),
                ).to_multiset().len() == 0);
                assert(spec_entry_leaves(b, spec_entry_views(keep@)).to_multiset().len() == 0);
                assert(spec_entry_leaves(b, spec_entry_views(rest@.take(0int))).to_multiset()
                    =~= spec_entry_leaves(
                    spec_join_path(b, key@),
                    spec_entry_views(sub@),
                ).to_multiset().add(spec_entry_leaves(b, spec_entry_views(keep@)).to_multiset()));
            }
        }
        while i < rest.len()
            invariant
                i <= rest@.len(),
                rest@ == rest0,
                rv == spec_entry_views(rest0),
                gv == spec_entry_views(group0),
                rest@.len() > 0,
                key@ == rv[0].0[0],
                spec_no_prefix_conflict(rv),
                forall|t: int| 0 <= t < rest@.len() ==> (#[trigger] rest@[t]).0@.len() >= 1,
                spec_lengths_ok(rest@),
                spec_lengths_ok(sub@),
                spec_lengths_ok(keep@),
                spec_entries_total(sub@) + spec_entries_total(keep@) == spec_entries_total(
                    rest@.take(i as int),
                ),
                spec_entries_segs(sub@) + sub@.len() + spec_entries_segs(keep@)
                    == spec_entries_segs(rest@.take(i as int)),
                sub@.len() + keep@.len() == i,
                i >= 1 ==> sub@.len() >= 1,
                forall|u: int|
                    0 <= u < sub@.len() ==> exists|t: int|
                        0 <= t < i && spec_is_strip(
                            #[trigger] spec_entry_views(sub@)[u],
                            rv[t],
                            key@,
                        ),
                forall|u: int|
                    0 <= u < keep@.len() ==> exists|t: int|
                        0 <= t < i && #[trigger] spec_entry_views(keep@)[u] == rv[t],
                spec_no_prefix_conflict(spec_entry_views(sub@)),
                spec_no_prefix_conflict(spec_entry_views(keep@)),
                forall|u: int| 0 <= u < keep@.len() ==> (#[trigger] keep@[u]).0@.len() >= 1,
                forall|u: int| 0 <= u < keep@.len() ==> (#[trigger] keep@[u]).0@[0]@ != key@,
                forall|ci: int, t: int|
                    0 <= ci < children@.len() && 0 <= t < rest@.len() ==> (
                    #[trigger] children@[ci]).spec_name() != (#[trigger] rest@[t]).0@[0]@,
                forall|ci: int, u: int|
                    0 <= ci < children@.len() && 0 <= u < keep@.len() ==> (
                    #[trigger] children@[ci]).spec_name() != (#[trigger] keep@[u]).0@[0]@,
                forall|b: Seq<char>|
                    #[trigger] spec_entry_leaves(
                        b,
                        spec_entry_views(rest@.take(i as int)),
                    ).to_multiset() == spec_entry_leaves(
                        spec_join_path(b, key@),
                        spec_entry_views(sub@),
                    ).to_multiset().add(
                        spec_entry_leaves(b, spec_entry_views(keep@)).to_multiset(),
                    ),
            decreases rest@.len() - i,
        {
            proof {
                assert(rest@.take(i + 1 as int).drop_last() =~= rest@.take(i as int));
                assert(rest@.take(i + 1 as int).last() == rest@[i as int]);
                assert(rv[i as int] == spec_entry_view(rest@[i as int]));
                assert(rest@[i as int].0@.len() >= 1);
            }
            let e_path = &rest[i].0;
            if strings_equal(&e_path[0], &key) {
                let mut stripped: Vec<String> = Vec::new();
                let mut k: usize = 1;
                while k < e_path.len()
                    invariant
                        rest@ == rest0,
                        i < rest@.len(),
                        1 <= k <= rest@[i as int].0@.len(),
                        e_path@ == rest@[i as int].0@,
                        stripped@ == rest@[i as int].0@.subrange(1, k as int),
                    decreases e_path@.len() - k,
                {
                    let s = clone_string(&e_path[k]);
                    stripped.push(s);
                    proof {
                        assert(rest@[i as int].0@.subrange(1, k + 1 as int) =~= rest@[
                            i as int].0@.subrange(1, k as int).push(rest@[i as int].0@[k as int]));
                    }
                    k += 1;
                }
                let len_i = rest[i].1;
                let ghost sv = (stripped@.map_values(|s: String| s@), len_i as int);
                let ghost oldsubv = spec_entry_views(sub@);
                proof {
                    lemma_entries_push(sub@, (stripped, len_i));
                    assert(stripped@.len() == rest@[i as int].0@.len() - 1);
                    assert(sv.0 =~= rv[i as int].0.drop_first()) by {
                        assert forall|m: int| 0 <= m < sv.0.len() implies sv.0[m] == rv[
                            i as int].0.drop_first()[m] by {
                            assert(sv.0[m] == stripped@[m]@);
                            assert(stripped@[m] == rest@[i as int].0@[m + 1]);
                            assert(rv[i as int].0[m + 1] == rest@[i as int].0@[m + 1]@);
                        }
                    }
                    assert(rv[i as int].0[0] == rest@[i as int].0@[0]@);
                    assert(rv[i as int].0[0] == key@);
                    assert(spec_is_strip(sv, rv[i as int], key@));
                    let nv = oldsubv.push(sv);
                    assert forall|a: int, c: int|
                        0 <= a < nv.len() && 0 <= c < nv.len() && a != c implies !spec_path_prefix(
                        (#[trigger] nv[a]).0,
                        (#[trigger] nv[c]).0,
                    ) by {
                        if a < oldsubv.len() && c < oldsubv.len() {
                            assert(nv[a] == oldsubv[a] && nv[c] == oldsubv[c]);
                        } else if a < oldsubv.len() && c == oldsubv.len() {
                            let t = choose|t: int|
                                0 <= t < i && spec_is_strip(oldsubv[a], rv[t], key@);
                            assert(spec_entry_views(sub@)[a] == oldsubv[a]);
                            if spec_path_prefix(nv[a].0, nv[c].0) {
                                lemma_strip_prefix(oldsubv[a], sv, rv[t], rv[i as int], key@);
                            }
                        } else if c < oldsubv.len() && a == oldsubv.len() {
                            let t = choose|t: int|
                                0 <= t < i && spec_is_strip(oldsubv[c], rv[t], key@);
                            assert(spec_entry_views(sub@)[c] == oldsubv[c]);
                            if spec_path_prefix(nv[a].0, nv[c].0) {
                                lemma_strip_prefix(sv, oldsubv[c], rv[i as int], rv[t], key@);
                            }
                        }
                    }
                }
                sub.push((stripped, len_i));
                proof {
                    assert(spec_entry_views(sub@) =~= oldsubv.push(sv));
                    assert forall|b: Seq<char>|
                        #[trigger] spec_entry_leaves(
                            b,
                            spec_entry_views(rest@.take(i + 1 as int)),
                        ).to_multiset() == spec_entry_leaves(
                            spec_join_path(b, key@),
                            spec_entry_views(sub@),
                        ).to_multiset().add(
                            spec_entry_leaves(b, spec_entry_views(keep@)).to_multiset(),
                        ) by {
                        broadcast use vstd::seq_lib::group_to_multiset_ensures;
                        broadcast use vstd::multiset::group_multiset_axioms;

                        let prevv = spec_entry_views(rest@.take(i as int));
                        assert(spec_entry_views(rest@.take(i + 1 as int)) =~= prevv.push(
                            rv[i as int],
                        ));
                        let lv_prev = spec_entry_leaves(b, prevv);
                        assert(prevv.push(rv[i as int]).drop_last() =~= prevv);
                        assert(spec_entry_leaves(b, prevv.push(rv[i as int])) == lv_prev.push(
                            (spec_join_segs(b, rv[i as int].0), rv[i as int].1),
                        ));
                        assert(spec_join_segs(b, rv[i as int].0) == spec_join_segs(
                            spec_join_path(b, key@),
                            sv.0,
                        )) by {
                            assert(rv[i as int].0.len() >= 1);
                            assert(rv[i as int].0[0] == key@);
                            assert(rv[i as int].0.drop_first() == sv.0);
                        }
                        assert(oldsubv.push(sv).drop_last() =~= oldsubv);
                        assert(spec_entry_leaves(spec_join_path(b, key@), oldsubv.push(sv))
                            == spec_entry_leaves(spec_join_path(b, key@), oldsubv).push(
                            (spec_join_segs(spec_join_path(b, key@), sv.0), sv.1),
                        ));
                        assert(lv_prev.to_multiset() == spec_entry_leaves(
                            spec_join_path(b, key@),
                            oldsubv,
                        ).to_multiset().add(
                            spec_entry_leaves(b, spec_entry_views(keep@)).to_multiset(),
                        ));
                        assert(spec_entry_leaves(b, prevv.push(rv[i as int])).to_multiset()
                            =~= spec_entry_leaves(
                            spec_join_path(b, key@),
                            oldsubv.push(sv),
                        ).to_multiset().add(
                            spec_entry_leaves(b, spec_entry_views(keep@)).to_multiset(),
                        ));
                    }
                }
            } else {
                let mut copied: Vec<String> = Vec::new();
                let mut k: usize = 0;
                while k < e_path.len()
                    invariant
                        rest@ == rest0,
                        i < rest@.len(),
                        k <= rest@[i as int].0@.len(),
                        e_path@ == rest@[i as int].0@,
                        copied@ == rest@[i as int].0@.subrange(0, k as int),
                    decreases e_path@.len() - k,
                {
                    let s = clone_string(&e_path[k]);
                    copied.push(s);
                    proof {
                        assert(rest@[i as int].0@.subrange(0, k + 1 as int) =~= rest@[
                            i as int].0@.subrange(0, k as int).push(rest@[i as int].0@[k as int]));
                    }
                    k += 1;
                }
                let len_i = rest[i].1;
                let ghost kv = (copied@.map_values(|s: String| s@), len_i as int);
                let ghost oldkeepv = spec_entry_views(keep@);
                proof {
                    lemma_entries_push(keep@, (copied, len_i));
                    assert(copied@ =~= rest@[i as int].0@);
                    assert(kv.0 =~= rv[i as int].0) by {
                        assert forall|m: int| 0 <= m < kv.0.len() implies kv.0[m] == rv[
                            i as int].0[m] by {
                            assert(kv.0[m] == copied@[m]@);
                            assert(copied@[m] == rest@[i as int].0@[m]);
                        }
                    }
                    assert(kv == rv[i as int]);
                    assert(kv.0[0] != key@) by {
                        assert(rest@[i as int].0@[0]@ != key@);
                    }
                    let nv = oldkeepv.push(kv);
                    assert forall|a: int, c: int|
                        0 <= a < nv.len() && 0 <= c < nv.len() && a != c implies !spec_path_prefix(
                        (#[trigger] nv[a]).0,
                        (#[trigger] nv[c]).0,
                    ) by {
                        if a < oldkeepv.len() && c < oldkeepv.len() {
                            assert(nv[a] == oldkeepv[a] && nv[c] == oldkeepv[c]);
                        } else if a < oldkeepv.len() && c == oldkeepv.len() {
                            let t = choose|t: int| 0 <= t < i && oldkeepv[a] == rv[t];
                            assert(spec_entry_views(keep@)[a] == oldkeepv[a]);
                            assert(t != i);
                        } else if c < oldkeepv.len() && a == oldkeepv.len() {
                            let t = choose|t: int| 0 <= t < i && oldkeepv[c] == rv[t];
                            assert(spec_entry_views(keep@)[c] == oldkeepv[c]);
                            assert(t != i);
                        }
                    }
                }
                keep.push((copied, len_i));
                proof {
                    assert(spec_entry_views(keep@) =~= oldkeepv.push(kv));
                    assert forall|b: Seq<char>|
                        #[trigger] spec_entry_leaves(
                            b,
                            spec_entry_views(rest@.take(i + 1 as int)),
                        ).to_multiset() == spec_entry_leaves(
                            spec_join_path(b, key@),
                            spec_entry_views(sub@),
                        ).to_multiset().add(
                            spec_entry_leaves(b, spec_entry_views(keep@)).to_multiset(),
                        ) by {
                        broadcast use vstd::seq_lib::group_to_multiset_ensures;
                        broadcast use vstd::multiset::group_multiset_axioms;

                        let prevv = spec_entry_views(rest@.take(i as int));
                        assert(spec_entry_views(rest@.take(i + 1 as int)) =~= prevv.push(
                            rv[i as int],
                        ));
                        let lv_prev = spec_entry_leaves(b, prevv);
                        assert(prevv.push(rv[i as int]).drop_last() =~= prevv);
                        assert(spec_entry_leaves(b, prevv.push(rv[i as int])) == lv_prev.push(
                            (spec_join_segs(b, rv[i as int].0), rv[i as int].1),
                        ));
                        assert(oldkeepv.push(kv).drop_last() =~= oldkeepv);
                        assert(spec_entry_leaves(b, oldkeepv.push(kv)) == spec_entry_leaves(
                            b,
                            oldkeepv,
                        ).push((spec_join_segs(b, kv.0), kv.1)));
                        assert(lv_prev.to_multiset() == spec_entry_leaves(
                            spec_join_path(b, key@),
                            spec_entry_views(sub@),
                        ).to_multiset().add(spec_entry_leaves(b, oldkeepv).to_multiset()));
                        assert(spec_entry_leaves(b, prevv.push(rv[i as int])).to_multiset()
                            =~= spec_entry_leaves(
                            spec_join_path(b, key@),
                            spec_entry_views(sub@),
                        ).to_multiset().add(
                            spec_entry_leaves(b, oldkeepv.push(kv)).to_multiset(),
                        ));
                    }
                }
            }
            i += 1;
        }
        proof {
            assert(rest@.take(rest@.len() as int) =~= rest@);
            lemma_entries_total_nonneg(sub@);
            lemma_entries_total_nonneg(keep@);
            assert(spec_entries_segs(sub@) < spec_entries_segs(group0));
            assert(spec_entries_total(sub@) <= i64::MAX);
        }
        let ghost subv = spec_entry_views(sub@);
        let ghost keepv = spec_entry_views(keep@);
        let ghost keyg = key@;
        let child = build_node(key, sub, Ghost(spec_entries_segs(sub@)));
        let csize = child.get_size();
        proof {
            lemma_well_sized_nonneg(child);
            lemma_children_total_push(children@, child);
            assert(total + csize <= spec_entries_total(group0));
            assert(child.spec_name() == keyg);
            assert forall|b: Seq<char>|
                #[trigger] spec_flatten_children(children@.push(child), b).to_multiset().add(
                    spec_entry_leaves(b, keepv).to_multiset(),
                ) == spec_entry_leaves(b, gv).to_multiset() by {
                broadcast use vstd::seq_lib::group_to_multiset_ensures;
                broadcast use vstd::multiset::group_multiset_axioms;

                lemma_flatten_children_push(children@, child, b);
                lemma_multiset_commutative(
                    spec_flatten_children(children@, b),
                    spec_flatten(child, b),
                );
                assert(spec_flatten(child, b).to_multiset() == spec_entry_leaves(
                    spec_join_path(b, keyg),
                    subv,
                ).to_multiset());
                assert(spec_entry_leaves(b, spec_entry_views(rest@)).to_multiset()
                    == spec_entry_leaves(spec_join_path(b, keyg), subv).to_multiset().add(
                    spec_entry_leaves(b, keepv).to_multiset(),
                ));
                assert(spec_flatten_children(children@, b).to_multiset().add(
                    spec_entry_leaves(b, spec_entry_views(rest@)).to_multiset(),
                ) == spec_entry_leaves(b, gv).to_multiset());
                assert(spec_flatten_children(children@.push(child), b).to_multiset().add(
                    spec_entry_leaves(b, keepv).to_multiset(),
                ) =~= spec_entry_leaves(b, gv).to_multiset());
            }
            // the new child's name is the key, which no earlier child used
            assert forall|a: int, c: int|
                0 <= a < c < children@.push(child).len() implies (
            #[trigger] children@.push(child)[a]).spec_name() != (#[trigger] children@.push(
                child,
            )[c]).spec_name() by {
                if c < children@.len() {
                    assert(children@.push(child)[a] == children@[a]);
                    assert(children@.push(child)[c] == children@[c]);
                } else {
                    assert(children@.push(child)[a] == children@[a]);
                    assert(children@.push(child)[c] == child);
                    assert(children@[a].spec_name() != rest@[0].0@[0]@);
                }
            }
        }
        total = total + csize;
        children.push(child);
        rest = keep;
        proof {
            assert forall|t: int| 0 <= t < rest@.len() implies (#[trigger] rest@[t]).0@.len()
                >= 1 by {}
        }
    }
    proof {
        assert(spec_entries_total(rest@) == 0) by {
            assert(rest@.len() == 0);
        }
    }
    let ghost nameg = name@;
    let ghost childreng = children@;
    proof {
        // with nothing left to group, the children's leaves are the
        // whole group's leaves
        assert(spec_entry_views(rest@) =~= Seq::<(Seq<Seq<char>>, int)>::empty());
        assert forall|b: Seq<char>|
            #[trigger] spec_flatten_children(childreng, b).to_multiset() == spec_entry_leaves(
                b,
                gv,
            ).to_multiset() by {
            broadcast use vstd::seq_lib::group_to_multiset_ensures;
            broadcast use vstd::multiset::group_multiset_axioms;

            assert(spec_flatten_children(children@, b).to_multiset().add(
                spec_entry_leaves(b, spec_entry_views(rest@)).to_multiset(),
            ) == spec_entry_leaves(b, gv).to_multiset());
            assert(spec_entry_leaves(b, spec_entry_views(rest@)) == Seq::<
                (Seq<char>, int),
            >::empty());
            assert(spec_entry_leaves(b, spec_entry_views(rest@)).to_multiset().len() == 0);
            assert(spec_flatten_children(childreng, b).to_multiset()
                =~= spec_flatten_children(children@, b).to_multiset().add(
                spec_entry_leaves(b, spec_entry_views(rest@)).to_multiset(),
            ));
        }
    }
    let node = FileNode::Directory { name, size: total, children };
    proof {
        assert(spec_distinct_children(node));
        assert(spec_well_sized(node));
        assert forall|p: Seq<char>|
            #[trigger] spec_flatten(node, p).to_multiset() == spec_entry_leaves(
                spec_join_path(p, nameg),
                gv,
            ).to_multiset() by {
            let b = spec_join_path(p, nameg);
            assert(spec_flatten(node, p) == spec_flatten_children(childreng, b));
            assert(spec_flatten_children(childreng, b).to_multiset() == spec_entry_leaves(
                b,
                gv,
            ).to_multiset());
        }
    }
    node
}

/// Copy a string.
fn clone_string(s: &String) -> (r: String)
    ensures
        r == *s,
{
    s.clone()
}

/// Compare two strings character for character.
fn strings_equal(a: &String, b: &String) -> (r: bool)
    ensures
        r == (a@ == b@),
{
    *a == *b
}

/// Every declared file length is non-negative.
pub open spec fn spec_file_lengths_ok(files: Seq<TorrentFile>) -> bool {
    forall|i: int| 0 <= i < files.len() ==> (#[trigger] files[i]).length >= 0
}

/// The ghost images of a declared file list: each entry's path
/// segments and length, entries with empty paths dropped.
pub open spec fn spec_file_views(files: Seq<TorrentFile>) -> Seq<(Seq<Seq<char>>, int)>
    decreases files.len(),
{
    if files.len() == 0 {
        Seq::empty()
    } else {
        let prefix = spec_file_views(files.drop_last());
        if files.last().path@.len() == 0 {
            prefix
        } else {
            prefix.push(
                (files.last().path@.map_values(|s: String| s@), files.last().length as int),
            )
        }
    }
}

/// With every length non-negative, the declared total only grows along
/// the list.
proof fn lemma_files_total_mono(files: Seq<TorrentFile>, k: int)
    requires
        spec_file_lengths_ok(files),
        0 <= k <= files.len(),
    ensures
        spec_files_total(files.take(k)) <= spec_files_total(files),
    decreases files.len() - k,
{
    if k < files.len() {
        assert(files.take(k + 1).drop_last() =~= files.take(k));
        assert(files.take(k + 1).last() == files[k]);
        assert(spec_files_total(files.take(k)) <= spec_files_total(files.take(k + 1)));
        lemma_files_total_mono(files, k + 1);
        assert(files.take(files.len() as int) =~= files);
    } else {
        assert(files.take(k) =~= files);
    }
}

/// Whether one entry's path is a leading prefix of another's.
fn is_path_prefix(a: &Vec<String>, b: &Vec<String>) -> (r: bool)
    ensures
        r == spec_path_prefix(
            a@.map_values(|s: String| s@),
            b@.map_values(|s: String| s@),
        ),
{
    let ghost av = a@.map_values(|s: String| s@);
    let ghost bv = b@.map_values(|s: String| s@);
    if a.len() > b.len() {
        return false;
    }
    let mut k: usize = 0;
    while k < a.len()
        invariant
            av == a@.map_values(|s: String| s@),
            bv == b@.map_values(|s: String| s@),
            av.len() <= bv.len(),
            k <= av.len(),
            forall|m: int| 0 <= m < k ==> av[m] == bv[m],
        decreases av.len() - k,
    {
        proof {
            assert(av[k as int] == a@[k as int]@);
            assert(bv[k as int] == b@[k as int]@);
        }
        if !strings_equal(&a[k], &b[k]) {
            proof {
                assert(av[k as int] != bv[k as int]);
                if spec_path_prefix(av, bv) {
                    assert(bv.subrange(0, av.len() as int)[k as int] == bv[k as int]);
                }
            }
            return false;
        }
        k += 1;
    }
    proof {
        assert(av =~= bv.subrange(0, av.len() as int));
    }
    true
}

/// Scan a group for a pair of prefix-related paths.
fn find_conflict(entries: &Vec<(Vec<String>, i64)>) -> (r: bool)
    ensures
        r == !spec_no_prefix_conflict(spec_entry_views(entries@)),
{
    let ghost ev = spec_entry_views(entries@);
    let mut i: usize = 0;
    while i < entries.len()
        invariant
            ev == spec_entry_views(entries@),
            i <= ev.len(),
            forall|a: int, c: int|
                0 <= a < i && 0 <= c < ev.len() && a != c ==> !spec_path_prefix(
                    (#[trigger] ev[a]).0,
                    (#[trigger] ev[c]).0,
                ),
        decreases ev.len() - i,
    {
        let mut j: usize = 0;
        while j < entries.len()
            invariant
                ev == spec_entry_views(entries@),
                i < ev.len(),
                j <= ev.len(),
                forall|a: int, c: int|
                    0 <= a < i && 0 <= c < ev.len() && a != c ==> !spec_path_prefix(
                        (#[trigger] ev[a]).0,
                        (#[trigger] ev[c]).0,
                    ),
                forall|c: int|
                    0 <= c < j && c != i ==> !spec_path_prefix(
                        (#[trigger] ev[i as int]).0,
                        ev[c].0,
                    ),
            decreases ev.len() - j,
        {
            proof {
                assert(ev[i as int] == spec_entry_view(entries@[i as int]));
                assert(ev[j as int] == spec_entry_view(entries@[j as int]));
            }
            if j != i {
                if is_path_prefix(&entries[i].0, &entries[j].0) {
                    return true;
                }
            }
            j += 1;
        }
        i += 1;
    }
    false
}

/// Build the file tree of a multi-file torrent from its declared file
/// list: a directory named after the torrent whose size is the sum of
/// every declared length, whose sibling names never repeat, and whose
/// leaves are exactly the declared entries, grouped by shared leading
/// path segments. Entries with empty paths carry no file and are
/// dropped. The build succeeds exactly when every length is
/// non-negative, the total fits a signed 64-bit word, and no declared
/// path is a prefix of another.
pub fn build_file_tree(name: String, files: Vec<TorrentFile>) -> (r: Result<
    FileNode,
    YggError,
>)
    ensures
        r is Ok <==> (spec_file_lengths_ok(files@) && spec_files_total(files@) <= i64::MAX
            && spec_no_prefix_conflict(spec_file_views(files@))),
        r matches Ok(n) ==> {
            &&& spec_well_sized(n)
            &&& n is Directory
            &&& n.spec_name() == name@
            &&& n.spec_size() == spec_files_total(files@)
            &&& spec_distinct_children(n)
            &&& forall|p: Seq<char>|
                #[trigger] spec_flatten(n, p).to_multiset() == spec_entry_leaves(
                    spec_join_path(p, name@),
                    spec_file_views(files@),
                ).to_multiset()
        },
        r matches Err(e) ==> e == YggError::Decode,
{
    let mut entries: Vec<(Vec<String>, i64)> = Vec::new();
    let mut total: i64 = 0;
    let mut i: usize = 0;
    while i < files.len()
        invariant
            i <= files@.len(),
            spec_lengths_ok(entries@),
            forall|t: int| 0 <= t < entries@.len() ==> (#[trigger] entries@[t]).0@.len() >= 1,
            total == spec_entries_total(entries@),
            total >= 0,
            spec_entries_total(entries@) == spec_files_total(files@.take(i as int)),
            spec_entry_views(entries@) == spec_file_views(files@.take(i as int)),
            forall|t: int| 0 <= t < i ==> (#[trigger] files@[t]).length >= 0,
        decreases files@.len() - i,
    {
        proof {
            assert(files@.take(i + 1 as int).drop_last() =~= files@.take(i as int));
            assert(files@.take(i + 1 as int).last() == files@[i as int]);
        }
        let flen = files[i].length;
        if flen < 0 {
            return Err(YggError::Decode);
        }
        if files[i].path.len() == 0 {
            // a stray entry with no path carries no file and is dropped
            i += 1;
            continue;
        }
        let mut path: Vec<String> = Vec::new();
        let mut k: usize = 0;
        let fp = &files[i].path;
        while k < fp.len()
            invariant
                i < files@.len(),
                k <= files@[i as int].path@.len(),
                fp@ == files@[i as int].path@,
                path@ == files@[i as int].path@.subrange(0, k as int),
            decreases fp@.len() - k,
        {
            let s = clone_string(&fp[k]);
            path.push(s);
            proof {
                assert(files@[i as int].path@.subrange(0, k + 1 as int) =~= files@[
                    i as int].path@.subrange(0, k as int).push(files@[i as int].path@[k as int]));
            }
            k += 1;
        }
        match total.checked_add(flen) {
            Some(t) => {
                let ghost oldviews = spec_entry_views(entries@);
                proof {
                    lemma_entries_push(entries@, (path, flen));
                    assert(path@ =~= files@[i as int].path@);
                }
                total = t;
                entries.push((path, flen));
                proof {
                    assert(spec_entry_views(entries@) =~= oldviews.push(
                        (
                            files@[i as int].path@.map_values(|s: String| s@),
                            files@[i as int].length as int,
                        ),
                    )) by {
                        assert forall|m: int|
                            0 <= m < spec_entry_views(entries@).len() implies spec_entry_views(
                            entries@,
                        )[m] == oldviews.push(
                            (
                                files@[i as int].path@.map_values(|s: String| s@),
                                files@[i as int].length as int,
                            ),
                        )[m] by {
                            if m < oldviews.len() {
                            } else {
                                assert(spec_entry_views(entries@)[m] == spec_entry_view(
                                    entries@[m],
                                ));
                                assert(entries@[m].0@.map_values(|s: String| s@) =~= files@[
                                    i as int].path@.map_values(|s: String| s@)) by {
                                    assert(entries@[m].0@ =~= files@[i as int].path@);
                                }
                            }
                        }
                    }
                }
            },
            None => {
                // the total exceeds what a signed 64-bit word holds,
                // unless a later negative length would reject first
                proof {
                    if spec_file_lengths_ok(files@) {
                        lemma_files_total_mono(files@, i + 1);
                    }
                }
                return Err(YggError::Decode);
            },
        }
        i += 1;
    }
    proof {
        assert(files@.take(files@.len() as int) =~= files@);
    }
    if find_conflict(&entries) {
        return Err(YggError::Decode);
    }
    proof {
        assert(entries@.len() >= 1 ==> entries@[0].0@.len() >= 1);
    }
    let node = build_node(name, entries, Ghost(spec_entries_segs(entries@)));
    Ok(node)
}

/// The sum of the declared lengths of a file list; an entry with an
/// empty path carries no file and counts for nothing.
pub open spec fn spec_files_total(files: Seq<TorrentFile>) -> int
    decreases files,
{
    if files.len() == 0 {
        0
    } else {
        spec_files_total(files.drop_last()) + if files.last().path@.len() == 0 {
            0
        } else {
            files.last().length as int
        }
    }
}

/// What String::from_utf8 returns for given bytes; the result depends
/// on the bytes alone.
pub uninterp spec fn utf8_of(b: Seq<u8>) -> Option<Seq<char>>;

/// Every byte is plain ASCII.
pub open spec fn spec_all_ascii(b: Seq<u8>) -> bool {
    forall|i: int| 0 <= i < b.len() ==> #[trigger] b[i] < 0x80
}

/// The characters of a plain ASCII byte sequence, one per byte.
pub open spec fn spec_ascii_chars(b: Seq<u8>) -> Seq<char> {
    b.map_values(|x: u8| x as char)
}

/// Relies on String::from_utf8: decodes UTF-8 or fails, and a sequence
/// of plain ASCII bytes decodes to the same characters one for one.
#[verifier::external_body]
fn utf8_to_string(b: Vec<u8>) -> (r: Option<String>)
    ensures
        r matches Some(s) ==> utf8_of(b@) == Some(s@),
        r is None ==> utf8_of(b@) is None && !spec_all_ascii(b@),
        r matches Some(s) ==> (spec_all_ascii(b@) ==> s@ == spec_ascii_chars(b@)),
{
    match String::from_utf8(b) {
        Ok(s) => Some(s),
        Err(_) => None,
    }
}

/// Copy a byte vector.
fn clone_bytes(v: &Vec<u8>) -> (r: Vec<u8>)
    ensures
        r@ == v@,
{
    let mut r: Vec<u8> = Vec::new();
    let mut i: usize = 0;
    while i < v.len()
        invariant
            i <= v@.len(),
            r@ == v@.subrange(0, i as int),
        decreases v@.len() - i,
    {
        r.push(v[i]);
        proof {
            assert(v@.subrange(0, i + 1 as int) =~= v@.subrange(0, i as int).push(v@[i as int]));
        }
        i += 1;
    }
    proof {
        assert(v@.subrange(0, v@.len() as int) =~= v@);
    }
    r
}

/// The byte key of the name entry.
pub open spec fn spec_name_key_bytes() -> Seq<u8> {
    seq![0x6eu8, 0x61u8, 0x6du8, 0x65u8]
}

/// The byte key of the single-file length entry.
pub open spec fn spec_length_key_bytes() -> Seq<u8> {
    seq![0x6cu8, 0x65u8, 0x6eu8, 0x67u8, 0x74u8, 0x68u8]
}

/// The byte key of the files list.
pub open spec fn spec_files_key_bytes() -> Seq<u8> {
    seq![0x66u8, 0x69u8, 0x6cu8, 0x65u8, 0x73u8]
}

/// The byte key of a file item's path list.
pub open spec fn spec_path_key_bytes() -> Seq<u8> {
    seq![0x70u8, 0x61u8, 0x74u8, 0x68u8]
}

/// The info dictionary's entries, when the document is a dictionary
/// holding one under the `info` key.
pub open spec fn spec_doc_info(v: BValue) -> Option<Seq<(Vec<u8>, BValue)>> {
    match v {
        BValue::Dict(es) => match spec_dict_get(es@, crate::infohash::spec_info_key()) {
            Some(BValue::Dict(ie)) => Some(ie@),
            _ => None,
        },
        _ => None,
    }
}

/// The name the info dictionary declares, as bytes.
pub open spec fn spec_doc_name(v: BValue) -> Option<Seq<u8>> {
    match spec_doc_info(v) {
        Some(ie) => match spec_dict_get(ie, spec_name_key_bytes()) {
            Some(BValue::Bytes(nb)) => Some(nb@),
            _ => None,
        },
        None => None,
    }
}

/// The explicit single-file length entry, when the info dictionary
/// holds one.
pub open spec fn spec_doc_length(v: BValue) -> Option<BValue> {
    match spec_doc_info(v) {
        Some(ie) => spec_dict_get(ie, spec_length_key_bytes()),
        None => None,
    }
}

/// The declared files list, when the info dictionary holds one.
pub open spec fn spec_doc_files(v: BValue) -> Option<Seq<BValue>> {
    match spec_doc_info(v) {
        Some(ie) => match spec_dict_get(ie, spec_files_key_bytes()) {
            Some(BValue::List(items)) => Some(items@),
            _ => None,
        },
        None => None,
    }
}

/// One declared file item is well formed: a dictionary holding an
/// integer length and a path list of UTF-8 byte strings.
pub open spec fn spec_item_ok(it: BValue) -> bool {
    match it {
        BValue::Dict(fe) => {
            &&& (spec_dict_get(fe@, spec_length_key_bytes()) matches Some(BValue::Int(_)))
            &&& match spec_dict_get(fe@, spec_path_key_bytes()) {
                Some(BValue::List(ps)) => forall|k: int|
                    0 <= k < ps@.len() ==> ((#[trigger] ps@[k]) matches BValue::Bytes(sb)
                        && utf8_of(sb@) is Some),
                _ => false,
            }
        },
        _ => false,
    }
}

/// The length a well-formed file item declares.
pub open spec fn spec_item_len(it: BValue) -> int {
    match it {
        BValue::Dict(fe) => match spec_dict_get(fe@, spec_length_key_bytes()) {
            Some(BValue::Int(l)) => l as int,
            _ => 0,
        },
        _ => 0,
    }
}

/// The path segments a well-formed file item declares, as characters.
pub open spec fn spec_item_path(it: BValue) -> Seq<Seq<char>> {
    match it {
        BValue::Dict(fe) => match spec_dict_get(fe@, spec_path_key_bytes()) {
            Some(BValue::List(ps)) => ps@.map_values(
                |pv: BValue|
                    match pv {
                        BValue::Bytes(sb) => utf8_of(sb@)->0,
                        _ => Seq::<char>::empty(),
                    },
            ),
            _ => Seq::<Seq<char>>::empty(),
        },
        _ => Seq::<Seq<char>>::empty(),
    }
}

/// The declared entries of a files list, items with empty paths dropped.
pub open spec fn spec_items_views(items: Seq<BValue>) -> Seq<(Seq<Seq<char>>, int)>
    decreases items.len(),
{
    if items.len() == 0 {
        Seq::empty()
    } else {
        let prefix = spec_items_views(items.drop_last());
        if spec_item_path(items.last()).len() == 0 {
            prefix
        } else {
            prefix.push((spec_item_path(items.last()), spec_item_len(items.last())))
        }
    }
}

/// The total declared length of a files list, items with empty paths
/// counting for nothing.
pub open spec fn spec_items_total(items: Seq<BValue>) -> int
    decreases items.len(),
{
    if items.len() == 0 {
        0
    } else {
        spec_items_total(items.drop_last()) + if spec_item_path(items.last()).len() == 0 {
            0
        } else {
            spec_item_len(items.last())
        }
    }
}

/// A whole metainfo document is well formed: a dictionary whose info
/// dictionary names the torrent in UTF-8 and declares either a
/// non-negative single-file length or a well-formed files list whose
/// lengths are non-negative, whose total fits a signed 64-bit word, and
/// whose paths never prefix one another.
pub open spec fn spec_torrent_doc_ok(v: BValue) -> bool {
    &&& spec_doc_name(v) is Some
    &&& utf8_of(spec_doc_name(v)->0) is Some
    &&& match spec_doc_length(v) {
        Some(lv) => (lv matches BValue::Int(l) && l >= 0),
        None => {
            &&& spec_doc_files(v) is Some
            &&& forall|k: int|
                0 <= k < spec_doc_files(v)->0.len() ==> spec_item_ok(
                    #[trigger] spec_doc_files(v)->0[k],
                )
            &&& forall|k: int|
                0 <= k < spec_doc_files(v)->0.len() ==> spec_item_len(
                    #[trigger] spec_doc_files(v)->0[k],
                ) >= 0
            &&& spec_items_total(spec_doc_files(v)->0) <= i64::MAX
            &&& spec_no_prefix_conflict(spec_items_views(spec_doc_files(v)->0))
        },
    }
}

/// The tree a well-formed document names: one leaf carrying the
/// torrent's name and explicit length, or a directory named after the
/// torrent whose leaves are exactly the declared entries.
pub open spec fn spec_tree_matches_doc(n: FileNode, v: BValue) -> bool {
    let name = utf8_of(spec_doc_name(v)->0)->0;
    match spec_doc_length(v) {
        Some(lv) => {
            &&& n is File
            &&& n.spec_name() == name
            &&& (lv matches BValue::Int(l) && n.spec_size() == l)
        },
        None => {
            &&& n is Directory
            &&& n.spec_name() == name
            &&& n.spec_size() == spec_items_total(spec_doc_files(v)->0)
            &&& forall|p: Seq<char>|
                #[trigger] spec_flatten(n, p).to_multiset() == spec_entry_leaves(
                    spec_join_path(p, name),
                    spec_items_views(spec_doc_files(v)->0),
                ).to_multiset()
        },
    }
}

/// Build the file tree a decoded metainfo document names.
///
/// Succeeds exactly on well-formed documents; the tree is then tied to
/// the document field by field, and malformed documents are a hard
/// decode error, never a partial tree.
pub fn torrent_tree_from_doc(v: &BValue) -> (r: Result<FileNode, YggError>)
    ensures
        r is Ok <==> spec_torrent_doc_ok(*v),
        r matches Ok(n) ==> spec_tree_matches_doc(n, *v),
        r matches Ok(n) ==> spec_well_sized(n) && spec_distinct_children(n),
        r matches Err(e) ==> e == YggError::Decode,
{
    let entries = match v {
        BValue::Dict(entries) => entries,
        _ => {
            return Err(YggError::Decode);
        },
    };
    proof {
        assert(*v == BValue::Dict(*entries));
    }
    let mut info_key: Vec<u8> = Vec::new();
    info_key.push(0x69);
    info_key.push(0x6e);
    info_key.push(0x66);
    info_key.push(0x6f);
    proof {
        assert(info_key@ =~= crate::infohash::spec_info_key());
    }
    let info_entries = match dict_get(entries, &info_key) {
        Some(BValue::Dict(ie)) => ie,
        _ => {
            return Err(YggError::Decode);
        },
    };
    proof {
        assert(spec_doc_info(*v) == Some(info_entries@));
    }
    let mut name_key: Vec<u8> = Vec::new();
    name_key.push(0x6e);
    name_key.push(0x61);
    name_key.push(0x6d);
    name_key.push(0x65);
    proof {
        assert(name_key@ =~= spec_name_key_bytes());
    }
    let name = match dict_get(info_entries, &name_key) {
        Some(BValue::Bytes(nb)) => {
            match utf8_to_string(clone_bytes(nb)) {
                Some(s) => s,
                None => {
                    return Err(YggError::Decode);
                },
            }
        },
        _ => {
            return Err(YggError::Decode);
        },
    };
    let ghost nameg = name@;
    proof {
        assert(spec_doc_name(*v) is Some);
        assert(utf8_of(spec_doc_name(*v)->0) == Some(nameg));
    }
    let mut length_key: Vec<u8> = Vec::new();
    length_key.push(0x6c);
    length_key.push(0x65);
    length_key.push(0x6e);
    length_key.push(0x67);
    length_key.push(0x74);
    length_key.push(0x68);
    proof {
        assert(length_key@ =~= spec_length_key_bytes());
    }
    match dict_get(info_entries, &length_key) {
        Some(BValue::Int(l)) => {
            // a single-file torrent: one leaf named after the torrent
            if *l < 0 {
                return Err(YggError::Decode);
            }
            let size = *l;
            return Ok(FileNode::File { name, size });
        },
        Some(_) => {
            return Err(YggError::Decode);
        },
        None => {},
    }
    let mut files_key: Vec<u8> = Vec::new();
    files_key.push(0x66);
    files_key.push(0x69);
    files_key.push(0x6c);
    files_key.push(0x65);
    files_key.push(0x73);
    proof {
        assert(files_key@ =~= spec_files_key_bytes());
    }
    let items = match dict_get(info_entries, &files_key) {
        Some(BValue::List(items)) => items,
        _ => {
            return Err(YggError::Decode);
        },
    };
    let ghost its = items@;
    proof {
        assert(spec_doc_files(*v) == Some(its));
    }
    let mut path_key: Vec<u8> = Vec::new();
    path_key.push(0x70);
    path_key.push(0x61);
    path_key.push(0x74);
    path_key.push(0x68);
    proof {
        assert(path_key@ =~= spec_path_key_bytes());
    }
    let mut tfiles: Vec<TorrentFile> = Vec::new();
    let mut i: usize = 0;
    proof {
        assert(its.take(0int) =~= Seq::<BValue>::empty());
        assert(spec_file_views(tfiles@) =~= spec_items_views(its.take(0int)));
    }
    while i < items.len()
        invariant
            its == items@,
            spec_doc_files(*v) == Some(its),
            spec_doc_length(*v) is None,
            spec_doc_name(*v) is Some,
            utf8_of(spec_doc_name(*v)->0) == Some(nameg),
            nameg == name@,
            path_key@ == spec_path_key_bytes(),
            length_key@ == spec_length_key_bytes(),
            i <= its.len(),
            tfiles@.len() == i,
            forall|t: int| 0 <= t < i ==> spec_item_ok(#[trigger] its[t]),
            forall|t: int|
                0 <= t < i ==> (#[trigger] tfiles@[t]).length == spec_item_len(its[t]),
            forall|t: int|
                0 <= t < i ==> (#[trigger] tfiles@[t]).path@.map_values(|s: String| s@)
                    == spec_item_path(its[t]),
            spec_file_views(tfiles@) == spec_items_views(its.take(i as int)),
            spec_files_total(tfiles@) == spec_items_total(its.take(i as int)),
        decreases its.len() - i,
    {
        proof {
            assert(its.take(i + 1 as int).drop_last() =~= its.take(i as int));
            assert(its.take(i + 1 as int).last() == its[i as int]);
        }
        let fe = match &items[i] {
            BValue::Dict(fe) => fe,
            _ => {
                return Err(YggError::Decode);
            },
        };
        proof {
            assert(its[i as int] == BValue::Dict(*fe));
        }
        let flen = match dict_get(fe, &length_key) {
            Some(BValue::Int(l)) => *l,
            _ => {
                return Err(YggError::Decode);
            },
        };
        let segs = match dict_get(fe, &path_key) {
            Some(BValue::List(ps)) => ps,
            _ => {
                return Err(YggError::Decode);
            },
        };
        proof {
            assert(spec_item_len(its[i as int]) == flen);
            assert(spec_item_path(its[i as int]) == segs@.map_values(
                |pv: BValue|
                    match pv {
                        BValue::Bytes(sb) => utf8_of(sb@)->0,
                        _ => Seq::<char>::empty(),
                    },
            ));
        }
        let mut path: Vec<String> = Vec::new();
        let mut k: usize = 0;
        proof {
            assert(path@.map_values(|s: String| s@) =~= spec_item_path(its[i as int]).take(
                0int,
            ));
        }
        while k < segs.len()
            invariant
                its == items@,
                spec_doc_files(*v) == Some(its),
                spec_doc_length(*v) is None,
                spec_doc_name(*v) is Some,
                utf8_of(spec_doc_name(*v)->0) == Some(nameg),
                i < its.len(),
                its[i as int] == BValue::Dict(*fe),
                spec_dict_get(fe@, spec_length_key_bytes()) matches Some(BValue::Int(_)),
                spec_dict_get(fe@, spec_path_key_bytes()) == Some(BValue::List(*segs)),
                path_key@ == spec_path_key_bytes(),
                spec_item_path(its[i as int]) == segs@.map_values(
                    |pv: BValue|
                        match pv {
                            BValue::Bytes(sb) => utf8_of(sb@)->0,
                            _ => Seq::<char>::empty(),
                        },
                ),
                k <= segs@.len(),
                path@.len() == k,
                forall|m: int|
                    0 <= m < k ==> ((#[trigger] segs@[m]) matches BValue::Bytes(sb) && utf8_of(
                        sb@,
                    ) is Some),
                path@.map_values(|s: String| s@) == spec_item_path(its[i as int]).take(
                    k as int,
                ),
            decreases segs@.len() - k,
        {
            proof {
                assert(spec_item_path(its[i as int])[k as int] == (match segs@[k as int] {
                    BValue::Bytes(sb) => utf8_of(sb@)->0,
                    _ => Seq::<char>::empty(),
                }));
            }
            match &segs[k] {
                BValue::Bytes(sb) => {
                    match utf8_to_string(clone_bytes(sb)) {
                        Some(s) => {
                            let ghost prevmap = path@.map_values(|s: String| s@);
                            path.push(s);
                            proof {
                                assert(path@.map_values(|s: String| s@) =~= prevmap.push(
                                    spec_item_path(its[i as int])[k as int],
                                ));
                                assert(spec_item_path(its[i as int]).take(k + 1 as int)
                                    =~= spec_item_path(its[i as int]).take(k as int).push(
                                    spec_item_path(its[i as int])[k as int],
                                ));
                            }
                        },
                        None => {
                            return Err(YggError::Decode);
                        },
                    }
                },
                _ => {
                    return Err(YggError::Decode);
                },
            }
            k += 1;
        }
        proof {
            assert(spec_item_path(its[i as int]).take(segs@.len() as int) =~= spec_item_path(
                its[i as int],
            ));
            assert(spec_item_ok(its[i as int]));
        }
        let ghost oldfiles = tfiles@;
        tfiles.push(TorrentFile { length: flen, path });
        proof {
            assert(tfiles@.drop_last() =~= oldfiles);
            assert(tfiles@.last().path@.map_values(|s: String| s@) == spec_item_path(
                its[i as int],
            ));
            assert(tfiles@.last().path@.len() == spec_item_path(its[i as int]).len());
            assert(spec_file_views(tfiles@) == spec_items_views(its.take(i + 1 as int))) by {
                if spec_item_path(its[i as int]).len() == 0 {
                } else {
                    assert(spec_file_views(tfiles@) =~= spec_file_views(oldfiles).push(
                        (
                            tfiles@.last().path@.map_values(|s: String| s@),
                            tfiles@.last().length as int,
                        ),
                    ));
                }
            }
            assert(spec_files_total(tfiles@) == spec_items_total(its.take(i + 1 as int)));
        }
        i += 1;
    }
    proof {
        assert(its.take(its.len() as int) =~= its);
    }
    let ghost tfg = tfiles@;
    let node = match build_file_tree(name, tfiles) {
        Ok(n) => n,
        Err(e) => {
            proof {
                assert(!spec_torrent_doc_ok(*v)) by {
                    if spec_file_lengths_ok(tfg) && spec_files_total(tfg) <= i64::MAX
                        && spec_no_prefix_conflict(spec_file_views(tfg)) {
                        assert(false);
                    }
                    if !spec_file_lengths_ok(tfg) {
                        let t = choose|t: int| 0 <= t < tfg.len() && (#[trigger] tfg[t]).length
                            < 0;
                        assert(spec_item_len(its[t]) < 0);
                    }
                }
            }
            return Err(e);
        },
    };
    proof {
        assert(spec_torrent_doc_ok(*v)) by {
            assert forall|kk: int| 0 <= kk < its.len() implies spec_item_len(
                #[trigger] its[kk],
            ) >= 0 by {
                assert(tfg[kk].length == spec_item_len(its[kk]));
            }
        }
        assert(spec_tree_matches_doc(node, *v));
    }
    Ok(node)
}

/// Decode a torrent document and build its file tree.
///
/// A metainfo with an explicit `length` yields a single file named after
/// the torrent; one with a `files` list yields a directory named after
/// the torrent, grouped recursively by leading path segments, with the
/// declared files as its leaves. Malformed input, a missing required
/// field, a negative length, an overflowing total or a path that
/// prefixes another is a hard decode error and yields no partial tree.
/// Canonical re-encoding equality is what ties a decoded document to
/// the input bytes.
pub fn parse_torrent_files(bytes: &Vec<u8>) -> (r: Result<FileNode, YggError>)
    ensures
        r matches Ok(n) ==> spec_well_sized(n) && spec_distinct_children(n),
        r matches Ok(n) ==> exists|v: BValue|
            #[trigger] spec_tree_matches_doc(n, v) && spec_encode(v) == bytes@
                && spec_canonical(v) && spec_torrent_doc_ok(v),
        r is Err ==> (spec_parse(bytes@, 0) != Some(bytes@.len() as int) || (exists|v: BValue|
            spec_encode(v) == bytes@ && spec_canonical(v) && !(#[trigger] spec_torrent_doc_ok(
                v,
            )))),
        r matches Err(e) ==> e == YggError::Decode,
{
    let v = match decode(bytes) {
        Some(v) => v,
        None => {
            return Err(YggError::Decode);
        },
    };
    match torrent_tree_from_doc(&v) {
        Ok(n) => {
            proof {
                assert(spec_tree_matches_doc(n, v) && spec_encode(v) == bytes@
                    && spec_canonical(v) && spec_torrent_doc_ok(v));
            }
            Ok(n)
        },
        Err(e) => {
            proof {
                assert(spec_encode(v) == bytes@ && spec_canonical(v) && !spec_torrent_doc_ok(
                    v,
                ));
            }
            Err(e)
        },
    }
}

/// The joined path of a node under a prefix: the name alone at the
/// root, else the prefix, a slash, and the name.
pub open spec fn spec_join_path(prefix: Seq<char>, name: Seq<char>) -> Seq<char> {
    if prefix.len() == 0 {
        name
    } else {
        prefix + seq!['/'] + name
    }
}

/// The flat list of a tree's files: each leaf's full slash-joined path
/// and size, in tree order. Directory nodes contribute their name to
/// the path and no entry of their own.
pub open spec fn spec_flatten(n: FileNode, prefix: Seq<char>) -> Seq<(Seq<char>, int)>
    decreases n,
{
    match n {
        FileNode::File { name, size } => seq![(spec_join_path(prefix, name@), size as int)],
        FileNode::Directory { name, children, .. } => spec_flatten_children(
            children@,
            spec_join_path(prefix, name@),
        ),
    }
}

/// The concatenated flat lists of a sequence of nodes.
pub open spec fn spec_flatten_children(cs: Seq<FileNode>, prefix: Seq<char>) -> Seq<
    (Seq<char>, int),
>
    decreases cs,
{
    if cs.len() == 0 {
        Seq::empty()
    } else {
        spec_flatten(cs[0], prefix) + spec_flatten_children(cs.drop_first(), prefix)
    }
}

/// The view of a flattened entry: its path's characters and its size.
pub open spec fn spec_flat_view(p: (String, i64)) -> (Seq<char>, int) {
    (p.0@, p.1 as int)
}

/// Appending a node's flat list extends the children's flat list.
proof fn lemma_flatten_children_push(cs: Seq<FileNode>, n: FileNode, prefix: Seq<char>)
    ensures
        spec_flatten_children(cs.push(n), prefix) == spec_flatten_children(cs, prefix)
            + spec_flatten(n, prefix),
    decreases cs,
{
    if cs.len() == 0 {
        assert(cs.push(n)[0] == n);
        assert(cs.push(n).drop_first() =~= Seq::<FileNode>::empty());
        assert(spec_flatten_children(Seq::<FileNode>::empty(), prefix) =~= Seq::<
            (Seq<char>, int),
        >::empty());
        assert(spec_flatten_children(cs.push(n), prefix) =~= spec_flatten_children(cs, prefix)
            + spec_flatten(n, prefix));
    } else {
        assert(cs.push(n)[0] == cs[0]);
        assert(cs.push(n).drop_first() =~= cs.drop_first().push(n));
        lemma_flatten_children_push(cs.drop_first(), n, prefix);
        assert(spec_flatten_children(cs.push(n), prefix) =~= spec_flatten_children(cs, prefix)
            + spec_flatten(n, prefix));
    }
}

/// Flatten a tree into full slash-joined paths with sizes, the root's
/// own name included as the leading segment.
pub fn flatten_tree(node: &FileNode) -> (r: Vec<(String, i64)>)
    ensures
        r@.map_values(|p: (String, i64)| spec_flat_view(p)) == spec_flatten(
            *node,
            Seq::<char>::empty(),
        ),
{
    flatten_tree_helper(node, String::new())
}

/// Flatten the tree under an already-joined path prefix.
fn flatten_tree_helper(node: &FileNode, current_path: String) -> (r: Vec<(String, i64)>)
    ensures
        r@.map_values(|p: (String, i64)| spec_flat_view(p)) == spec_flatten(
            *node,
            current_path@,
        ),
    decreases *node,
{
    match node {
        FileNode::File { name, size } => {
            let full = join_path(&current_path, name);
            let mut r: Vec<(String, i64)> = Vec::new();
            r.push((full, *size));
            proof {
                assert(r@.map_values(|p: (String, i64)| spec_flat_view(p)) =~= spec_flatten(
                    *node,
                    current_path@,
                ));
            }
            r
        },
        FileNode::Directory { name, children, .. } => {
            let new_path = join_path(&current_path, name);
            let mut r: Vec<(String, i64)> = Vec::new();
            let mut j: usize = 0;
            proof {
                assert(r@.map_values(|p: (String, i64)| spec_flat_view(p))
                    =~= spec_flatten_children(children@.take(0), new_path@));
            }
            while j < children.len()
                invariant
                    *node == (FileNode::Directory {
                        name: *name,
                        size: node->Directory_size,
                        children: *children,
                    }),
                    j <= children@.len(),
                    new_path@ == spec_join_path(current_path@, name@),
                    r@.map_values(|p: (String, i64)| spec_flat_view(p))
                        == spec_flatten_children(children@.take(j as int), new_path@),
                decreases children@.len() - j,
            {
                proof {
                    assert((*node)->Directory_children == *children);
                    assert(decreases_to!(*node => (*node)->Directory_children));
                    assert(decreases_to!(*children => children@));
                    assert(decreases_to!(children@ => children@[j as int]));
                }
                let sub = flatten_tree_helper(&children[j], clone_string(&new_path));
                let mut t: usize = 0;
                while t < sub.len()
                    invariant
                        t <= sub@.len(),
                        j < children@.len(),
                        sub@.map_values(|p: (String, i64)| spec_flat_view(p)) == spec_flatten(
                            children@[j as int],
                            new_path@,
                        ),
                        r@.map_values(|p: (String, i64)| spec_flat_view(p))
                            == spec_flatten_children(children@.take(j as int), new_path@)
                            + spec_flatten(children@[j as int], new_path@).take(t as int),
                    decreases sub@.len() - t,
                {
                    let entry = (clone_string(&sub[t].0), sub[t].1);
                    let ghost prevr = r@;
                    r.push(entry);
                    proof {
                        let f = |p: (String, i64)| spec_flat_view(p);
                        let a = spec_flatten_children(children@.take(j as int), new_path@);
                        let b = spec_flatten(children@[j as int], new_path@);
                        assert(sub@.map_values(f)[t as int] == f(sub@[t as int]));
                        assert(f(entry) == b[t as int]);
                        assert(r@.map_values(f) =~= prevr.map_values(f).push(b[t as int]));
                        assert(b.take(t + 1 as int) =~= b.take(t as int).push(b[t as int]));
                        assert(prevr.map_values(f).push(b[t as int]) =~= a + b.take(
                            t + 1 as int,
                        ));
                    }
                    t += 1;
                }
                proof {
                    let fl = spec_flatten(children@[j as int], new_path@);
                    assert(fl.take(fl.len() as int) =~= fl);
                    assert(children@.take(j + 1 as int) =~= children@.take(j as int).push(
                        children@[j as int],
                    ));
                    lemma_flatten_children_push(children@.take(j as int), children@[j as int],
                        new_path@);
                }
                j += 1;
            }
            proof {
                assert(children@.take(children@.len() as int) =~= children@);
            }
            r
        },
    }
}

/// Join a path prefix and a name with a slash; an empty prefix yields
/// the bare name.
fn join_path(prefix: &String, name: &String) -> (r: String)
    ensures
        r@ == spec_join_path(prefix@, name@),
{
    if prefix.as_str().unicode_len() == 0 {
        clone_string(name)
    } else {
        let mut s = clone_string(prefix);
        s.append("/");
        s.append(name.as_str());
        proof {
            reveal_strlit("/");
            assert(s@ =~= spec_join_path(prefix@, name@));
        }
        s
    }
}

} // verus!
