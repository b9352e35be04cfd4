//! Properties of the library as a whole.

use vstd::prelude::*;
use vstd::multiset::Multiset;
use vstd::arithmetic::power::pow;
use crate::duplicates::{
    content_hashes, crc32, duplicates_across, duplicates_by_content, first_with_hash, hash_groups,
    hash_groups_upto, lemma_same_hash_from, paths_at, same_hash_from,
};
use crate::listing::{
    SizeReading, all_decimal_digits, alphabetic, ascii_lower, ascii_lowercase, ascii_upper, ascii_uppercase, decimal_value,
    first_alphabetic, is_ascii_char, is_ascii_letter, is_ascii_text, is_white_space, lowercased, size_reading,
    trim_end, trim_start, trimmed, whole_bytes, without_plus,
};
use crate::listing::unit_bytes;
use crate::sizes::{candidates, files_of_size, is_size_grouping};
use crate::overview::{FolderView, listed_folders, listed_folders_in, count_in, is_overlap_summary, lemma_count_in_positive, other_parents, parents_outside};
use crate::path::{
    FilePath, PathView, paths_view, has_parent, in_directory, is_ancestor_or_self, is_child_of,
    lemma_path_lt_irreflexive, lemma_path_lt_transitive, path_lt,
};
use crate::tree::{
    DirectoryNode, all_files, children_sorted, dir_entries, entries_view, is_child_dir, is_tree_of,
    lemma_ancestor_reflexive, lemma_ancestor_transitive, others_of, without,
};

verus! {

/// Each index has a first index with its hash.
proof fn lemma_first_with_hash_exists(h: Seq<u32>, i: int)
    requires
        0 <= i < h.len(),
    ensures
        exists|f: int| 0 <= f <= i && h[f] == h[i] && first_with_hash(h, f),
    decreases i,
{
    if !first_with_hash(h, i) {
        let k = choose|k: int| 0 <= k < i && h[k] == h[i];
        lemma_first_with_hash_exists(h, k);
        let f = choose|f: int| 0 <= f <= k && h[f] == h[k] && first_with_hash(h, f);
        assert(0 <= f <= i && h[f] == h[i] && first_with_hash(h, f));
    } else {
        assert(0 <= i <= i && h[i] == h[i] && first_with_hash(h, i));
    }
}

/// Each group below `e` is the full index list of a first index below `e`,
/// the groups ordered by those first indices; and each first index below `e`
/// whose list has more than one index has its group.
proof fn lemma_hash_groups_upto(h: Seq<u32>, e: int)
    requires
        0 <= e <= h.len(),
        h.len() <= usize::MAX,
    ensures
        forall|a: int|
            0 <= a < hash_groups_upto(h, e).len() ==> {
                let g = #[trigger] hash_groups_upto(h, e)[a];
                &&& g.len() > 1
                &&& 0 <= g[0] < e
                &&& first_with_hash(h, g[0] as int)
                &&& g == same_hash_from(h, g[0] as int, h.len() as int)
            },
        forall|a: int, b: int|
            0 <= a < b < hash_groups_upto(h, e).len() ==> (#[trigger] hash_groups_upto(h, e)[a])[0]
                < (#[trigger] hash_groups_upto(h, e)[b])[0],
        forall|f: int|
            0 <= f < e && first_with_hash(h, f) && (#[trigger] same_hash_from(h, f, h.len() as int)).len()
                > 1 ==> exists|a: int|
                0 <= a < hash_groups_upto(h, e).len() && #[trigger] hash_groups_upto(h, e)[a]
                    == same_hash_from(h, f, h.len() as int),
    decreases e,
{
    if e > 0 {
        lemma_hash_groups_upto(h, e - 1);
        lemma_same_hash_from(h, e - 1, h.len() as int);
        let prev = hash_groups_upto(h, e - 1);
        let gs = hash_groups_upto(h, e);
        assert forall|a: int| 0 <= a < gs.len() implies {
            let g = #[trigger] gs[a];
            &&& g.len() > 1
            &&& 0 <= g[0] < e
            &&& first_with_hash(h, g[0] as int)
            &&& g == same_hash_from(h, g[0] as int, h.len() as int)
        } by {
            if a < prev.len() {
                assert(gs[a] == prev[a]);
            }
        }
        assert forall|a: int, b: int| 0 <= a < b < gs.len() implies (#[trigger] gs[a])[0] < (#[trigger] gs[b])[0] by {
            assert(gs[a] == prev[a]);
            if b < prev.len() {
                assert(gs[b] == prev[b]);
            }
        }
        assert forall|f: int|
            0 <= f < e && first_with_hash(h, f) && (#[trigger] same_hash_from(h, f, h.len() as int)).len() > 1
            implies exists|a: int| 0 <= a < gs.len() && #[trigger] gs[a] == same_hash_from(h, f, h.len() as int) by {
            if f < e - 1 {
                let a = choose|a: int| 0 <= a < prev.len() && #[trigger] prev[a] == same_hash_from(h, f, h.len() as int);
                assert(gs[a] == prev[a]);
            } else {
                assert(gs[gs.len() - 1] == same_hash_from(h, f, h.len() as int));
            }
        }
    }
}

/// Grouping by equal hash is a partition of the indices whose hash occurs
/// more than once: every group holds at least two indices, ascending, all
/// with the same hash; any two indices with the same hash are in one group;
/// no index is in two groups; and the groups come in the order of their
/// first indices.
pub proof fn law_hash_groups_partition(h: Seq<u32>)
    requires
        h.len() <= usize::MAX,
    ensures
        forall|a: int| 0 <= a < hash_groups(h).len() ==> (#[trigger] hash_groups(h)[a]).len() >= 2,
        forall|a: int, t: int|
            0 <= a < hash_groups(h).len() && 0 <= t < hash_groups(h)[a].len() ==> #[trigger] hash_groups(h)[a][t]
                < h.len() && h[hash_groups(h)[a][t] as int] == h[hash_groups(h)[a][0] as int],
        forall|a: int, t: int, u: int|
            0 <= a < hash_groups(h).len() && 0 <= t < u < hash_groups(h)[a].len() ==> #[trigger] hash_groups(h)[a][t]
                < #[trigger] hash_groups(h)[a][u],
        forall|i: int, j: int|
            0 <= i < j < h.len() && #[trigger] h[i] == #[trigger] h[j] ==> exists|a: int, t: int, u: int|
                0 <= a < hash_groups(h).len() && 0 <= t < hash_groups(h)[a].len() && 0 <= u < hash_groups(h)[a].len()
                    && #[trigger] hash_groups(h)[a][t] == i && #[trigger] hash_groups(h)[a][u] == j,
        forall|a: int, b: int, t: int, u: int|
            0 <= a < b < hash_groups(h).len() && 0 <= t < hash_groups(h)[a].len() && 0 <= u < hash_groups(h)[b].len()
                ==> #[trigger] hash_groups(h)[a][t] != #[trigger] hash_groups(h)[b][u],
        forall|a: int, b: int|
            0 <= a < b < hash_groups(h).len() ==> (#[trigger] hash_groups(h)[a])[0] < (#[trigger] hash_groups(h)[b])[0],
{
    let n = h.len() as int;
    let gs = hash_groups(h);
    lemma_hash_groups_upto(h, n);
    assert forall|a: int, t: int|
        0 <= a < gs.len() && 0 <= t < gs[a].len() implies #[trigger] gs[a][t] < h.len() && h[gs[a][t] as int] == h[gs[a][0] as int] by {
        let g = gs[a];
        lemma_same_hash_from(h, g[0] as int, n);
    }
    assert forall|a: int, t: int, u: int|
        0 <= a < gs.len() && 0 <= t < u < gs[a].len() implies #[trigger] gs[a][t] < #[trigger] gs[a][u] by {
        lemma_same_hash_from(h, gs[a][0] as int, n);
    }
    assert forall|i: int, j: int|
        0 <= i < j < h.len() && #[trigger] h[i] == #[trigger] h[j] implies exists|a: int, t: int, u: int|
            0 <= a < gs.len() && 0 <= t < gs[a].len() && 0 <= u < gs[a].len() && #[trigger] gs[a][t] == i
                && #[trigger] gs[a][u] == j by {
        lemma_first_with_hash_exists(h, i);
        let f = choose|f: int| 0 <= f <= i && h[f] == h[i] && first_with_hash(h, f);
        lemma_same_hash_from(h, f, n);
        let s = same_hash_from(h, f, n);
        assert(h[i] == h[f]);
        assert(h[j] == h[f]);
        let t = choose|t: int| 0 <= t < s.len() && #[trigger] s[t] == i;
        let u = choose|u: int| 0 <= u < s.len() && #[trigger] s[u] == j;
        assert(s.len() > 1);
        let a = choose|a: int| 0 <= a < gs.len() && #[trigger] gs[a] == same_hash_from(h, f, n);
        assert(gs[a][t] == i && gs[a][u] == j);
    }
    assert forall|a: int, b: int, t: int, u: int|
        0 <= a < b < gs.len() && 0 <= t < gs[a].len() && 0 <= u < gs[b].len()
        implies #[trigger] gs[a][t] != #[trigger] gs[b][u] by {
        let fa = gs[a][0] as int;
        let fb = gs[b][0] as int;
        lemma_same_hash_from(h, fa, n);
        lemma_same_hash_from(h, fb, n);
        assert(fa < fb);
        if gs[a][t] == gs[b][u] {
            let x = gs[a][t] as int;
            assert(h[x] == h[fa]);
            assert(h[x] == h[fb]);
            assert(h[fa] != h[fb]);
        }
    }
}

proof fn lemma_without(s: Seq<PathView>, f: PathView)
    ensures
        !without(s, f).contains(f),
        forall|x: PathView| #[trigger] without(s, f).contains(x) ==> s.contains(x),
    decreases s.len(),
{
    if s.len() > 0 {
        lemma_without(s.drop_last(), f);
        let w = without(s, f);
        let r = without(s.drop_last(), f);
        if w.contains(f) {
            let t = choose|t: int| 0 <= t < w.len() && w[t] == f;
            if s.last() != f && t < r.len() {
                assert(r[t] == f);
            }
        }
        assert forall|x: PathView| w.contains(x) implies s.contains(x) by {
            let t = choose|t: int| 0 <= t < w.len() && w[t] == x;
            if s.last() != f && t == r.len() {
                assert(s[s.len() - 1] == x);
            } else {
                assert(w[t] == r[t]);
                assert(r.contains(x));
                let v = choose|v: int| 0 <= v < s.drop_last().len() && s.drop_last()[v] == x;
                assert(s[v] == x);
            }
        }
    }
}

/// The files shown beside a file never include the file itself, and each of
/// them belongs to a group that also holds the file.
pub proof fn law_others_share_a_group(groups: Seq<Seq<PathView>>, f: PathView)
    ensures
        !others_of(groups, f).contains(f),
        forall|x: PathView|
            others_of(groups, f).contains(x) ==> exists|k: int|
                0 <= k < groups.len() && (#[trigger] groups[k]).contains(f) && groups[k].contains(x),
    decreases groups.len(),
{
    if groups.len() > 0 {
        if groups.last().contains(f) {
            lemma_without(groups.last(), f);
            assert forall|x: PathView| others_of(groups, f).contains(x) implies exists|k: int|
                0 <= k < groups.len() && (#[trigger] groups[k]).contains(f) && groups[k].contains(x) by {
                assert(groups[groups.len() - 1] == groups.last());
            }
        } else {
            law_others_share_a_group(groups.drop_last(), f);
            assert forall|x: PathView| others_of(groups, f).contains(x) implies exists|k: int|
                0 <= k < groups.len() && (#[trigger] groups[k]).contains(f) && groups[k].contains(x) by {
                let k = choose|k: int| 0 <= k < groups.drop_last().len() && (#[trigger] groups.drop_last()[k]).contains(f) && groups.drop_last()[k].contains(x);
                assert(groups[k] == groups.drop_last()[k]);
            }
        }
    }
}

/// How many of the entries `es` are for the file `f`.
pub open spec fn entry_count(es: Seq<(PathView, Seq<PathView>)>, f: PathView) -> nat
    decreases es.len(),
{
    if es.len() == 0 {
        0
    } else if es.last().0 == f {
        entry_count(es.drop_last(), f) + 1
    } else {
        entry_count(es.drop_last(), f)
    }
}

/// How many times the tree `node` shows the file `f`, at the node or below it.
pub open spec fn times_shown(node: DirectoryNode, f: PathView) -> nat
    decreases node,
{
    entry_count(entries_view(node.files@), f) + times_shown_in(node.children@, f)
}

/// How many times the trees `nodes` together show the file `f`.
pub open spec fn times_shown_in(nodes: Seq<DirectoryNode>, f: PathView) -> nat
    decreases nodes,
{
    if nodes.len() == 0 {
        0
    } else {
        times_shown_in(nodes.drop_last(), f) + times_shown(nodes.last(), f)
    }
}

/// The entries for `d` hold `f` as often as `files` does where `d` is the
/// directory of `f`, and not at all otherwise.
proof fn lemma_entry_count(groups: Seq<Seq<PathView>>, files: Seq<PathView>, d: PathView, f: PathView)
    ensures
        entry_count(dir_entries(groups, files, d), f) == (if in_directory(f, d) {
            count_in(files, f)
        } else {
            0
        }),
    decreases files.len(),
{
    if files.len() > 0 {
        let rest = dir_entries(groups, files.drop_last(), d);
        lemma_entry_count(groups, files.drop_last(), d, f);
        if in_directory(files.last(), d) {
            let e = (files.last(), others_of(groups, files.last()));
            assert(rest.push(e).drop_last() =~= rest);
        }
    }
}

/// Two directories of equal depth on the way to `d` are the same directory.
proof fn lemma_ancestors_of_equal_depth(a: PathView, b: PathView, d: PathView)
    requires
        is_ancestor_or_self(a, d),
        is_ancestor_or_self(b, d),
        a.len() == b.len(),
    ensures
        a == b,
{
    assert(a =~= b);
}

/// Subtrees for distinct directories directly inside `p` together show a
/// duplicated file as often as it occurs where one of them is on the way to
/// its directory, and not at all otherwise.
proof fn lemma_times_shown_in(nodes: Seq<DirectoryNode>, groups: Seq<Seq<PathView>>, p: PathView, f: PathView)
    requires
        forall|i: int|
            0 <= i < nodes.len() ==> is_tree_of(#[trigger] nodes[i], groups, nodes[i].path@) && is_child_of(
                p,
                nodes[i].path@,
            ),
        forall|i: int, j: int| 0 <= i < j < nodes.len() ==> (#[trigger] nodes[i]).path@ != (#[trigger] nodes[j]).path@,
    ensures
        times_shown_in(nodes, f) == (if has_parent(f) && exists|i: int|
            0 <= i < nodes.len() && is_ancestor_or_self((#[trigger] nodes[i]).path@, f.drop_last()) {
            count_in(all_files(groups), f)
        } else {
            0
        }),
    decreases nodes,
{
    if nodes.len() > 0 {
        let rest = nodes.drop_last();
        let last = nodes.last();
        assert(last == nodes[nodes.len() - 1]);
        assert forall|i: int| 0 <= i < rest.len() implies is_tree_of(#[trigger] rest[i], groups, rest[i].path@)
            && is_child_of(p, rest[i].path@) by {
            assert(rest[i] == nodes[i]);
        }
        assert forall|i: int, j: int| 0 <= i < j < rest.len() implies (#[trigger] rest[i]).path@ != (#[trigger] rest[j]).path@ by {
            assert(rest[i] == nodes[i]);
            assert(rest[j] == nodes[j]);
        }
        lemma_times_shown_in(rest, groups, p, f);
        law_tree_shows_each_duplicate(last, groups, last.path@, f);
        if has_parent(f) {
            let d = f.drop_last();
            if is_ancestor_or_self(last.path@, d) {
                assert forall|i: int| 0 <= i < rest.len() implies !is_ancestor_or_self((#[trigger] rest[i]).path@, d) by {
                    assert(rest[i] == nodes[i]);
                    if is_ancestor_or_self(rest[i].path@, d) {
                        lemma_ancestors_of_equal_depth(rest[i].path@, last.path@, d);
                    }
                }
            } else {
                if exists|i: int| 0 <= i < nodes.len() && is_ancestor_or_self((#[trigger] nodes[i]).path@, d) {
                    let i = choose|i: int| 0 <= i < nodes.len() && is_ancestor_or_self((#[trigger] nodes[i]).path@, d);
                    assert(rest[i] == nodes[i]);
                }
                if exists|i: int| 0 <= i < rest.len() && is_ancestor_or_self((#[trigger] rest[i]).path@, d) {
                    let i = choose|i: int| 0 <= i < rest.len() && is_ancestor_or_self((#[trigger] rest[i]).path@, d);
                    assert(rest[i] == nodes[i]);
                }
            }
        }
    }
}

/// The tree for a directory `p` shows each duplicated file whose directory is
/// `p` or lies below it exactly as often as the file occurs in the groups (so
/// once, where no file is repeated), and shows no other file.
pub proof fn law_tree_shows_each_duplicate(node: DirectoryNode, groups: Seq<Seq<PathView>>, p: PathView, f: PathView)
    requires
        is_tree_of(node, groups, p),
    ensures
        times_shown(node, f) == (if has_parent(f) && is_ancestor_or_self(p, f.drop_last()) {
            count_in(all_files(groups), f)
        } else {
            0
        }),
    decreases node,
{
    let files = all_files(groups);
    let children = node.children@;
    lemma_entry_count(groups, files, p, f);
    assert forall|i: int| 0 <= i < children.len() implies is_tree_of(#[trigger] children[i], groups, children[i].path@)
        && is_child_of(p, children[i].path@) by {
        let c = children[i].path@;
        assert(exists|j: int| 0 <= j < node.children@.len() && (#[trigger] node.children@[j]).path@ == c);
        assert(is_child_dir(groups, p, c));
    }
    assert forall|i: int, j: int| 0 <= i < j < children.len() implies (#[trigger] children[i]).path@ != (#[trigger] children[j]).path@ by {
        lemma_path_lt_irreflexive(children[i].path@);
    }
    lemma_times_shown_in(children, groups, p, f);
    lemma_ancestor_reflexive(p);
    if has_parent(f) {
        let d = f.drop_last();
        if d == p {
            assert forall|i: int| 0 <= i < children.len() implies !is_ancestor_or_self((#[trigger] children[i]).path@, d) by {}
        } else if is_ancestor_or_self(p, d) {
            lemma_count_in_positive(files, f);
            if count_in(files, f) > 0 {
                let w = choose|w: int| 0 <= w < files.len() && files[w] == f;
                let c = d.subrange(0, p.len() as int + 1);
                if d.len() == p.len() {
                    lemma_ancestor_reflexive(d);
                    lemma_ancestors_of_equal_depth(p, d, d);
                }
                assert(c.subrange(0, p.len() as int) =~= d.subrange(0, p.len() as int));
                assert(d.subrange(0, c.len() as int) =~= c);
                assert(is_child_dir(groups, p, c));
                let i = choose|i: int| 0 <= i < node.children@.len() && (#[trigger] node.children@[i]).path@ == c;
                assert(is_ancestor_or_self(children[i].path@, d));
            }
        } else {
            assert forall|i: int| 0 <= i < children.len() implies !is_ancestor_or_self((#[trigger] children[i]).path@, d) by {
                if is_ancestor_or_self(children[i].path@, d) {
                    lemma_ancestor_transitive(p, children[i].path@, d);
                }
            }
        }
    }
}

/// `a` and `b` show the same directories, in the same order, with the same
/// entries.
pub open spec fn same_tree(a: DirectoryNode, b: DirectoryNode) -> bool
    decreases a,
{
    &&& a.path@ == b.path@
    &&& entries_view(a.files@) == entries_view(b.files@)
    &&& a.children@.len() == b.children@.len()
    &&& forall|i: int| 0 <= i < a.children@.len() ==> same_tree(#[trigger] a.children@[i], b.children@[i])
}

/// The directories of `nodes`, in order.
pub open spec fn node_paths(nodes: Seq<DirectoryNode>) -> Seq<PathView> {
    nodes.map_values(|n: DirectoryNode| n.path@)
}

/// `s` ascends strictly in path order.
pub open spec fn strictly_sorted(s: Seq<PathView>) -> bool {
    forall|i: int, j: int| 0 <= i < j < s.len() ==> path_lt(#[trigger] s[i], #[trigger] s[j])
}

/// Two strictly sorted sequences of paths with the same members are equal.
proof fn lemma_sorted_paths_equal(s: Seq<PathView>, t: Seq<PathView>)
    requires
        strictly_sorted(s),
        strictly_sorted(t),
        forall|x: PathView| s.contains(x) <==> t.contains(x),
    ensures
        s == t,
    decreases s.len(),
{
    if s.len() == 0 {
        if t.len() > 0 {
            assert(t.contains(t[0]));
        }
        assert(s =~= t);
    } else {
        assert(s.contains(s[0]));
        let j = choose|j: int| 0 <= j < t.len() && t[j] == s[0];
        assert(t.contains(t[0]));
        let k = choose|k: int| 0 <= k < s.len() && s[k] == t[0];
        if j > 0 {
            assert(path_lt(t[0], t[j]));
            if k > 0 {
                assert(path_lt(s[0], s[k]));
                lemma_path_lt_transitive(s[0], t[0], s[0]);
            }
            lemma_path_lt_irreflexive(s[0]);
        }
        assert(s[0] == t[0]);
        let s1 = s.drop_first();
        let t1 = t.drop_first();
        assert forall|x: PathView| s1.contains(x) <==> t1.contains(x) by {
            if s1.contains(x) {
                let a = choose|a: int| 0 <= a < s1.len() && s1[a] == x;
                assert(s[a + 1] == x);
                assert(path_lt(s[0], s[a + 1]));
                lemma_path_lt_irreflexive(x);
                assert(s.contains(x));
                let b = choose|b: int| 0 <= b < t.len() && t[b] == x;
                assert(t1[b - 1] == x);
            }
            if t1.contains(x) {
                let a = choose|a: int| 0 <= a < t1.len() && t1[a] == x;
                assert(t[a + 1] == x);
                assert(path_lt(t[0], t[a + 1]));
                lemma_path_lt_irreflexive(x);
                assert(t.contains(x));
                let b = choose|b: int| 0 <= b < s.len() && s[b] == x;
                assert(s1[b - 1] == x);
            }
        }
        assert forall|a: int, b: int| 0 <= a < b < s1.len() implies path_lt(#[trigger] s1[a], #[trigger] s1[b]) by {
            assert(s1[a] == s[a + 1] && s1[b] == s[b + 1]);
        }
        assert forall|a: int, b: int| 0 <= a < b < t1.len() implies path_lt(#[trigger] t1[a], #[trigger] t1[b]) by {
            assert(t1[a] == t[a + 1] && t1[b] == t[b + 1]);
        }
        lemma_sorted_paths_equal(s1, t1);
        assert forall|i: int| 0 <= i < s.len() implies s[i] == t[i] by {
            if i > 0 {
                assert(s1[i - 1] == t1[i - 1]);
            }
        }
        assert(s =~= t);
    }
}

/// The tree for a directory is determined by the directory and the groups
/// alone: two trees that both meet `is_tree_of` for them are the same tree,
/// so equal inputs give equal trees whatever order they were gathered in.
pub proof fn law_tree_is_unique(a: DirectoryNode, b: DirectoryNode, groups: Seq<Seq<PathView>>, p: PathView)
    requires
        is_tree_of(a, groups, p),
        is_tree_of(b, groups, p),
    ensures
        same_tree(a, b),
    decreases a,
{
    let sa = node_paths(a.children@);
    let sb = node_paths(b.children@);
    assert forall|i: int, j: int| 0 <= i < j < sa.len() implies path_lt(#[trigger] sa[i], #[trigger] sa[j]) by {
        assert(children_sorted(a.children@));
        assert(path_lt(a.children@[i].path@, a.children@[j].path@));
    }
    assert forall|i: int, j: int| 0 <= i < j < sb.len() implies path_lt(#[trigger] sb[i], #[trigger] sb[j]) by {
        assert(children_sorted(b.children@));
        assert(path_lt(b.children@[i].path@, b.children@[j].path@));
    }
    assert forall|x: PathView| sa.contains(x) <==> sb.contains(x) by {
        if sa.contains(x) {
            let i = choose|i: int| 0 <= i < sa.len() && sa[i] == x;
            assert(a.children@[i].path@ == x);
            assert(is_child_dir(groups, p, x));
            let j = choose|j: int| 0 <= j < b.children@.len() && (#[trigger] b.children@[j]).path@ == x;
            assert(sb[j] == x);
        }
        if sb.contains(x) {
            let i = choose|i: int| 0 <= i < sb.len() && sb[i] == x;
            assert(b.children@[i].path@ == x);
            assert(is_child_dir(groups, p, x));
            let j = choose|j: int| 0 <= j < a.children@.len() && (#[trigger] a.children@[j]).path@ == x;
            assert(sa[j] == x);
        }
    }
    lemma_sorted_paths_equal(sa, sb);
    assert(a.children@.len() == sa.len());
    assert forall|i: int| 0 <= i < a.children@.len() implies same_tree(#[trigger] a.children@[i], b.children@[i]) by {
        assert(sa[i] == sb[i]);
        law_tree_is_unique(a.children@[i], b.children@[i], groups, a.children@[i].path@);
    }
}

/// The duplicates found in one group of files of equal size: none for a group
/// of at most one file.
pub open spec fn found_in(group: Vec<(FilePath, Vec<u8>)>) -> Seq<Seq<PathView>> {
    if group@.len() <= 1 {
        Seq::empty()
    } else {
        duplicates_by_content(group@)
    }
}

proof fn lemma_duplicates_across_last(groups: Seq<Vec<(FilePath, Vec<u8>)>>)
    requires
        groups.len() > 0,
    ensures
        duplicates_across(groups) == duplicates_across(groups.drop_last()) + found_in(groups.last()),
{
    if groups.last()@.len() <= 1 {
        assert(duplicates_across(groups.drop_last()) + Seq::<Seq<PathView>>::empty() =~= duplicates_across(
            groups.drop_last(),
        ));
    }
}

/// Taking one group of equal size out of `groups` takes out just what was
/// found in it.
proof fn lemma_duplicates_across_remove(groups: Seq<Vec<(FilePath, Vec<u8>)>>, k: int)
    requires
        0 <= k < groups.len(),
    ensures
        duplicates_across(groups).to_multiset() == duplicates_across(groups.remove(k)).to_multiset().add(
            found_in(groups[k]).to_multiset(),
        ),
    decreases groups.len(),
{
    broadcast use vstd::seq_lib::lemma_multiset_commutative;

    lemma_duplicates_across_last(groups);
    let rest = groups.drop_last();
    if k == groups.len() - 1 {
        assert(groups.remove(k) =~= rest);
    } else {
        lemma_duplicates_across_remove(rest, k);
        let r = groups.remove(k);
        assert(r.drop_last() =~= rest.remove(k));
        assert(r.last() == groups.last());
        lemma_duplicates_across_last(r);
        assert(duplicates_across(groups).to_multiset() =~= duplicates_across(r).to_multiset().add(
            found_in(groups[k]).to_multiset(),
        ));
    }
}

/// Listing the groups of files of equal size in another order finds the same
/// groups of duplicates, only possibly in another order; each group keeps its
/// files in the order of its group of equal size.
pub proof fn law_group_order_does_not_matter(a: Seq<Vec<(FilePath, Vec<u8>)>>, b: Seq<Vec<(FilePath, Vec<u8>)>>)
    requires
        a.to_multiset() == b.to_multiset(),
    ensures
        duplicates_across(a).to_multiset() == duplicates_across(b).to_multiset(),
    decreases a.len(),
{
    broadcast use vstd::seq_lib::group_to_multiset_ensures;
    broadcast use vstd::seq_lib::to_multiset_contains;
    broadcast use vstd::seq_lib::lemma_multiset_commutative;
    broadcast use vstd::multiset::group_multiset_axioms;

    if a.len() == 0 {
        assert(a.to_multiset() =~= Multiset::empty());
        vstd::seq_lib::to_multiset_len(b);
        assert(b.to_multiset().len() == 0);
        assert(b.len() == 0);
        assert(duplicates_across(a) =~= duplicates_across(b));
    } else {
        let x = a.last();
        let rest = a.drop_last();
        assert(a =~= rest.push(x));
        assert(a.to_multiset().count(x) > 0);
        assert(b.to_multiset().count(x) > 0);
        let k = choose|k: int| 0 <= k < b.len() && b[k] == x;
        assert(b.remove(k).to_multiset() == b.to_multiset().remove(x));
        assert(rest.to_multiset() =~= a.to_multiset().remove(x));
        law_group_order_does_not_matter(rest, b.remove(k));
        lemma_duplicates_across_last(a);
        lemma_duplicates_across_remove(b, k);
    }
}

/// The digit character for `d`, below ten.
pub open spec fn digit_char(d: nat) -> char {
    (('0' as nat) + d) as char
}

/// The decimal digits of `n`, without leading zeros, as a `u64` is written
/// by `to_string`.
pub open spec fn decimal_text(n: nat) -> Seq<char>
    decreases n,
{
    if n < 10 {
        seq![digit_char(n)]
    } else {
        decimal_text(n / 10).push(digit_char(n % 10))
    }
}

proof fn lemma_decimal_text(n: nat)
    ensures
        decimal_text(n).len() > 0,
        forall|i: int| 0 <= i < decimal_text(n).len() ==> '0' <= #[trigger] decimal_text(n)[i] <= '9',
        decimal_value(decimal_text(n)) == n,
    decreases n,
{
    let t = decimal_text(n);
    if n < 10 {
        assert(digit_char(n) as int == 48 + n);
        assert(t.drop_last() =~= Seq::<char>::empty());
        assert(decimal_value(t.drop_last()) == 0);
    } else {
        lemma_decimal_text(n / 10);
        assert(t.drop_last() =~= decimal_text(n / 10));
        assert(digit_char(n % 10) as int == 48 + n % 10);
        assert forall|i: int| 0 <= i < t.len() implies '0' <= #[trigger] t[i] <= '9' by {
            if i < t.len() - 1 {
                assert(t[i] == decimal_text(n / 10)[i]);
            }
        }
    }
}

/// Any whole number of bytes, written out in decimal digits, reads back as
/// that number.
pub proof fn law_whole_number_reads_back(n: u64)
    ensures
        size_reading(decimal_text(n as nat)) == SizeReading::Bytes(n),
{
    let t = decimal_text(n as nat);
    lemma_decimal_text(n as nat);
    assert(!is_white_space(t[0]));
    assert(trim_start(t) == t);
    assert(t.last() == t[t.len() - 1]);
    assert(!is_white_space(t.last()));
    assert(trim_end(t) == t);
    assert(t[0] != '+');
    assert(whole_bytes(t) == Some(n));
}

/// `c` with its ASCII letter case changed: put in upper case where `upper`,
/// in lower case otherwise.
pub open spec fn case_changed(c: char, upper: bool) -> char {
    if upper {
        ascii_upper(c)
    } else {
        ascii_lower(c)
    }
}

/// `text` with the case of its ASCII letters changed as `case_changed` tells.
pub open spec fn text_case_changed(text: Seq<char>, upper: bool) -> Seq<char> {
    text.map_values(|c: char| case_changed(c, upper))
}

proof fn lemma_case_changed_char(c: char, upper: bool)
    requires
        is_ascii_char(c),
    ensures
        is_ascii_char(case_changed(c, upper)),
        is_ascii_letter(case_changed(c, upper)) == is_ascii_letter(c),
        !is_ascii_letter(c) ==> case_changed(c, upper) == c,
        is_white_space(case_changed(c, upper)) == is_white_space(c),
        alphabetic(case_changed(c, upper)) == alphabetic(c),
        ascii_lower(case_changed(c, upper)) == ascii_lower(c),
{
}

proof fn lemma_trim_case_changed(text: Seq<char>, upper: bool)
    requires
        is_ascii_text(text),
    ensures
        trim_start(text_case_changed(text, upper)) == text_case_changed(trim_start(text), upper),
        trim_end(text_case_changed(text, upper)) == text_case_changed(trim_end(text), upper),
        is_ascii_text(trim_start(text)),
        is_ascii_text(trim_end(text)),
    decreases text.len(),
{
    let u = text_case_changed(text, upper);
    if text.len() > 0 {
        lemma_case_changed_char(text[0], upper);
        lemma_case_changed_char(text.last(), upper);
        assert(u.drop_first() =~= text_case_changed(text.drop_first(), upper));
        assert(u.drop_last() =~= text_case_changed(text.drop_last(), upper));
        assert(u.last() == case_changed(text.last(), upper));
        assert(is_ascii_text(text.drop_first())) by {
            assert forall|i: int| 0 <= i < text.drop_first().len() implies is_ascii_char(#[trigger] text.drop_first()[i]) by {
                assert(text.drop_first()[i] == text[i + 1]);
            }
        }
        assert(is_ascii_text(text.drop_last())) by {
            assert forall|i: int| 0 <= i < text.drop_last().len() implies is_ascii_char(#[trigger] text.drop_last()[i]) by {
                assert(text.drop_last()[i] == text[i]);
            }
        }
        lemma_trim_case_changed(text.drop_first(), upper);
        lemma_trim_case_changed(text.drop_last(), upper);
    }
}

proof fn lemma_ascii_sub(text: Seq<char>, a: int, b: int)
    requires
        is_ascii_text(text),
        0 <= a <= b <= text.len(),
    ensures
        is_ascii_text(text.subrange(a, b)),
{
    assert forall|i: int| 0 <= i < b - a implies is_ascii_char(#[trigger] text.subrange(a, b)[i]) by {
        assert(text.subrange(a, b)[i] == text[a + i]);
    }
}

proof fn lemma_trimmed_case_changed(text: Seq<char>, upper: bool)
    requires
        is_ascii_text(text),
    ensures
        trimmed(text_case_changed(text, upper)) == text_case_changed(trimmed(text), upper),
        is_ascii_text(trimmed(text)),
{
    lemma_trim_case_changed(text, upper);
    lemma_trim_case_changed(trim_start(text), upper);
}

proof fn lemma_first_alphabetic_case_changed(text: Seq<char>, upper: bool)
    requires
        is_ascii_text(text),
    ensures
        first_alphabetic(text_case_changed(text, upper)) == first_alphabetic(text),
    decreases text.len(),
{
    if text.len() > 0 {
        let u = text_case_changed(text, upper);
        lemma_case_changed_char(text[0], upper);
        assert(u.drop_first() =~= text_case_changed(text.drop_first(), upper));
        lemma_ascii_sub(text, 1, text.len() as int);
        assert(text.drop_first() == text.subrange(1, text.len() as int));
        lemma_first_alphabetic_case_changed(text.drop_first(), upper);
    }
}

proof fn lemma_whole_bytes_case_changed(text: Seq<char>, upper: bool)
    requires
        is_ascii_text(text),
    ensures
        whole_bytes(text_case_changed(text, upper)) == whole_bytes(text),
{
    let u = text_case_changed(text, upper);
    if exists|i: int| 0 <= i < text.len() && is_ascii_letter(#[trigger] text[i]) {
        let i = choose|i: int| 0 <= i < text.len() && is_ascii_letter(#[trigger] text[i]);
        lemma_case_changed_char(text[i], upper);
        assert(is_ascii_letter(u[i]));
        let j = if text[0] == '+' { i - 1 } else { i };
        let dt = without_plus(text);
        let du = without_plus(u);
        lemma_case_changed_char(text[0], upper);
        assert(u[0] == '+' <==> text[0] == '+');
        assert(dt[j] == text[i]);
        assert(du[j] == u[i]);
        assert(!all_decimal_digits(dt));
        assert(!all_decimal_digits(du));
        assert(whole_bytes(text) is None);
        assert(whole_bytes(u) is None);
    } else {
        assert forall|i: int| 0 <= i < text.len() implies #[trigger] u[i] == text[i] by {
            lemma_case_changed_char(text[i], upper);
        }
        assert(u =~= text);
    }
}

proof fn lemma_lowercased_case_changed(text: Seq<char>, upper: bool)
    requires
        is_ascii_text(text),
    ensures
        lowercased(text_case_changed(text, upper)) == lowercased(text),
{
    let u = text_case_changed(text, upper);
    assert forall|i: int| 0 <= i < u.len() implies is_ascii_char(#[trigger] u[i]) by {
        lemma_case_changed_char(text[i], upper);
    }
    assert forall|i: int| 0 <= i < u.len() implies #[trigger] ascii_lowercase(u)[i] == ascii_lowercase(text)[i] by {
        lemma_case_changed_char(text[i], upper);
    }
    assert(ascii_lowercase(u) =~= ascii_lowercase(text));
}

proof fn lemma_size_reading_case_changed(input: Seq<char>, upper: bool)
    requires
        is_ascii_text(input),
    ensures
        size_reading(text_case_changed(input, upper)) == size_reading(input),
{
    let t = trimmed(input);
    lemma_trimmed_case_changed(input, upper);
    let u = text_case_changed(t, upper);
    assert(trimmed(text_case_changed(input, upper)) == u);
    lemma_whole_bytes_case_changed(t, upper);
    lemma_first_alphabetic_case_changed(t, upper);
    crate::listing::lemma_first_alphabetic(t);
    match first_alphabetic(t) {
        Some(k) => {
            assert(u.skip(k) =~= text_case_changed(t.skip(k), upper));
            assert(u.take(k) =~= text_case_changed(t.take(k), upper));
            lemma_ascii_sub(t, k, t.len() as int);
            lemma_ascii_sub(t, 0, k);
            assert(t.skip(k) == t.subrange(k, t.len() as int));
            assert(t.take(k) == t.subrange(0, k));
            lemma_trimmed_case_changed(t.skip(k), upper);
            lemma_lowercased_case_changed(trimmed(t.skip(k)), upper);
            lemma_trimmed_case_changed(t.take(k), upper);
            assert forall|j: int| 0 <= j < k implies #[trigger] t.take(k)[j] == case_changed(t.take(k)[j], upper) by {
                assert(!alphabetic(t[j]));
                lemma_case_changed_char(t[j], upper);
            }
            assert(text_case_changed(t.take(k), upper) =~= t.take(k));
        },
        None => {},
    }
}

/// On ASCII text, the size read does not depend on the case of the letters:
/// units may be written in capital or small letters alike.
pub proof fn law_ascii_size_text_ignores_case(input: Seq<char>)
    requires
        is_ascii_text(input),
    ensures
        size_reading(ascii_uppercase(input)) == size_reading(input),
        size_reading(ascii_lowercase(input)) == size_reading(input),
{
    lemma_size_reading_case_changed(input, true);
    lemma_size_reading_case_changed(input, false);
    assert(ascii_uppercase(input) =~= text_case_changed(input, true));
    assert(ascii_lowercase(input) =~= text_case_changed(input, false));
}

/// The short form of the unit of `1024` to the power `k` bytes: `b`, `kb`,
/// `mb`, `gb`, `tb` for `k` from 0 to 4.
pub open spec fn unit_short_form(k: nat) -> Seq<char> {
    if k == 0 {
        "b"@
    } else if k == 1 {
        "kb"@
    } else if k == 2 {
        "mb"@
    } else if k == 3 {
        "gb"@
    } else {
        "tb"@
    }
}

/// The name of the unit of `1024` to the power `k` bytes: `byte`,
/// `kilobyte`, `megabyte`, `gigabyte`, `terabyte` for `k` from 0 to 4.
pub open spec fn unit_name(k: nat) -> Seq<char> {
    if k == 0 {
        "byte"@
    } else if k == 1 {
        "kilobyte"@
    } else if k == 2 {
        "megabyte"@
    } else if k == 3 {
        "gigabyte"@
    } else {
        "terabyte"@
    }
}

/// Each of the units of 1024 to the power 0 to 4 bytes is known by its
/// short form, its name and its name in the plural, all three for the same
/// number of bytes; no other text is a unit.
pub proof fn law_units_and_their_sizes(k: nat, unit: Seq<char>)
    requires
        k <= 4,
    ensures
        unit_bytes(unit_short_form(k)) == Some(pow(1024, k) as u64),
        unit_bytes(unit_name(k)) == Some(pow(1024, k) as u64),
        unit_bytes(unit_name(k) + "s"@) == Some(pow(1024, k) as u64),
        unit_bytes(unit) is Some ==> exists|j: nat|
            j <= 4 && (unit == unit_short_form(j) || unit == unit_name(j) || unit == unit_name(j) + "s"@),
{
    reveal_strlit("b");
    reveal_strlit("kb");
    reveal_strlit("mb");
    reveal_strlit("gb");
    reveal_strlit("tb");
    reveal_strlit("byte");
    reveal_strlit("kilobyte");
    reveal_strlit("megabyte");
    reveal_strlit("gigabyte");
    reveal_strlit("terabyte");
    reveal_strlit("bytes");
    reveal_strlit("kilobytes");
    reveal_strlit("megabytes");
    reveal_strlit("gigabytes");
    reveal_strlit("terabytes");
    reveal_strlit("s");
    assert("b"@.len() == 1 && "b"@[0] == 'b');
    assert("kb"@.len() == 2 && "kb"@[0] == 'k');
    assert("mb"@.len() == 2 && "mb"@[0] == 'm');
    assert("gb"@.len() == 2 && "gb"@[0] == 'g');
    assert("tb"@.len() == 2 && "tb"@[0] == 't');
    assert("byte"@.len() == 4 && "byte"@[0] == 'b');
    assert("kilobyte"@.len() == 8 && "kilobyte"@[0] == 'k');
    assert("megabyte"@.len() == 8 && "megabyte"@[0] == 'm');
    assert("gigabyte"@.len() == 8 && "gigabyte"@[0] == 'g');
    assert("terabyte"@.len() == 8 && "terabyte"@[0] == 't');
    assert("bytes"@.len() == 5 && "bytes"@[0] == 'b');
    assert("kilobytes"@.len() == 9 && "kilobytes"@[0] == 'k');
    assert("megabytes"@.len() == 9 && "megabytes"@[0] == 'm');
    assert("gigabytes"@.len() == 9 && "gigabytes"@[0] == 'g');
    assert("terabytes"@.len() == 9 && "terabytes"@[0] == 't');
    reveal_with_fuel(pow, 5);
    assert(pow(1024, 0) == 1);
    assert(pow(1024, 1) == 1024);
    assert(pow(1024, 2) == 1048576);
    assert(pow(1024, 3) == 1073741824);
    assert(pow(1024, 4) == 1099511627776);
    assert("byte"@ + "s"@ =~= "bytes"@);
    assert("kilobyte"@ + "s"@ =~= "kilobytes"@);
    assert("megabyte"@ + "s"@ =~= "megabytes"@);
    assert("gigabyte"@ + "s"@ =~= "gigabytes"@);
    assert("terabyte"@ + "s"@ =~= "terabytes"@);
    if k == 0 {
        assert(unit_bytes("b"@) == Some(1u64));
        assert(unit_bytes("byte"@) == Some(1u64));
    } else if k == 1 {
        assert(unit_bytes("kb"@) == Some(1024u64));
        assert(unit_bytes("kilobyte"@) == Some(1024u64));
    } else if k == 2 {
        assert(unit_bytes("mb"@) == Some(1048576u64));
        assert(unit_bytes("megabyte"@) == Some(1048576u64));
    } else if k == 3 {
        assert(unit_bytes("gb"@) == Some(1073741824u64));
        assert(unit_bytes("gigabyte"@) == Some(1073741824u64));
    } else {
        assert(unit_bytes("tb"@) == Some(1099511627776u64));
        assert(unit_bytes("terabyte"@) == Some(1099511627776u64));
    }
    if unit_bytes(unit) is Some {
        if unit == "b"@ || unit == "byte"@ || unit == "bytes"@ {
            assert(unit == unit_short_form(0) || unit == unit_name(0) || unit == unit_name(0) + "s"@);
        } else if unit == "kb"@ || unit == "kilobyte"@ || unit == "kilobytes"@ {
            assert(unit == unit_short_form(1) || unit == unit_name(1) || unit == unit_name(1) + "s"@);
        } else if unit == "mb"@ || unit == "megabyte"@ || unit == "megabytes"@ {
            assert(unit == unit_short_form(2) || unit == unit_name(2) || unit == unit_name(2) + "s"@);
        } else if unit == "gb"@ || unit == "gigabyte"@ || unit == "gigabytes"@ {
            assert(unit == unit_short_form(3) || unit == unit_name(3) || unit == unit_name(3) + "s"@);
        } else {
            assert(unit == unit_short_form(4) || unit == unit_name(4) || unit == unit_name(4) + "s"@);
        }
    }
}

/// How many of the listed files have `size` bytes.
pub open spec fn number_of_size(files: Seq<(PathView, u64)>, size: u64) -> nat
    decreases files.len(),
{
    if files.len() == 0 {
        0
    } else {
        number_of_size(files.drop_last(), size) + if files.last().1 == size {
            1nat
        } else {
            0nat
        }
    }
}

/// `x` is one of the listed files, with `size` bytes.
pub open spec fn listed_with_size(files: Seq<(PathView, u64)>, size: u64, x: PathView) -> bool {
    exists|i: int| 0 <= i < files.len() && (#[trigger] files[i]).1 == size && files[i].0 == x
}

proof fn lemma_files_of_size(files: Seq<(PathView, u64)>, size: u64)
    ensures
        files_of_size(files, size).len() == number_of_size(files, size),
        forall|i: int|
            0 <= i < files.len() && (#[trigger] files[i]).1 == size ==> files_of_size(files, size).contains(
                files[i].0,
            ),
        forall|t: int|
            0 <= t < files_of_size(files, size).len() ==> listed_with_size(
                files,
                size,
                #[trigger] files_of_size(files, size)[t],
            ),
    decreases files.len(),
{
    if files.len() > 0 {
        let rest = files.drop_last();
        lemma_files_of_size(rest, size);
        let r = files_of_size(rest, size);
        let all = files_of_size(files, size);
        assert forall|i: int| 0 <= i < files.len() && (#[trigger] files[i]).1 == size implies all.contains(files[i].0) by {
            if i < files.len() - 1 {
                assert(rest[i] == files[i]);
                let t = choose|t: int| 0 <= t < r.len() && r[t] == rest[i].0;
                assert(all[t] == r[t]);
            } else {
                assert(all[all.len() - 1] == files.last().0);
            }
        }
        assert forall|t: int| 0 <= t < all.len() implies listed_with_size(files, size, #[trigger] all[t]) by {
            if t < r.len() {
                assert(all[t] == r[t]);
                assert(listed_with_size(rest, size, r[t]));
                let i = choose|i: int| 0 <= i < rest.len() && (#[trigger] rest[i]).1 == size && rest[i].0 == r[t];
                assert(files[i] == rest[i]);
                assert(files[i].1 == size && files[i].0 == all[t]);
            } else {
                let i = files.len() - 1;
                assert(files[i] == files.last());
                assert(files[i].1 == size && files[i].0 == all[t]);
            }
        }
    }
}

/// Grouping by size puts every file of at least the minimum size in the
/// group of its size, and nothing else: each group holds exactly as many
/// files as the listing has of that size, each of them a listed file of that
/// size, and every group's size is at least the minimum.
pub proof fn law_size_groups_hold_every_file(
    groups: Seq<(u64, Seq<PathView>)>,
    files: Seq<(PathView, u64)>,
    min_size: u64,
)
    requires
        is_size_grouping(groups, files, min_size),
    ensures
        forall|i: int|
            0 <= i < files.len() && (#[trigger] files[i]).1 >= min_size ==> exists|k: int|
                0 <= k < groups.len() && (#[trigger] groups[k]).0 == files[i].1 && groups[k].1.contains(
                    files[i].0,
                ),
        forall|k: int|
            0 <= k < groups.len() ==> (#[trigger] groups[k]).0 >= min_size && groups[k].1.len()
                == number_of_size(files, groups[k].0),
        forall|k: int, t: int|
            0 <= k < groups.len() && 0 <= t < groups[k].1.len() ==> listed_with_size(
                files,
                groups[k].0,
                #[trigger] groups[k].1[t],
            ),
{
    assert forall|i: int| 0 <= i < files.len() && (#[trigger] files[i]).1 >= min_size implies exists|k: int|
        0 <= k < groups.len() && (#[trigger] groups[k]).0 == files[i].1 && groups[k].1.contains(files[i].0) by {
        let k = choose|k: int| 0 <= k < groups.len() && (#[trigger] groups[k]).0 == files[i].1;
        lemma_files_of_size(files, groups[k].0);
    }
    assert forall|k: int| 0 <= k < groups.len() implies (#[trigger] groups[k]).0 >= min_size && groups[k].1.len()
        == number_of_size(files, groups[k].0) by {
        lemma_files_of_size(files, groups[k].0);
    }
    assert forall|k: int, t: int| 0 <= k < groups.len() && 0 <= t < groups[k].1.len() implies listed_with_size(
        files,
        groups[k].0,
        #[trigger] groups[k].1[t],
    ) by {
        lemma_files_of_size(files, groups[k].0);
        assert(groups[k].1[t] == files_of_size(files, groups[k].0)[t]);
    }
}

/// How many of `copies` lie directly in the folder `d`.
pub open spec fn copies_directly_in(copies: Seq<PathView>, d: PathView) -> nat
    decreases copies.len(),
{
    if copies.len() == 0 {
        0
    } else {
        copies_directly_in(copies.drop_last(), d) + if in_directory(copies.last(), d) {
            1nat
        } else {
            0nat
        }
    }
}

/// How many of the other copies listed beside the files of `entries` lie
/// directly in the folder `d`.
pub open spec fn entry_copies_in(entries: Seq<(PathView, Seq<PathView>)>, d: PathView) -> nat
    decreases entries.len(),
{
    if entries.len() == 0 {
        0
    } else {
        entry_copies_in(entries.drop_last(), d) + copies_directly_in(entries.last().1, d)
    }
}

proof fn lemma_count_in_concat(a: Seq<PathView>, b: Seq<PathView>, d: PathView)
    ensures
        count_in(a + b, d) == count_in(a, d) + count_in(b, d),
    decreases b.len(),
{
    if b.len() > 0 {
        lemma_count_in_concat(a, b.drop_last(), d);
        assert((a + b).drop_last() =~= a + b.drop_last());
        assert((a + b).last() == b.last());
    } else {
        assert(a + b =~= a);
    }
}

proof fn lemma_parents_outside_count(s: Seq<PathView>, folder: PathView, d: PathView)
    ensures
        count_in(parents_outside(s, folder), d) == (if d == folder {
            0
        } else {
            copies_directly_in(s, d)
        }),
    decreases s.len(),
{
    if s.len() > 0 {
        lemma_parents_outside_count(s.drop_last(), folder, d);
        let rest = parents_outside(s.drop_last(), folder);
        if has_parent(s.last()) && s.last().drop_last() != folder {
            assert(rest.push(s.last().drop_last()).drop_last() =~= rest);
        }
    }
}

proof fn lemma_other_parents_count(es: Seq<(PathView, Seq<PathView>)>, folder: PathView, d: PathView)
    ensures
        count_in(other_parents(es, folder), d) == (if d == folder {
            0
        } else {
            entry_copies_in(es, d)
        }),
    decreases es.len(),
{
    if es.len() > 0 {
        lemma_other_parents_count(es.drop_last(), folder, d);
        lemma_count_in_concat(other_parents(es.drop_last(), folder), parents_outside(es.last().1, folder), d);
        lemma_parents_outside_count(es.last().1, folder, d);
    }
}

/// The summary of a folder lists each other folder that directly holds
/// copies of its files once, with the number of such copies, largest count
/// first; a copy is left out only where it lies directly in the folder
/// itself (or has no parent folder).
pub proof fn law_overlaps_count_copies_by_folder(
    r: Seq<(PathView, usize)>,
    entries: Seq<(PathView, Seq<PathView>)>,
    folder: PathView,
)
    requires
        is_overlap_summary(r, other_parents(entries, folder)),
    ensures
        forall|k: int|
            0 <= k < r.len() ==> (#[trigger] r[k]).0 != folder && r[k].1 == entry_copies_in(entries, r[k].0)
                && r[k].1 > 0,
        forall|d: PathView|
            d != folder && #[trigger] entry_copies_in(entries, d) > 0 ==> exists|k: int|
                0 <= k < r.len() && r[k].0 == d,
        forall|k: int, l: int|
            0 <= k < l < r.len() ==> (#[trigger] r[k]).0 != (#[trigger] r[l]).0 && r[k].1 >= r[l].1,
{
    let s = other_parents(entries, folder);
    assert forall|k: int| 0 <= k < r.len() implies (#[trigger] r[k]).0 != folder && r[k].1 == entry_copies_in(
        entries,
        r[k].0,
    ) && r[k].1 > 0 by {
        lemma_other_parents_count(entries, folder, r[k].0);
    }
    assert forall|d: PathView| d != folder && #[trigger] entry_copies_in(entries, d) > 0 implies exists|k: int|
        0 <= k < r.len() && r[k].0 == d by {
        lemma_other_parents_count(entries, folder, d);
        assert(count_in(s, d) > 0);
    }
    assert forall|k: int, l: int| 0 <= k < l < r.len() implies (#[trigger] r[k]).0 != (#[trigger] r[l]).0
        && r[k].1 >= r[l].1 by {
        assert(crate::overview::sorted_by_count(r, s));
    }
}

/// The paths of the files at the indices `idx`, in order.
pub open spec fn paths_of(files: Seq<(FilePath, Vec<u8>)>, idx: Seq<usize>) -> Seq<PathView> {
    idx.map_values(|j: usize| files[j as int].0@)
}

/// `idx` lists, ascending, every index of `files` whose whole contents have
/// the CRC-32 checksum of the contents of `files[idx[0]]`, and there are at
/// least two of them.
pub open spec fn is_checksum_class(files: Seq<(FilePath, Vec<u8>)>, idx: Seq<usize>) -> bool {
    &&& idx.len() >= 2
    &&& forall|t: int| 0 <= t < idx.len() ==> #[trigger] idx[t] < files.len()
    &&& forall|t: int, u: int| 0 <= t < u < idx.len() ==> #[trigger] idx[t] < #[trigger] idx[u]
    &&& forall|t: int|
        0 <= t < idx.len() ==> crc32(files[#[trigger] idx[t] as int].1@) == crc32(files[idx[0] as int].1@)
    &&& forall|j: int|
        0 <= j < files.len() && crc32(#[trigger] files[j].1@) == crc32(files[idx[0] as int].1@) ==> idx.contains(
            j as usize,
        )
}

/// `g` is the paths of a class of files with equal checksums.
pub open spec fn is_checksum_group(files: Seq<(FilePath, Vec<u8>)>, g: Seq<PathView>) -> bool {
    exists|idx: Seq<usize>| is_checksum_class(files, idx) && g == paths_of(files, idx)
}

/// Splitting files of equal size by content gives exactly the classes of
/// files whose whole contents have equal CRC-32 checksums, for each class of
/// at least two files: every group found is such a class, each file in the
/// order given, and every file whose checksum another file shares is in the
/// group of its class.
pub proof fn law_content_groups_are_checksum_classes(files: Seq<(FilePath, Vec<u8>)>)
    requires
        files.len() <= usize::MAX,
    ensures
        forall|a: int|
            0 <= a < duplicates_by_content(files).len() ==> is_checksum_group(
                files,
                #[trigger] duplicates_by_content(files)[a],
            ),
        forall|i: int, j: int|
            0 <= i < files.len() && 0 <= j < files.len() && i != j && crc32(#[trigger] files[i].1@) == crc32(
                #[trigger] files[j].1@,
            ) ==> exists|a: int, idx: Seq<usize>|
                0 <= a < duplicates_by_content(files).len() && is_checksum_class(files, idx) && idx.contains(
                    i as usize,
                ) && duplicates_by_content(files)[a] == paths_of(files, idx),
{
    let h = content_hashes(files);
    let hg = hash_groups(h);
    let dups = duplicates_by_content(files);
    assert forall|i: int| 0 <= i < files.len() implies #[trigger] h[i] == crc32(files[i].1@) by {}
    law_hash_groups_partition(h);
    assert forall|a: int| 0 <= a < hg.len() implies is_checksum_class(files, #[trigger] hg[a]) by {
        let idx = hg[a];
        assert forall|t: int| 0 <= t < idx.len() implies crc32(files[#[trigger] idx[t] as int].1@) == crc32(
            files[idx[0] as int].1@,
        ) by {
            assert(hg[a][t] < h.len());
            assert(hg[a][0] < h.len());
        }
        assert forall|j: int|
            0 <= j < files.len() && crc32(#[trigger] files[j].1@) == crc32(files[idx[0] as int].1@) implies idx.contains(
            j as usize,
        ) by {
            let f = idx[0] as int;
            assert(hg[a][0] < h.len());
            if j != f {
                let (x, y) = if j < f { (j, f) } else { (f, j) };
                assert(h[x] == h[y]);
                let (b, t, u) = choose|b: int, t: int, u: int|
                    0 <= b < hg.len() && 0 <= t < hg[b].len() && 0 <= u < hg[b].len() && #[trigger] hg[b][t] == x
                        && #[trigger] hg[b][u] == y;
                let w = if j < f { u } else { t };
                let v = if j < f { t } else { u };
                assert(hg[b][w] == f);
                assert(hg[b][v] == j);
                if b < a {
                    assert(hg[b][w] != hg[a][0]);
                } else if a < b {
                    assert(hg[a][0] != hg[b][w]);
                }
                assert(idx[v] == j as usize);
            } else {
                assert(idx[0] == j as usize);
            }
        }
    }
    assert forall|a: int| 0 <= a < dups.len() implies is_checksum_group(files, #[trigger] dups[a]) by {
        assert(is_checksum_class(files, hg[a]));
        assert(dups[a] == paths_at(files, hg[a]));
        assert(paths_at(files, hg[a]) =~= paths_of(files, hg[a]));
    }
    assert forall|i: int, j: int|
        0 <= i < files.len() && 0 <= j < files.len() && i != j && crc32(#[trigger] files[i].1@) == crc32(
            #[trigger] files[j].1@,
        ) implies exists|a: int, idx: Seq<usize>|
        0 <= a < dups.len() && is_checksum_class(files, idx) && idx.contains(i as usize) && dups[a] == paths_of(
            files,
            idx,
        ) by {
        let (x, y) = if i < j { (i, j) } else { (j, i) };
        assert(h[x] == h[y]);
        let (b, t, u) = choose|b: int, t: int, u: int|
            0 <= b < hg.len() && 0 <= t < hg[b].len() && 0 <= u < hg[b].len() && #[trigger] hg[b][t] == x
                && #[trigger] hg[b][u] == y;
        assert(is_checksum_class(files, hg[b]));
        let w = if i < j { t } else { u };
        assert(hg[b][w] == i as usize);
        assert(dups[b] == paths_at(files, hg[b]));
        assert(paths_at(files, hg[b]) =~= paths_of(files, hg[b]));
    }
}

/// `d` is one of the groups of equal content checksum found in a group of
/// files of equal size that holds more than one file.
pub open spec fn from_size_group(groups: Seq<Vec<(FilePath, Vec<u8>)>>, d: Seq<PathView>) -> bool {
    exists|i: int, a: int|
        0 <= i < groups.len() && groups[i]@.len() > 1 && 0 <= a < hash_groups(
            content_hashes(groups[i]@),
        ).len() && d == paths_at(groups[i]@, #[trigger] hash_groups(content_hashes(groups[i]@))[a])
}

/// Each group of duplicates found comes from one group of files of equal
/// size holding more than one file, and is one of the groups of equal
/// content checksum found there.
pub proof fn law_duplicates_from_one_size_group(groups: Seq<Vec<(FilePath, Vec<u8>)>>)
    ensures
        forall|t: int|
            0 <= t < duplicates_across(groups).len() ==> from_size_group(
                groups,
                #[trigger] duplicates_across(groups)[t],
            ),
    decreases groups.len(),
{
    if groups.len() > 0 {
        let rest = groups.drop_last();
        law_duplicates_from_one_size_group(rest);
        let all = duplicates_across(groups);
        let before = duplicates_across(rest);
        assert forall|t: int| 0 <= t < all.len() implies from_size_group(groups, #[trigger] all[t]) by {
            if t < before.len() {
                assert(all[t] == before[t]);
                assert(from_size_group(rest, before[t]));
                let (i, a) = choose|i: int, a: int|
                    0 <= i < rest.len() && rest[i]@.len() > 1 && 0 <= a < hash_groups(content_hashes(rest[i]@)).len()
                        && before[t] == paths_at(rest[i]@, #[trigger] hash_groups(content_hashes(rest[i]@))[a]);
                assert(groups[i] == rest[i]);
            } else {
                let i = groups.len() - 1;
                let a = t - before.len();
                assert(groups[i] == groups.last());
                assert(all[t] == duplicates_by_content(groups[i]@)[a]);
            }
        }
    }
}

/// Every group of duplicates found holds at least two files.
pub proof fn law_duplicate_groups_have_two_files(groups: Seq<Vec<(FilePath, Vec<u8>)>>)
    ensures
        forall|t: int|
            0 <= t < duplicates_across(groups).len() ==> (#[trigger] duplicates_across(groups)[t]).len()
                >= 2,
{
    law_duplicates_from_one_size_group(groups);
    assert forall|t: int| 0 <= t < duplicates_across(groups).len() implies (#[trigger] duplicates_across(groups)[t]).len() >= 2 by {
        assert(from_size_group(groups, duplicates_across(groups)[t]));
        let (i, a) = choose|i: int, a: int|
            0 <= i < groups.len() && groups[i]@.len() > 1 && 0 <= a < hash_groups(content_hashes(groups[i]@)).len()
                && duplicates_across(groups)[t] == paths_at(groups[i]@, #[trigger] hash_groups(content_hashes(groups[i]@))[a]);
        assert(content_hashes(groups[i]@).len() == groups[i].len());
        law_hash_groups_partition(content_hashes(groups[i]@));
        assert(hash_groups(content_hashes(groups[i]@))[a].len() >= 2);
    }
}


proof fn lemma_duplicates_across_holds(groups: Seq<Vec<(FilePath, Vec<u8>)>>, i: int, a: int)
    requires
        0 <= i < groups.len(),
        groups[i]@.len() > 1,
        0 <= a < duplicates_by_content(groups[i]@).len(),
    ensures
        exists|t: int|
            0 <= t < duplicates_across(groups).len() && #[trigger] duplicates_across(groups)[t]
                == duplicates_by_content(groups[i]@)[a],
    decreases groups.len(),
{
    let rest = groups.drop_last();
    let all = duplicates_across(groups);
    let before = duplicates_across(rest);
    if i < groups.len() - 1 {
        assert(rest[i] == groups[i]);
        lemma_duplicates_across_holds(rest, i, a);
        let t = choose|t: int| 0 <= t < before.len() && #[trigger] before[t] == duplicates_by_content(rest[i]@)[a];
        if groups.last()@.len() > 1 {
            assert(all == before + duplicates_by_content(groups.last()@));
            assert(all[t] == before[t]);
        }
    } else {
        assert(groups.last() == groups[i]);
        assert(all == before + duplicates_by_content(groups[i]@));
        assert(all[before.len() + a] == duplicates_by_content(groups[i]@)[a]);
    }
}

/// `g` is a class of files with equal checksums in one of the groups of
/// files of equal size that holds more than one file.
pub open spec fn is_checksum_group_in(groups: Seq<Vec<(FilePath, Vec<u8>)>>, g: Seq<PathView>) -> bool {
    exists|i: int| 0 <= i < groups.len() && groups[i]@.len() > 1 && is_checksum_group(#[trigger] groups[i]@, g)
}

/// Across groups of files of equal size, the duplicates found are exactly
/// the classes of files whose whole contents have equal CRC-32 checksums
/// within one group of equal size: every group found is such a class, and
/// every file whose checksum another file of its size group shares is in a
/// group found, that of its class.
pub proof fn law_duplicates_are_checksum_classes(groups: Seq<Vec<(FilePath, Vec<u8>)>>)
    requires
        forall|i: int| 0 <= i < groups.len() ==> (#[trigger] groups[i])@.len() <= usize::MAX,
    ensures
        forall|t: int|
            0 <= t < duplicates_across(groups).len() ==> is_checksum_group_in(
                groups,
                #[trigger] duplicates_across(groups)[t],
            ),
        forall|i: int, p: int, q: int|
            0 <= i < groups.len() && 0 <= p < groups[i]@.len() && 0 <= q < groups[i]@.len() && p != q && crc32(
                #[trigger] groups[i]@[p].1@,
            ) == crc32(#[trigger] groups[i]@[q].1@) ==> exists|t: int, idx: Seq<usize>|
                0 <= t < duplicates_across(groups).len() && is_checksum_class(groups[i]@, idx) && idx.contains(
                    p as usize,
                ) && duplicates_across(groups)[t] == paths_of(groups[i]@, idx),
{
    let all = duplicates_across(groups);
    law_duplicates_from_one_size_group(groups);
    assert forall|t: int| 0 <= t < all.len() implies is_checksum_group_in(groups, #[trigger] all[t]) by {
        assert(from_size_group(groups, all[t]));
        let (i, a) = choose|i: int, a: int|
            0 <= i < groups.len() && groups[i]@.len() > 1 && 0 <= a < hash_groups(content_hashes(groups[i]@)).len()
                && all[t] == paths_at(groups[i]@, #[trigger] hash_groups(content_hashes(groups[i]@))[a]);
        law_content_groups_are_checksum_classes(groups[i]@);
        assert(all[t] == duplicates_by_content(groups[i]@)[a]);
        assert(is_checksum_group(groups[i]@, all[t]));
    }
    assert forall|i: int, p: int, q: int|
        0 <= i < groups.len() && 0 <= p < groups[i]@.len() && 0 <= q < groups[i]@.len() && p != q && crc32(
            #[trigger] groups[i]@[p].1@,
        ) == crc32(#[trigger] groups[i]@[q].1@) implies exists|t: int, idx: Seq<usize>|
        0 <= t < all.len() && is_checksum_class(groups[i]@, idx) && idx.contains(p as usize) && all[t]
            == paths_of(groups[i]@, idx) by {
        let files = groups[i]@;
        law_content_groups_are_checksum_classes(files);
        assert(crc32(files[p].1@) == crc32(files[q].1@));
        let (a, idx) = choose|a: int, idx: Seq<usize>|
            0 <= a < duplicates_by_content(files).len() && is_checksum_class(files, idx) && idx.contains(p as usize)
                && duplicates_by_content(files)[a] == paths_of(files, idx);
        lemma_duplicates_across_holds(groups, i, a);
        let t = choose|t: int| 0 <= t < all.len() && #[trigger] all[t] == duplicates_by_content(groups[i]@)[a];
    }
}


proof fn lemma_all_files_members(groups: Seq<Seq<PathView>>)
    ensures
        forall|k: int, i: int|
            0 <= k < groups.len() && 0 <= i < groups[k].len() ==> all_files(groups).contains(
                #[trigger] groups[k][i],
            ),
        forall|x: PathView|
            #[trigger] all_files(groups).contains(x) ==> exists|k: int|
                0 <= k < groups.len() && groups[k].contains(x),
    decreases groups.len(),
{
    if groups.len() > 0 {
        let rest = groups.drop_last();
        lemma_all_files_members(rest);
        let a = all_files(rest);
        let last = groups.last();
        assert(all_files(groups) == a + last);
        assert forall|k: int, i: int| 0 <= k < groups.len() && 0 <= i < groups[k].len() implies all_files(
            groups,
        ).contains(#[trigger] groups[k][i]) by {
            if k < groups.len() - 1 {
                assert(rest[k] == groups[k]);
                assert(a.contains(rest[k][i]));
                let w = choose|w: int| 0 <= w < a.len() && a[w] == rest[k][i];
                assert((a + last)[w] == a[w]);
            } else {
                assert(groups[k] == last);
                assert((a + last)[a.len() + i] == last[i]);
            }
        }
        assert forall|x: PathView| #[trigger] all_files(groups).contains(x) implies exists|k: int|
            0 <= k < groups.len() && groups[k].contains(x) by {
            let w = choose|w: int| 0 <= w < (a + last).len() && (a + last)[w] == x;
            if w < a.len() {
                assert(a[w] == x);
                assert(a.contains(x));
                let k = choose|k: int| 0 <= k < rest.len() && rest[k].contains(x);
                assert(groups[k] == rest[k]);
            } else {
                assert(last[w - a.len()] == x);
                assert(groups[groups.len() - 1] == last);
                assert(groups[groups.len() - 1].contains(x));
            }
        }
    }
}

/// The tree built for a root shows every file of every group whose folder is
/// the root or lies below it, and shows only such files.
pub proof fn law_tree_shows_every_grouped_file(tree: DirectoryNode, groups: Seq<Seq<PathView>>, root: PathView)
    requires
        is_tree_of(tree, groups, root),
    ensures
        forall|k: int, i: int|
            0 <= k < groups.len() && 0 <= i < groups[k].len() && has_parent(groups[k][i]) && is_ancestor_or_self(
                root,
                groups[k][i].drop_last(),
            ) ==> times_shown(tree, #[trigger] groups[k][i]) >= 1,
        forall|f: PathView|
            #[trigger] times_shown(tree, f) > 0 ==> has_parent(f) && is_ancestor_or_self(root, f.drop_last())
                && exists|k: int| 0 <= k < groups.len() && groups[k].contains(f),
{
    lemma_all_files_members(groups);
    assert forall|k: int, i: int|
        0 <= k < groups.len() && 0 <= i < groups[k].len() && has_parent(groups[k][i]) && is_ancestor_or_self(
            root,
            groups[k][i].drop_last(),
        ) implies times_shown(tree, #[trigger] groups[k][i]) >= 1 by {
        let f = groups[k][i];
        law_tree_shows_each_duplicate(tree, groups, root, f);
        lemma_count_in_positive(all_files(groups), f);
        assert(all_files(groups).contains(f));
    }
    assert forall|f: PathView| #[trigger] times_shown(tree, f) > 0 implies has_parent(f) && is_ancestor_or_self(
        root,
        f.drop_last(),
    ) && exists|k: int| 0 <= k < groups.len() && groups[k].contains(f) by {
        law_tree_shows_each_duplicate(tree, groups, root, f);
        lemma_count_in_positive(all_files(groups), f);
        let w = choose|w: int| 0 <= w < all_files(groups).len() && all_files(groups)[w] == f;
        assert(all_files(groups).contains(f));
    }
}

/// Whether a file is other than `f`.
pub open spec fn other_than(f: PathView) -> spec_fn(PathView) -> bool {
    |x: PathView| x != f
}

/// `others` are the files of the last group holding `f`, other than `f`,
/// in the order of that group.
pub open spec fn lists_other_copies(groups: Seq<Seq<PathView>>, f: PathView, others: Seq<PathView>) -> bool {
    exists|k: int|
        0 <= k < groups.len() && (#[trigger] groups[k]).contains(f) && (forall|l: int|
            k < l < groups.len() ==> !(#[trigger] groups[l]).contains(f)) && others == groups[k].filter(other_than(f))
}

proof fn lemma_without_is_filter(s: Seq<PathView>, f: PathView)
    ensures
        without(s, f) == s.filter(other_than(f)),
    decreases s.len(),
{
    reveal(Seq::filter);
    if s.len() > 0 {
        lemma_without_is_filter(s.drop_last(), f);
        assert(other_than(f)(s.last()) == (s.last() != f));
    }
}

proof fn lemma_others_of_lists(groups: Seq<Seq<PathView>>, f: PathView)
    requires
        exists|k: int| 0 <= k < groups.len() && groups[k].contains(f),
    ensures
        lists_other_copies(groups, f, others_of(groups, f)),
    decreases groups.len(),
{
    let n = groups.len() - 1;
    if groups.last().contains(f) {
        lemma_without_is_filter(groups.last(), f);
        assert(groups[n] == groups.last());
        assert(groups[n].contains(f));
    } else {
        let rest = groups.drop_last();
        let k0 = choose|k: int| 0 <= k < groups.len() && groups[k].contains(f);
        assert(k0 < n);
        assert(rest[k0] == groups[k0]);
        lemma_others_of_lists(rest, f);
        let k = choose|k: int|
            0 <= k < rest.len() && (#[trigger] rest[k]).contains(f) && (forall|l: int|
                k < l < rest.len() ==> !(#[trigger] rest[l]).contains(f)) && others_of(rest, f) == rest[k].filter(
                other_than(f),
            );
        assert(groups[k] == rest[k]);
        assert forall|l: int| k < l < groups.len() implies !(#[trigger] groups[l]).contains(f) by {
            if l < n {
                assert(groups[l] == rest[l]);
            } else {
                assert(groups[l] == groups.last());
            }
        }
    }
}

proof fn lemma_dir_entries_from(groups: Seq<Seq<PathView>>, files: Seq<PathView>, d: PathView)
    ensures
        forall|t: int|
            0 <= t < dir_entries(groups, files, d).len() ==> files.contains(
                (#[trigger] dir_entries(groups, files, d)[t]).0,
            ) && in_directory(dir_entries(groups, files, d)[t].0, d) && dir_entries(groups, files, d)[t].1
                == others_of(groups, dir_entries(groups, files, d)[t].0),
    decreases files.len(),
{
    if files.len() > 0 {
        let rest = files.drop_last();
        lemma_dir_entries_from(groups, rest, d);
        let es = dir_entries(groups, files, d);
        let rs = dir_entries(groups, rest, d);
        assert forall|t: int| 0 <= t < es.len() implies files.contains((#[trigger] es[t]).0) && in_directory(
            es[t].0,
            d,
        ) && es[t].1 == others_of(groups, es[t].0) by {
            if t < rs.len() {
                assert(es[t] == rs[t]);
                let v = choose|v: int| 0 <= v < rest.len() && rest[v] == rs[t].0;
                assert(files[v] == rest[v]);
            } else {
                assert(files[files.len() - 1] == files.last());
            }
        }
    }
}

/// Each file shown in the node of a folder lies directly in that folder, and
/// is shown beside the other files of the last group holding it, in that
/// group's order.
pub proof fn law_tree_entries_list_other_copies(node: DirectoryNode, groups: Seq<Seq<PathView>>, p: PathView)
    requires
        is_tree_of(node, groups, p),
    ensures
        forall|t: int|
            0 <= t < node.files@.len() ==> in_directory((#[trigger] node.files@[t]).0@, p) && lists_other_copies(
                groups,
                node.files@[t].0@,
                paths_view(node.files@[t].1@),
            ),
{
    let files = all_files(groups);
    lemma_dir_entries_from(groups, files, p);
    lemma_all_files_members(groups);
    assert forall|t: int| 0 <= t < node.files@.len() implies in_directory((#[trigger] node.files@[t]).0@, p)
        && lists_other_copies(groups, node.files@[t].0@, paths_view(node.files@[t].1@)) by {
        assert(entries_view(node.files@)[t] == dir_entries(groups, files, p)[t]);
        let f = node.files@[t].0@;
        assert(files.contains(f));
        lemma_others_of_lists(groups, f);
    }
}


/// How many entries for the file `f` the listed folders hold together.
pub open spec fn listed_entry_count(folders: Seq<FolderView>, f: PathView) -> nat
    decreases folders.len(),
{
    if folders.len() == 0 {
        0
    } else {
        listed_entry_count(folders.drop_last(), f) + entry_count(folders.last().1, f)
    }
}

proof fn lemma_listed_entry_count_concat(a: Seq<FolderView>, b: Seq<FolderView>, f: PathView)
    ensures
        listed_entry_count(a + b, f) == listed_entry_count(a, f) + listed_entry_count(b, f),
    decreases b.len(),
{
    if b.len() > 0 {
        lemma_listed_entry_count_concat(a, b.drop_last(), f);
        assert((a + b).drop_last() =~= a + b.drop_last());
        assert((a + b).last() == b.last());
    } else {
        assert(a + b =~= a);
    }
}

/// The folders listed for a tree are folders with at least one file entry,
/// and together they hold each file entry of the tree exactly as often as
/// the tree shows it.
pub proof fn law_listed_folders_hold_the_tree(node: DirectoryNode, f: PathView)
    ensures
        listed_entry_count(listed_folders(node), f) == times_shown(node, f),
        forall|k: int| 0 <= k < listed_folders(node).len() ==> (#[trigger] listed_folders(node)[k]).1.len() > 0,
    decreases node, 1nat,
{
    let own: Seq<FolderView> = if node.files@.len() > 0 {
        seq![(node.path@, entries_view(node.files@))]
    } else {
        Seq::empty()
    };
    lemma_listed_folders_in_hold(node.children@, f);
    lemma_listed_entry_count_concat(own, listed_folders_in(node.children@), f);
    if node.files@.len() > 0 {
        assert(own.drop_last() =~= Seq::<FolderView>::empty());
        assert(listed_entry_count(own.drop_last(), f) == 0);
        assert(own.last() == (node.path@, entries_view(node.files@)));
    } else {
        assert(entries_view(node.files@).len() == 0);
        assert(entry_count(entries_view(node.files@), f) == 0);
        assert(listed_entry_count(own, f) == 0);
    }
    assert(listed_entry_count(own, f) == entry_count(entries_view(node.files@), f));
    let all = listed_folders(node);
    assert(all == own + listed_folders_in(node.children@));
    assert forall|k: int| 0 <= k < all.len() implies (#[trigger] all[k]).1.len() > 0 by {
        if k >= own.len() {
            assert(all[k] == listed_folders_in(node.children@)[k - own.len()]);
        }
    }
}

proof fn lemma_listed_folders_in_hold(nodes: Seq<DirectoryNode>, f: PathView)
    ensures
        listed_entry_count(listed_folders_in(nodes), f) == times_shown_in(nodes, f),
        forall|k: int|
            0 <= k < listed_folders_in(nodes).len() ==> (#[trigger] listed_folders_in(nodes)[k]).1.len() > 0,
    decreases nodes, 0nat,
{
    if nodes.len() > 0 {
        let rest = listed_folders_in(nodes.drop_last());
        let last = listed_folders(nodes.last());
        lemma_listed_folders_in_hold(nodes.drop_last(), f);
        law_listed_folders_hold_the_tree(nodes.last(), f);
        lemma_listed_entry_count_concat(rest, last, f);
        let all = listed_folders_in(nodes);
        assert forall|k: int| 0 <= k < all.len() implies (#[trigger] all[k]).1.len() > 0 by {
            if k < rest.len() {
                assert(all[k] == rest[k]);
            } else {
                assert(all[k] == last[k - rest.len()]);
            }
        }
    }
}


/// Whether a size group holds more than one file.
pub open spec fn holds_several() -> spec_fn((u64, Seq<PathView>)) -> bool {
    |g: (u64, Seq<PathView>)| g.1.len() > 1
}

/// The files compared by contents are the file lists of exactly the size
/// groups that hold more than one file, in the order of the groups.
pub proof fn law_candidates_are_groups_of_several_files(groups: Seq<(u64, Seq<PathView>)>)
    ensures
        candidates(groups) == groups.filter(holds_several()).map_values(|g: (u64, Seq<PathView>)| g.1),
    decreases groups.len(),
{
    reveal(Seq::filter);
    if groups.len() > 0 {
        law_candidates_are_groups_of_several_files(groups.drop_last());
        let sub = groups.drop_last().filter(holds_several());
        assert(holds_several()(groups.last()) == (groups.last().1.len() > 1));
        if groups.last().1.len() > 1 {
            assert(sub.push(groups.last()).map_values(|g: (u64, Seq<PathView>)| g.1) =~= sub.map_values(
                |g: (u64, Seq<PathView>)| g.1,
            ).push(groups.last().1));
        }
    }
}

} // verus!
