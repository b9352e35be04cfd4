//! The directory tree in which duplicated files are shown.

use vstd::prelude::*;
use crate::path::{
    FilePath, PathView, copy_paths, paths_view, has_parent, in_directory, is_ancestor_or_self, is_child_of, path_lt,
    lemma_path_lt_irreflexive, lemma_path_lt_total, lemma_path_lt_transitive,
};

verus! {

/// A directory holding duplicated files, directly or further down.
pub struct DirectoryNode {
    /// The directory itself.
    pub path: FilePath,
    /// The duplicated files directly in this directory, each with the
    /// other files of its group.
    pub files: Vec<(FilePath, Vec<FilePath>)>,
    /// The subdirectories shown below this one, sorted by path.
    pub children: Vec<DirectoryNode>,
}

/// Groups of duplicated files, as views.
pub open spec fn groups_view(g: Seq<Vec<FilePath>>) -> Seq<Seq<PathView>> {
    g.map_values(|v: Vec<FilePath>| paths_view(v@))
}

/// A file entry of a node, as a view: the file and the other files of its group.
pub open spec fn entry_view(e: (FilePath, Vec<FilePath>)) -> (PathView, Seq<PathView>) {
    (e.0@, paths_view(e.1@))
}

/// The file entries of a node, as views.
pub open spec fn entries_view(v: Seq<(FilePath, Vec<FilePath>)>) -> Seq<(PathView, Seq<PathView>)> {
    v.map_values(|e: (FilePath, Vec<FilePath>)| entry_view(e))
}

/// Every file of every group, group after group, in order.
pub open spec fn all_files(groups: Seq<Seq<PathView>>) -> Seq<PathView>
    decreases groups.len(),
{
    if groups.len() == 0 {
        Seq::empty()
    } else {
        all_files(groups.drop_last()) + groups.last()
    }
}

/// The sequence `s` with every occurrence of `f` left out.
pub open spec fn without(s: Seq<PathView>, f: PathView) -> Seq<PathView>
    decreases s.len(),
{
    if s.len() == 0 {
        s
    } else if s.last() == f {
        without(s.drop_last(), f)
    } else {
        without(s.drop_last(), f).push(s.last())
    }
}

/// The files shown beside `f`: the other members of the last group that holds `f`
/// (none where no group holds it).
pub open spec fn others_of(groups: Seq<Seq<PathView>>, f: PathView) -> Seq<PathView>
    decreases groups.len(),
{
    if groups.len() == 0 {
        Seq::empty()
    } else if groups.last().contains(f) {
        without(groups.last(), f)
    } else {
        others_of(groups.drop_last(), f)
    }
}

/// The entries for the files of `files` that lie directly in `d`, in order.
pub open spec fn dir_entries(groups: Seq<Seq<PathView>>, files: Seq<PathView>, d: PathView) -> Seq<
    (PathView, Seq<PathView>),
>
    decreases files.len(),
{
    if files.len() == 0 {
        Seq::empty()
    } else {
        let rest = dir_entries(groups, files.drop_last(), d);
        if in_directory(files.last(), d) {
            rest.push((files.last(), others_of(groups, files.last())))
        } else {
            rest
        }
    }
}

/// The entries for the duplicated files that lie directly in `d`.
pub open spec fn entries_in(groups: Seq<Seq<PathView>>, d: PathView) -> Seq<(PathView, Seq<PathView>)> {
    dir_entries(groups, all_files(groups), d)
}

/// `d` is a directory holding duplicates or one of its ancestors.
pub open spec fn leads_to_duplicates(groups: Seq<Seq<PathView>>, d: PathView) -> bool {
    exists|i: int|
        0 <= i < all_files(groups).len() && has_parent(#[trigger] all_files(groups)[i])
            && is_ancestor_or_self(d, all_files(groups)[i].drop_last())
}

/// The subdirectories shown below `p`: every directory directly inside `p`
/// that holds duplicates or leads to them.
pub open spec fn is_child_dir(groups: Seq<Seq<PathView>>, p: PathView, c: PathView) -> bool {
    is_child_of(p, c) && leads_to_duplicates(groups, c)
}

/// The children of a node, strictly sorted by path.
pub open spec fn children_sorted(children: Seq<DirectoryNode>) -> bool {
    forall|i: int, j: int|
        0 <= i < j < children.len() ==> path_lt(
            #[trigger] children[i].path@,
            #[trigger] children[j].path@,
        )
}

/// `node` is the tree shown for the directory `p` when `groups` are the
/// duplicated files: it is at `p`, holds the entries of the duplicates directly
/// in `p`, and has one child for each subdirectory shown below `p`, sorted by
/// path, each the tree shown for that subdirectory.
pub open spec fn is_tree_of(node: DirectoryNode, groups: Seq<Seq<PathView>>, p: PathView) -> bool
    decreases node,
{
    &&& node.path@ == p
    &&& entries_view(node.files@) == entries_in(groups, p)
    &&& children_sorted(node.children@)
    &&& forall|c: PathView|
        is_child_dir(groups, p, c) <==> exists|i: int|
            0 <= i < node.children@.len() && (#[trigger] node.children@[i]).path@ == c
    &&& forall|i: int|
        0 <= i < node.children@.len() ==> is_tree_of(
            #[trigger] node.children@[i],
            groups,
            node.children@[i].path@,
        )
}


/// Paths of `v` are pairwise different.
pub open spec fn distinct_paths(v: Seq<FilePath>) -> bool {
    forall|i: int, j: int| 0 <= i < j < v.len() ==> (#[trigger] v[i])@ != (#[trigger] v[j])@
}

/// Whether `f` is among `v`.
fn contains_path(v: &Vec<FilePath>, f: &FilePath) -> (res: bool)
    ensures
        res == paths_view(v@).contains(f@),
{
    for i in 0..v.len()
        invariant
            forall|k: int| 0 <= k < i ==> (#[trigger] v@[k])@ != f@,
    {
        if v[i].same_as(f) {
            assert(paths_view(v@)[i as int] == f@);
            return true;
        }
    }
    assert forall|k: int| 0 <= k < v@.len() implies paths_view(v@)[k] != f@ by {
        assert(v@[k]@ != f@);
    }
    false
}

/// The members of `v` other than `f`, in order.
fn without_path(v: &Vec<FilePath>, f: &FilePath) -> (res: Vec<FilePath>)
    ensures
        paths_view(res@) == without(paths_view(v@), f@),
{
    let mut res: Vec<FilePath> = Vec::new();
    assert(paths_view(v@).take(0) =~= Seq::<PathView>::empty());
    assert(paths_view(res@) =~= Seq::<PathView>::empty());
    for i in 0..v.len()
        invariant
            paths_view(res@) == without(paths_view(v@).take(i as int), f@),
    {
        assert(paths_view(v@).take(i + 1).drop_last() =~= paths_view(v@).take(i as int));
        if !v[i].same_as(f) {
            let c = v[i].clone();
            let ghost before = res@;
            res.push(c);
            assert(paths_view(res@) =~= paths_view(before).push(c@));
        }
    }
    assert(paths_view(v@).take(v@.len() as int) =~= paths_view(v@));
    res
}

/// The files shown beside `f`.
fn others_for(groups: &Vec<Vec<FilePath>>, f: &FilePath) -> (res: Vec<FilePath>)
    ensures
        paths_view(res@) == others_of(groups_view(groups@), f@),
{
    let ghost g = groups_view(groups@);
    let mut k = groups.len();
    assert(g.take(k as int) =~= g);
    while k > 0
        invariant
            k <= groups@.len(),
            g == groups_view(groups@),
            others_of(g, f@) == others_of(g.take(k as int), f@),
        decreases k,
    {
        assert(g.take(k as int).drop_last() =~= g.take(k - 1));
        assert(g.take(k as int).last() == paths_view(groups@[k - 1]@));
        if contains_path(&groups[k - 1], f) {
            return without_path(&groups[k - 1], f);
        }
        k = k - 1;
    }
    let res: Vec<FilePath> = Vec::new();
    assert(paths_view(res@) =~= Seq::<PathView>::empty());
    res
}

/// All files of all groups, in order.
fn flatten_groups(groups: &Vec<Vec<FilePath>>) -> (res: Vec<FilePath>)
    ensures
        paths_view(res@) == all_files(groups_view(groups@)),
{
    let ghost g = groups_view(groups@);
    let mut res: Vec<FilePath> = Vec::new();
    assert(paths_view(res@) =~= all_files(g.take(0)));
    for i in 0..groups.len()
        invariant
            g == groups_view(groups@),
            paths_view(res@) == all_files(g.take(i as int)),
    {
        assert(g.take(i + 1).drop_last() =~= g.take(i as int));
        assert(g.take(i + 1).last() == paths_view(groups@[i as int]@));
        assert(paths_view(groups@[i as int]@).take(0) =~= Seq::<PathView>::empty());
        assert(paths_view(res@) =~= all_files(g.take(i as int)) + paths_view(groups@[i as int]@).take(0));
        let group = &groups[i];
        for j in 0..group.len()
            invariant
                group == &groups@[i as int],
                i < groups@.len(),
                g == groups_view(groups@),
                paths_view(res@) == all_files(g.take(i as int)) + paths_view(groups@[i as int]@).take(j as int),
        {
            let c = group[j].clone();
            let ghost before = res@;
            res.push(c);
            assert(paths_view(res@) =~= paths_view(before).push(c@));
            assert(paths_view(groups@[i as int]@).take(j + 1) =~= paths_view(groups@[i as int]@).take(j as int).push(c@));
        }
        assert(paths_view(groups@[i as int]@).take(groups@[i as int]@.len() as int) =~= paths_view(groups@[i as int]@));
    }
    assert(g.take(groups@.len() as int) =~= g);
    res
}

/// The paths of `v`, sorted by path order.
fn sort_paths(v: Vec<FilePath>) -> (res: Vec<FilePath>)
    requires
        distinct_paths(v@),
    ensures
        forall|p: PathView| paths_view(res@).contains(p) <==> paths_view(v@).contains(p),
        forall|i: int, j: int|
            0 <= i < j < res@.len() ==> path_lt(#[trigger] res@[i]@, #[trigger] res@[j]@),
        distinct_paths(res@),
{
    let mut rest = v;
    let mut out: Vec<FilePath> = Vec::new();
    while rest.len() > 0
        invariant
            distinct_paths(rest@),
            forall|i: int, j: int|
                0 <= i < j < out@.len() ==> path_lt(#[trigger] out@[i]@, #[trigger] out@[j]@),
            forall|i: int, k: int|
                0 <= i < out@.len() && 0 <= k < rest@.len() ==> path_lt(
                    #[trigger] out@[i]@,
                    #[trigger] rest@[k]@,
                ),
            forall|p: PathView|
                paths_view(out@).contains(p) || paths_view(rest@).contains(p) <==> paths_view(
                    v@,
                ).contains(p),
        decreases rest@.len(),
    {
        let mut m: usize = 0;
        for k in 1..rest.len()
            invariant
                0 < rest@.len(),
                m < k,
                distinct_paths(rest@),
                forall|q: int| 0 <= q < k && q != m ==> path_lt(rest@[m as int]@, #[trigger] rest@[q]@),
        {
            if rest[k].precedes(&rest[m]) {
                assert forall|q: int| 0 <= q < k + 1 && q != k implies path_lt(rest@[k as int]@, #[trigger] rest@[q]@) by {
                    if q != m {
                        lemma_path_lt_transitive(rest@[k as int]@, rest@[m as int]@, rest@[q]@);
                    }
                }
                m = k;
            } else {
                proof {
                    lemma_path_lt_total(rest@[k as int]@, rest@[m as int]@);
                }
            }
        }
        let ghost old_rest = rest@;
        let ghost old_out = out@;
        let x = rest.remove(m);
        out.push(x);
        assert forall|i: int, j: int| 0 <= i < j < out@.len() implies path_lt(#[trigger] out@[i]@, #[trigger] out@[j]@) by {
            if j == out@.len() - 1 {
                assert(old_rest[m as int] == x);
            }
        }
        assert forall|i: int, k: int|
            0 <= i < out@.len() && 0 <= k < rest@.len() implies path_lt(#[trigger] out@[i]@, #[trigger] rest@[k]@) by {
            if k < m {
                assert(rest@[k] == old_rest[k]);
            } else {
                assert(rest@[k] == old_rest[k + 1]);
            }
        }
        assert forall|i: int, j: int| 0 <= i < j < rest@.len() implies (#[trigger] rest@[i])@ != (#[trigger] rest@[j])@ by {
            let oi = if i < m { i } else { i + 1 };
            let oj = if j < m { j } else { j + 1 };
            assert(rest@[i] == old_rest[oi]);
            assert(rest@[j] == old_rest[oj]);
        }
        assert forall|p: PathView|
            paths_view(out@).contains(p) || paths_view(rest@).contains(p) <==> paths_view(v@).contains(p) by {
            assert(paths_view(out@) =~= paths_view(old_out).push(x@));
            if paths_view(old_out).contains(p) {
                let w = choose|w: int| 0 <= w < old_out.len() && paths_view(old_out)[w] == p;
                assert(paths_view(out@)[w] == p);
            }
            if paths_view(old_rest).contains(p) {
                let w = choose|w: int| 0 <= w < old_rest.len() && paths_view(old_rest)[w] == p;
                if w < m {
                    assert(paths_view(rest@)[w] == p);
                } else if w > m {
                    assert(paths_view(rest@)[w - 1] == p);
                } else {
                    assert(paths_view(out@)[out@.len() - 1] == p);
                }
            }
            if paths_view(rest@).contains(p) {
                let w = choose|w: int| 0 <= w < rest@.len() && paths_view(rest@)[w] == p;
                if w < m {
                    assert(paths_view(old_rest)[w] == p);
                } else {
                    assert(paths_view(old_rest)[w + 1] == p);
                }
            }
            if paths_view(out@).contains(p) {
                let w = choose|w: int| 0 <= w < out@.len() && paths_view(out@)[w] == p;
                if w < old_out.len() {
                    assert(paths_view(old_out)[w] == p);
                } else {
                    assert(paths_view(old_rest)[m as int] == p);
                }
            }
        }
    }
    assert forall|i: int, j: int| 0 <= i < j < out@.len() implies (#[trigger] out@[i])@ != (#[trigger] out@[j])@ by {
        lemma_path_lt_irreflexive(out@[i]@);
    }
    out
}


/// The greatest number of components among `s`.
pub open spec fn max_len(s: Seq<PathView>) -> nat
    decreases s.len(),
{
    if s.len() == 0 {
        0
    } else if s.last().len() > max_len(s.drop_last()) {
        s.last().len()
    } else {
        max_len(s.drop_last())
    }
}

proof fn lemma_max_len(s: Seq<PathView>, i: int)
    requires
        0 <= i < s.len(),
    ensures
        s[i].len() <= max_len(s),
    decreases s.len(),
{
    if i < s.len() - 1 {
        lemma_max_len(s.drop_last(), i);
    }
}

pub(crate) proof fn lemma_ancestor_transitive(a: PathView, b: PathView, c: PathView)
    requires
        is_ancestor_or_self(a, b),
        is_ancestor_or_self(b, c),
    ensures
        is_ancestor_or_self(a, c),
{
    assert(c.subrange(0, a.len() as int) =~= c.subrange(0, b.len() as int).subrange(0, a.len() as int));
}

pub(crate) proof fn lemma_ancestor_reflexive(a: PathView)
    ensures
        is_ancestor_or_self(a, a),
{
    assert(a.subrange(0, a.len() as int) =~= a);
}

proof fn lemma_dir_entries_nonempty(groups: Seq<Seq<PathView>>, files: Seq<PathView>, d: PathView)
    ensures
        dir_entries(groups, files, d).len() > 0 <==> exists|i: int|
            0 <= i < files.len() && in_directory(#[trigger] files[i], d),
    decreases files.len(),
{
    if files.len() > 0 {
        lemma_dir_entries_nonempty(groups, files.drop_last(), d);
        if exists|i: int| 0 <= i < files.len() && in_directory(#[trigger] files[i], d) {
            let i = choose|i: int| 0 <= i < files.len() && in_directory(#[trigger] files[i], d);
            if i < files.len() - 1 {
                assert(files.drop_last()[i] == files[i]);
            }
        }
        if exists|i: int| 0 <= i < files.drop_last().len() && in_directory(#[trigger] files.drop_last()[i], d) {
            let i = choose|i: int| 0 <= i < files.drop_last().len() && in_directory(#[trigger] files.drop_last()[i], d);
            assert(files[i] == files.drop_last()[i]);
        }
    }
}

/// `c` is a directory directly inside `p` on the way to the directory of `f`.
pub open spec fn bridge_child_via(f: PathView, p: PathView, c: PathView) -> bool {
    has_parent(f) && is_child_of(p, c) && is_ancestor_or_self(c, f.drop_last())
}

/// Adds `c` to `dirs` unless it is there already.
fn push_new(dirs: &mut Vec<FilePath>, c: FilePath)
    requires
        distinct_paths(old(dirs)@),
    ensures
        distinct_paths(final(dirs)@),
        forall|x: PathView|
            paths_view(final(dirs)@).contains(x) <==> (paths_view(old(dirs)@).contains(x) || x == c@),
{
    let known = contains_path(dirs, &c);
    let ghost before = dirs@;
    let ghost cv = c@;
    if !known {
        dirs.push(c);
        proof {
            assert(paths_view(dirs@) =~= paths_view(before).push(cv));
            assert forall|a: int, b: int| 0 <= a < b < dirs@.len() implies (#[trigger] dirs@[a])@ != (#[trigger] dirs@[b])@ by {
                if b == dirs@.len() - 1 {
                    assert(paths_view(before)[a] == before[a]@);
                }
            }
        }
    }
    proof {
        assert forall|x: PathView|
            paths_view(dirs@).contains(x) <==> (paths_view(before).contains(x) || x == cv) by {
            if !known {
                if paths_view(before).contains(x) {
                    let w = choose|w: int| 0 <= w < before.len() && paths_view(before)[w] == x;
                    assert(paths_view(dirs@)[w] == x);
                }
                if x == cv {
                    assert(paths_view(dirs@)[dirs@.len() - 1] == x);
                }
            }
        }
    }
}

/// Builds the node for `path`; `None` where nothing is shown there.
fn build_node(path: &FilePath, all: &Vec<FilePath>, groups: &Vec<Vec<FilePath>>) -> (res: Option<
    DirectoryNode,
>)
    requires
        paths_view(all@) == all_files(groups_view(groups@)),
    ensures
        res is Some <==> leads_to_duplicates(groups_view(groups@), path@),
        res matches Some(node) ==> is_tree_of(node, groups_view(groups@), path@),
    decreases max_len(paths_view(all@)) - path@.len(),
{
    let ghost g = groups_view(groups@);
    let ghost files = paths_view(all@);
    let ghost p = path@;
    let n = path.len();
    // The directories directly inside `path` on the way to duplicates.
    let mut dirs: Vec<FilePath> = Vec::new();
    for i in 0..all.len()
        invariant
            n == p.len(),
            p == path@,
            files == paths_view(all@),
            distinct_paths(dirs@),
            forall|c: PathView|
                paths_view(dirs@).contains(c) <==> exists|k: int|
                    0 <= k < i && bridge_child_via(#[trigger] files[k], p, c),
    {
        let f = &all[i];
        let ghost before = dirs@;
        if f.has_parent() && f.len() >= 2 && f.len() - 2 >= n && f.starts_with(path) {
            let c = f.prefix(n + 1);
            proof {
                assert(c@.subrange(0, n as int) =~= files[i as int].subrange(0, n as int));
                assert(files[i as int].drop_last().subrange(0, n + 1) =~= c@);
            }
            push_new(&mut dirs, c);
            proof {
                assert forall|x: PathView|
                    paths_view(dirs@).contains(x) <==> exists|k: int|
                        0 <= k < i + 1 && bridge_child_via(#[trigger] files[k], p, x) by {
                    if paths_view(before).contains(x) {
                        let k = choose|k: int| 0 <= k < i && bridge_child_via(#[trigger] files[k], p, x);
                    }
                    if exists|k: int| 0 <= k < i + 1 && bridge_child_via(#[trigger] files[k], p, x) {
                        let k = choose|k: int| 0 <= k < i + 1 && bridge_child_via(#[trigger] files[k], p, x);
                        if k == i {
                            assert(x =~= files[i as int].drop_last().subrange(0, n + 1));
                        }
                    }
                }
            }
        } else {
            proof {
                assert forall|x: PathView| !bridge_child_via(files[i as int], p, x) by {
                    if bridge_child_via(files[i as int], p, x) {
                        assert(x.subrange(0, n as int) =~= files[i as int].drop_last().subrange(0, n as int));
                        assert(files[i as int].subrange(0, n as int) =~= files[i as int].drop_last().subrange(0, n as int));
                    }
                }
            }
        }
    }
    proof {
        assert forall|c: PathView| paths_view(dirs@).contains(c) <==> is_child_dir(g, p, c) by {
            if paths_view(dirs@).contains(c) {
                let k = choose|k: int| 0 <= k < files.len() && bridge_child_via(#[trigger] files[k], p, c);
            }
            if is_child_dir(g, p, c) {
                let k = choose|k: int| 0 <= k < files.len() && has_parent(#[trigger] files[k]) && is_ancestor_or_self(c, files[k].drop_last());
                assert(bridge_child_via(files[k], p, c));
            }
        }
    }
    let sorted = sort_paths(dirs);
    // Each subdirectory shown leads to duplicates, so its node exists.
    let mut children: Vec<DirectoryNode> = Vec::new();
    for k in 0..sorted.len()
        invariant
            n == p.len(),
            p == path@,
            files == paths_view(all@),
            g == groups_view(groups@),
            paths_view(all@) == all_files(groups_view(groups@)),
            forall|c: PathView| paths_view(sorted@).contains(c) <==> is_child_dir(g, p, c),
            children@.len() == k,
            forall|j: int|
                0 <= j < k ==> (#[trigger] children@[j]).path@ == sorted@[j]@ && is_tree_of(
                    children@[j],
                    g,
                    sorted@[j]@,
                ),
    {
        let c = &sorted[k];
        proof {
            assert(paths_view(sorted@)[k as int] == c@);
            assert(is_child_dir(g, p, c@));
            let w = choose|w: int| 0 <= w < files.len() && has_parent(#[trigger] files[w]) && is_ancestor_or_self(c@, files[w].drop_last());
            lemma_max_len(files, w);
        }
        match build_node(c, all, groups) {
            Some(node) => {
                children.push(node);
            },
            None => {},
        }
    }
    // The duplicates directly in this directory.
    let mut entries: Vec<(FilePath, Vec<FilePath>)> = Vec::new();
    assert(entries_view(entries@) =~= dir_entries(g, files.take(0), p));
    for i in 0..all.len()
        invariant
            p == path@,
            files == paths_view(all@),
            g == groups_view(groups@),
            entries_view(entries@) == dir_entries(g, files.take(i as int), p),
    {
        assert(files.take(i + 1).drop_last() =~= files.take(i as int));
        assert(files.take(i + 1).last() == all@[i as int]@);
        let f = &all[i];
        if f.is_in(path) {
            let others = others_for(groups, f);
            let e = (f.clone(), others);
            let ghost before = entries@;
            entries.push(e);
            assert(entries_view(entries@) =~= entries_view(before).push(entry_view(e)));
        }
    }
    assert(files.take(all@.len() as int) =~= files);
    proof {
        lemma_dir_entries_nonempty(g, files, p);
        if leads_to_duplicates(g, p) {
            let w = choose|w: int| 0 <= w < files.len() && has_parent(#[trigger] files[w]) && is_ancestor_or_self(p, files[w].drop_last());
            let d = files[w].drop_last();
            if d.len() == p.len() {
                assert(d =~= d.subrange(0, p.len() as int));
                assert(in_directory(files[w], p));
            } else {
                let c = d.subrange(0, p.len() as int + 1);
                assert(c.subrange(0, p.len() as int) =~= d.subrange(0, p.len() as int));
                assert(d.subrange(0, c.len() as int) =~= c);
                assert(is_child_dir(g, p, c));
                let q = choose|q: int| 0 <= q < sorted@.len() && paths_view(sorted@)[q] == c;
            }
        }
        if children@.len() > 0 {
            let c = children@[0].path@;
            assert(paths_view(sorted@)[0] == c);
            assert(is_child_dir(g, p, c));
            lemma_child_dir_leads(g, p, c);
        }
        if entries@.len() > 0 {
            let w = choose|w: int| 0 <= w < files.len() && in_directory(#[trigger] files[w], p);
            lemma_ancestor_reflexive(p);
            assert(leads_to_duplicates(g, p));
        }
    }
    if entries.len() == 0 && children.len() == 0 {
        return None;
    }
    let node = DirectoryNode { path: path.clone(), files: entries, children };
    proof {
        assert(node.children@ == children@);
        assert forall|c: PathView|
            is_child_dir(g, p, c) <==> exists|i: int|
                0 <= i < node.children@.len() && (#[trigger] node.children@[i]).path@ == c by {
            if is_child_dir(g, p, c) {
                let q = choose|q: int| 0 <= q < sorted@.len() && paths_view(sorted@)[q] == c;
                assert(node.children@[q].path@ == c);
            }
            if exists|i: int| 0 <= i < node.children@.len() && (#[trigger] node.children@[i]).path@ == c {
                let i = choose|i: int| 0 <= i < node.children@.len() && (#[trigger] node.children@[i]).path@ == c;
                assert(paths_view(sorted@)[i] == c);
            }
        }
        assert(children_sorted(node.children@));
    }
    Some(node)
}

/// A directory shown below `p` leads to duplicates, and so does `p`.
proof fn lemma_child_dir_leads(g: Seq<Seq<PathView>>, p: PathView, c: PathView)
    requires
        is_child_dir(g, p, c),
    ensures
        leads_to_duplicates(g, c),
        leads_to_duplicates(g, p),
{
    let files = all_files(g);
    let w = choose|w: int|
        0 <= w < files.len() && has_parent(#[trigger] files[w]) && is_ancestor_or_self(
            c,
            files[w].drop_last(),
        );
    lemma_ancestor_transitive(p, c, files[w].drop_last());
}

/// Arranges groups of duplicated files in a tree of directories rooted at `root`.
///
/// Each file is shown in the node of the directory that holds it, beside the
/// other files of its group; below each directory come, sorted by path, the
/// subdirectories described by `is_child_dir`. Where nothing is shown at
/// `root`, the result is an empty node at `root`.
pub fn build_directory_tree(root: &FilePath, duplicated_files: Vec<Vec<FilePath>>) -> (tree:
    DirectoryNode)
    ensures
        is_tree_of(tree, groups_view(duplicated_files@), root@),
{
    let all = flatten_groups(&duplicated_files);
    match build_node(root, &all, &duplicated_files) {
        Some(node) => node,
        None => {
            let ghost g = groups_view(duplicated_files@);
            let tree = DirectoryNode { path: root.clone(), files: Vec::new(), children: Vec::new() };
            proof {
                let p = root@;
                lemma_dir_entries_nonempty(g, all_files(g), p);
                if entries_in(g, p).len() > 0 {
                    let w = choose|w: int|
                        0 <= w < all_files(g).len() && in_directory(#[trigger] all_files(g)[w], p);
                    lemma_ancestor_reflexive(p);
                    assert(leads_to_duplicates(g, p));
                }
                assert(entries_view(tree.files@) =~= entries_in(g, p));
                assert forall|c: PathView| !is_child_dir(g, p, c) by {
                    if is_child_dir(g, p, c) {
                        lemma_child_dir_leads(g, p, c);
                    }
                }
            }
            tree
        },
    }
}

/// The number of file entries in a tree.
pub open spec fn total_files(node: DirectoryNode) -> nat
    decreases node,
{
    node.files@.len() + total_files_of(node.children@)
}

/// The number of file entries in a sequence of trees.
pub open spec fn total_files_of(nodes: Seq<DirectoryNode>) -> nat
    decreases nodes,
{
    if nodes.len() == 0 {
        0
    } else {
        total_files_of(nodes.drop_last()) + total_files(nodes.last())
    }
}

proof fn lemma_total_files_of_prefix(nodes: Seq<DirectoryNode>, k: int)
    requires
        0 <= k <= nodes.len(),
    ensures
        total_files_of(nodes.take(k)) <= total_files_of(nodes),
    decreases nodes.len(),
{
    if k < nodes.len() {
        assert(nodes.drop_last().take(k) =~= nodes.take(k));
        lemma_total_files_of_prefix(nodes.drop_last(), k);
    } else {
        assert(nodes.take(k) =~= nodes);
    }
}

impl DirectoryNode {
    /// The number of file entries in this tree.
    pub fn total_count(&self) -> (count: usize)
        requires
            total_files(*self) <= usize::MAX,
        ensures
            count == total_files(*self),
        decreases self,
    {
        let mut sum: usize = self.files.len();
        let ghost cs = self.children@;
        assert(cs.take(0) =~= Seq::<DirectoryNode>::empty());
        for i in 0..self.children.len()
            invariant
                cs == self.children@,
                total_files(*self) <= usize::MAX,
                sum == self.files@.len() + total_files_of(cs.take(i as int)),
        {
            proof {
                assert(cs.take(i + 1).drop_last() =~= cs.take(i as int));
                lemma_total_files_of_prefix(cs, i + 1);
            }
            let c = self.children[i].total_count();
            sum = sum + c;
        }
        assert(cs.take(cs.len() as int) =~= cs);
        sum
    }

    /// The number of file entries in this tree, or `None` where it exceeds
    /// `usize::MAX`.
    pub fn checked_total_count(&self) -> (count: Option<usize>)
        ensures
            count == (if total_files(*self) <= usize::MAX {
                Some(total_files(*self) as usize)
            } else {
                None::<usize>
            }),
        decreases self,
    {
        let mut sum: usize = self.files.len();
        let ghost cs = self.children@;
        assert(cs.take(0) =~= Seq::<DirectoryNode>::empty());
        for i in 0..self.children.len()
            invariant
                cs == self.children@,
                sum == self.files@.len() + total_files_of(cs.take(i as int)),
        {
            proof {
                assert(cs.take(i + 1).drop_last() =~= cs.take(i as int));
                assert(cs.take(i + 1).last() == cs[i as int]);
                lemma_total_files_of_prefix(cs, i + 1);
            }
            match self.children[i].checked_total_count() {
                None => {
                    return None;
                },
                Some(c) => match sum.checked_add(c) {
                    None => {
                        return None;
                    },
                    Some(next) => {
                        sum = next;
                    },
                },
            }
        }
        assert(cs.take(cs.len() as int) =~= cs);
        Some(sum)
    }
}

} // verus!
