//! Summaries shown for the folders of a tree: which folders hold
//! duplicates, and where the other copies of their files lie.

use vstd::prelude::*;
use crate::path::{FilePath, PathView, copy_paths, has_parent, paths_view};
use crate::tree::{DirectoryNode, entries_view};

verus! {

/// The parents of `files`, in order, leaving out files without a parent
/// (see `has_parent`) and files directly in `folder`.
pub open spec fn parents_outside(files: Seq<PathView>, folder: PathView) -> Seq<PathView>
    decreases files.len(),
{
    if files.len() == 0 {
        Seq::empty()
    } else if has_parent(files.last()) && files.last().drop_last() != folder {
        parents_outside(files.drop_last(), folder).push(files.last().drop_last())
    } else {
        parents_outside(files.drop_last(), folder)
    }
}

/// The folders, other than `folder`, that hold the other files of the entries,
/// one occurrence for each such file, in order.
pub open spec fn other_parents(entries: Seq<(PathView, Seq<PathView>)>, folder: PathView) -> Seq<
    PathView,
>
    decreases entries.len(),
{
    if entries.len() == 0 {
        Seq::empty()
    } else {
        other_parents(entries.drop_last(), folder) + parents_outside(entries.last().1, folder)
    }
}

/// The number of occurrences of `d` in `s`.
pub open spec fn count_in(s: Seq<PathView>, d: PathView) -> nat
    decreases s.len(),
{
    if s.len() == 0 {
        0
    } else if s.last() == d {
        count_in(s.drop_last(), d) + 1
    } else {
        count_in(s.drop_last(), d)
    }
}

/// Every occurrence of `b` in `s` comes after an occurrence of `a`.
pub open spec fn occurs_before_in(s: Seq<PathView>, a: PathView, b: PathView) -> bool {
    forall|i: int| 0 <= i < s.len() && #[trigger] s[i] == b ==> exists|j: int| 0 <= j < i && s[j] == a
}

/// Folder counts, as views.
pub open spec fn counts_view(v: Seq<(FilePath, usize)>) -> Seq<(PathView, usize)> {
    v.map_values(|e: (FilePath, usize)| (e.0@, e.1))
}

/// `r` counts the occurrences in `s`: one pair for each folder occurring in
/// `s`, with its number of occurrences, the folders in the order in which
/// they first occur.
pub open spec fn counts_in_order(r: Seq<(PathView, usize)>, s: Seq<PathView>) -> bool {
    &&& forall|k: int| 0 <= k < r.len() ==> (#[trigger] r[k]).1 == count_in(s, r[k].0) && r[k].1 > 0
    &&& forall|k: int, l: int| 0 <= k < l < r.len() ==> (#[trigger] r[k]).0 != (#[trigger] r[l]).0
    &&& forall|d: PathView| #[trigger] count_in(s, d) > 0 ==> exists|k: int| 0 <= k < r.len() && r[k].0 == d
    &&& forall|k: int, l: int|
        0 <= k < l < r.len() ==> occurs_before_in(s, (#[trigger] r[k]).0, (#[trigger] r[l]).0)
}

pub(crate) proof fn lemma_count_in_positive(s: Seq<PathView>, d: PathView)
    ensures
        count_in(s, d) > 0 <==> exists|i: int| 0 <= i < s.len() && s[i] == d,
        count_in(s, d) <= s.len(),
    decreases s.len(),
{
    if s.len() > 0 {
        lemma_count_in_positive(s.drop_last(), d);
        if exists|i: int| 0 <= i < s.len() && s[i] == d {
            let i = choose|i: int| 0 <= i < s.len() && s[i] == d;
            if i < s.len() - 1 {
                assert(s.drop_last()[i] == s[i]);
            }
        }
        if exists|i: int| 0 <= i < s.drop_last().len() && s.drop_last()[i] == d {
            let i = choose|i: int| 0 <= i < s.drop_last().len() && s.drop_last()[i] == d;
            assert(s[i] == d);
        }
    }
}

/// Counts the occurrences of each folder in `dirs`, in order of first occurrence.
fn count_folders(dirs: &Vec<FilePath>) -> (counts: Vec<(FilePath, usize)>)
    ensures
        counts_in_order(counts_view(counts@), paths_view(dirs@)),
{
    let ghost s = paths_view(dirs@);
    let mut counts: Vec<(FilePath, usize)> = Vec::new();
    for i in 0..dirs.len()
        invariant
            s == paths_view(dirs@),
            counts_in_order(counts_view(counts@), s.take(i as int)),
    {
        let ghost c0 = counts_view(counts@);
        let ghost prefix = s.take(i as int);
        let ghost next = s.take(i + 1);
        assert(next.drop_last() =~= prefix);
        assert(next.last() == s[i as int]);
        let d = &dirs[i];
        let mut k: usize = 0;
        while k < counts.len() && !counts[k].0.same_as(d)
            invariant
                k <= counts@.len(),
                c0 == counts_view(counts@),
                forall|m: int| 0 <= m < k ==> (#[trigger] c0[m]).0 != d@,
            decreases counts@.len() - k,
        {
            k = k + 1;
        }
        proof {
            lemma_count_in_positive(prefix, d@);
        }
        if k < counts.len() {
            assert(c0[k as int].0 == d@);
            let c = counts[k].1;
            assert(c == count_in(prefix, d@));
            assert(c <= i);
            let p = counts[k].0.clone();
            counts.set(k, (p, c + 1));
            proof {
                let c1 = counts_view(counts@);
                assert forall|m: int| 0 <= m < c1.len() implies (#[trigger] c1[m]).1 == count_in(next, c1[m].0) && c1[m].1 > 0 by {
                    if m != k {
                        assert(c1[m] == c0[m]);
                    }
                }
                assert forall|m: int, l: int| 0 <= m < l < c1.len() implies (#[trigger] c1[m]).0 != (#[trigger] c1[l]).0 by {
                    assert(c1[m].0 == c0[m].0);
                    assert(c1[l].0 == c0[l].0);
                }
                assert forall|x: PathView| #[trigger] count_in(next, x) > 0 implies exists|m: int| 0 <= m < c1.len() && c1[m].0 == x by {
                    if x != d@ {
                        assert(count_in(next, x) == count_in(prefix, x));
                        let m = choose|m: int| 0 <= m < c0.len() && c0[m].0 == x;
                        assert(c1[m].0 == c0[m].0);
                    } else {
                        assert(c1[k as int].0 == x);
                    }
                }
                assert forall|m: int, l: int| 0 <= m < l < c1.len() implies occurs_before_in(next, (#[trigger] c1[m]).0, (#[trigger] c1[l]).0) by {
                    assert(c1[m].0 == c0[m].0);
                    assert(c1[l].0 == c0[l].0);
                    assert(occurs_before_in(prefix, c0[m].0, c0[l].0));
                    assert forall|a: int| 0 <= a < next.len() && #[trigger] next[a] == c1[l].0 implies exists|j: int| 0 <= j < a && next[j] == c1[m].0 by {
                        if a < i {
                            assert(next[a] == prefix[a]);
                            let j = choose|j: int| 0 <= j < a && prefix[j] == c0[m].0;
                            assert(next[j] == prefix[j]);
                        } else {
                            // `d` occurred before, after an occurrence of the earlier folder.
                            let b = choose|b: int| 0 <= b < prefix.len() && prefix[b] == d@;
                            assert(prefix[b] == c0[l].0);
                            let j = choose|j: int| 0 <= j < b && prefix[j] == c0[m].0;
                            assert(next[j] == prefix[j]);
                        }
                    }
                }
            }
        } else {
            let p = d.clone();
            counts.push((p, 1));
            proof {
                let c1 = counts_view(counts@);
                assert(c1 =~= c0.push((d@, 1usize)));
                assert(count_in(prefix, d@) == 0) by {
                    if count_in(prefix, d@) > 0 {
                        let m = choose|m: int| 0 <= m < c0.len() && c0[m].0 == d@;
                    }
                }
                assert forall|m: int| 0 <= m < c1.len() implies (#[trigger] c1[m]).1 == count_in(next, c1[m].0) && c1[m].1 > 0 by {
                    if m < c0.len() {
                        assert(c1[m] == c0[m]);
                    }
                }
                assert forall|m: int, l: int| 0 <= m < l < c1.len() implies (#[trigger] c1[m]).0 != (#[trigger] c1[l]).0 by {
                    assert(c1[m] == c0[m]);
                    if l < c0.len() {
                        assert(c1[l] == c0[l]);
                    }
                }
                assert forall|x: PathView| #[trigger] count_in(next, x) > 0 implies exists|m: int| 0 <= m < c1.len() && c1[m].0 == x by {
                    if x != d@ {
                        assert(count_in(next, x) == count_in(prefix, x));
                        let m = choose|m: int| 0 <= m < c0.len() && c0[m].0 == x;
                        assert(c1[m] == c0[m]);
                    } else {
                        assert(c1[c0.len() as int].0 == x);
                    }
                }
                assert forall|m: int, l: int| 0 <= m < l < c1.len() implies occurs_before_in(next, (#[trigger] c1[m]).0, (#[trigger] c1[l]).0) by {
                    assert(c1[m] == c0[m]);
                    assert forall|a: int| 0 <= a < next.len() && #[trigger] next[a] == c1[l].0 implies exists|j: int| 0 <= j < a && next[j] == c1[m].0 by {
                        if l < c0.len() {
                            assert(c1[l] == c0[l]);
                            assert(occurs_before_in(prefix, c0[m].0, c0[l].0));
                            if a < i {
                                assert(next[a] == prefix[a]);
                                let j = choose|j: int| 0 <= j < a && prefix[j] == c0[m].0;
                                assert(next[j] == prefix[j]);
                            } else {
                                assert(c0[l].0 != d@);
                            }
                        } else {
                            lemma_count_in_positive(prefix, c0[m].0);
                            let j = choose|j: int| 0 <= j < prefix.len() && prefix[j] == c0[m].0;
                            if a < i {
                                assert(next[a] == prefix[a]);
                                assert(prefix[a] == d@);
                                assert(false);
                            }
                            assert(next[j] == prefix[j]);
                        }
                    }
                }
            }
        }
    }
    assert(s.take(dirs@.len() as int) =~= s);
    counts
}

/// `r` is ordered by count, largest first, folders with equal counts in the
/// order in which they first occur in `s`.
pub open spec fn sorted_by_count(r: Seq<(PathView, usize)>, s: Seq<PathView>) -> bool {
    forall|k: int, l: int|
        0 <= k < l < r.len() ==> (#[trigger] r[k]).1 > (#[trigger] r[l]).1 || (r[k].1 == r[l].1
            && occurs_before_in(s, r[k].0, r[l].0))
}

/// The counts of `counts`, reordered by count, largest first, keeping the
/// order of equal counts.
fn sort_by_count(counts: &Vec<(FilePath, usize)>, Ghost(s): Ghost<Seq<PathView>>) -> (sorted: Vec<
    (FilePath, usize),
>)
    requires
        counts_in_order(counts_view(counts@), s),
    ensures
        forall|x: (PathView, usize)|
            counts_view(sorted@).contains(x) <==> counts_view(counts@).contains(x),
        forall|k: int, l: int|
            0 <= k < l < sorted@.len() ==> (#[trigger] counts_view(sorted@)[k]).0 != (
            #[trigger] counts_view(sorted@)[l]).0,
        sorted_by_count(counts_view(sorted@), s),
{
    let ghost c = counts_view(counts@);
    let mut out: Vec<(FilePath, usize)> = Vec::new();
    for j in 0..counts.len()
        invariant
            c == counts_view(counts@),
            counts_in_order(c, s),
            forall|x: (PathView, usize)| counts_view(out@).contains(x) <==> c.take(j as int).contains(x),
            forall|k: int, l: int|
                0 <= k < l < out@.len() ==> (#[trigger] counts_view(out@)[k]).0 != (
                #[trigger] counts_view(out@)[l]).0,
            sorted_by_count(counts_view(out@), s),
    {
        let ghost o = counts_view(out@);
        let x = counts[j].1;
        let mut pos: usize = 0;
        while pos < out.len() && out[pos].1 >= x
            invariant
                pos <= out@.len(),
                o == counts_view(out@),
                forall|t: int| 0 <= t < pos ==> (#[trigger] o[t]).1 >= x,
            decreases out@.len() - pos,
        {
            pos = pos + 1;
        }
        let e = (counts[j].0.clone(), x);
        let ghost ev = (e.0@, e.1);
        assert(ev == c[j as int]);
        out.insert(pos, e);
        proof {
            let n = counts_view(out@);
            assert(n =~= o.insert(pos as int, ev));
            assert(c.take(j + 1) =~= c.take(j as int).push(ev));
            // Every folder already placed comes earlier in `counts`.
            assert forall|t: int| 0 <= t < o.len() implies exists|m: int| 0 <= m < j && c[m] == #[trigger] o[t] by {
                assert(o.contains(o[t]));
                assert(c.take(j as int).contains(o[t]));
                let m = choose|m: int| 0 <= m < j && c.take(j as int)[m] == o[t];
                assert(c[m] == c.take(j as int)[m]);
            }
            assert forall|y: (PathView, usize)| n.contains(y) <==> c.take(j + 1).contains(y) by {
                if n.contains(y) {
                    let t = choose|t: int| 0 <= t < n.len() && n[t] == y;
                    if t < pos {
                        assert(o[t] == y);
                        assert(o.contains(y));
                        let m = choose|m: int| 0 <= m < j && c.take(j as int)[m] == y;
                        assert(c.take(j + 1)[m] == y);
                    } else if t == pos {
                        assert(c.take(j + 1)[j as int] == y);
                    } else {
                        assert(o[t - 1] == y);
                        assert(o.contains(y));
                        let m = choose|m: int| 0 <= m < j && c.take(j as int)[m] == y;
                        assert(c.take(j + 1)[m] == y);
                    }
                }
                if c.take(j + 1).contains(y) {
                    let m = choose|m: int| 0 <= m < j + 1 && #[trigger] c.take(j + 1)[m] == y;
                    if m < j {
                        assert(c.take(j as int)[m] == y);
                        assert(o.contains(y));
                        let t = choose|t: int| 0 <= t < o.len() && o[t] == y;
                        if t < pos {
                            assert(n[t] == y);
                        } else {
                            assert(n[t + 1] == y);
                        }
                    } else {
                        assert(n[pos as int] == y);
                    }
                }
            }
            assert forall|k: int, l: int| 0 <= k < l < n.len() implies (#[trigger] n[k]).0 != (#[trigger] n[l]).0 by {
                if k != pos && l != pos {
                    let ok = if k < pos { k } else { k - 1 };
                    let ol = if l < pos { l } else { l - 1 };
                    assert(n[k] == o[ok]);
                    assert(n[l] == o[ol]);
                } else if k == pos {
                    let m = choose|m: int| 0 <= m < j && c[m] == #[trigger] o[l - 1];
                    assert(n[l] == o[l - 1]);
                } else {
                    let m = choose|m: int| 0 <= m < j && c[m] == #[trigger] o[k];
                    assert(n[k] == o[k]);
                }
            }
            assert forall|k: int, l: int| 0 <= k < l < n.len() implies (#[trigger] n[k]).1 > (#[trigger] n[l]).1
                || (n[k].1 == n[l].1 && occurs_before_in(s, n[k].0, n[l].0)) by {
                if k != pos && l != pos {
                    let ok = if k < pos { k } else { k - 1 };
                    let ol = if l < pos { l } else { l - 1 };
                    assert(n[k] == o[ok]);
                    assert(n[l] == o[ol]);
                } else if l == pos {
                    assert(n[k] == o[k]);
                    assert(o[k].1 >= x);
                    let m = choose|m: int| 0 <= m < j && c[m] == #[trigger] o[k];
                    assert(occurs_before_in(s, c[m].0, c[j as int].0));
                } else {
                    assert(n[l] == o[l - 1]);
                    assert(pos < o.len());
                    assert(o[pos as int].1 < x);
                    if l - 1 > pos {
                        assert(o[pos as int].1 >= o[l - 1].1);
                    }
                }
            }
        }
    }
    assert(c.take(counts@.len() as int) =~= c);
    out
}

/// The folders holding the files of `others`, leaving out `folder`.
fn collect_other_parents(files: &Vec<(FilePath, Vec<FilePath>)>, folder: &FilePath) -> (dirs: Vec<
    FilePath,
>)
    ensures
        paths_view(dirs@) == other_parents(entries_view(files@), folder@),
{
    let ghost es = entries_view(files@);
    let mut dirs: Vec<FilePath> = Vec::new();
    assert(paths_view(dirs@) =~= other_parents(es.take(0), folder@));
    for i in 0..files.len()
        invariant
            es == entries_view(files@),
            paths_view(dirs@) == other_parents(es.take(i as int), folder@),
    {
        assert(es.take(i + 1).drop_last() =~= es.take(i as int));
        assert(es.take(i + 1).last() == es[i as int]);
        let others = &files[i].1;
        let ghost ov = paths_view(others@);
        assert(es[i as int].1 == ov);
        assert(parents_outside(ov.take(0), folder@) =~= Seq::<PathView>::empty());
        assert(paths_view(dirs@) =~= other_parents(es.take(i as int), folder@) + parents_outside(ov.take(0), folder@));
        for j in 0..others.len()
            invariant
                ov == paths_view(others@),
                paths_view(dirs@) == other_parents(es.take(i as int), folder@) + parents_outside(ov.take(j as int), folder@),
        {
            assert(ov.take(j + 1).drop_last() =~= ov.take(j as int));
            assert(ov.take(j + 1).last() == ov[j as int]);
            let f = &others[j];
            if f.has_parent() {
                let n = f.len();
                let parent = f.prefix(n - 1);
                assert(parent@ =~= f@.drop_last());
                if !parent.same_as(folder) {
                    let ghost before = dirs@;
                    let ghost pv = parent@;
                    dirs.push(parent);
                    assert(paths_view(dirs@) =~= paths_view(before).push(pv));
                }
            }
        }
        assert(ov.take(ov.len() as int) =~= ov);
    }
    assert(es.take(es.len() as int) =~= es);
    dirs
}

/// `r` summarizes where the other copies of a folder's files lie: one pair
/// for each other folder holding such a copy, with the number of copies
/// there; largest count first, folders with equal counts in the order in
/// which they first occur in `s`.
pub open spec fn is_overlap_summary(r: Seq<(PathView, usize)>, s: Seq<PathView>) -> bool {
    &&& forall|k: int| 0 <= k < r.len() ==> (#[trigger] r[k]).1 == count_in(s, r[k].0) && r[k].1 > 0
    &&& forall|k: int, l: int| 0 <= k < l < r.len() ==> (#[trigger] r[k]).0 != (#[trigger] r[l]).0
    &&& forall|d: PathView| #[trigger] count_in(s, d) > 0 ==> exists|k: int| 0 <= k < r.len() && r[k].0 == d
    &&& sorted_by_count(r, s)
}

/// For the file entries of `folder`, the other folders that hold copies of
/// its files, each with the number of such copies, largest count first
/// (equal counts in order of first occurrence among the entries).
pub fn folder_overlaps(files: &Vec<(FilePath, Vec<FilePath>)>, folder: &FilePath) -> (summary: Vec<
    (FilePath, usize),
>)
    ensures
        is_overlap_summary(counts_view(summary@), other_parents(entries_view(files@), folder@)),
{
    let dirs = collect_other_parents(files, folder);
    let ghost s = paths_view(dirs@);
    let counts = count_folders(&dirs);
    let sorted = sort_by_count(&counts, Ghost(s));
    proof {
        let c = counts_view(counts@);
        let r = counts_view(sorted@);
        assert forall|k: int| 0 <= k < r.len() implies (#[trigger] r[k]).1 == count_in(s, r[k].0) && r[k].1 > 0 by {
            assert(r.contains(r[k]));
            let m = choose|m: int| 0 <= m < c.len() && c[m] == r[k];
        }
        assert forall|d: PathView| #[trigger] count_in(s, d) > 0 implies exists|k: int| 0 <= k < r.len() && r[k].0 == d by {
            let m = choose|m: int| 0 <= m < c.len() && c[m].0 == d;
            assert(c.contains(c[m]));
            let k = choose|k: int| 0 <= k < r.len() && r[k] == c[m];
        }
    }
    sorted
}

/// A folder holding duplicates with its file entries, as a view.
pub type FolderView = (PathView, Seq<(PathView, Seq<PathView>)>);

/// Listed folders, as views.
pub open spec fn folders_view(v: Seq<(FilePath, Vec<(FilePath, Vec<FilePath>)>)>) -> Seq<FolderView> {
    v.map_values(|e: (FilePath, Vec<(FilePath, Vec<FilePath>)>)| (e.0@, entries_view(e.1@)))
}

/// The folders of a tree that hold duplicates themselves, with their file
/// entries: the node first, then the folders of its children in order.
pub open spec fn listed_folders(node: DirectoryNode) -> Seq<FolderView>
    decreases node,
{
    (if node.files@.len() > 0 {
        seq![(node.path@, entries_view(node.files@))]
    } else {
        Seq::empty()
    }) + listed_folders_in(node.children@)
}

/// The folders holding duplicates of a sequence of trees, tree after tree.
pub open spec fn listed_folders_in(nodes: Seq<DirectoryNode>) -> Seq<FolderView>
    decreases nodes,
{
    if nodes.len() == 0 {
        Seq::empty()
    } else {
        listed_folders_in(nodes.drop_last()) + listed_folders(nodes.last())
    }
}

/// A copy of file entries.
fn copy_entries(files: &Vec<(FilePath, Vec<FilePath>)>) -> (copy: Vec<(FilePath, Vec<FilePath>)>)
    ensures
        entries_view(copy@) == entries_view(files@),
{
    let mut copy: Vec<(FilePath, Vec<FilePath>)> = Vec::new();
    for j in 0..files.len()
        invariant
            entries_view(copy@) == entries_view(files@).take(j as int),
    {
        let e = (files[j].0.clone(), copy_paths(&files[j].1));
        let ghost before = copy@;
        copy.push(e);
        assert(entries_view(copy@) =~= entries_view(before).push(entries_view(files@)[j as int]));
        assert(entries_view(files@).take(j + 1) =~= entries_view(files@).take(j as int).push(
            entries_view(files@)[j as int],
        ));
    }
    assert(entries_view(files@).take(files@.len() as int) =~= entries_view(files@));
    copy
}

/// The folders of the tree that hold duplicates themselves, each with its
/// file entries, in the order in which the tree is read: a folder before
/// the folders below it, children in order.
pub fn folders_with_files(node: &DirectoryNode) -> (folders: Vec<(FilePath, Vec<(FilePath, Vec<FilePath>)>)>)
    ensures
        folders_view(folders@) == listed_folders(*node),
    decreases node,
{
    let mut folders: Vec<(FilePath, Vec<(FilePath, Vec<FilePath>)>)> = Vec::new();
    if node.files.len() > 0 {
        let e = (node.path.clone(), copy_entries(&node.files));
        folders.push(e);
    }
    let ghost own = folders_view(folders@);
    let ghost cs = node.children@;
    assert(own =~= (if node.files@.len() > 0 {
        seq![(node.path@, entries_view(node.files@))]
    } else {
        Seq::empty()
    }));
    assert(cs.take(0) =~= Seq::<DirectoryNode>::empty());
    assert(folders_view(folders@) =~= own + listed_folders_in(cs.take(0)));
    for i in 0..node.children.len()
        invariant
            cs == node.children@,
            folders_view(folders@) == own + listed_folders_in(cs.take(i as int)),
    {
        assert(cs.take(i + 1).drop_last() =~= cs.take(i as int));
        assert(cs.take(i + 1).last() == cs[i as int]);
        let mut sub = folders_with_files(&node.children[i]);
        let ghost before = folders@;
        let ghost added = sub@;
        folders.append(&mut sub);
        assert(folders_view(folders@) =~= folders_view(before) + folders_view(added));
    }
    assert(cs.take(cs.len() as int) =~= cs);
    folders
}

} // verus!
