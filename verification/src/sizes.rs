//! Grouping listed files by their size.

use vstd::prelude::*;
use std::collections::HashMap;
use crate::path::{FilePath, PathView, copy_paths, paths_view};

verus! {

broadcast use vstd::std_specs::hash::group_hash_axioms;

/// Listed files with their sizes, as views.
pub open spec fn sized_view(files: Seq<(FilePath, u64)>) -> Seq<(PathView, u64)> {
    files.map_values(|e: (FilePath, u64)| (e.0@, e.1))
}

/// The files of size `s`, in order.
pub open spec fn files_of_size(files: Seq<(PathView, u64)>, s: u64) -> Seq<PathView>
    decreases files.len(),
{
    if files.len() == 0 {
        Seq::empty()
    } else if files.last().1 == s {
        files_of_size(files.drop_last(), s).push(files.last().0)
    } else {
        files_of_size(files.drop_last(), s)
    }
}

/// Groups of files by size, as views.
pub open spec fn size_groups_view(groups: Seq<(u64, Vec<FilePath>)>) -> Seq<(u64, Seq<PathView>)> {
    groups.map_values(|g: (u64, Vec<FilePath>)| (g.0, paths_view(g.1@)))
}

/// `groups` groups the files of at least `min_size` bytes by size: one group
/// for each such size, holding all the files of that size in order (so never
/// empty), the groups in the order in which their sizes first occur.
pub open spec fn is_size_grouping(
    groups: Seq<(u64, Seq<PathView>)>,
    files: Seq<(PathView, u64)>,
    min_size: u64,
) -> bool {
    &&& forall|k: int|
        0 <= k < groups.len() ==> (#[trigger] groups[k]).0 >= min_size && groups[k].1
            == files_of_size(files, groups[k].0) && groups[k].1.len() > 0
    &&& forall|k: int, l: int|
        0 <= k < l < groups.len() ==> (#[trigger] groups[k]).0 != (#[trigger] groups[l]).0
    &&& forall|i: int|
        0 <= i < files.len() && (#[trigger] files[i]).1 >= min_size ==> exists|k: int|
            0 <= k < groups.len() && (#[trigger] groups[k]).0 == files[i].1
    &&& forall|k: int, l: int|
        0 <= k < l < groups.len() ==> occurs_before(
            files,
            (#[trigger] groups[k]).0,
            (#[trigger] groups[l]).0,
        )
}

/// Every file of size `b` comes after some file of size `a`.
pub open spec fn occurs_before(files: Seq<(PathView, u64)>, a: u64, b: u64) -> bool {
    forall|i: int|
        0 <= i < files.len() && (#[trigger] files[i]).1 == b ==> exists|j: int|
            0 <= j < i && (#[trigger] files[j]).1 == a
}

/// Groups the files of at least `min_size` bytes by size: one group for each
/// such size, holding all the files of that size in order; the groups come in
/// the order in which their sizes first occur.
pub fn group_files_by_size(files: Vec<(FilePath, u64)>, min_size: u64) -> (groups: Vec<
    (u64, Vec<FilePath>),
>)
    ensures
        is_size_grouping(size_groups_view(groups@), sized_view(files@), min_size),
{
    let ghost fs = sized_view(files@);
    let mut index: HashMap<u64, usize> = HashMap::new();
    let mut groups: Vec<(u64, Vec<FilePath>)> = Vec::new();
    for i in 0..files.len()
        invariant
            fs == sized_view(files@),
            forall|k: int|
                0 <= k < groups@.len() ==> index@.contains_key(#[trigger] groups@[k].0) && index@[groups@[k].0] == k,
            forall|s: u64|
                #[trigger] index@.contains_key(s) ==> index@[s] < groups@.len() && groups@[index@[s] as int].0 == s,
            is_size_grouping(size_groups_view(groups@), fs.take(i as int), min_size),
    {
        let ghost g0 = size_groups_view(groups@);
        let ghost prefix = fs.take(i as int);
        let ghost next = fs.take(i + 1);
        assert(next.drop_last() =~= prefix);
        assert(next.last() == fs[i as int]);
        let s = files[i].1;
        if s >= min_size {
            let found = index.get(&s);
            match found {
                Some(k) => {
                    let k = *k;
                    let p = files[i].0.clone();
                    groups[k].1.push(p);
                    proof {
                        let g1 = size_groups_view(groups@);
                        assert forall|m: int| 0 <= m < g1.len() implies (#[trigger] g1[m]).0 >= min_size && g1[m].1 == files_of_size(next, g1[m].0) && g1[m].1.len() > 0 by {
                            assert(g0[m].1 == files_of_size(prefix, g0[m].0));
                            if m == k {
                                assert(g1[m].1 =~= g0[m].1.push(p@));
                            } else {
                                assert(g1[m] == g0[m]);
                            }
                        }
                        assert forall|a: int| 0 <= a < next.len() && (#[trigger] next[a]).1 >= min_size implies exists|m: int| 0 <= m < g1.len() && (#[trigger] g1[m]).0 == next[a].1 by {
                            if a < i {
                                assert(next[a] == prefix[a]);
                                let m = choose|m: int| 0 <= m < g0.len() && (#[trigger] g0[m]).0 == prefix[a].1;
                                assert(g1[m].0 == g0[m].0);
                            } else {
                                assert(g1[k as int].0 == s);
                            }
                        }
                        assert forall|m: int, l: int| 0 <= m < l < g1.len() implies occurs_before(next, (#[trigger] g1[m]).0, (#[trigger] g1[l]).0) by {
                            assert(g1[l].0 == g0[l].0);
                            assert(g1[m].0 == g0[m].0);
                            assert(occurs_before(prefix, g0[m].0, g0[l].0));
                            assert forall|a: int| 0 <= a < next.len() && (#[trigger] next[a]).1 == g1[l].0 implies exists|j: int| 0 <= j < a && (#[trigger] next[j]).1 == g1[m].0 by {
                                if a < i {
                                    assert(next[a] == prefix[a]);
                                    let j = choose|j: int| 0 <= j < a && (#[trigger] prefix[j]).1 == g0[m].0;
                                    assert(next[j] == prefix[j]);
                                } else {
                                    lemma_size_occurs(prefix, g0, min_size, l);
                                    let b = choose|b: int| 0 <= b < prefix.len() && (#[trigger] prefix[b]).1 == g0[l].0;
                                    let j = choose|j: int| 0 <= j < b && (#[trigger] prefix[j]).1 == g0[m].0;
                                    assert(next[j] == prefix[j]);
                                }
                            }
                        }
                        assert forall|m: int, l: int| 0 <= m < l < g1.len() implies (#[trigger] g1[m]).0 != (#[trigger] g1[l]).0 by {
                            assert(g1[l].0 == g0[l].0);
                            assert(g1[m].0 == g0[m].0);
                        }
                        assert(is_size_grouping(g1, next, min_size));
                    }
                },
                None => {
                    let p = files[i].0.clone();
                    let ghost pv = p@;
                    let mut v: Vec<FilePath> = Vec::new();
                    v.push(p);
                    assert(paths_view(v@) =~= seq![pv]);
                    let k = groups.len();
                    index.insert(s, k);
                    groups.push((s, v));
                    proof {
                        let g1 = size_groups_view(groups@);
                        assert(g1 =~= g0.push((s, seq![pv])));
                        assert(forall|m: int| 0 <= m < g0.len() ==> (#[trigger] g0[m]).0 != s);
                        assert forall|m: int| 0 <= m < g1.len() implies (#[trigger] g1[m]).0 >= min_size && g1[m].1 == files_of_size(next, g1[m].0) && g1[m].1.len() > 0 by {
                            if m < k {
                                assert(g1[m] == g0[m]);
                            } else {
                                lemma_no_file_of_size(prefix, g0, min_size, s);
                                assert(files_of_size(prefix, s) =~= Seq::<PathView>::empty());
                                assert(g1[m].1 =~= files_of_size(prefix, s).push(pv));
                            }
                        }
                        assert forall|a: int| 0 <= a < next.len() && (#[trigger] next[a]).1 >= min_size implies exists|m: int| 0 <= m < g1.len() && (#[trigger] g1[m]).0 == next[a].1 by {
                            if a < i {
                                assert(next[a] == prefix[a]);
                                let m = choose|m: int| 0 <= m < g0.len() && (#[trigger] g0[m]).0 == prefix[a].1;
                                assert(g1[m] == g0[m]);
                            } else {
                                assert(g1[k as int].0 == s);
                            }
                        }
                        assert forall|m: int, l: int| 0 <= m < l < g1.len() implies occurs_before(next, (#[trigger] g1[m]).0, (#[trigger] g1[l]).0) by {
                            assert(g1[m] == g0[m]);
                            assert forall|a: int| 0 <= a < next.len() && (#[trigger] next[a]).1 == g1[l].0 implies exists|j: int| 0 <= j < a && (#[trigger] next[j]).1 == g1[m].0 by {
                                if l < k {
                                    assert(g1[l] == g0[l]);
                                    assert(occurs_before(prefix, g0[m].0, g0[l].0));
                                    if a < i {
                                        assert(next[a] == prefix[a]);
                                        let j = choose|j: int| 0 <= j < a && (#[trigger] prefix[j]).1 == g0[m].0;
                                        assert(next[j] == prefix[j]);
                                    } else {
                                        assert(g0[l].0 != s);
                                    }
                                } else {
                                    lemma_size_occurs(prefix, g0, min_size, m);
                                    let j = choose|j: int| 0 <= j < prefix.len() && (#[trigger] prefix[j]).1 == g0[m].0;
                                    if a < i {
                                        assert(next[a] == prefix[a]);
                                        assert(prefix[a].1 == s);
                                        lemma_files_of_size_nonempty(prefix, s);
                                        lemma_no_file_of_size(prefix, g0, min_size, s);
                                        assert(false);
                                    }
                                    assert(next[j] == prefix[j]);
                                }
                            }
                        }
                        assert forall|m: int, l: int| 0 <= m < l < g1.len() implies (#[trigger] g1[m]).0 != (#[trigger] g1[l]).0 by {
                            assert(g1[m] == g0[m]);
                            if l < k {
                                assert(g1[l] == g0[l]);
                            }
                        }
                        assert(is_size_grouping(g1, next, min_size));
                    }
                },
            }
        } else {
            proof {
                let g1 = size_groups_view(groups@);
                assert forall|m: int| 0 <= m < g1.len() implies (#[trigger] g1[m]).0 >= min_size && g1[m].1 == files_of_size(next, g1[m].0) && g1[m].1.len() > 0 by {
                    assert(g1[m].1 == files_of_size(prefix, g1[m].0));
                }
                assert forall|a: int| 0 <= a < next.len() && (#[trigger] next[a]).1 >= min_size implies exists|m: int| 0 <= m < g1.len() && (#[trigger] g1[m]).0 == next[a].1 by {
                    assert(next[a] == prefix[a]);
                }
                assert forall|m: int, l: int| 0 <= m < l < g1.len() implies occurs_before(next, (#[trigger] g1[m]).0, (#[trigger] g1[l]).0) by {
                    assert(occurs_before(prefix, g1[m].0, g1[l].0));
                    assert forall|a: int| 0 <= a < next.len() && (#[trigger] next[a]).1 == g1[l].0 implies exists|j: int| 0 <= j < a && (#[trigger] next[j]).1 == g1[m].0 by {
                        if a < i {
                            assert(next[a] == prefix[a]);
                            let j = choose|j: int| 0 <= j < a && (#[trigger] prefix[j]).1 == g1[m].0;
                            assert(next[j] == prefix[j]);
                        } else {
                            assert(g1[l].0 >= min_size);
                        }
                    }
                }
                assert(is_size_grouping(g1, next, min_size));
            }
        }
    }
    assert(fs.take(files@.len() as int) =~= fs);
    groups
}

/// Each group's size is the size of some file.
proof fn lemma_size_occurs(
    files: Seq<(PathView, u64)>,
    groups: Seq<(u64, Seq<PathView>)>,
    min_size: u64,
    k: int,
)
    requires
        0 <= k < groups.len(),
        groups[k].1 == files_of_size(files, groups[k].0),
        groups[k].1.len() > 0,
    ensures
        exists|j: int| 0 <= j < files.len() && (#[trigger] files[j]).1 == groups[k].0,
{
    lemma_files_of_size_nonempty(files, groups[k].0);
}

proof fn lemma_files_of_size_nonempty(files: Seq<(PathView, u64)>, s: u64)
    ensures
        files_of_size(files, s).len() > 0 <==> exists|j: int| 0 <= j < files.len() && (#[trigger] files[j]).1 == s,
    decreases files.len(),
{
    if files.len() > 0 {
        lemma_files_of_size_nonempty(files.drop_last(), s);
        if exists|j: int| 0 <= j < files.len() && (#[trigger] files[j]).1 == s {
            let j = choose|j: int| 0 <= j < files.len() && (#[trigger] files[j]).1 == s;
            if j < files.len() - 1 {
                assert(files.drop_last()[j] == files[j]);
            }
        }
        if exists|j: int| 0 <= j < files.drop_last().len() && (#[trigger] files.drop_last()[j]).1 == s {
            let j = choose|j: int| 0 <= j < files.drop_last().len() && (#[trigger] files.drop_last()[j]).1 == s;
            assert(files[j] == files.drop_last()[j]);
        }
    }
}

/// A size of at least `min_size` that no group has is the size of no file.
proof fn lemma_no_file_of_size(
    files: Seq<(PathView, u64)>,
    groups: Seq<(u64, Seq<PathView>)>,
    min_size: u64,
    s: u64,
)
    requires
        is_size_grouping(groups, files, min_size),
        s >= min_size,
        forall|m: int| 0 <= m < groups.len() ==> (#[trigger] groups[m]).0 != s,
    ensures
        files_of_size(files, s).len() == 0,
{
    lemma_files_of_size_nonempty(files, s);
    if exists|j: int| 0 <= j < files.len() && (#[trigger] files[j]).1 == s {
        let j = choose|j: int| 0 <= j < files.len() && (#[trigger] files[j]).1 == s;
        let m = choose|m: int| 0 <= m < groups.len() && (#[trigger] groups[m]).0 == files[j].1;
    }
}

/// The file lists of the groups holding more than one file, in order.
pub open spec fn candidates(groups: Seq<(u64, Seq<PathView>)>) -> Seq<Seq<PathView>>
    decreases groups.len(),
{
    if groups.len() == 0 {
        Seq::empty()
    } else if groups.last().1.len() > 1 {
        candidates(groups.drop_last()).push(groups.last().1)
    } else {
        candidates(groups.drop_last())
    }
}

/// The files worth comparing by contents: the file lists of the size groups
/// that hold more than one file, in order.
pub fn comparison_candidates(groups: &Vec<(u64, Vec<FilePath>)>) -> (lists: Vec<Vec<FilePath>>)
    ensures
        lists@.map_values(|v: Vec<FilePath>| paths_view(v@)) == candidates(size_groups_view(groups@)),
{
    let ghost gs = size_groups_view(groups@);
    let mut lists: Vec<Vec<FilePath>> = Vec::new();
    assert(lists@.map_values(|v: Vec<FilePath>| paths_view(v@)) =~= candidates(gs.take(0)));
    for i in 0..groups.len()
        invariant
            gs == size_groups_view(groups@),
            lists@.map_values(|v: Vec<FilePath>| paths_view(v@)) == candidates(gs.take(i as int)),
    {
        assert(gs.take(i + 1).drop_last() =~= gs.take(i as int));
        assert(gs.take(i + 1).last() == gs[i as int]);
        let paths = &groups[i].1;
        if paths.len() > 1 {
            let copy = copy_paths(paths);
            let ghost before = lists@;
            lists.push(copy);
            assert(lists@.map_values(|v: Vec<FilePath>| paths_view(v@)) =~= before.map_values(
                |v: Vec<FilePath>| paths_view(v@),
            ).push(gs[i as int].1));
        }
    }
    assert(gs.take(groups@.len() as int) =~= gs);
    lists
}

} // verus!
