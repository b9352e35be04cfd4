//! Finding the files with equal contents among files of equal size.

use vstd::prelude::*;
use crate::path::{FilePath, PathView, paths_view};
use crate::tree::groups_view;

verus! {

/// The CRC-32 (IEEE) checksum of `data`, as the `crc32fast` crate computes it.
pub uninterp spec fn crc32(data: Seq<u8>) -> u32;

/// Calls `crc32fast::hash`, which computes the CRC-32 (IEEE) checksum of the
/// bytes it is given; the contract claims only that the result is that
/// checksum of `data`, a function of `data` alone, named `crc32`.
#[verifier::external_body]
fn crc32_of(data: &[u8]) -> (sum: u32)
    ensures
        sum == crc32(data@),
{
    crc32fast::hash(data)
}

/// No index before `i` has the hash of `i`.
pub open spec fn first_with_hash(h: Seq<u32>, i: int) -> bool {
    forall|k: int| 0 <= k < i ==> h[k] != h[i]
}

/// The indices `j` with `i <= j < e` whose hash equals that of `i`, ascending.
pub open spec fn same_hash_from(h: Seq<u32>, i: int, e: int) -> Seq<usize>
    decreases e - i,
{
    if e <= i {
        Seq::empty()
    } else if h[e - 1] == h[i] {
        same_hash_from(h, i, e - 1).push((e - 1) as usize)
    } else {
        same_hash_from(h, i, e - 1)
    }
}

/// The groups of equal hashes among the first `e` indices: for each hash
/// value whose first index is below `e` and that more than one index of `h`
/// has, in the order of those first indices, all the indices having it,
/// ascending.
pub open spec fn hash_groups_upto(h: Seq<u32>, e: int) -> Seq<Seq<usize>>
    decreases e,
{
    if e <= 0 {
        Seq::empty()
    } else if first_with_hash(h, e - 1) && same_hash_from(h, e - 1, h.len() as int).len() > 1 {
        hash_groups_upto(h, e - 1).push(same_hash_from(h, e - 1, h.len() as int))
    } else {
        hash_groups_upto(h, e - 1)
    }
}

/// The groups of equal hashes in `h`.
pub open spec fn hash_groups(h: Seq<u32>) -> Seq<Seq<usize>> {
    hash_groups_upto(h, h.len() as int)
}

/// Index groups, as views.
pub open spec fn index_groups_view(g: Seq<Vec<usize>>) -> Seq<Seq<usize>> {
    g.map_values(|v: Vec<usize>| v@)
}

/// Groups the indices of `hashes` by equal hash: each hash value that occurs
/// more than once gives one group, in the order of its first occurrence,
/// holding all the indices where it occurs, ascending.
pub fn group_by_hash(hashes: &Vec<u32>) -> (groups: Vec<Vec<usize>>)
    ensures
        index_groups_view(groups@) == hash_groups(hashes@),
{
    let ghost h = hashes@;
    let n = hashes.len();
    let mut is_dup: Vec<bool> = Vec::new();
    for j in 0..n
        invariant
            is_dup@.len() == j,
            forall|t: int| 0 <= t < j ==> !is_dup@[t],
    {
        is_dup.push(false);
    }
    let mut groups: Vec<Vec<usize>> = Vec::new();
    assert(index_groups_view(groups@) =~= hash_groups_upto(h, 0));
    for i in 0..n
        invariant
            n == h.len(),
            h == hashes@,
            is_dup@.len() == n,
            forall|t: int|
                i <= t < n ==> (#[trigger] is_dup@[t] <==> exists|k: int| 0 <= k < i && h[k] == h[t]),
            index_groups_view(groups@) == hash_groups_upto(h, i as int),
    {
        if is_dup[i] {
            proof {
                let k = choose|k: int| 0 <= k < i && h[k] == h[i as int];
                assert(!first_with_hash(h, i as int));
            }
        } else {
            assert(first_with_hash(h, i as int));
            let mut eq: Vec<usize> = Vec::new();
            eq.push(i);
            assert(same_hash_from(h, i as int, i as int) =~= Seq::<usize>::empty());
            assert(same_hash_from(h, i as int, i + 1) == same_hash_from(h, i as int, i as int).push(i));
            assert(eq@ =~= same_hash_from(h, i as int, i + 1));
            for j in i + 1..n
                invariant
                    n == h.len(),
                    h == hashes@,
                    i < n,
                    is_dup@.len() == n,
                    eq@ == same_hash_from(h, i as int, j as int),
                    forall|t: int|
                        i < t < n ==> (#[trigger] is_dup@[t] <==> (exists|k: int|
                            0 <= k < i && h[k] == h[t]) || (t < j && h[t] == h[i as int])),
            {
                if hashes[j] == hashes[i] {
                    is_dup.set(j, true);
                    eq.push(j);
                }
            }
            if eq.len() > 1 {
                is_dup.set(i, true);
                let ghost before = groups@;
                groups.push(eq);
                assert(index_groups_view(groups@) =~= index_groups_view(before).push(eq@));
            }
        }
        assert forall|t: int|
            i + 1 <= t < n implies (#[trigger] is_dup@[t] <==> exists|k: int| 0 <= k < i + 1 && h[k] == h[t]) by {
            if exists|k: int| 0 <= k < i + 1 && h[k] == h[t] {
                let k = choose|k: int| 0 <= k < i + 1 && h[k] == h[t];
                if k < i {
                    assert(exists|k: int| 0 <= k < i && h[k] == h[t]);
                }
            }
        }
    }
    groups
}

/// The indices collected for `i` lie in `[i, e)`, share the hash of `i`,
/// ascend strictly, start with `i`, and include every such index.
pub(crate) proof fn lemma_same_hash_from(h: Seq<u32>, i: int, e: int)
    requires
        0 <= i,
        e <= h.len(),
        h.len() <= usize::MAX,
    ensures
        forall|t: int|
            0 <= t < same_hash_from(h, i, e).len() ==> i <= #[trigger] same_hash_from(h, i, e)[t] < e
                && h[same_hash_from(h, i, e)[t] as int] == h[i],
        forall|t: int, u: int|
            0 <= t < u < same_hash_from(h, i, e).len() ==> #[trigger] same_hash_from(h, i, e)[t]
                < #[trigger] same_hash_from(h, i, e)[u],
        forall|j: int|
            i <= j < e && #[trigger] h[j] == h[i] ==> exists|t: int|
                0 <= t < same_hash_from(h, i, e).len() && #[trigger] same_hash_from(h, i, e)[t] == j,
        e > i ==> same_hash_from(h, i, e).len() > 0 && same_hash_from(h, i, e)[0] == i,
    decreases e - i,
{
    if e > i {
        lemma_same_hash_from(h, i, e - 1);
        let prev = same_hash_from(h, i, e - 1);
        let s = same_hash_from(h, i, e);
        assert forall|t: int| 0 <= t < s.len() implies i <= #[trigger] s[t] < e && h[s[t] as int] == h[i] by {
            if t < prev.len() {
                assert(s[t] == prev[t]);
            }
        }
        assert forall|t: int, u: int| 0 <= t < u < s.len() implies #[trigger] s[t] < #[trigger] s[u] by {
            if u < prev.len() {
                assert(s[t] == prev[t]);
                assert(s[u] == prev[u]);
            } else {
                assert(s[t] == prev[t]);
            }
        }
        assert forall|j: int| i <= j < e && #[trigger] h[j] == h[i] implies exists|t: int| 0 <= t < s.len() && #[trigger] s[t] == j by {
            if j < e - 1 {
                let t = choose|t: int| 0 <= t < prev.len() && #[trigger] prev[t] == j;
                assert(s[t] == prev[t]);
            } else {
                assert(s[s.len() - 1] == j);
            }
        }
        if e - 1 > i {
            assert(s[0] == prev[0]);
        } else {
            assert(prev.len() == 0);
        }
    }
}

proof fn lemma_hash_groups_bounds(h: Seq<u32>, e: int)
    requires
        e <= h.len(),
        h.len() <= usize::MAX,
    ensures
        forall|a: int, t: int|
            0 <= a < hash_groups_upto(h, e).len() && 0 <= t < hash_groups_upto(h, e)[a].len() ==> #[trigger] hash_groups_upto(h, e)[a][t] < h.len(),
    decreases e,
{
    if e > 0 {
        lemma_hash_groups_bounds(h, e - 1);
        lemma_same_hash_from(h, e - 1, h.len() as int);
        let prev = hash_groups_upto(h, e - 1);
        let r = hash_groups_upto(h, e);
        assert forall|a: int, t: int| 0 <= a < r.len() && 0 <= t < r[a].len() implies #[trigger] r[a][t] < h.len() by {
            if a < prev.len() {
                assert(r[a] == prev[a]);
            }
        }
    }
}

/// The content hashes of files given with their contents.
pub open spec fn content_hashes(files: Seq<(FilePath, Vec<u8>)>) -> Seq<u32> {
    Seq::new(files.len(), |i: int| crc32(files[i].1@))
}

/// The paths of the files at the indices `g`.
pub open spec fn paths_at(files: Seq<(FilePath, Vec<u8>)>, g: Seq<usize>) -> Seq<PathView> {
    g.map_values(|j: usize| files[j as int].0@)
}

/// The groups of files whose contents have equal CRC-32 checksums.
pub open spec fn duplicates_by_content(files: Seq<(FilePath, Vec<u8>)>) -> Seq<Seq<PathView>> {
    hash_groups(content_hashes(files)).map_values(|g: Seq<usize>| paths_at(files, g))
}

/// Groups files, given with their contents, by the CRC-32 checksum of their
/// contents: each checksum that more than one file has gives one group, in
/// the order of the first file having it, holding all the files having it, in
/// order.
pub fn get_duplicated_files_by_byte(files: &Vec<(FilePath, Vec<u8>)>) -> (groups: Vec<Vec<FilePath>>)
    ensures
        groups_view(groups@) == duplicates_by_content(files@),
{
    let ghost h = content_hashes(files@);
    let mut hashes: Vec<u32> = Vec::new();
    for i in 0..files.len()
        invariant
            h == content_hashes(files@),
            hashes@ == h.take(i as int),
    {
        let sum = crc32_of(files[i].1.as_slice());
        hashes.push(sum);
        assert(hashes@ =~= h.take(i + 1));
    }
    assert(hashes@ =~= h);
    let index_groups = group_by_hash(&hashes);
    proof {
        lemma_hash_groups_bounds(h, h.len() as int);
    }
    let ghost expected = duplicates_by_content(files@);
    let mut groups: Vec<Vec<FilePath>> = Vec::new();
    assert(groups_view(groups@) =~= expected.take(0));
    for a in 0..index_groups.len()
        invariant
            h == content_hashes(files@),
            h.len() == files@.len(),
            expected == duplicates_by_content(files@),
            index_groups_view(index_groups@) == hash_groups(h),
            forall|x: int, t: int|
                0 <= x < hash_groups(h).len() && 0 <= t < hash_groups(h)[x].len() ==> #[trigger] hash_groups(h)[x][t] < h.len(),
            groups_view(groups@) == expected.take(a as int),
    {
        let ig = &index_groups[a];
        assert(ig@ == hash_groups(h)[a as int]);
        let mut paths: Vec<FilePath> = Vec::new();
        assert(paths_view(paths@) =~= paths_at(files@, ig@.take(0)));
        for t in 0..ig.len()
            invariant
                h.len() == files@.len(),
                forall|u: int| 0 <= u < ig@.len() ==> #[trigger] ig@[u] < h.len(),
                paths_view(paths@) == paths_at(files@, ig@.take(t as int)),
        {
            let k = ig[t];
            let p = files[k].0.clone();
            let ghost before = paths@;
            paths.push(p);
            assert(paths_view(paths@) =~= paths_view(before).push(p@));
            assert(ig@.take(t + 1) =~= ig@.take(t as int).push(k));
            assert(paths_at(files@, ig@.take(t + 1)) =~= paths_at(files@, ig@.take(t as int)).push(files@[k as int].0@));
        }
        assert(ig@.take(ig@.len() as int) =~= ig@);
        let ghost before = groups@;
        groups.push(paths);
        assert(groups_view(groups@) =~= groups_view(before).push(paths_view(paths@)));
        assert(expected.take(a + 1) =~= expected.take(a as int).push(expected[a as int]));
    }
    assert(expected.take(index_groups@.len() as int) =~= expected);
    groups
}

/// The duplicates found in each group of files of equal size that holds
/// more than one file, group after group.
pub open spec fn duplicates_across(groups: Seq<Vec<(FilePath, Vec<u8>)>>) -> Seq<Seq<PathView>>
    decreases groups.len(),
{
    if groups.len() == 0 {
        Seq::empty()
    } else if groups.last()@.len() <= 1 {
        duplicates_across(groups.drop_last())
    } else {
        duplicates_across(groups.drop_last()) + duplicates_by_content(groups.last()@)
    }
}

/// Finds the duplicated files among groups of files of equal size, each file
/// given with its contents: groups holding a single file are passed over,
/// and each other group is split by `get_duplicated_files_by_byte`.
pub fn get_duplicated_files(files_by_size: Vec<Vec<(FilePath, Vec<u8>)>>) -> (duplicated_files: Vec<
    Vec<FilePath>,
>)
    ensures
        groups_view(duplicated_files@) == duplicates_across(files_by_size@),
{
    let ghost gs = files_by_size@;
    let mut duplicated_files: Vec<Vec<FilePath>> = Vec::new();
    assert(groups_view(duplicated_files@) =~= duplicates_across(gs.take(0)));
    for i in 0..files_by_size.len()
        invariant
            gs == files_by_size@,
            groups_view(duplicated_files@) == duplicates_across(gs.take(i as int)),
    {
        assert(gs.take(i + 1).drop_last() =~= gs.take(i as int));
        assert(gs.take(i + 1).last() == gs[i as int]);
        let paths = &files_by_size[i];
        if paths.len() > 1 {
            let mut found = get_duplicated_files_by_byte(paths);
            let ghost before = duplicated_files@;
            let ghost added = found@;
            duplicated_files.append(&mut found);
            assert(groups_view(duplicated_files@) =~= groups_view(before) + groups_view(added));
        }
    }
    assert(gs.take(gs.len() as int) =~= gs);
    duplicated_files
}

} // verus!
