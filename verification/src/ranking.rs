//! What the rankings show: of all the files of a tree those that are largest, or that
//! were modified the longest time ago.

use crate::analysis::{
    all_hits, entrants, hits_below, is_best_of, none_better, own_hits, rank, shown_id, splits,
    takes_part, FileHit, Ranking,
};
use crate::inside::{lemma_node_way_into, node_at_end, node_leads, number_at};
use crate::numbering::folders_before;
use crate::types::FolderNode;
use vstd::prelude::*;

verus! {

/// Whether `h` is the hit of file `i` in the folder that `way` leads to in the tree `root`:
/// it tells of that file and that folder, and by which numbers they are found again.
pub open spec fn is_hit_at<'a>(root: FolderNode, id: int, way: Seq<int>, i: int, h: FileHit<'a>) -> bool {
    let d = node_at_end(root, way);
    &&& node_leads(root, way)
    &&& 0 <= i < d.files@.len()
    &&& *h.file == d.files@[i]
    &&& *h.folder == d
    &&& h.folder_id == shown_id(id + number_at(root@, way))
    &&& h.file_index == i as usize
}

/// Whether `h` is the hit of any file of the tree `root`.
pub open spec fn is_of_tree<'a>(root: FolderNode, id: int, h: FileHit<'a>) -> bool {
    exists|way: Seq<int>, i: int| is_hit_at(root, id, way, i, h)
}

/// Every file of a tree stands for election.
proof fn lemma_hit_is_there<'a>(root: &'a FolderNode, id: int, way: Seq<int>, i: int, h: FileHit<'a>)
    requires
        is_hit_at(*root, id, way, i, h),
    ensures
        all_hits(root, id).contains(h),
    decreases way.len(),
{
    let own = own_hits(root, id);
    let n = root.children@.len() as int;
    let all = all_hits(root, id);
    if way.len() == 0 {
        assert(own[i] == h);
        assert(all[i] == h);
    } else {
        let k = way[0];
        let at = id + 1 + folders_before(root@, k);
        assert(root@.children[k] == root.children@[k]@);
        lemma_hit_is_there(&root.children@[k], at, way.skip(1), i, h);
        lemma_hit_below(root, id, k, n, h);
        let below = hits_below(root, id, n);
        let j = choose|j: int| 0 <= j < below.len() && below[j] == h;
        assert(all[own.len() + j] == h);
    }
}

proof fn lemma_hit_below<'a>(root: &'a FolderNode, id: int, k: int, n: int, h: FileHit<'a>)
    requires
        0 <= k < n <= root.children@.len(),
        all_hits(&root.children@[k], id + 1 + folders_before(root@, k)).contains(h),
    ensures
        hits_below(root, id, n).contains(h),
    decreases n,
{
    let now = hits_below(root, id, n);
    let before = hits_below(root, id, n - 1);
    if k < n - 1 {
        lemma_hit_below(root, id, k, n - 1, h);
        let j = choose|j: int| 0 <= j < before.len() && before[j] == h;
        assert(now[j] == h);
    } else {
        let mine = all_hits(&root.children@[k], id + 1 + folders_before(root@, k));
        let j = choose|j: int| 0 <= j < mine.len() && mine[j] == h;
        assert(now[before.len() + j] == h);
    }
}

proof fn lemma_hits_are_of_tree<'a>(root: &'a FolderNode, id: int)
    ensures
        forall|h: FileHit<'a>| #[trigger] all_hits(root, id).contains(h) ==> is_of_tree(*root, id, h),
    decreases *root, root.children@.len() + 1,
{
    let own = own_hits(root, id);
    let n = root.children@.len() as int;
    let all = all_hits(root, id);
    let below = hits_below(root, id, n);
    lemma_below_is_of_tree(root, id, n);
    assert forall|h: FileHit<'a>| #[trigger] all.contains(h) implies is_of_tree(*root, id, h) by {
        let j = choose|j: int| 0 <= j < all.len() && all[j] == h;
        if j < own.len() {
            assert(all[j] == own[j]);
            assert(is_hit_at(*root, id, Seq::empty(), j, h));
        } else {
            assert(below[j - own.len()] == h);
            assert(below.contains(h));
        }
    }
}

proof fn lemma_below_is_of_tree<'a>(root: &'a FolderNode, id: int, n: int)
    requires
        0 <= n <= root.children@.len(),
    ensures
        forall|h: FileHit<'a>| #[trigger]
            hits_below(root, id, n).contains(h) ==> is_of_tree(*root, id, h),
    decreases *root, n,
{
    if n > 0 {
        let now = hits_below(root, id, n);
        let before = hits_below(root, id, n - 1);
        let at = id + 1 + folders_before(root@, n - 1);
        let c = root.children@[n - 1];
        let mine = all_hits(&root.children@[n - 1], at);
        lemma_below_is_of_tree(root, id, n - 1);
        lemma_hits_are_of_tree(&root.children@[n - 1], at);
        assert forall|h: FileHit<'a>| #[trigger] now.contains(h) implies is_of_tree(*root, id, h) by {
            let j = choose|j: int| 0 <= j < now.len() && now[j] == h;
            if j < before.len() {
                assert(before[j] == h);
                assert(before.contains(h));
            } else {
                assert(mine[j - before.len()] == h);
                assert(mine.contains(h));
                let (way, i) = choose|way: Seq<int>, i: int| is_hit_at(c, at, way, i, h);
                lemma_node_way_into(*root, n - 1, way);
                assert(is_hit_at(*root, id, seq![n - 1] + way, i, h));
            }
        }
    }
}

proof fn lemma_entrants<'a>(hits: Seq<FileHit<'a>>, by: Ranking, h: FileHit<'a>)
    ensures
        entrants(hits, by).contains(h) <==> hits.contains(h) && takes_part(by, *h.file),
    decreases hits.len(),
{
    let now = entrants(hits, by);
    if hits.len() > 0 {
        let rest = entrants(hits.drop_last(), by);
        lemma_entrants(hits.drop_last(), by, h);
        if now.contains(h) {
            let j = choose|j: int| 0 <= j < now.len() && now[j] == h;
            if j < rest.len() {
                assert(rest[j] == h);
                let k = choose|k: int| 0 <= k < hits.drop_last().len() && hits.drop_last()[k] == h;
                assert(hits[k] == h);
            } else {
                assert(hits[hits.len() - 1] == h);
            }
        }
        if hits.contains(h) && takes_part(by, *h.file) {
            let k = choose|k: int| 0 <= k < hits.len() && hits[k] == h;
            if k < hits.len() - 1 {
                assert(hits.drop_last()[k] == h);
                let j = choose|j: int| 0 <= j < rest.len() && rest[j] == h;
                assert(now[j] == h);
            } else {
                assert(now[now.len() - 1] == h);
            }
        }
    }
}

proof fn lemma_best<'a>(best: Seq<FileHit<'a>>, all: Seq<FileHit<'a>>, by: Ranking, n: nat)
    requires
        is_best_of(best, all, by, n),
    ensures
        best.len() <= n,
        forall|k: int| 0 <= k < best.len() ==> all.contains(#[trigger] best[k]),
        forall|h: FileHit<'a>| #[trigger]
            all.contains(h) && !best.contains(h) ==> best.len() == n && forall|k: int|
                0 <= k < best.len() ==> rank(by, *(#[trigger] best[k]).file) <= rank(by, *h.file),
{
    let out = choose|out: Seq<FileHit<'a>>| #[trigger]
        splits(best, out, all) && none_better(best, out, by);
    best.to_multiset_ensures();
    out.to_multiset_ensures();
    all.to_multiset_ensures();
    assert(best.to_multiset().len() + out.to_multiset().len() == all.to_multiset().len());
    assert forall|k: int| 0 <= k < best.len() implies all.contains(#[trigger] best[k]) by {
        assert(best.contains(best[k]));
        assert(best.to_multiset().count(best[k]) > 0);
        assert(all.to_multiset().count(best[k]) > 0);
    }
    assert forall|h: FileHit<'a>| #[trigger] all.contains(h) && !best.contains(h) implies best.len()
        == n && forall|k: int|
        0 <= k < best.len() ==> rank(by, *(#[trigger] best[k]).file) <= rank(by, *h.file) by {
        assert(all.to_multiset().count(h) > 0);
        assert(best.to_multiset().count(h) == 0);
        assert(out.to_multiset().count(h) > 0);
        assert(out.contains(h));
        let j = choose|j: int| 0 <= j < out.len() && out[j] == h;
        assert forall|k: int| 0 <= k < best.len() implies rank(by, *(#[trigger] best[k]).file)
            <= rank(by, *h.file) by {
            assert(rank(by, *best[k].file) <= rank(by, *out[j].file));
        }
    }
}

/// The largest files of a tree are files of it, the largest first. A file that is not
/// among them is no larger than any of them, and then there are as many as were asked for.
pub proof fn law_largest_files<'a>(r: Seq<FileHit<'a>>, root: &'a FolderNode, n: nat)
    requires
        is_best_of(r, entrants(all_hits(root, 0), Ranking::Largest), Ranking::Largest, n),
    ensures
        r.len() <= n,
        forall|i: int, j: int|
            0 <= i < j < r.len() ==> (#[trigger] r[i]).file.size >= (#[trigger] r[j]).file.size,
        forall|k: int| 0 <= k < r.len() ==> is_of_tree(*root, 0, #[trigger] r[k]),
        forall|way: Seq<int>, i: int, h: FileHit<'a>| #[trigger]
            is_hit_at(*root, 0, way, i, h) && !r.contains(h) ==> r.len() == n && forall|k: int|
                0 <= k < r.len() ==> (#[trigger] r[k]).file.size >= h.file.size,
{
    let all = all_hits(root, 0);
    let by = Ranking::Largest;
    lemma_best(r, entrants(all, by), by, n);
    lemma_hits_are_of_tree(root, 0);
    assert forall|i: int, j: int| 0 <= i < j < r.len() implies (#[trigger] r[i]).file.size >= (
    #[trigger] r[j]).file.size by {
        assert(rank(by, *r[i].file) <= rank(by, *r[j].file));
    }
    assert forall|k: int| 0 <= k < r.len() implies is_of_tree(*root, 0, #[trigger] r[k]) by {
        lemma_entrants(all, by, r[k]);
        assert(all.contains(r[k]));
    }
    assert forall|way: Seq<int>, i: int, h: FileHit<'a>| #[trigger]
        is_hit_at(*root, 0, way, i, h) && !r.contains(h) implies r.len() == n && forall|k: int|
        0 <= k < r.len() ==> (#[trigger] r[k]).file.size >= h.file.size by {
        lemma_hit_is_there(root, 0, way, i, h);
        lemma_entrants(all, by, h);
        assert(entrants(all, by).contains(h));
        assert forall|k: int| 0 <= k < r.len() implies (#[trigger] r[k]).file.size >= h.file.size by {
            assert(rank(by, *r[k].file) <= rank(by, *h.file));
        }
    }
}

/// The oldest files of a tree are files of it whose time is known, the one that was
/// modified the longest time ago first. A file with a time that is not among them was
/// modified no earlier than any of them, and then there are as many as were asked for.
pub proof fn law_oldest_files<'a>(r: Seq<FileHit<'a>>, root: &'a FolderNode, n: nat)
    requires
        is_best_of(r, entrants(all_hits(root, 0), Ranking::Oldest), Ranking::Oldest, n),
    ensures
        r.len() <= n,
        forall|i: int, j: int|
            0 <= i < j < r.len() ==> (#[trigger] r[i]).file.last_modified_ft <= (
            #[trigger] r[j]).file.last_modified_ft,
        forall|k: int|
            0 <= k < r.len() ==> is_of_tree(*root, 0, #[trigger] r[k])
                && r[k].file.last_modified_ft != 0,
        forall|way: Seq<int>, i: int, h: FileHit<'a>| #[trigger]
            is_hit_at(*root, 0, way, i, h) && h.file.last_modified_ft != 0 && !r.contains(h)
                ==> r.len() == n && forall|k: int|
                0 <= k < r.len() ==> (#[trigger] r[k]).file.last_modified_ft
                    <= h.file.last_modified_ft,
{
    let all = all_hits(root, 0);
    let by = Ranking::Oldest;
    lemma_best(r, entrants(all, by), by, n);
    lemma_hits_are_of_tree(root, 0);
    assert forall|i: int, j: int| 0 <= i < j < r.len() implies (
    #[trigger] r[i]).file.last_modified_ft <= (#[trigger] r[j]).file.last_modified_ft by {
        assert(rank(by, *r[i].file) <= rank(by, *r[j].file));
    }
    assert forall|k: int| 0 <= k < r.len() implies is_of_tree(*root, 0, #[trigger] r[k])
        && r[k].file.last_modified_ft != 0 by {
        lemma_entrants(all, by, r[k]);
        assert(all.contains(r[k]));
    }
    assert forall|way: Seq<int>, i: int, h: FileHit<'a>| #[trigger]
        is_hit_at(*root, 0, way, i, h) && h.file.last_modified_ft != 0 && !r.contains(h) implies r.len()
        == n && forall|k: int|
        0 <= k < r.len() ==> (#[trigger] r[k]).file.last_modified_ft <= h.file.last_modified_ft by {
        lemma_hit_is_there(root, 0, way, i, h);
        lemma_entrants(all, by, h);
        assert(entrants(all, by).contains(h));
        assert forall|k: int| 0 <= k < r.len() implies (#[trigger] r[k]).file.last_modified_ft
            <= h.file.last_modified_ft by {
            assert(rank(by, *r[k].file) <= rank(by, *h.file));
        }
    }
}

} // verus!
