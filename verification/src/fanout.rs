//! Sharing the folders at the top of a tree out to workers, and putting together
//! what they bring back.

use crate::listing::{opened, spots, subfolders, Spot, Subfolder};
use crate::types::{
    law_child_keeps_tidy, sum_over, sum_upto, lemma_sum_prefix, tidy, with_child, FolderNode,
    FolderView,
};
use crate::walk::{completed, is_finite, law_scanned_unfolds, scanned, Disk, WalkRules};
use crate::wrap::{law_wrap_absorbs, wrap};
use vstd::prelude::*;

verus! {

/// Whether the folders below one are shared out: only while levels of fan-out are
/// left, and where there is more than one folder.
pub fn is_shared_out(parallel_depth: i32, subfolders: usize) -> (r: bool)
    ensures
        r == (parallel_depth > 0 && subfolders > 1),
{
    parallel_depth > 0 && subfolders > 1
}

/// How many workers share `subfolders` folders on a machine that runs `cpus` at a
/// time: at least one, at most one for each folder.
pub fn worker_count(cpus: usize, subfolders: usize) -> (r: usize)
    requires
        subfolders >= 1,
    ensures
        r == (if cpus < 1 {
            1
        } else if cpus > subfolders {
            subfolders
        } else {
            cpus
        }),
{
    if cpus < 1 {
        1
    } else if cpus > subfolders {
        subfolders
    } else {
        cpus
    }
}

/// What worker `b` of `workers` is dealt of the first `n` folders: one in turn for
/// every worker, over and over.
pub open spec fn dealt(subs: Seq<Spot>, workers: int, b: int, n: int) -> Seq<Spot>
    decreases n,
{
    if n <= 0 {
        Seq::empty()
    } else if (n - 1) % workers == b {
        dealt(subs, workers, b, n - 1).push(subs[n - 1])
    } else {
        dealt(subs, workers, b, n - 1)
    }
}

/// Deals the folders out.
pub fn fan_out(subs: Vec<Subfolder>, workers: usize) -> (r: Vec<Vec<Subfolder>>)
    requires
        workers >= 1,
    ensures
        r.len() == workers,
        forall|b: int|
            0 <= b < workers ==> spots(#[trigger] r@[b]@) == dealt(
                spots(subs@),
                workers as int,
                b,
                subs.len() as int,
            ),
{
    let ghost all = spots(subs@);
    let mut buckets: Vec<Vec<Subfolder>> = Vec::new();
    let mut b: usize = 0;
    while b < workers
        invariant
            b <= workers,
            buckets.len() == b,
            forall|j: int|
                0 <= j < b ==> spots(#[trigger] buckets@[j]@) == dealt(all, workers as int, j, 0),
        decreases workers - b,
    {
        let empty: Vec<Subfolder> = Vec::new();
        assert(spots(empty@) =~= Seq::empty());
        buckets.push(empty);
        b += 1;
    }
    let total: usize = subs.len();
    let mut i: usize = 0;
    for s in it: subs
        invariant
            workers >= 1,
            buckets.len() == workers,
            it.seq() == subs@,
            all == spots(subs@),
            i == it.index(),
            total == subs@.len(),
            forall|j: int|
                0 <= j < workers ==> spots(#[trigger] buckets@[j]@) == dealt(
                    all,
                    workers as int,
                    j,
                    i as int,
                ),
    {
        let k: usize = i % workers;
        let ghost before = buckets@;
        assert(all[i as int] == s@);
        let bucket = &mut buckets[k];
        bucket.push(s);
        assert(spots(buckets@[k as int]@) =~= spots(before[k as int]@).push(s@));
        assert forall|j: int| 0 <= j < workers implies spots(#[trigger] buckets@[j]@) == dealt(
            all,
            workers as int,
            j,
            i + 1,
        ) by {
            if j != k {
                assert(buckets@[j] == before[j]);
            }
        }
        i += 1;
    }
    buckets
}

/// Everything that the first `b` workers are dealt, one worker behind the other.
pub open spec fn all_dealt(subs: Seq<Spot>, workers: int, b: int, n: int) -> Seq<Spot>
    decreases b,
{
    if b <= 0 {
        Seq::empty()
    } else {
        all_dealt(subs, workers, b - 1, n) + dealt(subs, workers, b - 1, n)
    }
}

/// Every folder is dealt to exactly one worker: all that is dealt, put together,
/// is the folders again, in some order.
pub proof fn law_every_folder_dealt_once(subs: Seq<Spot>, workers: int)
    requires
        workers >= 1,
    ensures
        all_dealt(subs, workers, workers, subs.len() as int).to_multiset() == subs.to_multiset(),
{
    lemma_dealt_once(subs, workers, subs.len() as int);
    assert(subs.take(subs.len() as int) =~= subs);
}

proof fn lemma_dealt_once(subs: Seq<Spot>, workers: int, n: int)
    requires
        workers >= 1,
        0 <= n <= subs.len(),
    ensures
        all_dealt(subs, workers, workers, n).to_multiset() == subs.take(n).to_multiset(),
    decreases n,
{
    if n == 0 {
        lemma_nothing_dealt(subs, workers, workers);
        assert(subs.take(0) =~= Seq::empty());
    } else {
        lemma_dealt_once(subs, workers, n - 1);
        lemma_one_more_dealt(subs, workers, workers, n);
        assert(subs.take(n) =~= subs.take(n - 1).push(subs[n - 1]));
        subs.take(n - 1).to_multiset_ensures();
    }
}

proof fn lemma_nothing_dealt(subs: Seq<Spot>, workers: int, b: int)
    ensures
        all_dealt(subs, workers, b, 0) =~= Seq::<Spot>::empty(),
    decreases b,
{
    if b > 0 {
        lemma_nothing_dealt(subs, workers, b - 1);
    }
}

proof fn lemma_one_more_dealt(subs: Seq<Spot>, workers: int, b: int, n: int)
    requires
        workers >= 1,
        0 <= b <= workers,
        0 < n <= subs.len(),
    ensures
        all_dealt(subs, workers, b, n).to_multiset() == if (n - 1) % workers < b {
            all_dealt(subs, workers, b, n - 1).to_multiset().insert(subs[n - 1])
        } else {
            all_dealt(subs, workers, b, n - 1).to_multiset()
        },
    decreases b,
{
    if b > 0 {
        lemma_one_more_dealt(subs, workers, b - 1, n);
        let (p, q) = (all_dealt(subs, workers, b - 1, n), all_dealt(subs, workers, b - 1, n - 1));
        let (x, y) = (dealt(subs, workers, b - 1, n), dealt(subs, workers, b - 1, n - 1));
        vstd::seq_lib::lemma_multiset_commutative(p, x);
        vstd::seq_lib::lemma_multiset_commutative(q, y);
        y.to_multiset_ensures();
        if (n - 1) % workers == b - 1 {
            assert(all_dealt(subs, workers, b, n).to_multiset() =~= all_dealt(
                subs,
                workers,
                b,
                n - 1,
            ).to_multiset().insert(subs[n - 1]));
        } else if (n - 1) % workers < b - 1 {
            assert(all_dealt(subs, workers, b, n).to_multiset() =~= all_dealt(
                subs,
                workers,
                b,
                n - 1,
            ).to_multiset().insert(subs[n - 1]));
        }
    } else {
        assert((n - 1) % workers >= 0);
    }
}

/// `f` with the first `n` of the folders `cs` added to it.
pub open spec fn with_all(f: FolderView, cs: Seq<FolderView>, n: int) -> FolderView
    decreases n,
{
    if n <= 0 {
        f
    } else {
        with_child(with_all(f, cs, n - 1), cs[n - 1])
    }
}

pub open spec fn views(nodes: Seq<FolderNode>) -> Seq<FolderView> {
    nodes.map_values(|n: FolderNode| n@)
}

/// Adds what a worker brought back.
pub fn adopt_all(node: &mut FolderNode, children: Vec<FolderNode>)
    ensures
        final(node)@ == with_all(old(node)@, views(children@), children.len() as int),
{
    let ghost base = node@;
    let ghost cs = views(children@);
    for c in it: children
        invariant
            it.seq() == children@,
            cs == views(children@),
            node@ == with_all(base, cs, it.index() as int),
    {
        assert(cs[it.index() as int] == c@);
        node.adopt(c);
    }
}

/// What the amounts of a folder's children add to its totals.
proof fn lemma_with_all_totals(f: FolderView, cs: Seq<FolderView>, n: int)
    requires
        0 <= n <= cs.len(),
    ensures
        with_all(f, cs, n).children == f.children + cs.take(n),
        with_all(f, cs, n).own_size == f.own_size,
        with_all(f, cs, n).direct_file_count == f.direct_file_count,
        wrap(with_all(f, cs, n).size) == wrap(f.size + sum_upto(cs, |c: FolderView| c.size, n)),
        wrap(with_all(f, cs, n).file_count) == wrap(
            f.file_count + sum_upto(cs, |c: FolderView| c.file_count, n),
        ),
        wrap(with_all(f, cs, n).folder_count) == wrap(
            f.folder_count + sum_upto(cs, |c: FolderView| c.folder_count + 1, n),
        ),
        n > 0 ==> {
            &&& with_all(f, cs, n).size == wrap(with_all(f, cs, n).size)
            &&& with_all(f, cs, n).file_count == wrap(with_all(f, cs, n).file_count)
            &&& with_all(f, cs, n).folder_count == wrap(with_all(f, cs, n).folder_count)
        },
    decreases n,
{
    if n == 0 {
        assert(f.children + cs.take(0) =~= f.children);
    } else {
        lemma_with_all_totals(f, cs, n - 1);
        let p = with_all(f, cs, n - 1);
        let c = cs[n - 1];
        assert((f.children + cs.take(n - 1)).push(c) =~= f.children + cs.take(n));
        let s = sum_upto(cs, |c: FolderView| c.size, n - 1);
        let k = sum_upto(cs, |c: FolderView| c.file_count, n - 1);
        let m = sum_upto(cs, |c: FolderView| c.folder_count + 1, n - 1);
        law_wrap_absorbs(p.size, c.size);
        law_wrap_absorbs(f.size + s, c.size);
        law_wrap_absorbs(p.size + c.size, 0);
        law_wrap_absorbs(p.file_count, c.file_count);
        law_wrap_absorbs(f.file_count + k, c.file_count);
        law_wrap_absorbs(p.file_count + c.file_count, 0);
        law_wrap_absorbs(p.folder_count, c.folder_count + 1);
        law_wrap_absorbs(f.folder_count + m, c.folder_count + 1);
        law_wrap_absorbs(p.folder_count + c.folder_count + 1, 0);
    }
}

/// A sum does not depend on the order of what is summed.
pub proof fn lemma_sum_of_permutation(
    a: Seq<FolderView>,
    b: Seq<FolderView>,
    amount: spec_fn(FolderView) -> int,
)
    requires
        a.to_multiset() == b.to_multiset(),
    ensures
        sum_over(a, amount) == sum_over(b, amount),
    decreases a.len(),
{
    a.to_multiset_ensures();
    b.to_multiset_ensures();
    if a.len() > 0 {
        let x = a.last();
        assert(a.contains(x));
        assert(b.to_multiset().count(x) > 0);
        assert(b.contains(x));
        let k = b.index_of(x);
        let c = b.remove(k);
        lemma_sum_remove(b, amount, k, b.len() as int);
        let d = a.drop_last();
        assert(a =~= d.push(x));
        d.to_multiset_ensures();
        assert(a.to_multiset() == d.to_multiset().insert(x));
        assert(d.to_multiset() =~= a.to_multiset().remove(x));
        assert(c.to_multiset() =~= b.to_multiset().remove(x));
        lemma_sum_of_permutation(d, c, amount);
        lemma_sum_prefix(a, d, amount, d.len() as int);
    } else {
        assert(b.len() == 0);
    }
}

proof fn lemma_sum_remove(
    b: Seq<FolderView>,
    amount: spec_fn(FolderView) -> int,
    k: int,
    n: int,
)
    requires
        0 <= k < n <= b.len(),
    ensures
        sum_upto(b, amount, n) == sum_upto(b.remove(k), amount, n - 1) + amount(b[k]),
    decreases n,
{
    let c = b.remove(k);
    if n - 1 == k {
        lemma_sum_prefix(b, c, amount, k);
    } else {
        lemma_sum_remove(b, amount, k, n - 1);
        assert(c[n - 2] == b[n - 1]);
    }
}

/// The totals of a folder do not depend on the order in which its subfolders come
/// back: sharing them out among workers gives the sizes and counts that walking
/// them one by one gives.
pub proof fn law_totals_ignore_order(f: FolderView, a: Seq<FolderView>, b: Seq<FolderView>)
    requires
        a.to_multiset() == b.to_multiset(),
    ensures
        with_all(f, a, a.len() as int).size == with_all(f, b, b.len() as int).size,
        with_all(f, a, a.len() as int).file_count == with_all(f, b, b.len() as int).file_count,
        with_all(f, a, a.len() as int).folder_count == with_all(f, b, b.len() as int).folder_count,
        with_all(f, a, a.len() as int).own_size == with_all(f, b, b.len() as int).own_size,
        with_all(f, a, a.len() as int).direct_file_count == with_all(
            f,
            b,
            b.len() as int,
        ).direct_file_count,
{
    lemma_with_all_fields(f, a, a.len() as int);
    lemma_with_all_fields(f, b, b.len() as int);
    a.to_multiset_ensures();
    b.to_multiset_ensures();
    lemma_with_all_totals(f, a, a.len() as int);
    lemma_with_all_totals(f, b, b.len() as int);
    lemma_sum_of_permutation(a, b, |c: FolderView| c.size);
    lemma_sum_of_permutation(a, b, |c: FolderView| c.file_count);
    lemma_sum_of_permutation(a, b, |c: FolderView| c.folder_count + 1);
}

/// The trees of the folders `subs`.
pub open spec fn trees(disk: Disk, rules: WalkRules, subs: Seq<Spot>) -> Seq<FolderView> {
    subs.map_values(|s: Spot| scanned(disk, rules, s))
}

/// Completing a folder is adding the trees of its subfolders in order.
pub proof fn law_completed_adds_trees(disk: Disk, rules: WalkRules, f: FolderView, subs: Seq<Spot>)
    ensures
        completed(disk, rules, f, subs) == with_all(
            f,
            trees(disk, rules, subs),
            subs.len() as int,
        ),
{
    assert(subs.skip(0) =~= subs);
    lemma_completed_from(disk, rules, f, subs, 0);
}

proof fn lemma_completed_from(disk: Disk, rules: WalkRules, f: FolderView, subs: Seq<Spot>, k: int)
    requires
        0 <= k <= subs.len(),
    ensures
        completed(disk, rules, with_all(f, trees(disk, rules, subs), k), subs.skip(k)) == with_all(
            f,
            trees(disk, rules, subs),
            subs.len() as int,
        ),
    decreases subs.len() - k,
{
    if k < subs.len() {
        assert(subs.skip(k)[0] == subs[k]);
        assert(subs.skip(k).skip(1) =~= subs.skip(k + 1));
        lemma_completed_from(disk, rules, f, subs, k + 1);
    }
}

/// Adding tidy folders keeps a folder tidy.
pub proof fn law_all_keep_tidy(f: FolderView, cs: Seq<FolderView>, n: int)
    requires
        tidy(f),
        0 <= n <= cs.len(),
        forall|i: int| 0 <= i < n ==> tidy(#[trigger] cs[i]),
    ensures
        tidy(with_all(f, cs, n)),
    decreases n,
{
    if n > 0 {
        law_all_keep_tidy(f, cs, n - 1);
        law_child_keeps_tidy(with_all(f, cs, n - 1), cs[n - 1]);
    }
}

/// The trees of folders that were put in another order are the same trees.
proof fn lemma_trees_of_permutation(disk: Disk, rules: WalkRules, a: Seq<Spot>, b: Seq<Spot>)
    requires
        a.to_multiset() == b.to_multiset(),
    ensures
        trees(disk, rules, a).to_multiset() == trees(disk, rules, b).to_multiset(),
    decreases a.len(),
{
    a.to_multiset_ensures();
    b.to_multiset_ensures();
    if a.len() > 0 {
        let x = a.last();
        assert(a.contains(x));
        assert(b.to_multiset().count(x) > 0);
        assert(b.contains(x));
        let k = b.index_of(x);
        let c = b.remove(k);
        let d = a.drop_last();
        assert(a =~= d.push(x));
        d.to_multiset_ensures();
        assert(d.to_multiset() =~= a.to_multiset().remove(x));
        assert(c.to_multiset() =~= b.to_multiset().remove(x));
        lemma_trees_of_permutation(disk, rules, d, c);
        let t = scanned(disk, rules, x);
        let (ta, tb) = (trees(disk, rules, a), trees(disk, rules, b));
        assert(ta =~= trees(disk, rules, d).push(t));
        assert(tb.remove(k) =~= trees(disk, rules, c));
        trees(disk, rules, d).to_multiset_ensures();
        tb.to_multiset_ensures();
        assert(tb[k] == t);
        assert(tb.contains(t));
        assert(tb.to_multiset() =~= tb.remove(k).to_multiset().insert(t));
    } else {
        assert(b.len() == 0);
        assert(a =~= b);
    }
}

/// The tree that comes of a folder whose subfolders were shared out: the workers'
/// trees are added share by share.
pub open spec fn shared(disk: Disk, rules: WalkRules, spot: Spot, workers: int) -> FolderView {
    let subs = subfolders(rules.style, spot.path, disk(spot.path));
    let order = all_dealt(subs, workers, workers, subs.len() as int);
    with_all(
        opened(spot, disk(spot.path), rules.track_files),
        trees(disk, rules, order),
        order.len() as int,
    )
}

/// Adding folders changes nothing but the totals and the list of folders, which grows by
/// them.
proof fn lemma_with_all_fields(f: FolderView, cs: Seq<FolderView>, n: int)
    requires
        0 <= n <= cs.len(),
    ensures
        ({
            let g = with_all(f, cs, n);
            &&& g.children == f.children + cs.take(n)
            &&& g == (FolderView {
                children: g.children,
                size: g.size,
                file_count: g.file_count,
                folder_count: g.folder_count,
                ..f
            })
        }),
    decreases n,
{
    if n > 0 {
        lemma_with_all_fields(f, cs, n - 1);
        assert(f.children + cs.take(n) =~= (f.children + cs.take(n - 1)).push(cs[n - 1]));
    } else {
        assert(f.children + cs.take(0) =~= f.children);
    }
}

/// Whether two trees are the same but for the order of the folders directly in them.
pub open spec fn same_but_for_order(a: FolderView, b: FolderView) -> bool {
    &&& a.children.to_multiset() == b.children.to_multiset()
    &&& a == (FolderView { children: a.children, ..b })
}

/// A scan that is shared out finds the tree that a scan by one finds, but for the order
/// of the folders directly in it: the same sizes and counts, and the same trees below.
pub proof fn law_sharing_changes_only_order(disk: Disk, rules: WalkRules, spot: Spot, workers: int)
    requires
        workers >= 1,
        is_finite(disk, rules, spot.path),
    ensures
        same_but_for_order(shared(disk, rules, spot, workers), scanned(disk, rules, spot)),
{
    let f = opened(spot, disk(spot.path), rules.track_files);
    let subs = subfolders(rules.style, spot.path, disk(spot.path));
    let order = all_dealt(subs, workers, workers, subs.len() as int);
    let (a, b) = (trees(disk, rules, order), trees(disk, rules, subs));
    law_sharing_changes_no_total(disk, rules, spot, workers);
    law_scanned_unfolds(disk, rules, spot);
    law_completed_adds_trees(disk, rules, f, subs);
    law_every_folder_dealt_once(subs, workers);
    lemma_trees_of_permutation(disk, rules, order, subs);
    lemma_with_all_fields(f, a, a.len() as int);
    lemma_with_all_fields(f, b, b.len() as int);
    assert(a.take(a.len() as int) =~= a);
    assert(b.take(b.len() as int) =~= b);
    vstd::seq_lib::lemma_multiset_commutative(f.children, a);
    vstd::seq_lib::lemma_multiset_commutative(f.children, b);
}

/// A scan that is shared out finds the sizes and counts that a scan by one finds.
pub proof fn law_sharing_changes_no_total(disk: Disk, rules: WalkRules, spot: Spot, workers: int)
    requires
        workers >= 1,
        is_finite(disk, rules, spot.path),
    ensures
        shared(disk, rules, spot, workers).size == scanned(disk, rules, spot).size,
        shared(disk, rules, spot, workers).own_size == scanned(disk, rules, spot).own_size,
        shared(disk, rules, spot, workers).file_count == scanned(disk, rules, spot).file_count,
        shared(disk, rules, spot, workers).direct_file_count == scanned(
            disk,
            rules,
            spot,
        ).direct_file_count,
        shared(disk, rules, spot, workers).folder_count == scanned(disk, rules, spot).folder_count,
{
    let f = opened(spot, disk(spot.path), rules.track_files);
    let subs = subfolders(rules.style, spot.path, disk(spot.path));
    let order = all_dealt(subs, workers, workers, subs.len() as int);
    law_scanned_unfolds(disk, rules, spot);
    law_completed_adds_trees(disk, rules, f, subs);
    law_every_folder_dealt_once(subs, workers);
    lemma_trees_of_permutation(disk, rules, order, subs);
    law_totals_ignore_order(f, trees(disk, rules, order), trees(disk, rules, subs));
}

} // verus!
