//! Deleting folders and files from a scanned tree that stays in place: what was
//! deleted is marked, and its share taken out of the totals above it.

use crate::inside::{folder_at, leads, number_at};
use crate::numbering::{
    child_id, folder_numbered, folders_before, folders_of, has_folder, law_found_by_number,
    lemma_before_monotonic, lemma_less_keeps_count, lemma_way, less, less_along, path_to, way_to,
};
use crate::recycle::subtree_ids;
use crate::types::{lemma_sum_prefix, sum_over, sum_upto, tidy, FolderView};
use crate::wrap::{law_wrap_absorbs, wrap};
use vstd::prelude::*;

verus! {

/// The tree `f` without the folder `target`, which is not its top.
pub open spec fn pruned(f: FolderView, id: int, target: int) -> FolderView
    decreases f,
{
    let k = way_to(f, id, target);
    if !(0 <= k < f.children.len()) {
        f
    } else if child_id(f, id, k) == target {
        FolderView { children: f.children.remove(k), ..f }
    } else {
        FolderView {
            children: f.children.update(k, pruned(f.children[k], child_id(f, id, k), target)),
            ..f
        }
    }
}

/// Whether `d` is what a folder adds to the totals of the folders above it.
pub open spec fn is_share_of(d: (i64, i64, i64), t: FolderView) -> bool {
    d.0 == t.size && d.1 == t.file_count && wrap(d.2 as int) == wrap(t.folder_count + 1)
}

/// Taking a deleted folder's share out of the totals above it leaves them right:
/// without that folder, every total of the tree is again that of what lies in it.
pub proof fn law_deletion_keeps_tidy(f: FolderView, id: int, target: int, d: (i64, i64, i64))
    requires
        tidy(f),
        has_folder(f, id, target),
        target != id,
        is_share_of(d, folder_numbered(f, id, target)),
    ensures
        tidy(pruned(less_along(f, id, target, d, false), id, target)),
    decreases f,
{
    let k = way_to(f, id, target);
    lemma_way(f, id, target);
    let c = f.children[k];
    let cid = child_id(f, id, k);
    let g = less_along(f, id, target, d, false);
    lemma_less_keeps_count(f, id, target, d, false);
    lemma_less_keeps_count(c, cid, target, d, false);
    lemma_same_way(f, g, id, target, k, d);
    let p = pruned(g, id, target);
    let size = |c: FolderView| c.size;
    let files = |c: FolderView| c.file_count;
    let folders = |c: FolderView| c.folder_count + 1;
    assert(folder_numbered(f, id, target) == folder_numbered(c, cid, target));
    if cid == target {
        assert(folder_numbered(c, cid, target) == c);
        assert(g.children =~= f.children);
        assert(p.children =~= f.children.remove(k));
        lemma_sum_without(f.children, size, k);
        lemma_sum_without(f.children, files, k);
        lemma_sum_without(f.children, folders, k);
        lemma_difference(f.own_size + sum_over(f.children, size), d.0 as int, d.0 as int);
        lemma_difference(f.direct_file_count + sum_over(f.children, files), d.1 as int, d.1 as int);
        lemma_difference(sum_over(f.children, folders), d.2 as int, c.folder_count + 1);
        assert forall|i: int| 0 <= i < p.children.len() implies tidy(#[trigger] p.children[i]) by {
            if i < k {
                assert(p.children[i] == f.children[i]);
            } else {
                assert(p.children[i] == f.children[i + 1]);
            }
        }
    } else {
        law_deletion_keeps_tidy(c, cid, target, d);
        let c1 = less_along(c, cid, target, d, false);
        let q = pruned(c1, cid, target);
        assert(g.children[k] == c1);
        assert(p.children =~= f.children.update(k, q));
        lemma_pruned_totals(c1, cid, target);
        lemma_way(c, cid, target);
        assert(c1.size == wrap(c.size - d.0));
        assert(c1.file_count == wrap(c.file_count - d.1));
        assert(c1.folder_count == wrap(c.folder_count - d.2));
        lemma_sum_with(f.children, size, k, q);
        lemma_sum_with(f.children, files, k, q);
        lemma_sum_with(f.children, folders, k, q);
        lemma_change(f.own_size + sum_over(f.children, size), c.size, d.0 as int, 0);
        lemma_change(
            f.direct_file_count + sum_over(f.children, files),
            c.file_count,
            d.1 as int,
            0,
        );
        lemma_change(sum_over(f.children, folders), c.folder_count, d.2 as int, 1);
        assert forall|i: int| 0 <= i < p.children.len() implies tidy(#[trigger] p.children[i]) by {
            if i != k {
                assert(p.children[i] == f.children[i]);
            }
        }
    }
}

/// Pruning a tree does not touch the totals of its top.
proof fn lemma_pruned_totals(f: FolderView, id: int, target: int)
    ensures
        pruned(f, id, target).size == f.size,
        pruned(f, id, target).file_count == f.file_count,
        pruned(f, id, target).folder_count == f.folder_count,
{
}

/// Taking something out along the way to a folder does not change the way.
proof fn lemma_same_way(
    f: FolderView,
    g: FolderView,
    id: int,
    target: int,
    k: int,
    d: (i64, i64, i64),
)
    requires
        has_folder(f, id, target),
        target != id,
        k == way_to(f, id, target),
        0 <= k < f.children.len(),
        g == less_along(f, id, target, d, false),
    ensures
        way_to(g, id, target) == k,
        child_id(g, id, k) == child_id(f, id, k),
        g.children.len() == f.children.len(),
{
    lemma_less_keeps_count(f.children[k], child_id(f, id, k), target, d, false);
    lemma_same_before(f, g, k, f.children.len() as int);
    lemma_same_before(f, g, k, k);
    lemma_same_holder(f, g, id, target, k, f.children.len() as int);
}

proof fn lemma_same_before(f: FolderView, g: FolderView, k: int, n: int)
    requires
        0 <= k < f.children.len(),
        g.children.len() == f.children.len(),
        forall|i: int| 0 <= i < f.children.len() && i != k ==> g.children[i] == f.children[i],
        folders_of(g.children[k]) == folders_of(f.children[k]),
        n <= f.children.len(),
    ensures
        folders_before(g, n) == folders_before(f, n),
    decreases n,
{
    if n > 0 {
        lemma_same_before(f, g, k, n - 1);
    }
}

proof fn lemma_same_holder(f: FolderView, g: FolderView, id: int, target: int, k: int, n: int)
    requires
        0 <= k < f.children.len(),
        g.children.len() == f.children.len(),
        forall|i: int| 0 <= i < f.children.len() && i != k ==> g.children[i] == f.children[i],
        folders_of(g.children[k]) == folders_of(f.children[k]),
        n <= f.children.len(),
    ensures
        crate::numbering::holder(g, id, target, n) == crate::numbering::holder(f, id, target, n),
    decreases n,
{
    if n > 0 {
        lemma_same_before(f, g, k, n - 1);
        lemma_same_holder(f, g, id, target, k, n - 1);
    }
}

proof fn lemma_sum_without(cs: Seq<FolderView>, amount: spec_fn(FolderView) -> int, k: int)
    requires
        0 <= k < cs.len(),
    ensures
        sum_over(cs.remove(k), amount) == sum_over(cs, amount) - amount(cs[k]),
{
    lemma_sum_without_upto(cs, amount, k, cs.len() as int);
}

proof fn lemma_sum_without_upto(
    cs: Seq<FolderView>,
    amount: spec_fn(FolderView) -> int,
    k: int,
    n: int,
)
    requires
        0 <= k < n <= cs.len(),
    ensures
        sum_upto(cs.remove(k), amount, n - 1) == sum_upto(cs, amount, n) - amount(cs[k]),
    decreases n,
{
    let r = cs.remove(k);
    if n - 1 == k {
        lemma_sum_prefix(r, cs, amount, k);
    } else {
        lemma_sum_without_upto(cs, amount, k, n - 1);
        assert(r[n - 2] == cs[n - 1]);
    }
}

proof fn lemma_sum_with(
    cs: Seq<FolderView>,
    amount: spec_fn(FolderView) -> int,
    k: int,
    q: FolderView,
)
    requires
        0 <= k < cs.len(),
    ensures
        sum_over(cs.update(k, q), amount) == sum_over(cs, amount) - amount(cs[k]) + amount(q),
{
    lemma_sum_with_upto(cs, amount, k, q, cs.len() as int);
}

proof fn lemma_sum_with_upto(
    cs: Seq<FolderView>,
    amount: spec_fn(FolderView) -> int,
    k: int,
    q: FolderView,
    n: int,
)
    requires
        0 <= k < n <= cs.len(),
    ensures
        sum_upto(cs.update(k, q), amount, n) == sum_upto(cs, amount, n) - amount(cs[k]) + amount(q),
    decreases n,
{
    let u = cs.update(k, q);
    if n - 1 == k {
        lemma_sum_prefix(u, cs, amount, k);
    } else {
        lemma_sum_with_upto(cs, amount, k, q, n - 1);
    }
}

/// Taking `a` out of a wrapped total is taking out anything that wraps like `a`.
proof fn lemma_difference(total: int, a: int, b: int)
    requires
        wrap(a) == wrap(b),
    ensures
        wrap(wrap(total) - a) == wrap(total - b),
{
    law_wrap_absorbs(total, a);
    law_wrap_absorbs(a, total);
    law_wrap_absorbs(b, total);
}

/// Taking `d` out of one part takes `d` out of the total.
proof fn lemma_change(total: int, part: int, d: int, extra: int)
    ensures
        wrap(wrap(total) - d) == wrap(total - (part + extra) + (wrap(part - d) + extra)),
{
    law_wrap_absorbs(total, d);
    law_wrap_absorbs(part - d, total - part);
}

// ------------------------------------------------------------ who is affected

/// The totals of a folder.
pub open spec fn totals(f: FolderView) -> (int, int, int) {
    (f.size, f.file_count, f.folder_count)
}

/// A deletion touches the totals of the folders above what was deleted, and of no
/// others.
pub proof fn law_only_ancestors_change(
    f: FolderView,
    id: int,
    target: int,
    d: (i64, i64, i64),
    include_self: bool,
    x: int,
)
    requires
        has_folder(f, id, target),
        has_folder(f, id, x),
        0 <= id,
        id + folders_of(f) <= usize::MAX,
    ensures
        totals(folder_numbered(less_along(f, id, target, d, include_self), id, x)) == if path_to(
            f,
            id,
            target,
        ).contains(x as usize) && (x != target || include_self) {
            totals(less(folder_numbered(f, id, x), d))
        } else {
            totals(folder_numbered(f, id, x))
        },
    decreases f,
{
    let g = less_along(f, id, target, d, include_self);
    let path = path_to(f, id, target);
    if target == id {
        assert(path[0] == id);
        if x != id {
            assert(!path.contains(x as usize));
            lemma_way(f, id, x);
            let j = way_to(f, id, x);
            lemma_same_children(f, g, id, x);
        }
    } else {
        let k = way_to(f, id, target);
        lemma_way(f, id, target);
        let c = f.children[k];
        let cid = child_id(f, id, k);
        let c1 = less_along(c, cid, target, d, include_self);
        lemma_less_keeps_count(c, cid, target, d, include_self);
        let below = path_to(c, cid, target);
        assert(path == seq![id as usize] + below);
        lemma_path_in_tree(c, cid, target);
        if x == id {
            assert(path[0] == id as usize);
        } else {
            let j = way_to(f, id, x);
            lemma_way(f, id, x);
            lemma_same_before(f, g, k, j);
            lemma_same_holder(f, g, id, x, k, f.children.len() as int);
            if j == k {
                law_only_ancestors_change(c, cid, target, d, include_self, x);
                assert(path.contains(x as usize) <==> below.contains(x as usize)) by {
                    if path.contains(x as usize) {
                        let i = choose|i: int| 0 <= i < path.len() && path[i] == x as usize;
                        assert(below[i - 1] == x as usize);
                    }
                    if below.contains(x as usize) {
                        let i = choose|i: int| 0 <= i < below.len() && below[i] == x as usize;
                        assert(path[i + 1] == x as usize);
                    }
                }
            } else {
                // Another child: its numbers are not those of this one.
                if j < k {
                    lemma_before_monotonic(f, j, k);
                } else {
                    lemma_before_monotonic(f, k, j);
                }
                assert(!path.contains(x as usize)) by {
                    if path.contains(x as usize) {
                        let i = choose|i: int| 0 <= i < path.len() && path[i] == x as usize;
                        assert(i > 0);
                        assert(below[i - 1] == x as usize);
                    }
                }
            }
        }
    }
}

proof fn lemma_same_children(f: FolderView, g: FolderView, id: int, x: int)
    requires
        g.children == f.children,
    ensures
        way_to(g, id, x) == way_to(f, id, x),
        forall|n: int| #[trigger] folders_before(g, n) == folders_before(f, n),
{
    assert forall|n: int| #[trigger] folders_before(g, n) == folders_before(f, n) by {
        lemma_same_children_before(f, g, n);
    }
    lemma_same_children_holder(f, g, id, x, f.children.len() as int);
}

proof fn lemma_same_children_before(f: FolderView, g: FolderView, n: int)
    requires
        g.children == f.children,
    ensures
        folders_before(g, n) == folders_before(f, n),
    decreases n,
{
    if 0 < n <= f.children.len() {
        lemma_same_children_before(f, g, n - 1);
    }
}

proof fn lemma_same_children_holder(f: FolderView, g: FolderView, id: int, x: int, n: int)
    requires
        g.children == f.children,
    ensures
        crate::numbering::holder(g, id, x, n) == crate::numbering::holder(f, id, x, n),
    decreases n,
{
    if n > 0 {
        lemma_same_children_before(f, g, n - 1);
        lemma_same_children_holder(f, g, id, x, n - 1);
    }
}

/// The folders on the way to a folder of a tree are folders of the tree.
proof fn lemma_path_in_tree(f: FolderView, id: int, target: int)
    requires
        has_folder(f, id, target),
        0 <= id,
        id + folders_of(f) <= usize::MAX,
    ensures
        forall|i: int|
            0 <= i < path_to(f, id, target).len() ==> has_folder(
                f,
                id,
                #[trigger] path_to(f, id, target)[i] as int,
            ),
    decreases f,
{
    if id != target {
        let k = way_to(f, id, target);
        lemma_way(f, id, target);
        let c = f.children[k];
        lemma_path_in_tree(c, child_id(f, id, k), target);
        let path = path_to(f, id, target);
        let below = path_to(c, child_id(f, id, k), target);
        assert forall|i: int| 0 <= i < path.len() implies has_folder(
            f,
            id,
            #[trigger] path[i] as int,
        ) by {
            if i > 0 {
                assert(path[i] == below[i - 1]);
            }
        }
    }
}

/// Whether `way` is where `other` begins.
pub open spec fn begins_with(other: Seq<int>, way: Seq<int>) -> bool {
    way.len() <= other.len() && forall|i: int| 0 <= i < way.len() ==> #[trigger] other[i] == way[i]
}

/// Deleting a folder takes with it the folders that the way leads through it to, and no
/// others.
pub proof fn law_what_lies_below_goes_too(f: FolderView, way: Seq<int>, other: Seq<int>)
    requires
        leads(f, way),
        leads(f, other),
        folders_of(f) <= usize::MAX,
    ensures
        subtree_ids(f, number_at(f, way) as usize).contains(number_at(f, other) as usize)
            <==> begins_with(other, way),
{
    law_found_by_number(f, 0, way);
    law_found_by_number(f, 0, other);
    lemma_below(f, way, other);
}

proof fn lemma_below(f: FolderView, way: Seq<int>, other: Seq<int>)
    requires
        leads(f, way),
        leads(f, other),
    ensures
        0 <= number_at(f, way),
        number_at(f, way) + folders_of(folder_at(f, way)) <= folders_of(f),
        (number_at(f, way) <= number_at(f, other) < number_at(f, way) + folders_of(
            folder_at(f, way),
        )) <==> begins_with(other, way),
    decreases way.len(),
{
    law_found_by_number(f, 0, other);
    if way.len() > 0 {
        let k = way[0];
        let (c, rest) = (f.children[k], way.skip(1));
        lemma_before_monotonic(f, k, f.children.len() as int);
        lemma_below(c, rest, Seq::empty());
        if other.len() > 0 {
            let j = other[0];
            let more = other.skip(1);
            law_found_by_number(f.children[j], 0, more);
            if j == k {
                lemma_below(c, rest, more);
                lemma_begins(other, way);
            } else if j < k {
                lemma_before_monotonic(f, j, k);
            } else {
                lemma_before_monotonic(f, k, j);
            }
        }
    }
}

proof fn lemma_begins(other: Seq<int>, way: Seq<int>)
    requires
        way.len() > 0,
        other.len() > 0,
        way[0] == other[0],
    ensures
        begins_with(other, way) <==> begins_with(other.skip(1), way.skip(1)),
{
    let (a, b) = (other.skip(1), way.skip(1));
    if begins_with(a, b) {
        assert forall|i: int| 0 <= i < way.len() implies #[trigger] other[i] == way[i] by {
            if i > 0 {
                assert(a[i - 1] == b[i - 1]);
            }
        }
    }
    if begins_with(other, way) {
        assert forall|i: int| 0 <= i < b.len() implies #[trigger] a[i] == b[i] by {
            assert(other[i + 1] == way[i + 1]);
        }
    }
}

} // verus!
