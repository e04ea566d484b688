//! The folders of a tree by number, and what changes along the way to one of them.
//!
//! Folders are numbered from the top down, each in front of what lies below it, so
//! that a folder and everything below it have consecutive numbers.

use crate::inside::{folder_at, leads, number_at};
use crate::types::{FolderNode, FolderView};
use crate::wrap::{wrap, wrapping_diff};
use vstd::prelude::*;

verus! {

/// How many folders a tree has, its top among them.
pub open spec fn folders_of(f: FolderView) -> nat
    decreases f, f.children.len() + 1,
{
    1 + folders_before(f, f.children.len() as int)
}

/// How many folders the first `n` children bring.
pub open spec fn folders_before(f: FolderView, n: int) -> nat
    decreases f, n,
{
    if n <= 0 || n > f.children.len() {
        0
    } else {
        folders_before(f, n - 1) + folders_of(f.children[n - 1])
    }
}

/// The number of child `k` of the folder with number `id`.
pub open spec fn child_id(f: FolderView, id: int, k: int) -> int {
    id + 1 + folders_before(f, k)
}

/// More children bring more folders.
pub proof fn lemma_before_monotonic(f: FolderView, a: int, b: int)
    requires
        0 <= a <= b <= f.children.len(),
    ensures
        folders_before(f, a) <= folders_before(f, b),
        folders_before(f, b) < folders_of(f),
        a < b ==> folders_before(f, a) + folders_of(f.children[a]) <= folders_before(f, b),
{
    lemma_before_grows(f, a, b);
    lemma_before_grows(f, b, f.children.len() as int);
}

proof fn lemma_before_grows(f: FolderView, a: int, b: int)
    requires
        0 <= a <= b <= f.children.len(),
    ensures
        folders_before(f, a) <= folders_before(f, b),
        a < b ==> folders_before(f, a) + folders_of(f.children[a]) <= folders_before(f, b),
    decreases b - a,
{
    if a < b {
        lemma_before_grows(f, a, b - 1);
    }
}

/// Every child is a folder.
pub proof fn lemma_count_at_least(f: FolderView, n: int)
    requires
        0 <= n <= f.children.len(),
    ensures
        n <= folders_before(f, n),
    decreases n,
{
    if n > 0 {
        lemma_count_at_least(f, n - 1);
        let c = f.children[n - 1];
        assert(folders_of(c) == 1 + folders_before(c, c.children.len() as int));
    }
}

/// Counts the folders of a tree.
pub fn count_folders(node: &FolderNode) -> (r: usize)
    requires
        folders_of(node@) <= usize::MAX,
    ensures
        r == folders_of(node@),
    decreases node,
{
    let ghost f = node@;
    let mut total: usize = 1;
    let mut k: usize = 0;
    while k < node.children.len()
        invariant
            k <= node.children.len(),
            f == node@,
            folders_of(f) <= usize::MAX,
            total == 1 + folders_before(f, k as int),
        decreases node.children.len() - k,
    {
        proof {
            lemma_before_monotonic(f, k + 1, f.children.len() as int);
            assert(f.children[k as int] == node.children@[k as int]@);
        }
        total += count_folders(&node.children[k]);
        k += 1;
    }
    total
}

/// Counts the folders of a tree, where the number fits: what the functions that go by
/// a folder's number ask for.
pub fn checked_count(node: &FolderNode) -> (r: Option<usize>)
    ensures
        r is Some <==> folders_of(node@) <= usize::MAX,
        r is Some ==> r->0 == folders_of(node@),
    decreases node,
{
    let ghost f = node@;
    let mut total: Option<usize> = Some(1);
    let mut k: usize = 0;
    while k < node.children.len()
        invariant
            k <= node.children.len(),
            f == node@,
            total is Some <==> 1 + folders_before(f, k as int) <= usize::MAX,
            total is Some ==> total->0 == 1 + folders_before(f, k as int),
        decreases node.children.len() - k,
    {
        assert(f.children[k as int] == node.children@[k as int]@);
        let below = checked_count(&node.children[k]);
        total = match (total, below) {
            (Some(t), Some(b)) => t.checked_add(b),
            _ => None,
        };
        k += 1;
    }
    total
}

/// The child of `f`, among the first `n`, that holds the folder with number
/// `target`.
pub open spec fn holder(f: FolderView, id: int, target: int, n: int) -> int
    decreases n,
{
    if n <= 0 {
        -1
    } else if child_id(f, id, n - 1) <= target {
        n - 1
    } else {
        holder(f, id, target, n - 1)
    }
}

/// The child that holds a folder below `f` is one of its children.
pub proof fn lemma_holder(f: FolderView, id: int, target: int, n: int)
    requires
        id < target,
        0 < n <= f.children.len(),
        target < child_id(f, id, n),
    ensures
        0 <= holder(f, id, target, n) < n,
        child_id(f, id, holder(f, id, target, n)) <= target,
        target < child_id(f, id, holder(f, id, target, n) + 1),
    decreases n,
{
    if child_id(f, id, n - 1) > target {
        if n == 1 {
            assert(folders_before(f, 0) == 0);
        } else {
            lemma_holder(f, id, target, n - 1);
        }
    }
}

/// Whether `target` is the number of a folder of the tree `f`, whose top has
/// number `id`.
pub open spec fn has_folder(f: FolderView, id: int, target: int) -> bool {
    id <= target < id + folders_of(f)
}

/// The child that holds the folder `target`.
pub open spec fn way_to(f: FolderView, id: int, target: int) -> int {
    holder(f, id, target, f.children.len() as int)
}

pub proof fn lemma_way(f: FolderView, id: int, target: int)
    requires
        has_folder(f, id, target),
        target != id,
    ensures
        0 <= way_to(f, id, target) < f.children.len(),
        has_folder(
            f.children[way_to(f, id, target)],
            child_id(f, id, way_to(f, id, target)),
            target,
        ),
        child_id(f, id, way_to(f, id, target)) + folders_of(f.children[way_to(f, id, target)]) <= id
            + folders_of(f),
{
    let n = f.children.len() as int;
    if n == 0 {
        assert(folders_before(f, 0) == 0);
    }
    lemma_holder(f, id, target, n);
    let k = way_to(f, id, target);
    lemma_before_monotonic(f, k + 1, n);
}

/// The numbers of the folders on the way from the top to `target`.
pub open spec fn path_to(f: FolderView, id: int, target: int) -> Seq<usize>
    decreases f,
{
    let k = way_to(f, id, target);
    if id == target || !(0 <= k < f.children.len()) {
        seq![id as usize]
    } else {
        seq![id as usize] + path_to(f.children[k], child_id(f, id, k), target)
    }
}

/// Appends the numbers of the folders on the way from `cur` to the folder `target`
/// of its tree; appends nothing where there is no such folder.
pub fn find_node_path(cur: &FolderNode, target: usize, path: &mut Vec<usize>) -> (r: bool)
    requires
        folders_of(cur@) <= usize::MAX,
    ensures
        r == has_folder(cur@, 0, target as int),
        r ==> final(path)@ == old(path)@ + path_to(cur@, 0, target as int),
        !r ==> final(path)@ == old(path)@,
{
    if target >= count_folders(cur) {
        return false;
    }
    find_from(cur, 0, target, path);
    true
}

fn find_from(cur: &FolderNode, id: usize, target: usize, path: &mut Vec<usize>)
    requires
        id + folders_of(cur@) <= usize::MAX,
        has_folder(cur@, id as int, target as int),
    ensures
        final(path)@ == old(path)@ + path_to(cur@, id as int, target as int),
    decreases cur,
{
    let ghost f = cur@;
    let ghost before = path@;
    path.push(id);
    if id == target {
        assert(path@ =~= before + path_to(f, id as int, target as int));
        return;
    }
    let (k, at) = next_on_way(cur, id, target);
    proof {
        lemma_way(f, id as int, target as int);
        assert(f.children[k as int] == cur.children@[k as int]@);
    }
    find_from(&cur.children[k], at, target, path);
    assert(path@ =~= before + path_to(f, id as int, target as int));
}

/// The child that holds the folder `target`, and that child's number.
fn next_on_way(cur: &FolderNode, id: usize, target: usize) -> (r: (usize, usize))
    requires
        id + folders_of(cur@) <= usize::MAX,
        has_folder(cur@, id as int, target as int),
        id != target,
    ensures
        r.0 == way_to(cur@, id as int, target as int),
        r.0 < cur.children@.len(),
        r.1 == child_id(cur@, id as int, r.0 as int),
{
    let ghost f = cur@;
    let mut k: usize = 0;
    let mut at: usize = id + 1;
    proof {
        lemma_way(f, id as int, target as int);
    }
    loop
        invariant
            f == cur@,
            id + folders_of(f) <= usize::MAX,
            has_folder(f, id as int, target as int),
            id != target,
            0 <= k <= way_to(f, id as int, target as int) < f.children.len(),
            at == child_id(f, id as int, k as int),
            at <= target,
        decreases f.children.len() - k,
    {
        proof {
            lemma_before_monotonic(f, k + 1, f.children.len() as int);
            assert(f.children[k as int] == cur.children@[k as int]@);
        }
        let n: usize = count_folders(&cur.children[k]);
        if target < at + n {
            proof {
                lemma_way_found(f, id as int, target as int, k as int);
            }
            return (k, at);
        }
        proof {
            if k == way_to(f, id as int, target as int) {
                lemma_holder(f, id as int, target as int, f.children.len() as int);
            }
        }
        at += n;
        assert(k < cur.children.len());
        k += 1;
    }
}

proof fn lemma_way_found(f: FolderView, id: int, target: int, k: int)
    requires
        0 <= k <= way_to(f, id, target) < f.children.len(),
        has_folder(f, id, target),
        id < target,
        target < child_id(f, id, k + 1),
    ensures
        k == way_to(f, id, target),
{
    let w = way_to(f, id, target);
    lemma_holder(f, id, target, f.children.len() as int);
    if k < w {
        lemma_before_monotonic(f, k + 1, w);
    }
}

// ------------------------------------------------------------- taking something out

/// `f` with that many bytes, files and folders less in its totals.
pub open spec fn less(f: FolderView, d: (i64, i64, i64)) -> FolderView {
    FolderView {
        size: wrap(f.size - d.0),
        file_count: wrap(f.file_count - d.1),
        folder_count: wrap(f.folder_count - d.2),
        ..f
    }
}

/// The tree `f` with that much less in every folder on the way from its top to
/// `target`; in `target` itself only where `include_self` says so.
pub open spec fn less_along(
    f: FolderView,
    id: int,
    target: int,
    d: (i64, i64, i64),
    include_self: bool,
) -> FolderView
    decreases f,
{
    let k = way_to(f, id, target);
    if !has_folder(f, id, target) {
        f
    } else if id == target {
        if include_self {
            less(f, d)
        } else {
            f
        }
    } else if 0 <= k < f.children.len() {
        FolderView {
            children: f.children.update(
                k,
                less_along(f.children[k], child_id(f, id, k), target, d, include_self),
            ),
            ..less(f, d)
        }
    } else {
        f
    }
}

/// Takes the share of something deleted out of the totals of every folder on the
/// way from the top of a tree to the folder `target`; out of `target` itself only
/// where `include_self` says so. Changes nothing where there is no such folder.
pub fn subtract_along_ancestors(
    root: &mut FolderNode,
    target: usize,
    d: (i64, i64, i64),
    include_self: bool,
)
    requires
        folders_of(old(root)@) <= usize::MAX,
    ensures
        final(root)@ == less_along(old(root)@, 0, target as int, d, include_self),
        folders_of(final(root)@) == folders_of(old(root)@),
{
    proof {
        lemma_less_keeps_count(root@, 0, target as int, d, include_self);
    }
    if target < count_folders(root) {
        subtract_from(root, 0, target, d, include_self);
    }
}

fn subtract_from(
    node: &mut FolderNode,
    id: usize,
    target: usize,
    d: (i64, i64, i64),
    include_self: bool,
)
    requires
        id + folders_of(old(node)@) <= usize::MAX,
        has_folder(old(node)@, id as int, target as int),
    ensures
        final(node)@ == less_along(old(node)@, id as int, target as int, d, include_self),
    decreases folders_of(old(node)@),
{
    let ghost f = node@;
    if id == target {
        if include_self {
            subtract(node, d);
        }
        return;
    }
    let (k, at) = next_on_way(node, id, target);
    proof {
        lemma_way(f, id as int, target as int);
        assert(f.children[k as int] == node.children@[k as int]@);
    }
    proof {
        lemma_before_monotonic(f, k as int, f.children.len() as int);
    }
    subtract(node, d);
    let ghost g = node@;
    assert(g.children[k as int] == node.children@[k as int]@);
    let child = &mut node.children[k];
    subtract_from(child, at, target, d, include_self);
    assert(node@.children =~= f.children.update(
        k as int,
        less_along(f.children[k as int], at as int, target as int, d, include_self),
    ));
    assert(node@.files =~= f.files);
}

fn subtract(node: &mut FolderNode, d: (i64, i64, i64))
    ensures
        final(node)@ == less(old(node)@, d),
        final(node).children == old(node).children,
{
    let ghost before = node@;
    node.size = wrapping_diff(node.size, d.0);
    node.file_count = wrapping_diff(node.file_count, d.1);
    node.folder_count = wrapping_diff(node.folder_count, d.2);
    assert(node@.children =~= before.children);
    assert(node@.files =~= before.files);
}

/// Only totals change: a tree keeps its folders.
pub proof fn lemma_less_keeps_count(
    f: FolderView,
    id: int,
    target: int,
    d: (i64, i64, i64),
    include_self: bool,
)
    ensures
        folders_of(less_along(f, id, target, d, include_self)) == folders_of(f),
    decreases f,
{
    let g = less_along(f, id, target, d, include_self);
    let k = way_to(f, id, target);
    if has_folder(f, id, target) && id != target && 0 <= k < f.children.len() {
        lemma_less_keeps_count(f.children[k], child_id(f, id, k), target, d, include_self);
        lemma_same_counts(f, g, f.children.len() as int);
    } else if has_folder(f, id, target) && id == target {
        lemma_same_counts(f, g, f.children.len() as int);
    }
}

proof fn lemma_same_counts(f: FolderView, g: FolderView, n: int)
    requires
        f.children.len() == g.children.len(),
        n <= f.children.len(),
        forall|i: int|
            0 <= i < f.children.len() ==> folders_of(#[trigger] f.children[i]) == folders_of(
                g.children[i],
            ),
    ensures
        folders_before(f, n) == folders_before(g, n),
    decreases n,
{
    if n > 0 {
        lemma_same_counts(f, g, n - 1);
    }
}

/// The numbers of the folders from `id` on, `n` of them.
pub open spec fn ids_from(id: int, n: nat) -> Seq<usize> {
    Seq::new(n, |i: int| (id + i) as usize)
}

/// Appends the numbers of a folder, which is `id`, and of everything below it.
pub fn collect_folder_ids(node: &FolderNode, id: usize, out: &mut Vec<usize>)
    requires
        id + folders_of(node@) <= usize::MAX,
    ensures
        final(out)@ == old(out)@ + ids_from(id as int, folders_of(node@)),
{
    let n: usize = count_folders(node);
    let ghost before = out@;
    let mut i: usize = 0;
    assert(out@ =~= before + ids_from(id as int, 0));
    while i < n
        invariant
            i <= n,
            id + n <= usize::MAX,
            out@ == before + ids_from(id as int, i as nat),
        decreases n - i,
    {
        out.push(id + i);
        i += 1;
        assert(out@ =~= before + ids_from(id as int, i as nat));
    }
}

/// The folder with number `target` of the tree `f`.
pub open spec fn folder_numbered(f: FolderView, id: int, target: int) -> FolderView
    decreases f,
{
    let k = way_to(f, id, target);
    if id == target || !(0 <= k < f.children.len()) {
        f
    } else {
        folder_numbered(f.children[k], child_id(f, id, k), target)
    }
}

/// The folder with number `target`, if there is one.
pub fn node_numbered<'a>(root: &'a FolderNode, target: usize) -> (r: Option<&'a FolderNode>)
    requires
        folders_of(root@) <= usize::MAX,
    ensures
        r is Some <==> has_folder(root@, 0, target as int),
        r is Some ==> r->0@ == folder_numbered(root@, 0, target as int) && folders_of(r->0@)
            <= folders_of(root@) - target,
{
    if target >= count_folders(root) {
        return None;
    }
    let mut node: &'a FolderNode = root;
    let mut id: usize = 0;
    while id != target
        invariant
            folders_of(root@) <= usize::MAX,
            id + folders_of(node@) <= folders_of(root@),
            has_folder(node@, id as int, target as int),
            folder_numbered(node@, id as int, target as int) == folder_numbered(
                root@,
                0,
                target as int,
            ),
        decreases folders_of(node@),
    {
        let (k, at) = next_on_way(node, id, target);
        proof {
            lemma_way(node@, id as int, target as int);
            assert(node@.children[k as int] == node.children@[k as int]@);
            lemma_before_monotonic(node@, k as int, node@.children.len() as int);
        }
        id = at;
        node = &node.children[k];
    }
    Some(node)
}

/// Every folder of a tree is found by its number: the way to it leads to the folder that
/// has that number.
pub proof fn law_found_by_number(f: FolderView, id: int, way: Seq<int>)
    requires
        leads(f, way),
    ensures
        has_folder(f, id, id + number_at(f, way)),
        folder_numbered(f, id, id + number_at(f, way)) == folder_at(f, way),
    decreases way.len(),
{
    let n = f.children.len() as int;
    if way.len() > 0 {
        let k = way[0];
        let c = f.children[k];
        let cid = child_id(f, id, k);
        let target = id + number_at(f, way);
        law_found_by_number(c, cid, way.skip(1));
        assert(target == cid + number_at(c, way.skip(1)));
        lemma_before_monotonic(f, k, n);
        lemma_before_monotonic(f, k + 1, n);
        lemma_way(f, id, target);
        let w = way_to(f, id, target);
        if w < k {
            lemma_before_monotonic(f, w + 1, k);
        } else if w > k {
            lemma_before_monotonic(f, k + 1, w);
        }
        assert(w == k);
    }
}

/// The numbers on the way to a folder are those of the folders that the way leads through,
/// from the top to the folder itself.
pub proof fn law_way_by_numbers(f: FolderView, id: int, way: Seq<int>, k: int)
    requires
        leads(f, way),
        0 <= k <= way.len(),
        0 <= id,
        id + folders_of(f) <= usize::MAX,
    ensures
        path_to(f, id, id + number_at(f, way)).len() == way.len() + 1,
        path_to(f, id, id + number_at(f, way))[k] == id + number_at(f, way.take(k)),
    decreases way.len(),
{
    let n = f.children.len() as int;
    let target = id + number_at(f, way);
    law_found_by_number(f, id, way);
    if way.len() == 0 {
        assert(way.take(k) =~= way);
    } else {
        let w = way[0];
        let c = f.children[w];
        let cid = child_id(f, id, w);
        lemma_before_monotonic(f, w, n);
        lemma_before_monotonic(f, w + 1, n);
        lemma_number_positive(c, way.skip(1));
        assert(target == cid + number_at(c, way.skip(1)));
        law_found_by_number(c, cid, way.skip(1));
        lemma_way(f, id, target);
        let v = way_to(f, id, target);
        if v < w {
            lemma_before_monotonic(f, v + 1, w);
        } else if v > w {
            lemma_before_monotonic(f, w + 1, v);
        }
        assert(v == w);
        law_way_by_numbers(c, cid, way.skip(1), if k > 0 {
            k - 1
        } else {
            0
        });
        if k > 0 {
            assert(way.take(k).skip(1) =~= way.skip(1).take(k - 1));
            assert(way.take(k)[0] == w);
        } else {
            assert(way.take(0) =~= Seq::empty());
        }
    }
}

proof fn lemma_number_positive(f: FolderView, way: Seq<int>)
    requires
        leads(f, way),
    ensures
        number_at(f, way) >= 0,
    decreases way.len(),
{
    if way.len() > 0 {
        lemma_number_positive(f.children[way[0]], way.skip(1));
    }
}

} // verus!
