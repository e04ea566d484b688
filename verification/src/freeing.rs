//! What carrying out a plan frees: nothing twice, and what was announced.

use crate::deletion::{law_only_ancestors_change, totals};
use crate::numbering::{
    child_id, folder_numbered, folders_before, folders_of, has_folder, lemma_before_monotonic,
    lemma_less_keeps_count, lemma_way, less_along, path_to, way_to,
};
use crate::recycle::{
    covers, is_deletable, is_passed_over, is_selected, lies_in, plan_upto, share_of,
    without_files, without_folders, PlanView, TreeState,
};
use crate::rows::{FileRef, RowTarget};
use crate::types::{FolderNode, FolderView};
use crate::wrap::{law_wrap_absorbs, law_wrap_fits, wrap};
use vstd::prelude::*;

verus! {

// ------------------------------------------------------------------ folders in folders

/// The child whose numbers `y` is among is the way to it.
proof fn lemma_way_is(f: FolderView, id: int, k: int, y: int)
    requires
        0 <= k < f.children.len(),
        child_id(f, id, k) <= y < child_id(f, id, k + 1),
    ensures
        has_folder(f, id, y),
        y != id,
        way_to(f, id, y) == k,
{
    let n = f.children.len() as int;
    lemma_before_monotonic(f, k + 1, n);
    lemma_before_monotonic(f, 0, k);
    lemma_way(f, id, y);
    let w = way_to(f, id, y);
    if w < k {
        lemma_before_monotonic(f, w + 1, k);
    } else if w > k {
        lemma_before_monotonic(f, k + 1, w);
    }
}

/// A folder of a tree has its numbers among those of the tree.
proof fn lemma_numbers_within(f: FolderView, id: int, x: int)
    requires
        has_folder(f, id, x),
    ensures
        x + folders_of(folder_numbered(f, id, x)) <= id + folders_of(f),
    decreases f,
{
    if x != id {
        lemma_way(f, id, x);
        let k = way_to(f, id, x);
        lemma_numbers_within(f.children[k], child_id(f, id, k), x);
    }
}

/// A folder of a folder of a tree is that folder of the tree.
proof fn lemma_nested(f: FolderView, id: int, x: int, y: int)
    requires
        has_folder(f, id, x),
        has_folder(folder_numbered(f, id, x), x, y),
    ensures
        has_folder(f, id, y),
        folder_numbered(folder_numbered(f, id, x), x, y) == folder_numbered(f, id, y),
    decreases f,
{
    lemma_numbers_within(f, id, x);
    if x != id {
        lemma_way(f, id, x);
        let k = way_to(f, id, x);
        let c = f.children[k];
        let cid = child_id(f, id, k);
        lemma_nested(c, cid, x, y);
        lemma_before_monotonic(f, k, k + 1);
        assert(child_id(f, id, k + 1) == cid + folders_of(c));
        lemma_way_is(f, id, k, y);
    }
}

/// What lies in a folder that lies in a third lies in the third.
proof fn lemma_lies_in_transitive(root: FolderView, x: int, y: int, z: int)
    requires
        lies_in(root, x, y),
        lies_in(root, y, z),
    ensures
        lies_in(root, x, z),
{
    let fx = folder_numbered(root, 0, x);
    lemma_nested(root, 0, x, y);
    lemma_numbers_within(fx, x, y);
}

/// The folders on the way to a folder are those that it lies in.
proof fn lemma_path_is_above(f: FolderView, id: int, x: int, y: int)
    requires
        0 <= id,
        id + folders_of(f) <= usize::MAX,
        has_folder(f, id, x),
        has_folder(f, id, y),
    ensures
        path_to(f, id, y).contains(x as usize) <==> has_folder(folder_numbered(f, id, x), x, y),
    decreases f,
{
    let path = path_to(f, id, y);
    if y == id {
        assert(path =~= seq![id as usize]);
        if path.contains(x as usize) {
            let i = choose|i: int| 0 <= i < path.len() && path[i] == x as usize;
            assert(x == id);
        }
        if x == id {
            assert(path[0] == x as usize);
        }
    } else {
        lemma_way(f, id, y);
        let k = way_to(f, id, y);
        let c = f.children[k];
        let cid = child_id(f, id, k);
        let below = path_to(c, cid, y);
        assert(path == seq![id as usize] + below);
        lemma_below_numbers(c, cid, y);
        if x == id {
            assert(path[0] == x as usize);
        } else {
            assert(path.contains(x as usize) <==> below.contains(x as usize)) by {
                if path.contains(x as usize) {
                    let i = choose|i: int| 0 <= i < path.len() && path[i] == x as usize;
                    assert(below[i - 1] == x as usize);
                }
                if below.contains(x as usize) {
                    let i = choose|i: int| 0 <= i < below.len() && below[i] == x as usize;
                    assert(path[i + 1] == x as usize);
                }
            }
            lemma_way(f, id, x);
            let j = way_to(f, id, x);
            if j == k {
                lemma_path_is_above(c, cid, x, y);
            } else {
                let d = f.children[j];
                lemma_numbers_within(d, child_id(f, id, j), x);
                if j < k {
                    lemma_before_monotonic(f, j, k);
                } else {
                    lemma_before_monotonic(f, k, j);
                }
                assert(!below.contains(x as usize)) by {
                    if below.contains(x as usize) {
                        let i = choose|i: int| 0 <= i < below.len() && below[i] == x as usize;
                        assert(has_folder(c, cid, below[i] as int));
                    }
                }
            }
        }
    }
}

proof fn lemma_below_numbers(f: FolderView, id: int, y: int)
    requires
        0 <= id,
        id + folders_of(f) <= usize::MAX,
        has_folder(f, id, y),
    ensures
        forall|i: int|
            0 <= i < path_to(f, id, y).len() ==> has_folder(
                f,
                id,
                #[trigger] path_to(f, id, y)[i] as int,
            ),
    decreases f,
{
    if y != id {
        lemma_way(f, id, y);
        let k = way_to(f, id, y);
        let c = f.children[k];
        lemma_below_numbers(c, child_id(f, id, k), y);
        let path = path_to(f, id, y);
        let below = path_to(c, child_id(f, id, k), y);
        assert forall|i: int| 0 <= i < path.len() implies has_folder(
            f,
            id,
            #[trigger] path[i] as int,
        ) by {
            if i > 0 {
                assert(path[i] == below[i - 1]);
            }
        }
    }
}

/// Taking something out of the totals leaves every folder in its place.
proof fn lemma_less_keeps_places(
    f: FolderView,
    id: int,
    target: int,
    d: (i64, i64, i64),
    include_self: bool,
    x: int,
)
    requires
        has_folder(f, id, x),
    ensures
        ({
            let g = less_along(f, id, target, d, include_self);
            &&& has_folder(g, id, x)
            &&& folders_of(folder_numbered(g, id, x)) == folders_of(folder_numbered(f, id, x))
            &&& folder_numbered(g, id, x).files == folder_numbered(f, id, x).files
        }),
    decreases f,
{
    let g = less_along(f, id, target, d, include_self);
    lemma_less_keeps_count(f, id, target, d, include_self);
    if has_folder(f, id, target) && x != id {
        lemma_way(f, id, x);
        let j = way_to(f, id, x);
        if target == id {
            assert forall|n: int| #[trigger] folders_before(g, n) == folders_before(f, n) by {
                lemma_same_before(f, g, n);
            }
        } else {
            lemma_way(f, id, target);
            let k = way_to(f, id, target);
            let c = f.children[k];
            let cid = child_id(f, id, k);
            lemma_less_keeps_count(c, cid, target, d, include_self);
            assert forall|n: int| #[trigger] folders_before(g, n) == folders_before(f, n) by {
                lemma_same_before(f, g, n);
            }
            if j == k {
                lemma_less_keeps_places(c, cid, target, d, include_self, x);
            }
        }
        lemma_before_monotonic(f, j, j + 1);
        assert(child_id(g, id, j) <= x < child_id(g, id, j + 1));
        lemma_way_is(g, id, j, x);
        assert(folder_numbered(g, id, x) == folder_numbered(
            g.children[j],
            child_id(g, id, j),
            x,
        ));
    }
}

proof fn lemma_same_before(f: FolderView, g: FolderView, n: int)
    requires
        g.children.len() == f.children.len(),
        forall|i: int|
            0 <= i < f.children.len() ==> folders_of(#[trigger] g.children[i]) == folders_of(
                f.children[i],
            ),
    ensures
        folders_before(g, n) == folders_before(f, n),
    decreases n,
{
    if 0 < n <= f.children.len() {
        lemma_same_before(f, g, n - 1);
    }
}

// --------------------------------------------------------------------------- ranges

pub open spec fn is_i64(x: int) -> bool {
    i64::MIN <= x <= i64::MAX
}

/// Whether the totals of a tree and the sizes of its files fit their types.
pub open spec fn fits(f: FolderView) -> bool
    decreases f,
{
    &&& is_i64(f.size) && is_i64(f.file_count) && is_i64(f.folder_count)
    &&& forall|i: int| 0 <= i < f.files.len() ==> is_i64((#[trigger] f.files[i]).size)
    &&& forall|i: int| 0 <= i < f.children.len() ==> fits(#[trigger] f.children[i])
}

/// The totals of a real tree fit.
pub proof fn law_real_trees_fit(node: FolderNode)
    ensures
        fits(node@),
    decreases node,
{
    let f = node@;
    assert forall|i: int| 0 <= i < f.children.len() implies fits(#[trigger] f.children[i]) by {
        law_real_trees_fit(node.children@[i]);
        assert(f.children[i] == node.children@[i]@);
    }
    assert forall|i: int| 0 <= i < f.files.len() implies is_i64((#[trigger] f.files[i]).size) by {
        assert(f.files[i] == node.files@[i]@);
    }
}

proof fn lemma_fits_at(f: FolderView, id: int, x: int)
    requires
        fits(f),
        has_folder(f, id, x),
    ensures
        fits(folder_numbered(f, id, x)),
    decreases f,
{
    if x != id {
        lemma_way(f, id, x);
        let k = way_to(f, id, x);
        lemma_fits_at(f.children[k], child_id(f, id, k), x);
    }
}

proof fn lemma_wrap_is_i64(x: int)
    ensures
        is_i64(wrap(x)),
{
    reveal(wrap);
}

proof fn lemma_less_fits(
    f: FolderView,
    id: int,
    target: int,
    d: (i64, i64, i64),
    include_self: bool,
)
    requires
        fits(f),
    ensures
        fits(less_along(f, id, target, d, include_self)),
    decreases f,
{
    let g = less_along(f, id, target, d, include_self);
    lemma_wrap_is_i64(f.size - d.0);
    lemma_wrap_is_i64(f.file_count - d.1);
    lemma_wrap_is_i64(f.folder_count - d.2);
    let k = way_to(f, id, target);
    if has_folder(f, id, target) && id != target && 0 <= k < f.children.len() {
        lemma_less_fits(f.children[k], child_id(f, id, k), target, d, include_self);
        assert forall|i: int| 0 <= i < g.children.len() implies fits(#[trigger] g.children[i]) by {
            if i != k {
                assert(g.children[i] == f.children[i]);
            }
        }
        assert(g.files == f.files);
    }
}

// ------------------------------------------------------------------- carrying out

/// What a folder and everything below it amount to: bytes, files and folders.
pub open spec fn amount_of(f: FolderView) -> (int, int, int) {
    (f.size, f.file_count, f.folder_count + 1)
}

/// What of the first `n` folders `ids` lies below the folder `x`.
pub open spec fn folders_below(root: FolderView, ids: Seq<usize>, n: int, x: int) -> (int, int, int)
    decreases n,
{
    if n <= 0 {
        (0, 0, 0)
    } else {
        let t = folders_below(root, ids, n - 1, x);
        let id = ids[n - 1] as int;
        if lies_in(root, x, id) && x != id {
            let a = amount_of(folder_numbered(root, 0, id));
            (t.0 + a.0, t.1 + a.1, t.2 + a.2)
        } else {
            t
        }
    }
}

/// What of the first `n` of `files` lies in the folder `x` or below it.
pub open spec fn files_below(
    root: FolderView,
    files: Seq<(FileRef, i64)>,
    n: int,
    x: int,
) -> (int, int, int)
    decreases n,
{
    if n <= 0 {
        (0, 0, 0)
    } else {
        let t = files_below(root, files, n - 1, x);
        let (at, size) = files[n - 1];
        if lies_in(root, x, at.folder as int) {
            (t.0 + size, t.1 + 1, t.2)
        } else {
            t
        }
    }
}

/// The totals of a folder with that much taken out of them.
pub open spec fn totals_without(f: FolderView, t: (int, int, int)) -> (int, int, int) {
    (wrap(f.size - t.0), wrap(f.file_count - t.1), wrap(f.folder_count - t.2))
}

/// Whether the folders `ids` are there and none of them lies in another.
pub open spec fn are_apart(root: FolderView, ids: Seq<usize>) -> bool {
    &&& forall|i: int| 0 <= i < ids.len() ==> has_folder(root, 0, #[trigger] ids[i] as int)
    &&& forall|i: int, j: int|
        0 <= i < ids.len() && 0 <= j < ids.len() && i != j ==> !lies_in(
            root,
            #[trigger] ids[i] as int,
            #[trigger] ids[j] as int,
        )
}

proof fn lemma_nothing_below(root: FolderView, ids: Seq<usize>, n: int, i: int)
    requires
        are_apart(root, ids),
        0 <= n <= i < ids.len(),
    ensures
        folders_below(root, ids, n, ids[i] as int) == (0int, 0int, 0int),
    decreases n,
{
    if n > 0 {
        lemma_nothing_below(root, ids, n - 1, i);
        assert(!lies_in(root, ids[i] as int, ids[n - 1] as int));
    }
}

/// What is known of a tree from whose totals something was taken.
spec fn is_reduced(r: FolderView, root: FolderView, x: int, t: (int, int, int)) -> bool {
    &&& fits(r)
    &&& folders_of(r) == folders_of(root)
    &&& has_folder(r, 0, x)
    &&& folders_of(folder_numbered(r, 0, x)) == folders_of(folder_numbered(root, 0, x))
    &&& totals(folder_numbered(r, 0, x)) == totals_without(folder_numbered(root, 0, x), t)
}

proof fn lemma_one_less(
    r: FolderView,
    root: FolderView,
    target: int,
    d: (i64, i64, i64),
    include_self: bool,
    x: int,
    t: (int, int, int),
)
    requires
        folders_of(root) <= usize::MAX,
        has_folder(root, 0, x),
        has_folder(root, 0, target),
        is_reduced(r, root, x, t),
    ensures
        ({
            let below = lies_in(root, x, target) && (x != target || include_self);
            let u = if below {
                (t.0 + d.0, t.1 + d.1, t.2 + d.2)
            } else {
                t
            };
            is_reduced(less_along(r, 0, target, d, include_self), root, x, u)
        }),
{
    let g = less_along(r, 0, target, d, include_self);
    lemma_less_fits(r, 0, target, d, include_self);
    lemma_less_keeps_count(r, 0, target, d, include_self);
    lemma_less_keeps_places(r, 0, target, d, include_self, x);
    law_only_ancestors_change(r, 0, target, d, include_self, x);
    lemma_path_is_above(r, 0, x, target);
    let f = folder_numbered(root, 0, x);
    law_wrap_absorbs(f.size - t.0, d.0 as int);
    law_wrap_absorbs(f.file_count - t.1, d.1 as int);
    law_wrap_absorbs(f.folder_count - t.2, d.2 as int);
}

proof fn lemma_without_folders(s: TreeState, ids: Seq<usize>, n: int, x: int)
    requires
        fits(s.root),
        folders_of(s.root) <= usize::MAX,
        are_apart(s.root, ids),
        0 <= n <= ids.len(),
        has_folder(s.root, 0, x),
    ensures
        is_reduced(
            without_folders(s, ids, n).root,
            s.root,
            x,
            folders_below(s.root, ids, n, x),
        ),
    decreases n,
{
    let f = folder_numbered(s.root, 0, x);
    lemma_fits_at(s.root, 0, x);
    if n == 0 {
        law_wrap_fits(f.size);
        law_wrap_fits(f.file_count);
        law_wrap_fits(f.folder_count);
    } else {
        let r = without_folders(s, ids, n - 1).root;
        let id = ids[n - 1] as int;
        lemma_without_folders(s, ids, n - 1, x);
        lemma_without_folders(s, ids, n - 1, id);
        lemma_nothing_below(s.root, ids, n - 1, n - 1);
        lemma_fits_at(s.root, 0, id);
        let c = folder_numbered(s.root, 0, id);
        law_wrap_fits(c.size);
        law_wrap_fits(c.file_count);
        law_wrap_fits(c.folder_count);
        let d = share_of(folder_numbered(r, 0, id));
        lemma_wrap_is_i64(c.folder_count + 1);
        assert(d.0 == c.size && d.1 == c.file_count && d.2 == wrap(c.folder_count + 1));
        let t = folders_below(s.root, ids, n - 1, x);
        lemma_one_less(r, s.root, id, d, false, x, t);
        law_wrap_absorbs(c.folder_count + 1, f.folder_count - t.2);
        assert(f.folder_count - (t.2 + d.2) == f.folder_count - t.2 - d.2);
        assert(f.folder_count - (t.2 + (c.folder_count + 1)) == f.folder_count - t.2 - (
        c.folder_count + 1));
    }
}

proof fn lemma_without_files(
    s: TreeState,
    root: FolderView,
    files: Seq<(FileRef, i64)>,
    n: int,
    x: int,
    t: (int, int, int),
)
    requires
        folders_of(root) <= usize::MAX,
        has_folder(root, 0, x),
        is_reduced(s.root, root, x, t),
        0 <= n <= files.len(),
        forall|i: int|
            0 <= i < files.len() ==> has_folder(root, 0, (#[trigger] files[i]).0.folder as int),
    ensures
        ({
            let u = files_below(root, files, n, x);
            is_reduced(
                without_files(s, files, n).root,
                root,
                x,
                (t.0 + u.0, t.1 + u.1, t.2 + u.2),
            )
        }),
    decreases n,
{
    if n > 0 {
        lemma_without_files(s, root, files, n - 1, x, t);
        let u = files_below(root, files, n - 1, x);
        let (at, size) = files[n - 1];
        assert(has_folder(root, 0, files[n - 1].0.folder as int));
        lemma_one_less(
            without_files(s, files, n - 1).root,
            root,
            at.folder as int,
            (size, 1i64, 0i64),
            true,
            x,
            (t.0 + u.0, t.1 + u.1, t.2 + u.2),
        );
    }
}

/// The tree once a plan is carried out.
pub open spec fn carried_out(s: TreeState, p: PlanView) -> TreeState {
    without_files(
        without_folders(s, p.folders, p.folders.len() as int),
        p.files,
        p.files.len() as int,
    )
}

// ---------------------------------------------------------------------- the plan

/// The `i`th selected row, where it is there.
pub open spec fn row_of(rows: Seq<RowTarget>, selected: Seq<usize>, i: int) -> RowTarget {
    rows[selected[i] as int]
}

/// Whether the `i`th selected row has a place of its own in the plan.
pub open spec fn has_place(
    rows: Seq<RowTarget>,
    selected: Seq<usize>,
    root: FolderView,
    i: int,
) -> bool {
    is_selected(rows, selected, i) && !is_passed_over(rows, selected, root, i)
}

/// Whether `p` holds exactly the rows with a place among the first `n`.
spec fn holds_upto(
    p: PlanView,
    rows: Seq<RowTarget>,
    selected: Seq<usize>,
    root: FolderView,
    n: int,
) -> bool {
    &&& forall|a: int|
        0 <= a < p.folders.len() ==> is_planned_folder(
            rows,
            selected,
            root,
            n,
            #[trigger] p.folders[a],
        )
    &&& forall|a: int|
        0 <= a < p.files.len() ==> is_planned_file(
            rows,
            selected,
            root,
            n,
            #[trigger] p.files[a],
        )
    &&& forall|a: int, b: int|
        0 <= a < b < p.folders.len() ==> #[trigger] p.folders[a] != #[trigger] p.folders[b]
    &&& forall|a: int, b: int|
        0 <= a < b < p.files.len() ==> (#[trigger] p.files[a]).0 != (#[trigger] p.files[b]).0
}

spec fn is_planned_folder(
    rows: Seq<RowTarget>,
    selected: Seq<usize>,
    root: FolderView,
    n: int,
    id: usize,
) -> bool {
    is_deletable(root, id as int) && exists|i: int|
        i < n && #[trigger] has_place(rows, selected, root, i) && row_of(rows, selected, i)
            == RowTarget::Folder(id)
}

spec fn is_planned_file(
    rows: Seq<RowTarget>,
    selected: Seq<usize>,
    root: FolderView,
    n: int,
    file: (FileRef, i64),
) -> bool {
    let at = file.0;
    let f = folder_numbered(root, 0, at.folder as int);
    &&& has_folder(root, 0, at.folder as int)
    &&& at.index < f.files.len()
    &&& file.1 == f.files[at.index as int].size as i64
    &&& exists|i: int|
        i < n && #[trigger] has_place(rows, selected, root, i) && row_of(rows, selected, i)
            == RowTarget::File(at)
}

proof fn lemma_plan_holds(rows: Seq<RowTarget>, selected: Seq<usize>, root: FolderView, n: int)
    requires
        0 <= n <= selected.len(),
    ensures
        holds_upto(plan_upto(rows, selected, root, n), rows, selected, root, n),
    decreases n,
{
    if n > 0 {
        lemma_plan_holds(rows, selected, root, n - 1);
        let p = plan_upto(rows, selected, root, n - 1);
        let q = plan_upto(rows, selected, root, n);
        let m = n - 1;
        assert forall|a: int| 0 <= a < q.folders.len() implies is_planned_folder(
            rows,
            selected,
            root,
            n,
            #[trigger] q.folders[a],
        ) by {
            if a < p.folders.len() {
                assert(q.folders[a] == p.folders[a]);
                assert(is_planned_folder(rows, selected, root, n - 1, p.folders[a]));
            } else {
                assert(has_place(rows, selected, root, m));
            }
        }
        assert forall|a: int| 0 <= a < q.files.len() implies is_planned_file(
            rows,
            selected,
            root,
            n,
            #[trigger] q.files[a],
        ) by {
            if a < p.files.len() {
                assert(q.files[a] == p.files[a]);
                assert(is_planned_file(rows, selected, root, n - 1, p.files[a]));
            } else {
                assert(has_place(rows, selected, root, m));
            }
        }
        assert forall|a: int, b: int| 0 <= a < b < q.folders.len() implies #[trigger] q.folders[a]
            != #[trigger] q.folders[b] by {
            assert(q.folders[a] == p.folders[a]);
            if b < p.folders.len() {
                assert(q.folders[b] == p.folders[b]);
            } else {
                assert(is_planned_folder(rows, selected, root, n - 1, p.folders[a]));
                let i = choose|i: int|
                    i < n - 1 && #[trigger] has_place(rows, selected, root, i) && row_of(
                        rows,
                        selected,
                        i,
                    ) == RowTarget::Folder(p.folders[a]);
                assert(is_selected(rows, selected, i));
                assert(has_place(rows, selected, root, m));
            }
        }
        assert forall|a: int, b: int| 0 <= a < b < q.files.len() implies (#[trigger] q.files[a]).0
            != (#[trigger] q.files[b]).0 by {
            assert(q.files[a] == p.files[a]);
            if b < p.files.len() {
                assert(q.files[b] == p.files[b]);
            } else {
                assert(is_planned_file(rows, selected, root, n - 1, p.files[a]));
                let i = choose|i: int|
                    i < n - 1 && #[trigger] has_place(rows, selected, root, i) && row_of(
                        rows,
                        selected,
                        i,
                    ) == RowTarget::File(p.files[a].0);
                assert(is_selected(rows, selected, i));
                assert(has_place(rows, selected, root, m));
            }
        }
    }
}

/// Nothing is in a plan twice: none of its folders lies in another, none of its files
/// lies in one of its folders, and no file is there twice.
pub proof fn law_nothing_planned_twice(
    rows: Seq<RowTarget>,
    selected: Seq<usize>,
    root: FolderView,
)
    ensures
        ({
            let p = plan_upto(rows, selected, root, selected.len() as int);
            &&& are_apart(root, p.folders)
            &&& forall|a: int, b: int|
                0 <= a < p.folders.len() && 0 <= b < p.files.len() ==> !lies_in(
                    root,
                    #[trigger] p.folders[a] as int,
                    (#[trigger] p.files[b]).0.folder as int,
                )
            &&& forall|a: int, b: int|
                0 <= a < b < p.files.len() ==> (#[trigger] p.files[a]).0 != (
                #[trigger] p.files[b]).0
        }),
{
    let n = selected.len() as int;
    let p = plan_upto(rows, selected, root, n);
    lemma_plan_holds(rows, selected, root, n);
    assert forall|a: int| 0 <= a < p.folders.len() implies has_folder(
        root,
        0,
        #[trigger] p.folders[a] as int,
    ) by {
        assert(is_planned_folder(rows, selected, root, n, p.folders[a]));
    }
    assert forall|a: int, b: int|
        0 <= a < p.folders.len() && 0 <= b < p.folders.len() && a != b implies !lies_in(
        root,
        #[trigger] p.folders[a] as int,
        #[trigger] p.folders[b] as int,
    ) by {
        let (x, y) = (p.folders[a], p.folders[b]);
        assert(is_planned_folder(rows, selected, root, n, x));
        assert(is_planned_folder(rows, selected, root, n, y));
        let i = choose|i: int|
            i < n && #[trigger] has_place(rows, selected, root, i) && row_of(rows, selected, i)
                == RowTarget::Folder(x);
        let j = choose|j: int|
            j < n && #[trigger] has_place(rows, selected, root, j) && row_of(rows, selected, j)
                == RowTarget::Folder(y);
        assert(x != y);
        assert(is_selected(rows, selected, i));
        assert(!is_passed_over(rows, selected, root, j));
        assert(!covers(root, row_of(rows, selected, i), row_of(rows, selected, j)));
    }
    assert forall|a: int, b: int|
        0 <= a < p.folders.len() && 0 <= b < p.files.len() implies !lies_in(
        root,
        #[trigger] p.folders[a] as int,
        (#[trigger] p.files[b]).0.folder as int,
    ) by {
        let (x, y) = (p.folders[a], p.files[b]);
        assert(is_planned_folder(rows, selected, root, n, x));
        assert(is_planned_file(rows, selected, root, n, y));
        let i = choose|i: int|
            i < n && #[trigger] has_place(rows, selected, root, i) && row_of(rows, selected, i)
                == RowTarget::Folder(x);
        let j = choose|j: int|
            j < n && #[trigger] has_place(rows, selected, root, j) && row_of(rows, selected, j)
                == RowTarget::File(y.0);
        assert(is_selected(rows, selected, i));
        assert(!is_passed_over(rows, selected, root, j));
        assert(!covers(root, row_of(rows, selected, i), row_of(rows, selected, j)));
    }
}

/// Carrying out a plan leaves the totals of every folder right: each loses exactly what
/// of the plan lies below it.
pub proof fn law_totals_lose_what_is_below(
    rows: Seq<RowTarget>,
    selected: Seq<usize>,
    s: TreeState,
    x: int,
)
    requires
        fits(s.root),
        folders_of(s.root) <= usize::MAX,
        has_folder(s.root, 0, x),
    ensures
        ({
            let p = plan_upto(rows, selected, s.root, selected.len() as int);
            let t = folders_below(s.root, p.folders, p.folders.len() as int, x);
            let u = files_below(s.root, p.files, p.files.len() as int, x);
            totals(folder_numbered(carried_out(s, p).root, 0, x)) == totals_without(
                folder_numbered(s.root, 0, x),
                (t.0 + u.0, t.1 + u.1, t.2 + u.2),
            )
        }),
{
    let n = selected.len() as int;
    let p = plan_upto(rows, selected, s.root, n);
    law_nothing_planned_twice(rows, selected, s.root);
    lemma_plan_holds(rows, selected, s.root, n);
    assert forall|i: int| 0 <= i < p.files.len() implies has_folder(
        s.root,
        0,
        (#[trigger] p.files[i]).0.folder as int,
    ) by {
        assert(is_planned_file(rows, selected, s.root, n, p.files[i]));
    }
    lemma_without_folders(s, p.folders, p.folders.len() as int, x);
    lemma_without_files(
        without_folders(s, p.folders, p.folders.len() as int),
        s.root,
        p.files,
        p.files.len() as int,
        x,
        folders_below(s.root, p.folders, p.folders.len() as int, x),
    );
}

proof fn lemma_announced(rows: Seq<RowTarget>, selected: Seq<usize>, root: FolderView, n: int)
    requires
        fits(root),
        0 <= n <= selected.len(),
        !plan_upto(rows, selected, root, n).folders.contains(0),
    ensures
        ({
            let p = plan_upto(rows, selected, root, n);
            let t = folders_below(root, p.folders, p.folders.len() as int, 0);
            let u = files_below(root, p.files, p.files.len() as int, 0);
            &&& p.bytes == wrap(t.0 + u.0)
            &&& p.n_files == wrap(t.1 + u.1)
            &&& p.n_folders == wrap(t.2 + u.2)
        }),
    decreases n,
{
    let q = plan_upto(rows, selected, root, n);
    if n == 0 {
        law_wrap_fits(0);
    } else {
        let p = plan_upto(rows, selected, root, n - 1);
        assert(!p.folders.contains(0)) by {
            if p.folders.contains(0) {
                let i = choose|i: int| 0 <= i < p.folders.len() && p.folders[i] == 0;
                assert(q.folders[i] == 0);
            }
        }
        lemma_announced(rows, selected, root, n - 1);
        let t = folders_below(root, p.folders, p.folders.len() as int, 0);
        let u = files_below(root, p.files, p.files.len() as int, 0);
        if has_place(rows, selected, root, n - 1) {
            match row_of(rows, selected, n - 1) {
                RowTarget::Folder(id) => {
                    if is_deletable(root, id as int) {
                        let f = folder_numbered(root, 0, id as int);
                        let k = p.folders.len() as int;
                        lemma_same_folders_below(root, p.folders, q.folders, k, 0);
                        assert(q.folders[k] == id);
                        law_wrap_absorbs(t.0 + u.0, f.size);
                        law_wrap_absorbs(t.1 + u.1, f.file_count);
                        law_wrap_absorbs(t.2 + u.2, f.folder_count + 1);
                    }
                },
                RowTarget::File(at) => {
                    let f = folder_numbered(root, 0, at.folder as int);
                    if has_folder(root, 0, at.folder as int) && at.index < f.files.len() {
                        let k = p.files.len() as int;
                        lemma_fits_at(root, 0, at.folder as int);
                        assert(is_i64(f.files[at.index as int].size));
                        lemma_same_files_below(root, p.files, q.files, k, 0);
                        assert(q.files[k].0 == at);
                        law_wrap_absorbs(t.0 + u.0, f.files[at.index as int].size);
                        law_wrap_absorbs(t.1 + u.1, 1);
                    }
                },
            }
        }
    }
}

proof fn lemma_same_folders_below(
    root: FolderView,
    a: Seq<usize>,
    b: Seq<usize>,
    n: int,
    x: int,
)
    requires
        n <= a.len(),
        n <= b.len(),
        forall|i: int| 0 <= i < n ==> a[i] == b[i],
    ensures
        folders_below(root, a, n, x) == folders_below(root, b, n, x),
    decreases n,
{
    if n > 0 {
        lemma_same_folders_below(root, a, b, n - 1, x);
    }
}

proof fn lemma_same_files_below(
    root: FolderView,
    a: Seq<(FileRef, i64)>,
    b: Seq<(FileRef, i64)>,
    n: int,
    x: int,
)
    requires
        n <= a.len(),
        n <= b.len(),
        forall|i: int| 0 <= i < n ==> a[i] == b[i],
    ensures
        files_below(root, a, n, x) == files_below(root, b, n, x),
    decreases n,
{
    if n > 0 {
        lemma_same_files_below(root, a, b, n - 1, x);
    }
}

/// What is announced is freed: carrying out a plan takes out of the totals of the top
/// exactly the bytes, files and folders that the plan counts. The top itself, which
/// nothing lies above, must not be in the plan.
pub proof fn law_frees_what_it_announces(
    rows: Seq<RowTarget>,
    selected: Seq<usize>,
    s: TreeState,
)
    requires
        fits(s.root),
        folders_of(s.root) <= usize::MAX,
        !plan_upto(rows, selected, s.root, selected.len() as int).folders.contains(0),
    ensures
        ({
            let p = plan_upto(rows, selected, s.root, selected.len() as int);
            totals(carried_out(s, p).root) == totals_without(
                s.root,
                (p.bytes, p.n_files, p.n_folders),
            )
        }),
{
    let n = selected.len() as int;
    let p = plan_upto(rows, selected, s.root, n);
    let t = folders_below(s.root, p.folders, p.folders.len() as int, 0);
    let u = files_below(s.root, p.files, p.files.len() as int, 0);
    law_totals_lose_what_is_below(rows, selected, s, 0);
    lemma_announced(rows, selected, s.root, n);
    law_wrap_absorbs(t.0 + u.0, s.root.size);
    law_wrap_absorbs(t.1 + u.1, s.root.file_count);
    law_wrap_absorbs(t.2 + u.2, s.root.folder_count);
}

/// The number that a row is ordered by: what covers a row comes before it.
pub open spec fn order_of(t: RowTarget) -> nat {
    match t {
        RowTarget::Folder(x) => x as nat,
        RowTarget::File(at) => at.folder as nat + 1,
    }
}

/// Nothing that is selected is left out: every selected row has a place of its own in
/// the plan, or is the same as one that has, or lies in a folder that has.
pub proof fn law_whole_selection_planned(
    rows: Seq<RowTarget>,
    selected: Seq<usize>,
    root: FolderView,
    i: int,
)
    requires
        is_selected(rows, selected, i),
    ensures
        exists|k: int| #[trigger]
            has_place(rows, selected, root, k) && {
                ||| row_of(rows, selected, k) == row_of(rows, selected, i)
                ||| covers(root, row_of(rows, selected, k), row_of(rows, selected, i))
            },
    decreases order_of(row_of(rows, selected, i)), i,
{
    if !is_passed_over(rows, selected, root, i) {
        assert(has_place(rows, selected, root, i));
    } else {
        let me = row_of(rows, selected, i);
        let j = choose|j: int| #[trigger]
            is_selected(rows, selected, j) && {
                ||| covers(root, rows[selected[j] as int], rows[selected[i] as int])
                ||| j < i && rows[selected[j] as int] == rows[selected[i] as int]
            };
        let other = row_of(rows, selected, j);
        law_whole_selection_planned(rows, selected, root, j);
        let k = choose|k: int| #[trigger]
            has_place(rows, selected, root, k) && {
                ||| row_of(rows, selected, k) == other
                ||| covers(root, row_of(rows, selected, k), other)
            };
        if covers(root, other, me) && covers(root, row_of(rows, selected, k), other) {
            let x = row_of(rows, selected, k)->Folder_0 as int;
            let y = other->Folder_0 as int;
            let z = match me {
                RowTarget::Folder(z) => z as int,
                RowTarget::File(at) => at.folder as int,
            };
            lemma_lies_in_transitive(root, x, y, z);
        }
    }
}

} // verus!
