//! Moving folders and files to the Recycle Bin: what a selection amounts to, and
//! what the tree looks like once it is gone.

use crate::analysis::FileHit;
use crate::format::{bytes_text, count_text, format_bytes, format_count, Units};
use crate::numbering::{
    collect_folder_ids, count_folders, folder_numbered, folders_of, has_folder, ids_from,
    lemma_less_keeps_count, less_along, node_numbered, subtract_along_ancestors,
};
use crate::path::{byte_len, join_path, joined};
use crate::rows::{is_file_deleted, BuiltRow, FileRef, Marks, RowTarget};
use crate::text::texts;
use crate::types::{FolderNode, FolderView};
use crate::wrap::{wrap, wrapping_sum};
use std::collections::HashSet;
use vstd::prelude::*;

verus! {

broadcast use vstd::std_specs::hash::group_hash_axioms;

/// A scanned tree that things are deleted from.
pub struct ScanTree {
    pub root: FolderNode,
    pub marks: Marks,
    /// Changes with every deletion, so that what was made of the tree before is
    /// known to be out of date.
    pub version: u64,
}

/// What a folder adds to the totals of the folders above it.
pub open spec fn share_of(f: FolderView) -> (i64, i64, i64) {
    (f.size as i64, f.file_count as i64, wrap(f.folder_count + 1) as i64)
}

/// The numbers of a folder and everything below it.
pub open spec fn subtree_ids(f: FolderView, id: usize) -> Set<usize> {
    Set::new(|x: usize| has_folder(folder_numbered(f, 0, id as int), id as int, x as int))
}

/// The number of the next version.
pub open spec fn next_version(v: u64) -> u64 {
    if v == u64::MAX {
        0
    } else {
        (v + 1) as u64
    }
}

impl ScanTree {
    /// A tree of which nothing is opened or deleted.
    pub fn new(root: FolderNode) -> (r: Self)
        ensures
            r.root == root,
            r.marks@.expanded == Set::<usize>::empty(),
            r.marks@.deleted_nodes == Set::<usize>::empty(),
            r.marks@.deleted_files == Seq::<FileRef>::empty(),
            r.version == 0,
    {
        ScanTree { root, marks: Marks::new(), version: 0 }
    }

    /// Whether the tree's folders can be numbered.
    pub open spec fn is_numbered(&self) -> bool {
        folders_of(self.root@) <= usize::MAX
    }

    /// What was made of the tree before is out of date.
    pub fn touch(&mut self)
        ensures
            final(self).root == old(self).root,
            final(self).marks == old(self).marks,
            final(self).version == next_version(old(self).version),
    {
        self.version = self.version.wrapping_add(1);
    }

    /// Takes a deleted item's share out of the totals of the folders above it.
    pub fn adjust_ancestors(&mut self, folder: usize, d: (i64, i64, i64), include_self: bool)
        requires
            old(self).is_numbered(),
        ensures
            final(self).is_numbered(),
            final(self).root@ == less_along(
                old(self).root@,
                0,
                folder as int,
                d,
                include_self,
            ),
            final(self).marks == old(self).marks,
            final(self).version == old(self).version,
    {
        subtract_along_ancestors(&mut self.root, folder, d, include_self);
    }

    /// Deletes a folder with everything below it. Nothing happens where there is no
    /// such folder.
    pub fn delete_folder_node(&mut self, id: usize)
        requires
            old(self).is_numbered(),
        ensures
            final(self).is_numbered(),
            final(self).marks@.expanded == old(self).marks@.expanded,
            final(self).marks@.deleted_files == old(self).marks@.deleted_files,
            has_folder(old(self).root@, 0, id as int) ==> {
                &&& final(self).root@ == less_along(
                    old(self).root@,
                    0,
                    id as int,
                    share_of(folder_numbered(old(self).root@, 0, id as int)),
                    false,
                )
                &&& final(self).marks@.deleted_nodes == old(self).marks@.deleted_nodes.union(
                    subtree_ids(old(self).root@, id),
                )
                &&& final(self).version == next_version(old(self).version)
            },
            !has_folder(old(self).root@, 0, id as int) ==> *final(self) == *old(self),
    {
        let mut ids: Vec<usize> = Vec::new();
        let d: (i64, i64, i64) = match node_numbered(&self.root, id) {
            None => {
                return ;
            },
            Some(node) => {
                collect_folder_ids(node, id, &mut ids);
                (node.size, node.file_count, wrapping_sum(node.folder_count, 1))
            },
        };
        let ghost f = folder_numbered(self.root@, 0, id as int);
        let ghost before = self.marks@.deleted_nodes;
        assert(ids@ =~= ids_from(id as int, folders_of(f)));
        self.adjust_ancestors(id, d, false);
        let mut i: usize = 0;
        while i < ids.len()
            invariant
                i <= ids.len(),
                self.marks@.expanded == old(self).marks@.expanded,
                self.marks@.deleted_files == old(self).marks@.deleted_files,
                self.root@ == less_along(old(self).root@, 0, id as int, d, false),
                self.is_numbered(),
                self.version == old(self).version,
                forall|x: usize|
                    #![trigger self.marks@.deleted_nodes.contains(x)]
                    self.marks@.deleted_nodes.contains(x) <==> before.contains(x)
                        || ids@.take(i as int).contains(x),
            decreases ids.len() - i,
        {
            let x: usize = ids[i];
            let ghost sofar = self.marks@.deleted_nodes;
            let ghost (a, b) = (ids@.take(i as int), ids@.take(i + 1));
            self.marks.deleted_nodes.insert(x);
            assert(b =~= a.push(x));
            assert forall|y: usize|
                #![trigger self.marks@.deleted_nodes.contains(y)]
                self.marks@.deleted_nodes.contains(y) <==> before.contains(y) || b.contains(y) by {
                assert(self.marks@.deleted_nodes.contains(y) <==> sofar.contains(y) || y == x);
                if a.contains(y) {
                    let j = choose|j: int| 0 <= j < a.len() && a[j] == y;
                    assert(b[j] == y);
                }
                if y == x {
                    assert(b[i as int] == y);
                }
                if b.contains(y) && y != x {
                    let j = choose|j: int| 0 <= j < b.len() && b[j] == y;
                    assert(a[j] == y);
                }
            }
            i += 1;
        }
        proof {
            assert(ids@.take(ids.len() as int) =~= ids@);
            let gone = subtree_ids(old(self).root@, id);
            assert forall|x: usize|
                self.marks@.deleted_nodes.contains(x) <==> before.union(gone).contains(x) by {
                if gone.contains(x) {
                    assert(ids@[x - id] == x);
                    assert(ids@.contains(x));
                }
                if ids@.contains(x) {
                    let j = choose|j: int| 0 <= j < ids@.len() && ids@[j] == x;
                    assert(x == id + j);
                }
            }
            assert(self.marks@.deleted_nodes =~= before.union(gone));
        }
        self.touch();
    }

    /// Deletes a single file of `size` bytes. The totals of its folder and of the
    /// folders above lose it; the folder's own size and list stay as they are.
    pub fn delete_file(&mut self, at: FileRef, size: i64)
        requires
            old(self).is_numbered(),
        ensures
            final(self).is_numbered(),
            final(self).root@ == less_along(
                old(self).root@,
                0,
                at.folder as int,
                (size, 1, 0),
                true,
            ),
            final(self).marks@.deleted_files == old(self).marks@.deleted_files.push(at),
            final(self).marks@.deleted_nodes == old(self).marks@.deleted_nodes,
            final(self).marks@.expanded == old(self).marks@.expanded,
            final(self).version == old(self).version,
    {
        self.marks.deleted_files.push(at);
        self.adjust_ancestors(at.folder, (size, 1, 0), true);
    }

    /// Opens a folder in place, or closes it again.
    pub fn toggle_expand(&mut self, id: usize)
        ensures
            final(self).root == old(self).root,
            final(self).version == old(self).version,
            final(self).marks@.deleted_nodes == old(self).marks@.deleted_nodes,
            final(self).marks@.deleted_files == old(self).marks@.deleted_files,
            final(self).marks@.expanded == toggled(old(self).marks@.expanded, id),
    {
        self.marks.toggle(id);
    }
}

impl Marks {
    /// No folder is opened, and nothing is deleted.
    pub fn new() -> (r: Self)
        ensures
            r@.expanded == Set::<usize>::empty(),
            r@.deleted_nodes == Set::<usize>::empty(),
            r@.deleted_files == Seq::<FileRef>::empty(),
    {
        let r = Marks {
            expanded: HashSet::new(),
            deleted_nodes: HashSet::new(),
            deleted_files: Vec::new(),
        };
        assert(r@.deleted_files =~= Seq::empty());
        r
    }

    /// Opens a folder in place, or closes it again.
    pub fn toggle(&mut self, id: usize)
        ensures
            final(self)@.deleted_nodes == old(self)@.deleted_nodes,
            final(self)@.deleted_files == old(self)@.deleted_files,
            final(self)@.expanded == toggled(old(self)@.expanded, id),
    {
        if !self.expanded.remove(&id) {
            self.expanded.insert(id);
        }
        assert(self@.expanded =~= toggled(old(self)@.expanded, id));
    }
}

/// `s` with `x` taken out if it is there, or put in if it is not.
pub open spec fn toggled(s: Set<usize>, x: usize) -> Set<usize> {
    if s.contains(x) {
        s.remove(x)
    } else {
        s.insert(x)
    }
}

/// Toggling twice changes nothing.
pub proof fn law_toggle_twice(s: Set<usize>, x: usize)
    ensures
        toggled(toggled(s, x), x) == s,
{
    assert(toggled(toggled(s, x), x) =~= s);
}

// ------------------------------------------------------------------ selections

/// What a selection amounts to.
#[derive(Debug)]
pub struct DeletePlan {
    pub paths: Vec<String>,
    /// The folders to delete, by number.
    pub folders: Vec<usize>,
    /// The files to delete, with their sizes.
    pub files: Vec<(FileRef, i64)>,
    pub n_folders: i64,
    pub n_files: i64,
    pub bytes: i64,
}

pub struct PlanView {
    pub paths: Seq<Seq<char>>,
    pub folders: Seq<usize>,
    pub files: Seq<(FileRef, i64)>,
    pub n_folders: int,
    pub n_files: int,
    pub bytes: int,
}

impl View for DeletePlan {
    type V = PlanView;

    open spec fn view(&self) -> PlanView {
        PlanView {
            paths: texts(self.paths@),
            folders: self.folders@,
            files: self.files@,
            n_folders: self.n_folders as int,
            n_files: self.n_files as int,
            bytes: self.bytes as int,
        }
    }
}

pub open spec fn empty_plan() -> PlanView {
    PlanView {
        paths: Seq::empty(),
        folders: Seq::empty(),
        files: Seq::empty(),
        n_folders: 0,
        n_files: 0,
        bytes: 0,
    }
}

/// Whether a folder may be deleted: not a drive root, nor the folder above all drives,
/// whose paths have at most three bytes.
pub open spec fn is_deletable(root: FolderView, id: int) -> bool {
    has_folder(root, 0, id) && byte_len(folder_numbered(root, 0, id).full_path) > 3
}

/// Whether the folder `y` is the folder `x` or lies below it.
pub open spec fn lies_in(root: FolderView, x: int, y: int) -> bool {
    has_folder(root, 0, x) && has_folder(folder_numbered(root, 0, x), x, y)
}

/// Whether `u` goes along when `t` is deleted: it lies in that folder.
pub open spec fn covers(root: FolderView, t: RowTarget, u: RowTarget) -> bool {
    match t {
        RowTarget::Folder(x) => is_deletable(root, x as int) && match u {
            RowTarget::Folder(y) => x != y && lies_in(root, x as int, y as int),
            RowTarget::File(at) => lies_in(root, x as int, at.folder as int),
        },
        RowTarget::File(_) => false,
    }
}

/// Whether the `j`th selected row is there.
pub open spec fn is_selected(rows: Seq<RowTarget>, selected: Seq<usize>, j: int) -> bool {
    0 <= j < selected.len() && selected[j] < rows.len()
}

/// Whether the `i`th selected row needs no deletion of its own: it lies in another
/// folder that is selected, or it was selected before.
pub open spec fn is_passed_over(
    rows: Seq<RowTarget>,
    selected: Seq<usize>,
    root: FolderView,
    i: int,
) -> bool {
    exists|j: int| #[trigger]
        is_selected(rows, selected, j) && {
            ||| covers(root, rows[selected[j] as int], rows[selected[i] as int])
            ||| j < i && rows[selected[j] as int] == rows[selected[i] as int]
        }
}

/// `p` with one more row to delete.
pub open spec fn planned(p: PlanView, target: RowTarget, root: FolderView) -> PlanView {
    match target {
        RowTarget::Folder(id) => {
            let f = folder_numbered(root, 0, id as int);
            if !is_deletable(root, id as int) {
                p
            } else {
                PlanView {
                    paths: p.paths.push(f.full_path),
                    folders: p.folders.push(id),
                    n_folders: wrap(p.n_folders + f.folder_count + 1),
                    n_files: wrap(p.n_files + f.file_count),
                    bytes: wrap(p.bytes + f.size),
                    ..p
                }
            }
        },
        RowTarget::File(at) => {
            let f = folder_numbered(root, 0, at.folder as int);
            if !has_folder(root, 0, at.folder as int) || at.index >= f.files.len() {
                p
            } else {
                let x = f.files[at.index as int];
                PlanView {
                    paths: p.paths.push(joined(f.full_path, x.name)),
                    files: p.files.push((at, x.size as i64)),
                    n_files: wrap(p.n_files + 1),
                    bytes: wrap(p.bytes + x.size),
                    ..p
                }
            }
        },
    }
}

/// The plan for the first `n` of the selected rows; a row that is not there, or that
/// goes along with another, is passed over.
pub open spec fn plan_upto(
    rows: Seq<RowTarget>,
    selected: Seq<usize>,
    root: FolderView,
    n: int,
) -> PlanView
    decreases n,
{
    if n <= 0 {
        empty_plan()
    } else {
        let p = plan_upto(rows, selected, root, n - 1);
        if is_selected(rows, selected, n - 1) && !is_passed_over(rows, selected, root, n - 1) {
            planned(p, rows[selected[n - 1] as int], root)
        } else {
            p
        }
    }
}

/// What the rows of a list stand for.
pub open spec fn targets(rows: Seq<BuiltRow>) -> Seq<RowTarget> {
    rows.map_values(|r: BuiltRow| r.target)
}

fn plan_row(p: &mut DeletePlan, target: RowTarget, root: &FolderNode)
    requires
        folders_of(root@) <= usize::MAX,
    ensures
        final(p)@ == planned(old(p)@, target, root@),
{
    let ghost before = p@;
    match target {
        RowTarget::Folder(id) => {
            if let Some(f) = node_numbered(root, id) {
                if f.full_path.as_str().as_bytes().len() <= 3 {
                    return;
                }
                p.paths.push(f.full_path.clone());
                p.folders.push(id);
                proof {
                    crate::wrap::law_wrap_absorbs(f.folder_count + 1, before.n_folders);
                }
                p.n_folders = wrapping_sum(p.n_folders, wrapping_sum(f.folder_count, 1));
                p.n_files = wrapping_sum(p.n_files, f.file_count);
                p.bytes = wrapping_sum(p.bytes, f.size);
                assert(p@.paths =~= before.paths.push(f@.full_path));
            }
        },
        RowTarget::File(at) => {
            if let Some(f) = node_numbered(root, at.folder) {
                if at.index < f.files.len() {
                    let x = &f.files[at.index];
                    assert(f@.files[at.index as int] == x@);
                    let path = join_path(f.full_path.as_str(), x.name.as_str());
                    p.paths.push(path);
                    p.files.push((at, x.size));
                    p.n_files = wrapping_sum(p.n_files, 1);
                    p.bytes = wrapping_sum(p.bytes, x.size);
                    assert(p@.paths =~= before.paths.push(path@));
                }
            }
        },
    }
}

/// How many folders go along when a selected row is deleted, itself among them; none
/// where that row is no folder that may be deleted.
spec fn reach_of(rows: Seq<RowTarget>, selected: Seq<usize>, root: FolderView, j: int) -> int {
    if !is_selected(rows, selected, j) {
        0
    } else {
        match rows[selected[j] as int] {
            RowTarget::Folder(x) => if is_deletable(root, x as int) {
                folders_of(folder_numbered(root, 0, x as int)) as int
            } else {
                0
            },
            RowTarget::File(_) => 0,
        }
    }
}

fn reaches(rows: &Vec<BuiltRow>, selected: &Vec<usize>, root: &FolderNode) -> (r: Vec<usize>)
    requires
        folders_of(root@) <= usize::MAX,
    ensures
        r.len() == selected.len(),
        forall|j: int|
            0 <= j < r.len() ==> #[trigger] r@[j] == reach_of(
                targets(rows@),
                selected@,
                root@,
                j,
            ),
{
    let mut out: Vec<usize> = Vec::new();
    let mut j: usize = 0;
    while j < selected.len()
        invariant
            j <= selected.len(),
            folders_of(root@) <= usize::MAX,
            out.len() == j,
            forall|k: int|
                0 <= k < j ==> #[trigger] out@[k] == reach_of(
                    targets(rows@),
                    selected@,
                    root@,
                    k,
                ),
        decreases selected.len() - j,
    {
        let mut n: usize = 0;
        if selected[j] < rows.len() {
            let row = &rows[selected[j]];
            assert(targets(rows@)[selected@[j as int] as int] == row.target);
            if let RowTarget::Folder(x) = row.target {
                if let Some(f) = node_numbered(root, x) {
                    if f.full_path.as_str().as_bytes().len() > 3 {
                        n = count_folders(f);
                    }
                }
            }
        }
        out.push(n);
        j += 1;
    }
    out
}

/// Whether the folder `x`, with `n` folders in all, takes `u` along.
fn takes_along(x: usize, n: usize, u: RowTarget) -> (r: bool)
    ensures
        r == match u {
            RowTarget::Folder(y) => x < y && y < x + n,
            RowTarget::File(at) => x <= at.folder && at.folder < x + n,
        },
{
    match u {
        RowTarget::Folder(y) => x < y && y - x < n,
        RowTarget::File(at) => x <= at.folder && at.folder - x < n,
    }
}

fn passed_over(
    rows: &Vec<BuiltRow>,
    selected: &Vec<usize>,
    reach: &Vec<usize>,
    i: usize,
    Ghost(root): Ghost<FolderView>,
) -> (r: bool)
    requires
        is_selected(targets(rows@), selected@, i as int),
        reach.len() == selected.len(),
        forall|j: int|
            0 <= j < reach.len() ==> #[trigger] reach@[j] == reach_of(
                targets(rows@),
                selected@,
                root,
                j,
            ),
    ensures
        r == is_passed_over(targets(rows@), selected@, root, i as int),
{
    let ghost ts = targets(rows@);
    let me: RowTarget = rows[selected[i]].target;
    assert(ts[selected@[i as int] as int] == me);
    let mut j: usize = 0;
    while j < selected.len()
        invariant
            j <= selected.len(),
            ts == targets(rows@),
            ts[selected@[i as int] as int] == me,
            reach.len() == selected.len(),
            forall|k: int|
                0 <= k < reach.len() ==> #[trigger] reach@[k] == reach_of(ts, selected@, root, k),
            forall|k: int|
                0 <= k < j && #[trigger] is_selected(ts, selected@, k) ==> !covers(
                    root,
                    ts[selected@[k] as int],
                    me,
                ) && !(k < i && ts[selected@[k] as int] == me),
        decreases selected.len() - j,
    {
        if selected[j] < rows.len() {
            let other: RowTarget = rows[selected[j]].target;
            assert(ts[selected@[j as int] as int] == other);
            assert(is_selected(ts, selected@, j as int));
            assert(reach@[j as int] == reach_of(ts, selected@, root, j as int));
            let along = match other {
                RowTarget::Folder(x) => takes_along(x, reach[j], me),
                RowTarget::File(_) => false,
            };
            assert(along == covers(root, other, me));
            if along || (j < i && other == me) {
                return true;
            }
        }
        j += 1;
    }
    assert(!is_passed_over(ts, selected@, root, i as int));
    false
}

/// Works out what deleting the selected rows of a list amounts to. What lies in a
/// folder that is selected too goes along with it, and is counted once.
pub fn plan_deletion(rows: &Vec<BuiltRow>, selected: &Vec<usize>, root: &FolderNode) -> (p:
    DeletePlan)
    requires
        folders_of(root@) <= usize::MAX,
    ensures
        p@ == plan_upto(targets(rows@), selected@, root@, selected.len() as int),
{
    let mut p = DeletePlan {
        paths: Vec::new(),
        folders: Vec::new(),
        files: Vec::new(),
        n_folders: 0,
        n_files: 0,
        bytes: 0,
    };
    proof {
        assert(p@.paths =~= Seq::empty());
        assert(p@.folders =~= Seq::empty());
        assert(p@.files =~= Seq::empty());
    }
    let reach = reaches(rows, selected, root);
    let mut i: usize = 0;
    while i < selected.len()
        invariant
            i <= selected.len(),
            folders_of(root@) <= usize::MAX,
            reach.len() == selected.len(),
            forall|j: int|
                0 <= j < reach.len() ==> #[trigger] reach@[j] == reach_of(
                    targets(rows@),
                    selected@,
                    root@,
                    j,
                ),
            p@ == plan_upto(targets(rows@), selected@, root@, i as int),
        decreases selected.len() - i,
    {
        if selected[i] < rows.len() {
            assert(targets(rows@)[selected@[i as int] as int] == rows@[selected@[i as int] as int].target);
            assert(is_selected(targets(rows@), selected@, i as int));
            if !passed_over(rows, selected, &reach, i, Ghost(root@)) {
                plan_row(&mut p, rows[selected[i]].target, root);
            }
        }
        i += 1;
    }
    p
}

/// "s" but for one.
pub open spec fn plural(n: int) -> Seq<char> {
    if n == 1 {
        ""@
    } else {
        "s"@
    }
}

/// What is asked before a plan is carried out.
pub open spec fn prompt_text(p: PlanView, base: int) -> Seq<char> {
    "Move the selected item"@ + plural(p.paths.len() as int)
        + " to the Recycle Bin?\n\n\u{2022} "@ + count_text(p.n_folders) + " folder"@ + plural(
        p.n_folders,
    ) + "\n\u{2022} "@ + count_text(p.n_files) + " file"@ + plural(p.n_files) + "\n\u{2022} "@
        + bytes_text(p.bytes, base) + " freed"@
}

fn push_plural(out: &mut String, n: i64)
    ensures
        final(out)@ == old(out)@ + plural(n as int),
{
    if n == 1 {
        out.append("");
    } else {
        out.append("s");
    }
}

/// Asks whether to go on, showing how many folders, files and bytes will go. `None`
/// where there is nothing to delete.
pub fn delete_prompt(p: &DeletePlan, units: &Units) -> (r: Option<String>)
    ensures
        r is None <==> p@.paths.len() == 0,
        r is Some ==> r->0@ == prompt_text(p@, units.step()),
{
    if p.paths.len() == 0 {
        return None;
    }
    let mut r = "Move the selected item".to_owned();
    push_plural(
        &mut r,
        if p.paths.len() == 1 {
            1
        } else {
            2
        },
    );
    r.append(" to the Recycle Bin?\n\n\u{2022} ");
    r.append(format_count(p.n_folders).as_str());
    r.append(" folder");
    push_plural(&mut r, p.n_folders);
    r.append("\n\u{2022} ");
    r.append(format_count(p.n_files).as_str());
    r.append(" file");
    push_plural(&mut r, p.n_files);
    r.append("\n\u{2022} ");
    r.append(format_bytes(p.bytes, units).as_str());
    r.append(" freed");
    Some(r)
}

/// The state of a tree that deletions bring about.
pub struct TreeState {
    pub root: FolderView,
    pub deleted_nodes: Set<usize>,
    pub deleted_files: Seq<FileRef>,
}

pub open spec fn state_of(t: ScanTree) -> TreeState {
    TreeState {
        root: t.root@,
        deleted_nodes: t.marks@.deleted_nodes,
        deleted_files: t.marks@.deleted_files,
    }
}

/// The tree once the first `n` of `ids` are deleted, one after the other.
pub open spec fn without_folders(s: TreeState, ids: Seq<usize>, n: int) -> TreeState
    decreases n,
{
    if n <= 0 {
        s
    } else {
        let t = without_folders(s, ids, n - 1);
        let id = ids[n - 1];
        if has_folder(t.root, 0, id as int) {
            TreeState {
                root: less_along(
                    t.root,
                    0,
                    id as int,
                    share_of(folder_numbered(t.root, 0, id as int)),
                    false,
                ),
                deleted_nodes: t.deleted_nodes.union(subtree_ids(t.root, id)),
                ..t
            }
        } else {
            t
        }
    }
}

/// The tree once the first `n` of `files` are deleted, one after the other.
pub open spec fn without_files(s: TreeState, files: Seq<(FileRef, i64)>, n: int) -> TreeState
    decreases n,
{
    if n <= 0 {
        s
    } else {
        let t = without_files(s, files, n - 1);
        let (at, size) = files[n - 1];
        TreeState {
            root: less_along(t.root, 0, at.folder as int, (size, 1i64, 0i64), true),
            deleted_files: t.deleted_files.push(at),
            ..t
        }
    }
}

/// The version once the first `n` of `ids` are deleted: it changes with each of them
/// that is there.
pub open spec fn version_without(v: u64, root: FolderView, ids: Seq<usize>, n: int) -> u64
    decreases n,
{
    if n <= 0 {
        v
    } else if has_folder(root, 0, ids[n - 1] as int) {
        next_version(version_without(v, root, ids, n - 1))
    } else {
        version_without(v, root, ids, n - 1)
    }
}

impl ScanTree {
    /// Carries out a plan: first its folders, then its files.
    pub fn delete_selected(&mut self, plan: &DeletePlan)
        requires
            old(self).is_numbered(),
        ensures
            final(self).is_numbered(),
            final(self).marks@.expanded == old(self).marks@.expanded,
            final(self).version == next_version(
                version_without(
                    old(self).version,
                    old(self).root@,
                    plan@.folders,
                    plan@.folders.len() as int,
                ),
            ),
            state_of(*final(self)) == without_files(
                without_folders(
                    state_of(*old(self)),
                    plan@.folders,
                    plan@.folders.len() as int,
                ),
                plan@.files,
                plan@.files.len() as int,
            ),
    {
        let ghost s0 = state_of(*self);
        let mut i: usize = 0;
        while i < plan.folders.len()
            invariant
                i <= plan.folders.len(),
                self.is_numbered(),
                s0 == state_of(*old(self)),
                self.marks@.expanded == old(self).marks@.expanded,
                state_of(*self) == without_folders(s0, plan@.folders, i as int),
                folders_of(self.root@) == folders_of(old(self).root@),
                self.version == version_without(
                    old(self).version,
                    old(self).root@,
                    plan@.folders,
                    i as int,
                ),
            decreases plan.folders.len() - i,
        {
            proof {
                let f = self.root@;
                let id = plan@.folders[i as int] as int;
                lemma_less_keeps_count(f, 0, id, share_of(folder_numbered(f, 0, id)), false);
            }
            self.delete_folder_node(plan.folders[i]);
            i += 1;
        }
        let ghost s1 = state_of(*self);
        let ghost v1 = self.version;
        let mut j: usize = 0;
        while j < plan.files.len()
            invariant
                j <= plan.files.len(),
                self.version == v1,
                self.is_numbered(),
                self.marks@.expanded == old(self).marks@.expanded,
                state_of(*self) == without_files(s1, plan@.files, j as int),
            decreases plan.files.len() - j,
        {
            let (at, size) = plan.files[j];
            self.delete_file(at, size);
            j += 1;
        }
        self.touch();
    }
}

// ---------------------------------------------------------------- the side list

/// One row of a list of single files.
#[derive(Debug)]
pub struct SideRow {
    pub name: String,
    pub size_text: String,
    pub modified_ft: i64,
    pub path: String,
    pub at: FileRef,
    pub size: i64,
}

/// Whether `r` shows the file `h`.
pub open spec fn shows(r: SideRow, h: FileHit<'_>, base: int) -> bool {
    &&& r.name@ == h.file.name@
    &&& r.size_text@ == bytes_text(h.file.size as int, base)
    &&& r.modified_ft == h.file.last_modified_ft
    &&& r.path@ == joined(h.folder.full_path@, h.file.name@)
    &&& r.at == (FileRef { folder: h.folder_id, index: h.file_index })
    &&& r.size == h.file.size
}

/// Whether neither a file nor its folder is deleted.
pub open spec fn is_shown(h: FileHit<'_>, m: crate::rows::MarksView) -> bool {
    !m.deleted_nodes.contains(h.folder_id) && !m.deleted_files.contains(
        FileRef { folder: h.folder_id, index: h.file_index },
    )
}

/// The places below `n` of the files that are shown.
pub open spec fn shown_below(hits: Seq<FileHit<'_>>, m: crate::rows::MarksView, n: int) -> Seq<int>
    decreases n,
{
    if n <= 0 {
        Seq::empty()
    } else if is_shown(hits[n - 1], m) {
        shown_below(hits, m, n - 1).push(n - 1)
    } else {
        shown_below(hits, m, n - 1)
    }
}

/// Makes rows of files that were found, leaving out what is deleted.
pub fn side_rows(hits: &Vec<FileHit<'_>>, marks: &Marks, units: &Units) -> (r: Vec<SideRow>)
    ensures
        r.len() == shown_below(hits@, marks@, hits.len() as int).len(),
        forall|i: int|
            0 <= i < r.len() ==> shows(
                #[trigger] r@[i],
                hits@[shown_below(hits@, marks@, hits.len() as int)[i]],
                units.step(),
            ),
{
    let mut out: Vec<SideRow> = Vec::new();
    let mut i: usize = 0;
    while i < hits.len()
        invariant
            i <= hits.len(),
            out.len() == shown_below(hits@, marks@, i as int).len(),
            forall|k: int|
                0 <= k < out.len() ==> shows(
                    #[trigger] out@[k],
                    hits@[shown_below(hits@, marks@, i as int)[k]],
                    units.step(),
                ),
        decreases hits.len() - i,
    {
        let h = &hits[i];
        let at = FileRef { folder: h.folder_id, index: h.file_index };
        if !marks.deleted_nodes.contains(&h.folder_id) && !is_file_deleted(
            &marks.deleted_files,
            at,
        ) {
            out.push(
                SideRow {
                    name: h.file.name.clone(),
                    size_text: format_bytes(h.file.size, units),
                    modified_ft: h.file.last_modified_ft,
                    path: join_path(h.folder.full_path.as_str(), h.file.name.as_str()),
                    at,
                    size: h.file.size,
                },
            );
        }
        i += 1;
    }
    out
}

/// What the status bar says of a folder; the folder above all drives has no path.
pub open spec fn summary_of(f: FolderView, base: int) -> Seq<char> {
    (if f.full_path.len() == 0 {
        "All drives"@
    } else {
        f.name
    }) + " \u{2014} "@ + bytes_text(f.size, base) + " ("@ + count_text(f.file_count) + " files, "@
        + count_text(f.folder_count) + " folders)"@
}

pub fn folder_summary(node: &FolderNode, units: &Units) -> (r: String)
    ensures
        r@ == summary_of(node@, units.step()),
{
    let mut r = if node.full_path.as_str().is_empty() {
        "All drives".to_owned()
    } else {
        node.name.clone()
    };
    r.append(" \u{2014} ");
    r.append(format_bytes(node.size, units).as_str());
    r.append(" (");
    r.append(format_count(node.file_count).as_str());
    r.append(" files, ");
    r.append(format_count(node.folder_count).as_str());
    r.append(" folders)");
    r
}

// ---------------------------------------------------------------------- laws

/// The rows of a list of single files are those of the files that are not deleted, nor lie
/// in a folder that is, all of them and each once, in the order they were found in.
pub proof fn law_side_rows_are_what_is_left(hits: Seq<FileHit<'_>>, m: crate::rows::MarksView, n: int)
    requires
        0 <= n <= hits.len(),
    ensures
        ({
            let at = shown_below(hits, m, n);
            &&& forall|k: int|
                0 <= k < n ==> (#[trigger] at.contains(k) <==> !m.deleted_nodes.contains(
                    hits[k].folder_id,
                ) && !m.deleted_files.contains(
                    FileRef { folder: hits[k].folder_id, index: hits[k].file_index },
                ))
            &&& forall|i: int, j: int|
                0 <= i < j < at.len() ==> 0 <= #[trigger] at[i] < #[trigger] at[j] < n
            &&& forall|i: int| 0 <= i < at.len() ==> 0 <= #[trigger] at[i] < n
        }),
    decreases n,
{
    if n > 0 {
        law_side_rows_are_what_is_left(hits, m, n - 1);
        let before = shown_below(hits, m, n - 1);
        let now = shown_below(hits, m, n);
        assert forall|k: int| 0 <= k < n implies (#[trigger] now.contains(k)
            <==> !m.deleted_nodes.contains(hits[k].folder_id) && !m.deleted_files.contains(
            FileRef { folder: hits[k].folder_id, index: hits[k].file_index },
        )) by {
            if now.contains(k) {
                let i = choose|i: int| 0 <= i < now.len() && now[i] == k;
                if i < before.len() {
                    assert(before[i] == k);
                    assert(before.contains(k));
                }
            }
            if is_shown(hits[k], m) {
                if k < n - 1 {
                    assert(before.contains(k));
                    let i = choose|i: int| 0 <= i < before.len() && before[i] == k;
                    assert(now[i] == k);
                } else {
                    assert(now[before.len() as int] == k);
                }
            }
        }
    }
}

/// Whether `path` is that of the folder `id`, which is no drive: it has more than the
/// three bytes of `C:\\`.
pub open spec fn is_folder_path(root: FolderView, id: usize, path: Seq<char>) -> bool {
    has_folder(root, 0, id as int) && path == folder_numbered(root, 0, id as int).full_path
        && byte_len(path) > 3
}

/// Whether `path` is that of a file, and `size` its size.
pub open spec fn is_file_path(root: FolderView, at: FileRef, size: i64, path: Seq<char>) -> bool {
    let f = folder_numbered(root, 0, at.folder as int);
    &&& has_folder(root, 0, at.folder as int)
    &&& at.index < f.files.len()
    &&& path == joined(f.full_path, f.files[at.index as int].name)
    &&& size == f.files[at.index as int].size as i64
}

/// Whether the path of the folder `id` is among `paths`.
pub open spec fn has_folder_path(root: FolderView, id: usize, paths: Seq<Seq<char>>) -> bool {
    exists|k: int| 0 <= k < paths.len() && is_folder_path(root, id, #[trigger] paths[k])
}

/// Whether the path of the file `x` is among `paths`.
pub open spec fn has_file_path(root: FolderView, x: (FileRef, i64), paths: Seq<Seq<char>>) -> bool {
    exists|k: int| 0 <= k < paths.len() && is_file_path(root, x.0, x.1, #[trigger] paths[k])
}

/// What is recycled is what is planned: every folder and every file of a plan has its path
/// among those that go, there are no others, and no drive is among them.
pub proof fn law_plan_names_what_goes(
    rows: Seq<RowTarget>,
    selected: Seq<usize>,
    root: FolderView,
    n: int,
)
    ensures
        ({
            let p = plan_upto(rows, selected, root, n);
            &&& p.paths.len() == p.folders.len() + p.files.len()
            &&& forall|i: int|
                0 <= i < p.folders.len() ==> has_folder_path(root, #[trigger] p.folders[i], p.paths)
            &&& forall|i: int|
                0 <= i < p.files.len() ==> has_file_path(root, #[trigger] p.files[i], p.paths)
        }),
    decreases n,
{
    if n > 0 {
        law_plan_names_what_goes(rows, selected, root, n - 1);
        let p = plan_upto(rows, selected, root, n - 1);
        let q = plan_upto(rows, selected, root, n);
        assert forall|k: int| 0 <= k < p.paths.len() implies #[trigger] q.paths[k] == p.paths[k] by {
        }
        assert forall|i: int| 0 <= i < q.folders.len() implies has_folder_path(
            root,
            #[trigger] q.folders[i],
            q.paths,
        ) by {
            if i < p.folders.len() {
                assert(q.folders[i] == p.folders[i]);
                let k = choose|k: int|
                    0 <= k < p.paths.len() && is_folder_path(
                        root,
                        p.folders[i],
                        #[trigger] p.paths[k],
                    );
                assert(is_folder_path(root, q.folders[i], q.paths[k]));
            } else {
                let k = p.paths.len() as int;
                assert(is_folder_path(root, q.folders[i], q.paths[k]));
            }
        }
        assert forall|i: int| 0 <= i < q.files.len() implies has_file_path(
            root,
            #[trigger] q.files[i],
            q.paths,
        ) by {
            if i < p.files.len() {
                assert(q.files[i] == p.files[i]);
                let k = choose|k: int|
                    0 <= k < p.paths.len() && is_file_path(
                        root,
                        p.files[i].0,
                        p.files[i].1,
                        #[trigger] p.paths[k],
                    );
                assert(is_file_path(root, q.files[i].0, q.files[i].1, q.paths[k]));
            } else {
                let k = p.paths.len() as int;
                assert(is_file_path(root, q.files[i].0, q.files[i].1, q.paths[k]));
            }
        }
    }
}

/// A row of a list of single files tells of the file: its name and size, when it was
/// modified, its path behind that of its folder, and where it is found again.
pub proof fn law_side_row_tells_of_its_file(r: SideRow, h: FileHit<'_>, base: int)
    requires
        shows(r, h, base),
    ensures
        r.name@ == h.file.name@,
        r.size == h.file.size,
        r.size_text@ == bytes_text(h.file.size as int, base),
        r.modified_ft == h.file.last_modified_ft,
        r.at.folder == h.folder_id,
        r.at.index == h.file_index,
        h.folder.full_path@.len() > 0 && h.folder.full_path@.last() != '\\' ==> r.path@
            == h.folder.full_path@ + seq!['\\'] + h.file.name@,
        h.folder.full_path@.len() > 0 && h.folder.full_path@.last() == '\\' ==> r.path@
            == h.folder.full_path@ + h.file.name@,
{
    assert(h.folder.full_path@.push('\\') =~= h.folder.full_path@ + seq!['\\']);
}

} // verus!
