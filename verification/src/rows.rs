//! The main list: the current folder as rows, with folders opened in place.

use crate::format::{bytes_text, count_text, format_bytes, format_count, Units};
use crate::numbering::{
    child_id, count_folders, folders_of, lemma_before_monotonic, lemma_count_at_least,
};
use crate::search::{lowercase, to_lowercase};
use crate::sort::{
    is_order_of, is_permutation, key_views, law_order_is_permutation, law_order_unique, lemma_order_exists,
    sorted_order, KeyView, SortKey,
};
use crate::text::chars_of;
use crate::types::{FileEntry, FileView, FolderNode, FolderView};
use std::collections::HashSet;
use vstd::prelude::*;

verus! {

broadcast use vstd::std_specs::hash::group_hash_axioms;

/// A file of a tree: the number of its folder, and its place there.
#[derive(Copy, Clone, Debug, PartialEq, Eq, Structural)]
pub struct FileRef {
    pub folder: usize,
    pub index: usize,
}

/// What has happened to the folders and files of a tree, by number.
pub struct Marks {
    /// Folders that are opened in place.
    pub expanded: HashSet<usize>,
    pub deleted_nodes: HashSet<usize>,
    pub deleted_files: Vec<FileRef>,
}

pub struct MarksView {
    pub expanded: Set<usize>,
    pub deleted_nodes: Set<usize>,
    pub deleted_files: Seq<FileRef>,
}

impl View for Marks {
    type V = MarksView;

    open spec fn view(&self) -> MarksView {
        MarksView {
            expanded: self.expanded@,
            deleted_nodes: self.deleted_nodes@,
            deleted_files: self.deleted_files@,
        }
    }
}

/// How rows are sorted: by which column, and in which direction.
#[derive(Copy, Clone, Debug, PartialEq, Eq, Structural)]
pub struct SortBy {
    pub col: i32,
    pub desc: bool,
}

/// What a row stands for.
#[derive(Copy, Clone, Debug, PartialEq, Eq, Structural)]
pub enum RowTarget {
    /// The folder with that number.
    Folder(usize),
    File(FileRef),
}

/// How a row is drawn.
#[derive(Copy, Clone, Debug, PartialEq, Eq, Structural)]
pub struct ListRow {
    /// How far it is indented.
    pub depth: usize,
    pub is_folder: bool,
    pub has_children: bool,
    pub expanded: bool,
    /// Its size, and that of the folder it is in, at least 1: the bar shows how
    /// much of one the other is.
    pub size: i64,
    pub parent_size: i64,
}

/// One row of the list.
#[derive(Debug)]
pub struct BuiltRow {
    pub target: RowTarget,
    pub name: String,
    pub size_text: String,
    pub own_text: String,
    pub files_text: String,
    pub folders_text: String,
    pub modified_ft: i64,
    pub row: ListRow,
}

pub struct RowView {
    pub target: RowTarget,
    pub name: Seq<char>,
    pub size_text: Seq<char>,
    pub own_text: Seq<char>,
    pub files_text: Seq<char>,
    pub folders_text: Seq<char>,
    pub modified_ft: int,
    pub row: ListRow,
}

impl View for BuiltRow {
    type V = RowView;

    open spec fn view(&self) -> RowView {
        RowView {
            target: self.target,
            name: self.name@,
            size_text: self.size_text@,
            own_text: self.own_text@,
            files_text: self.files_text@,
            folders_text: self.folders_text@,
            modified_ft: self.modified_ft as int,
            row: self.row,
        }
    }
}

pub open spec fn row_views(v: Seq<BuiltRow>) -> Seq<RowView> {
    v.map_values(|r: BuiltRow| r@)
}

/// What a folder is sorted by in a column of numbers.
pub open spec fn folder_num(f: FolderView, col: i32) -> int {
    if col == 3 {
        f.own_size
    } else if col == 4 {
        f.file_count
    } else if col == 5 {
        f.folder_count
    } else if col == 6 {
        f.last_modified_ft
    } else {
        f.size
    }
}

/// What a file is sorted by in a column of numbers: it has no files or folders.
pub open spec fn file_num(x: FileView, col: i32) -> int {
    if col == 6 {
        x.last_modified_ft
    } else if col == 4 || col == 5 {
        0
    } else {
        x.size
    }
}

pub fn folder_sort_key(n: &FolderNode, col: i32) -> (r: i64)
    ensures
        r == folder_num(n@, col),
{
    match col {
        3 => n.own_size,
        4 => n.file_count,
        5 => n.folder_count,
        6 => n.last_modified_ft,
        _ => n.size,
    }
}

pub fn file_sort_key(f: &FileEntry, col: i32) -> (r: i64)
    ensures
        r == file_num(f@, col),
{
    match col {
        6 => f.last_modified_ft,
        4 | 5 => 0,
        _ => f.size,
    }
}

/// The key of a row: in the name column its name alone, else its number, then its
/// name; names without regard to case.
pub open spec fn row_key(num: int, name: Seq<char>, col: i32) -> KeyView {
    KeyView {
        num: if col == 0 {
            0
        } else {
            num
        },
        text: lowercase(name),
    }
}

fn make_key(num: i64, name: &str, col: i32) -> (r: SortKey)
    ensures
        r@ == row_key(num as int, name@, col),
{
    let lower = to_lowercase(name);
    SortKey {
        num: if col == 0 {
            0
        } else {
            num
        },
        text: chars_of(lower.as_str()),
    }
}

/// The order of rows with these keys. There is only one.
pub open spec fn order_of(keys: Seq<KeyView>, desc: bool) -> Seq<usize> {
    choose|o: Seq<usize>| is_order_of(o, keys, desc)
}

/// The children below `n` of the folder `id` that are not deleted.
pub open spec fn live_below(f: FolderView, id: int, deleted: Set<usize>, n: int) -> Seq<int>
    decreases n,
{
    if n <= 0 {
        Seq::empty()
    } else if deleted.contains(child_id(f, id, n - 1) as usize) {
        live_below(f, id, deleted, n - 1)
    } else {
        live_below(f, id, deleted, n - 1).push(n - 1)
    }
}

pub open spec fn live_children(f: FolderView, id: int, deleted: Set<usize>) -> Seq<int> {
    live_below(f, id, deleted, f.children.len() as int)
}

pub open spec fn folder_keys(f: FolderView, live: Seq<int>, col: i32) -> Seq<KeyView> {
    live.map_values(|k: int| row_key(folder_num(f.children[k], col), f.children[k].name, col))
}

pub open spec fn file_keys(f: FolderView, col: i32) -> Seq<KeyView> {
    f.files.map_values(|x: FileView| row_key(file_num(x, col), x.name, col))
}

/// The size that the rows of a folder are compared with.
pub open spec fn whole_of(f: FolderView) -> i64 {
    if f.size < 1 {
        1
    } else {
        f.size as i64
    }
}

/// Whether a folder can be opened.
pub open spec fn can_open(f: FolderView) -> bool {
    f.children.len() > 0 || f.files.len() > 0
}

/// The row of the folder `c` with number `id`.
pub open spec fn folder_row(c: FolderView, id: int, depth: int, whole: i64, expanded: bool, base: int) -> RowView {
    RowView {
        target: RowTarget::Folder(id as usize),
        name: c.name,
        size_text: bytes_text(c.size, base),
        own_text: bytes_text(c.own_size, base),
        files_text: count_text(c.file_count),
        folders_text: count_text(c.folder_count),
        modified_ft: c.last_modified_ft,
        row: ListRow {
            depth: depth as usize,
            is_folder: true,
            has_children: can_open(c),
            expanded,
            size: c.size as i64,
            parent_size: whole,
        },
    }
}

/// The row of file `i` of the folder `id`.
pub open spec fn file_row(x: FileView, id: int, i: int, depth: int, whole: i64, base: int) -> RowView {
    RowView {
        target: RowTarget::File(FileRef { folder: id as usize, index: i as usize }),
        name: x.name,
        size_text: bytes_text(x.size, base),
        own_text: Seq::empty(),
        files_text: Seq::empty(),
        folders_text: Seq::empty(),
        modified_ft: x.last_modified_ft,
        row: ListRow {
            depth: depth as usize,
            is_folder: false,
            has_children: false,
            expanded: false,
            size: x.size as i64,
            parent_size: whole,
        },
    }
}

/// The rows of the folder `f`, which has number `id`: its folders, sorted, each
/// followed by its own rows where it is opened, then its files, sorted. What is
/// deleted has no row.
pub open spec fn rows_of(
    f: FolderView,
    id: int,
    depth: int,
    by: SortBy,
    m: MarksView,
    base: int,
) -> Seq<RowView>
    decreases f, 1int, 0int,
{
    folder_rows(f, id, depth, by, m, base, live_children(f, id, m.deleted_nodes).len() as int)
        + file_rows(f, id, depth, by, m, base, f.files.len() as int)
}

/// The rows that the first `n` folders bring, in sorted order.
pub open spec fn folder_rows(
    f: FolderView,
    id: int,
    depth: int,
    by: SortBy,
    m: MarksView,
    base: int,
    n: int,
) -> Seq<RowView>
    decreases f, 0int, n,
{
    let live = live_children(f, id, m.deleted_nodes);
    if n <= 0 || n > live.len() || n > f.children.len() {
        Seq::empty()
    } else {
        let k = live[order_of(folder_keys(f, live, by.col), by.desc)[n - 1] as int];
        let before = folder_rows(f, id, depth, by, m, base, n - 1);
        if !(0 <= k < f.children.len()) {
            before
        } else {
            let c = f.children[k];
            let cid = child_id(f, id, k);
            let open = m.expanded.contains(cid as usize);
            let with = before.push(folder_row(c, cid, depth, whole_of(f), open, base));
            if open && can_open(c) {
                with + rows_of(c, cid, depth + 1, by, m, base)
            } else {
                with
            }
        }
    }
}

/// The rows of the first `n` files, in sorted order.
pub open spec fn file_rows(
    f: FolderView,
    id: int,
    depth: int,
    by: SortBy,
    m: MarksView,
    base: int,
    n: int,
) -> Seq<RowView>
    decreases n,
{
    if n <= 0 {
        Seq::empty()
    } else {
        let i = order_of(file_keys(f, by.col), by.desc)[n - 1] as int;
        let before = file_rows(f, id, depth, by, m, base, n - 1);
        if m.deleted_files.contains(FileRef { folder: id as usize, index: i as usize }) {
            before
        } else {
            before.push(file_row(f.files[i], id, i, depth, whole_of(f), base))
        }
    }
}

/// Whether a file is among those deleted.
pub fn is_file_deleted(deleted: &Vec<FileRef>, at: FileRef) -> (r: bool)
    ensures
        r == deleted@.contains(at),
{
    let mut i: usize = 0;
    while i < deleted.len()
        invariant
            i <= deleted.len(),
            forall|j: int| 0 <= j < i ==> deleted@[j] != at,
        decreases deleted.len() - i,
    {
        if deleted[i] == at {
            return true;
        }
        i += 1;
    }
    false
}

/// Everything in a list of live children is a child, listed once, in order.
pub proof fn lemma_live(f: FolderView, id: int, deleted: Set<usize>, n: int)
    requires
        0 <= n <= f.children.len(),
    ensures
        live_below(f, id, deleted, n).len() <= n,
        forall|i: int|
            0 <= i < live_below(f, id, deleted, n).len() ==> 0 <= #[trigger] live_below(
                f,
                id,
                deleted,
                n,
            )[i] < n && !deleted.contains(
                child_id(f, id, live_below(f, id, deleted, n)[i]) as usize,
            ),
    decreases n,
{
    if n > 0 {
        lemma_live(f, id, deleted, n - 1);
    }
}

/// The numbers of the children of `node`, and which of them are not deleted.
fn survey(node: &FolderNode, id: usize, deleted: &HashSet<usize>) -> (r: (Vec<usize>, Vec<usize>))
    requires
        id + folders_of(node@) <= usize::MAX,
    ensures
        r.0@.len() == node@.children.len(),
        forall|k: int|
            0 <= k < r.0@.len() ==> #[trigger] r.0@[k] == child_id(node@, id as int, k),
        r.1@.map_values(|k: usize| k as int) == live_children(node@, id as int, deleted@),
{
    let ghost f = node@;
    let mut ids: Vec<usize> = Vec::new();
    let mut live: Vec<usize> = Vec::new();
    let mut at: usize = id + 1;
    let mut k: usize = 0;
    assert(live@.map_values(|k: usize| k as int) =~= Seq::empty());
    while k < node.children.len()
        invariant
            k <= node.children.len(),
            f == node@,
            id + folders_of(f) <= usize::MAX,
            at == child_id(f, id as int, k as int),
            ids@.len() == k,
            forall|j: int| 0 <= j < k ==> #[trigger] ids@[j] == child_id(f, id as int, j),
            live@.map_values(|k: usize| k as int) == live_below(f, id as int, deleted@, k as int),
        decreases node.children.len() - k,
    {
        proof {
            lemma_before_monotonic(f, k + 1, f.children.len() as int);
            assert(f.children[k as int] == node.children@[k as int]@);
        }
        ids.push(at);
        if !deleted.contains(&at) {
            let ghost before = live@.map_values(|k: usize| k as int);
            live.push(k);
            assert(live@.map_values(|k: usize| k as int) =~= before.push(k as int));
        }
        at += count_folders(&node.children[k]);
        k += 1;
    }
    (ids, live)
}

/// The order of the folders of `node` that are not deleted.
fn order_folders(node: &FolderNode, live: &Vec<usize>, by: SortBy) -> (r: Vec<usize>)
    requires
        forall|i: int| 0 <= i < live@.len() ==> #[trigger] live@[i] < node.children@.len(),
    ensures
        r@ == order_of(
            folder_keys(node@, live@.map_values(|k: usize| k as int), by.col),
            by.desc,
        ),
        is_permutation(r@, live@.len()),
{
    let ghost goal = folder_keys(node@, live@.map_values(|k: usize| k as int), by.col);
    let mut keys: Vec<SortKey> = Vec::new();
    let mut i: usize = 0;
    while i < live.len()
        invariant
            i <= live.len(),
            goal == folder_keys(node@, live@.map_values(|k: usize| k as int), by.col),
            forall|i: int| 0 <= i < live@.len() ==> #[trigger] live@[i] < node.children@.len(),
            keys@.len() == i,
            forall|j: int| 0 <= j < i ==> (#[trigger] keys@[j])@ == goal[j],
        decreases live.len() - i,
    {
        let c = &node.children[live[i]];
        assert(node@.children[live@[i as int] as int] == c@);
        keys.push(make_key(folder_sort_key(c, by.col), c.name.as_str(), by.col));
        i += 1;
    }
    assert(key_views(keys@) =~= goal);
    let r = sorted_order(&keys, by.desc);
    proof {
        law_order_unique(r@, order_of(goal, by.desc), goal, by.desc);
    }
    r
}

/// The order of the files of `node`.
fn order_files(node: &FolderNode, by: SortBy) -> (r: Vec<usize>)
    ensures
        r@ == order_of(file_keys(node@, by.col), by.desc),
        is_permutation(r@, node@.files.len()),
{
    let ghost goal = file_keys(node@, by.col);
    let mut keys: Vec<SortKey> = Vec::new();
    let mut i: usize = 0;
    while i < node.files.len()
        invariant
            i <= node.files.len(),
            goal == file_keys(node@, by.col),
            keys@.len() == i,
            forall|j: int| 0 <= j < i ==> (#[trigger] keys@[j])@ == goal[j],
        decreases node.files.len() - i,
    {
        let x = &node.files[i];
        assert(node@.files[i as int] == x@);
        keys.push(make_key(file_sort_key(x, by.col), x.name.as_str(), by.col));
        i += 1;
    }
    assert(key_views(keys@) =~= goal);
    let r = sorted_order(&keys, by.desc);
    proof {
        law_order_unique(r@, order_of(goal, by.desc), goal, by.desc);
    }
    r
}

/// Appends the rows of `node`, which has number `id`, indented by `depth`.
pub fn build_list_rows(
    marks: &Marks,
    node: &FolderNode,
    id: usize,
    depth: usize,
    by: SortBy,
    units: &Units,
    out: &mut Vec<BuiltRow>,
)
    requires
        id + folders_of(node@) <= usize::MAX,
        depth + folders_of(node@) <= usize::MAX,
    ensures
        row_views(final(out)@) == row_views(old(out)@) + rows_of(
            node@,
            id as int,
            depth as int,
            by,
            marks@,
            units.step(),
        ),
    decreases node,
{
    let ghost before = row_views(out@);
    let ghost f = node@;
    let ghost base = units.step();
    let ghost m = marks@;
    let whole: i64 = if node.size < 1 {
        1
    } else {
        node.size
    };
    let (ids, live) = survey(node, id, &marks.deleted_nodes);
    let ghost alive = live_children(f, id as int, m.deleted_nodes);
    proof {
        lemma_live(f, id as int, m.deleted_nodes, f.children.len() as int);
        assert forall|i: int| 0 <= i < live@.len() implies #[trigger] live@[i] < node.children@.len() by {
            assert(alive[i] == live@[i] as int);
        }
    }
    let order = order_folders(node, &live, by);
    let mut i: usize = 0;
    assert(before + folder_rows(f, id as int, depth as int, by, m, base, 0) =~= before);
    while i < order.len()
        invariant
            i <= order.len(),
            order.len() == alive.len(),
            alive.len() <= f.children.len(),
            f == node@,
            m == marks@,
            base == units.step(),
            whole == whole_of(f),
            id + folders_of(f) <= usize::MAX,
            depth + folders_of(f) <= usize::MAX,
            alive == live_children(f, id as int, m.deleted_nodes),
            alive == live@.map_values(|k: usize| k as int),
            forall|i: int| 0 <= i < live@.len() ==> #[trigger] live@[i] < node.children@.len(),
            ids@.len() == f.children.len(),
            forall|k: int| 0 <= k < ids@.len() ==> #[trigger] ids@[k] == child_id(f, id as int, k),
            order@ == order_of(folder_keys(f, alive, by.col), by.desc),
            is_permutation(order@, live@.len()),
            row_views(out@) == before + folder_rows(
                f,
                id as int,
                depth as int,
                by,
                m,
                base,
                i as int,
            ),
        decreases order.len() - i,
    {
        let k: usize = live[order[i]];
        assert(alive[order@[i as int] as int] == k as int);
        let c = &node.children[k];
        assert(f.children[k as int] == c@);
        let at: usize = ids[k];
        let open = marks.expanded.contains(&at);
        let has_children = c.children.len() > 0 || c.files.len() > 0;
        let row = BuiltRow {
            target: RowTarget::Folder(at),
            name: c.name.clone(),
            size_text: format_bytes(c.size, units),
            own_text: format_bytes(c.own_size, units),
            files_text: format_count(c.file_count),
            folders_text: format_count(c.folder_count),
            modified_ft: c.last_modified_ft,
            row: ListRow {
                depth,
                is_folder: true,
                has_children,
                expanded: open,
                size: c.size,
                parent_size: whole,
            },
        };
        let ghost sofar = row_views(out@);
        assert(row@ == folder_row(c@, at as int, depth as int, whole, open, base));
        out.push(row);
        assert(row_views(out@) =~= sofar.push(row@));
        if open && has_children {
            proof {
                lemma_before_monotonic(f, k + 1, f.children.len() as int);
            }
            build_list_rows(marks, c, at, depth + 1, by, units, out);
        }
        i += 1;
        assert(row_views(out@) =~= before + folder_rows(
            f,
            id as int,
            depth as int,
            by,
            m,
            base,
            i as int,
        ));
    }
    let ghost top = before + folder_rows(
        f,
        id as int,
        depth as int,
        by,
        m,
        base,
        alive.len() as int,
    );
    let forder = order_files(node, by);
    let mut j: usize = 0;
    assert(top + file_rows(f, id as int, depth as int, by, m, base, 0) =~= top);
    while j < forder.len()
        invariant
            j <= forder.len(),
            forder.len() == f.files.len(),
            f == node@,
            m == marks@,
            base == units.step(),
            whole == whole_of(f),
            forder@ == order_of(file_keys(f, by.col), by.desc),
            is_permutation(forder@, f.files.len()),
            row_views(out@) == top + file_rows(f, id as int, depth as int, by, m, base, j as int),
        decreases forder.len() - j,
    {
        let i: usize = forder[j];
        let at = FileRef { folder: id, index: i };
        if !is_file_deleted(&marks.deleted_files, at) {
            let x = &node.files[i];
            assert(f.files[i as int] == x@);
            let row = BuiltRow {
                target: RowTarget::File(at),
                name: x.name.clone(),
                size_text: format_bytes(x.size, units),
                own_text: String::new(),
                files_text: String::new(),
                folders_text: String::new(),
                modified_ft: x.last_modified_ft,
                row: ListRow {
                    depth,
                    is_folder: false,
                    has_children: false,
                    expanded: false,
                    size: x.size,
                    parent_size: whole,
                },
            };
            let ghost sofar = row_views(out@);
            assert(row@.own_text =~= Seq::empty());
            assert(row@ == file_row(x@, id as int, i as int, depth as int, whole, base));
            out.push(row);
            assert(row_views(out@) =~= sofar.push(row@));
        }
        j += 1;
        assert(row_views(out@) =~= top + file_rows(
            f,
            id as int,
            depth as int,
            by,
            m,
            base,
            j as int,
        ));
    }
    assert(row_views(out@) =~= before + rows_of(f, id as int, depth as int, by, m, base));
}

/// Which cell of the main list is drawn, and whether its drive is still scanned.
#[derive(Copy, Clone, Debug, PartialEq, Eq, Structural)]
pub enum CellText {
    /// The name, behind its box and its sign.
    Name,
    /// The bar that shows the share of the folder above.
    Share,
    /// The wandering bar of a drive that is being scanned.
    Marquee,
    /// The word for that.
    Scanning,
    Blank,
    Size,
    OwnSize,
    Files,
    Folders,
    Modified,
}

/// What the cell in a column shows. A drive that is being scanned has no numbers
/// yet.
pub open spec fn cell_of(col: int, pending: bool) -> CellText {
    if col == 0 {
        CellText::Name
    } else if col == 1 {
        if pending {
            CellText::Marquee
        } else {
            CellText::Share
        }
    } else if pending {
        if col == 2 {
            CellText::Scanning
        } else {
            CellText::Blank
        }
    } else if col == 2 {
        CellText::Size
    } else if col == 3 {
        CellText::OwnSize
    } else if col == 4 {
        CellText::Files
    } else if col == 5 {
        CellText::Folders
    } else if col == 6 {
        CellText::Modified
    } else {
        CellText::Blank
    }
}

pub fn cell_content(col: i32, pending: bool) -> (r: CellText)
    ensures
        r == cell_of(col as int, pending),
{
    match col {
        0 => CellText::Name,
        1 => if pending {
            CellText::Marquee
        } else {
            CellText::Share
        },
        2 => if pending {
            CellText::Scanning
        } else {
            CellText::Size
        },
        _ => if pending {
            CellText::Blank
        } else {
            match col {
                3 => CellText::OwnSize,
                4 => CellText::Files,
                5 => CellText::Folders,
                6 => CellText::Modified,
                _ => CellText::Blank,
            }
        },
    }
}

/// A folder below another: its place there, and its number.
#[derive(Copy, Clone, Debug, PartialEq, Eq, Structural)]
pub struct ChildRef {
    pub index: usize,
    pub id: usize,
}

/// The folders of `node`, which has number `id`, in the order of their names,
/// without those that are deleted.
pub fn populate_children(marks: &Marks, node: &FolderNode, id: usize) -> (r: Vec<ChildRef>)
    requires
        id + folders_of(node@) <= usize::MAX,
    ensures
        ({
            let live = live_children(node@, id as int, marks@.deleted_nodes);
            let order = order_of(folder_keys(node@, live, 0), false);
            &&& r@.len() == live.len()
            &&& forall|i: int|
                0 <= i < r@.len() ==> (#[trigger] r@[i]).index == live[order[i] as int] && r@[i].id
                    == child_id(node@, id as int, live[order[i] as int])
        }),
{
    let (ids, live) = survey(node, id, &marks.deleted_nodes);
    let ghost alive = live_children(node@, id as int, marks@.deleted_nodes);
    proof {
        lemma_live(node@, id as int, marks@.deleted_nodes, node@.children.len() as int);
        assert forall|i: int| 0 <= i < live@.len() implies #[trigger] live@[i] < node.children@.len() by {
            assert(alive[i] == live@[i] as int);
        }
    }
    let by = SortBy { col: 0, desc: false };
    let order = order_folders(node, &live, by);
    let mut out: Vec<ChildRef> = Vec::new();
    let mut i: usize = 0;
    while i < order.len()
        invariant
            i <= order.len(),
            order.len() == live.len(),
            alive == live@.map_values(|k: usize| k as int),
            forall|i: int| 0 <= i < live@.len() ==> #[trigger] live@[i] < node.children@.len(),
            ids@.len() == node.children@.len(),
            forall|k: int|
                0 <= k < ids@.len() ==> #[trigger] ids@[k] == child_id(node@, id as int, k),
            order@ == order_of(folder_keys(node@, alive, 0), false),
            is_permutation(order@, live@.len()),
            out@.len() == i,
            forall|k: int|
                0 <= k < i ==> (#[trigger] out@[k]).index == alive[order@[k] as int] && out@[k].id
                    == child_id(node@, id as int, alive[order@[k] as int]),
        decreases order.len() - i,
    {
        let k: usize = live[order[i]];
        assert(alive[order@[i as int] as int] == k as int);
        out.push(ChildRef { index: k, id: ids[k] });
        i += 1;
    }
    out
}

/// Whether a row stands for something that is not deleted.
pub open spec fn is_live(r: RowView, m: MarksView) -> bool {
    match r.target {
        RowTarget::Folder(id) => !m.deleted_nodes.contains(id),
        RowTarget::File(at) => !m.deleted_files.contains(at),
    }
}

/// What is deleted has no row.
pub proof fn law_no_row_of_deleted(
    f: FolderView,
    id: int,
    depth: int,
    by: SortBy,
    m: MarksView,
    base: int,
    i: int,
)
    requires
        id + folders_of(f) <= usize::MAX,
        0 <= id,
        0 <= i < rows_of(f, id, depth, by, m, base).len(),
    ensures
        is_live(rows_of(f, id, depth, by, m, base)[i], m),
    decreases f, 1int, 0int,
{
    let n = live_children(f, id, m.deleted_nodes).len() as int;
    let a = folder_rows(f, id, depth, by, m, base, n);
    if i < a.len() {
        lemma_folder_rows_live(f, id, depth, by, m, base, n, i);
    } else {
        lemma_file_rows_live(f, id, depth, by, m, base, f.files.len() as int, i - a.len());
    }
}

proof fn lemma_folder_rows_live(
    f: FolderView,
    id: int,
    depth: int,
    by: SortBy,
    m: MarksView,
    base: int,
    n: int,
    i: int,
)
    requires
        id + folders_of(f) <= usize::MAX,
        0 <= id,
        0 <= i < folder_rows(f, id, depth, by, m, base, n).len(),
    ensures
        is_live(folder_rows(f, id, depth, by, m, base, n)[i], m),
    decreases f, 0int, n,
{
    let live = live_children(f, id, m.deleted_nodes);
    lemma_live(f, id, m.deleted_nodes, f.children.len() as int);
    lemma_count_at_least(f, f.children.len() as int);
    if 0 < n <= live.len() && n <= f.children.len() {
        let keys = folder_keys(f, live, by.col);
        let at = order_of(keys, by.desc)[n - 1] as int;
        let k = live[at];
        let before = folder_rows(f, id, depth, by, m, base, n - 1);
        if i < before.len() {
            lemma_folder_rows_live(f, id, depth, by, m, base, n - 1, i);
        } else if 0 <= k < f.children.len() {
            let cid = child_id(f, id, k);
            lemma_before_monotonic(f, k + 1, f.children.len() as int);
            if i == before.len() {
                lemma_order_in_range(keys, by.desc, n - 1);
                assert(live[at] == k);
            } else {
                law_no_row_of_deleted(
                    f.children[k],
                    cid,
                    depth + 1,
                    by,
                    m,
                    base,
                    i - before.len() - 1,
                );
            }
        }
    }
}

/// Places in an order are places of rows.
pub proof fn lemma_order_in_range(keys: Seq<KeyView>, desc: bool, i: int)
    requires
        0 <= i < keys.len() <= usize::MAX,
    ensures
        0 <= order_of(keys, desc)[i] < keys.len(),
{
    lemma_order_exists(keys, desc);
    law_order_is_permutation(order_of(keys, desc), keys, desc);
}

proof fn lemma_file_rows_live(
    f: FolderView,
    id: int,
    depth: int,
    by: SortBy,
    m: MarksView,
    base: int,
    n: int,
    i: int,
)
    requires
        0 <= i < file_rows(f, id, depth, by, m, base, n).len(),
    ensures
        is_live(file_rows(f, id, depth, by, m, base, n)[i], m),
    decreases n,
{
    if n > 0 {
        let before = file_rows(f, id, depth, by, m, base, n - 1);
        if i < before.len() {
            lemma_file_rows_live(f, id, depth, by, m, base, n - 1, i);
        }
    }
}

} // verus!
