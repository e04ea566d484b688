//! What the rows of the main list show, and in which order: by what the column that was
//! clicked shows.

use crate::format::{bytes_text, count_text};
use crate::numbering::{child_id, folders_before, folders_of, lemma_before_monotonic, lemma_count_at_least};
use crate::panel::main_columns_of;
use crate::rows::{
    can_open, cell_of, file_keys, file_num, file_row, file_rows, folder_keys, folder_num, folder_row, folder_rows,
    lemma_live, lemma_order_in_range, live_below, live_children, order_of, row_key, rows_of, whole_of, CellText,
    FileRef, MarksView, RowTarget, RowView, SortBy,
};
use crate::search::lowercase;
use crate::sort::{
    law_order_is_permutation, law_text_order_total, lemma_order_exists, stands_before, text_less,
};
use crate::types::{FileView, FolderView};
use vstd::prelude::*;

verus! {

/// Whether a folder can be shown: its numbers and those of what lies in it are those of a
/// machine.
pub open spec fn can_be_shown(f: FolderView, id: int, depth: int) -> bool {
    &&& 0 <= id && id + folders_of(f) <= usize::MAX
    &&& 0 <= depth && depth + folders_of(f) <= usize::MAX
    &&& f.files.len() <= usize::MAX
    &&& i64::MIN <= f.size <= i64::MAX
    &&& forall|k: int|
        0 <= k < f.children.len() ==> i64::MIN <= (#[trigger] f.children[k]).size <= i64::MAX
    &&& forall|k: int|
        0 <= k < f.files.len() ==> i64::MIN <= (#[trigger] f.files[k]).size <= i64::MAX
}

/// Whether the row `r` shows the folder `c` with number `id`, which lies in a folder of
/// `whole` bytes: its name, its sizes, counts and time, and whether it is opened.
pub open spec fn shows_folder(r: RowView, c: FolderView, id: int, whole: int, open: bool, base: int) -> bool {
    &&& r.target == RowTarget::Folder(id as usize)
    &&& r.name == c.name
    &&& r.size_text == bytes_text(c.size, base)
    &&& r.own_text == bytes_text(c.own_size, base)
    &&& r.files_text == count_text(c.file_count)
    &&& r.folders_text == count_text(c.folder_count)
    &&& r.modified_ft == c.last_modified_ft
    &&& r.row.is_folder
    &&& r.row.has_children == (c.children.len() + c.files.len() > 0)
    &&& r.row.expanded == open
    &&& r.row.size == c.size
    &&& r.row.parent_size == if whole > 1 {
        whole
    } else {
        1
    }
}

/// Whether the row `r` shows the file `x`, which is file `i` of the folder with number
/// `id`.
pub open spec fn shows_file(r: RowView, x: FileView, id: int, i: int, whole: int, base: int) -> bool {
    &&& r.target == RowTarget::File(FileRef { folder: id as usize, index: i as usize })
    &&& r.name == x.name
    &&& r.size_text == bytes_text(x.size, base)
    &&& r.own_text.len() == 0 && r.files_text.len() == 0 && r.folders_text.len() == 0
    &&& r.modified_ft == x.last_modified_ft
    &&& !r.row.is_folder && !r.row.has_children && !r.row.expanded
    &&& r.row.size == x.size
    &&& r.row.parent_size == if whole > 1 {
        whole
    } else {
        1
    }
}

/// Whether `a` may stand in front of `b`: it is not larger, or, where the order descends,
/// not smaller.
pub open spec fn in_turn(desc: bool, a: int, b: int) -> bool {
    if desc {
        a >= b
    } else {
        a <= b
    }
}

/// The same for names, without regard to case.
pub open spec fn names_in_turn(desc: bool, a: Seq<char>, b: Seq<char>) -> bool {
    if desc {
        !text_less(lowercase(a), lowercase(b))
    } else {
        !text_less(lowercase(b), lowercase(a))
    }
}

/// Whether the row `r` of the folder `c` may stand in front of the row `s` of the folder
/// `d`: they are in the order of what the column shows of them, and by name where that is
/// the same.
pub open spec fn folders_in_turn(by: SortBy, r: RowView, c: FolderView, s: RowView, d: FolderView) -> bool {
    &&& by.col == 0 ==> names_in_turn(by.desc, r.name, s.name)
    &&& by.col == 1 || by.col == 2 ==> in_turn(by.desc, r.row.size as int, s.row.size as int) && (
    r.row.size == s.row.size ==> names_in_turn(by.desc, r.name, s.name))
    &&& by.col == 3 ==> in_turn(by.desc, c.own_size, d.own_size) && (c.own_size == d.own_size
        ==> names_in_turn(by.desc, r.name, s.name))
    &&& by.col == 4 ==> in_turn(by.desc, c.file_count, d.file_count) && (c.file_count
        == d.file_count ==> names_in_turn(by.desc, r.name, s.name))
    &&& by.col == 5 ==> in_turn(by.desc, c.folder_count, d.folder_count) && (c.folder_count
        == d.folder_count ==> names_in_turn(by.desc, r.name, s.name))
    &&& by.col == 6 ==> in_turn(by.desc, r.modified_ft, s.modified_ft) && (r.modified_ft
        == s.modified_ft ==> names_in_turn(by.desc, r.name, s.name))
}

/// The same for the rows of two files, which have no files or folders in them.
pub open spec fn files_in_turn(by: SortBy, r: RowView, s: RowView) -> bool {
    &&& by.col == 0 || by.col == 4 || by.col == 5 ==> names_in_turn(by.desc, r.name, s.name)
    &&& by.col == 1 || by.col == 2 || by.col == 3 ==> in_turn(
        by.desc,
        r.row.size as int,
        s.row.size as int,
    ) && (r.row.size == s.row.size ==> names_in_turn(by.desc, r.name, s.name))
    &&& by.col == 6 ==> in_turn(by.desc, r.modified_ft, s.modified_ft) && (r.modified_ft
        == s.modified_ft ==> names_in_turn(by.desc, r.name, s.name))
}

// ------------------------------------------------------------------ places of rows

proof fn lemma_counts(f: FolderView, k: int)
    requires
        0 <= k < f.children.len(),
    ensures
        folders_of(f.children[k]) < folders_of(f),
        forall|id: int| #[trigger]
            child_id(f, id, k) + folders_of(f.children[k]) <= id + folders_of(f) && child_id(
                f,
                id,
                k,
            ) > id,
        f.children.len() < folders_of(f),
{
    lemma_before_monotonic(f, k + 1, f.children.len() as int);
    lemma_before_monotonic(f, k, k + 1);
    lemma_count_at_least(f, f.children.len() as int);
}

/// Whether the numbers of a folder fit the machine.
spec fn fits_in(f: FolderView, id: int, depth: int) -> bool {
    &&& 0 <= id && id + folders_of(f) <= usize::MAX
    &&& 0 <= depth && depth + folders_of(f) <= usize::MAX
}

proof fn lemma_rows_deep(f: FolderView, id: int, depth: int, by: SortBy, m: MarksView, base: int)
    requires
        fits_in(f, id, depth),
    ensures
        forall|i: int|
            0 <= i < rows_of(f, id, depth, by, m, base).len() ==> (#[trigger] rows_of(f, id, depth, by, m, base)[i]).row.depth >= depth,
    decreases f, 1int, 0int,
{
    let n = live_children(f, id, m.deleted_nodes).len() as int;
    lemma_folder_rows_deep(f, id, depth, by, m, base, n);
    lemma_file_rows_deep(f, id, depth, by, m, base, f.files.len() as int);
    let (a, b) = (folder_rows(f, id, depth, by, m, base, n), file_rows(f, id, depth, by, m, base, f.files.len() as int));
    assert forall|i: int| 0 <= i < rows_of(f, id, depth, by, m, base).len() implies (#[trigger] rows_of(
        f, id, depth, by, m, base,
    )[i]).row.depth >= depth by {
        if i < a.len() {
            assert(rows_of(f, id, depth, by, m, base)[i] == a[i]);
        } else {
            assert(rows_of(f, id, depth, by, m, base)[i] == b[i - a.len()]);
        }
    }
}

proof fn lemma_folder_rows_deep(f: FolderView, id: int, depth: int, by: SortBy, m: MarksView, base: int, n: int)
    requires
        fits_in(f, id, depth),
    ensures
        forall|i: int|
            0 <= i < folder_rows(f, id, depth, by, m, base, n).len() ==> (#[trigger] folder_rows(f, id, depth, by, m, base, n)[i]).row.depth
                >= depth,
    decreases f, 0int, n,
{
    let live = live_children(f, id, m.deleted_nodes);
    if 0 < n <= live.len() && n <= f.children.len() {
        lemma_folder_rows_deep(f, id, depth, by, m, base, n - 1);
        let k = live[order_of(folder_keys(f, live, by.col), by.desc)[n - 1] as int];
        if 0 <= k < f.children.len() {
            lemma_counts(f, k);
            assert(child_id(f, id, k) > id);
            assert(folders_of(f) >= 1);
            lemma_rows_deep(f.children[k], child_id(f, id, k), depth + 1, by, m, base);
        }
        let now = folder_rows(f, id, depth, by, m, base, n);
        let before = folder_rows(f, id, depth, by, m, base, n - 1);
        assert forall|i: int| 0 <= i < now.len() implies (#[trigger] now[i]).row.depth >= depth by {
            if i < before.len() {
                assert(now[i] == before[i]);
            } else if i > before.len() {
                let more = rows_of(f.children[k], child_id(f, id, k), depth + 1, by, m, base);
                assert(now[i] == more[i - before.len() - 1]);
            }
        }
    }
}

proof fn lemma_file_rows_deep(f: FolderView, id: int, depth: int, by: SortBy, m: MarksView, base: int, n: int)
    requires
        0 <= depth <= usize::MAX,
    ensures
        forall|i: int|
            0 <= i < file_rows(f, id, depth, by, m, base, n).len() ==> (#[trigger] file_rows(f, id, depth, by, m, base, n)[i]).row.depth == depth
                && !file_rows(f, id, depth, by, m, base, n)[i].row.is_folder,
    decreases n,
{
    if n > 0 {
        lemma_file_rows_deep(f, id, depth, by, m, base, n - 1);
    }
}

/// The child that the folder row in place `a` stands for.
spec fn child_in_place(f: FolderView, id: int, by: SortBy, m: MarksView, a: int) -> int {
    let live = live_children(f, id, m.deleted_nodes);
    live[order_of(folder_keys(f, live, by.col), by.desc)[a] as int]
}

spec fn file_in_place(f: FolderView, by: SortBy, a: int) -> int {
    order_of(file_keys(f, by.col), by.desc)[a] as int
}

proof fn lemma_child_in_place(f: FolderView, id: int, by: SortBy, m: MarksView, a: int)
    requires
        0 <= a < live_children(f, id, m.deleted_nodes).len(),
        folders_of(f) <= usize::MAX,
    ensures
        0 <= child_in_place(f, id, by, m, a) < f.children.len(),
        !m.deleted_nodes.contains(child_id(f, id, child_in_place(f, id, by, m, a)) as usize),
        live_children(f, id, m.deleted_nodes).len() <= f.children.len(),
{
    let live = live_children(f, id, m.deleted_nodes);
    lemma_live(f, id, m.deleted_nodes, f.children.len() as int);
    lemma_count_at_least(f, f.children.len() as int);
    lemma_order_in_range(folder_keys(f, live, by.col), by.desc, a);
    assert(live[order_of(folder_keys(f, live, by.col), by.desc)[a] as int] == child_in_place(f, id, by, m, a));
}

/// The rows in front of the folder in place `a` are those of the places in front.
proof fn lemma_folder_rows_prefix(f: FolderView, id: int, depth: int, by: SortBy, m: MarksView, base: int, a: int, n: int)
    requires
        0 <= a <= n <= live_children(f, id, m.deleted_nodes).len(),
        folders_of(f) <= usize::MAX,
    ensures
        folder_rows(f, id, depth, by, m, base, a).len() <= folder_rows(f, id, depth, by, m, base, n).len(),
        a < n ==> folder_rows(f, id, depth, by, m, base, a).len() < folder_rows(f, id, depth, by, m, base, n).len(),
        folder_rows(f, id, depth, by, m, base, n).take(folder_rows(f, id, depth, by, m, base, a).len() as int) == folder_rows(f, id, depth, by, m, base, a),
    decreases n,
{
    let p = folder_rows(f, id, depth, by, m, base, a);
    if a == n {
        assert(p.take(p.len() as int) =~= p);
    } else {
        lemma_folder_rows_prefix(f, id, depth, by, m, base, a, n - 1);
        lemma_child_in_place(f, id, by, m, n - 1);
        let q = folder_rows(f, id, depth, by, m, base, n - 1);
        assert(folder_rows(f, id, depth, by, m, base, n).take(p.len() as int) =~= q.take(p.len() as int));
    }
}

/// What the folder in place `a` brings: its row, and its own rows where it is opened.
proof fn lemma_row_in_place(f: FolderView, id: int, depth: int, by: SortBy, m: MarksView, base: int, a: int)
    requires
        0 <= a < live_children(f, id, m.deleted_nodes).len(),
        folders_of(f) <= usize::MAX,
    ensures
        ({
            let k = child_in_place(f, id, by, m, a);
            let c = f.children[k];
            let cid = child_id(f, id, k);
            let open = m.expanded.contains(cid as usize);
            folder_rows(f, id, depth, by, m, base, a + 1) == folder_rows(f, id, depth, by, m, base, a).push(
                folder_row(c, cid, depth, whole_of(f), open, base),
            ) + if open && can_open(c) {
                rows_of(c, cid, depth + 1, by, m, base)
            } else {
                Seq::empty()
            }
        }),
{
    lemma_child_in_place(f, id, by, m, a);
    let k = child_in_place(f, id, by, m, a);
    let c = f.children[k];
    let cid = child_id(f, id, k);
    let open = m.expanded.contains(cid as usize);
    let with = folder_rows(f, id, depth, by, m, base, a).push(folder_row(c, cid, depth, whole_of(f), open, base));
    assert(with + Seq::<RowView>::empty() =~= with);
}

/// The place of a row of this level among the folders.
proof fn lemma_place_of_folder(f: FolderView, id: int, depth: int, by: SortBy, m: MarksView, base: int, n: int, i: int) -> (a: int)
    requires
        fits_in(f, id, depth),
        0 <= n <= live_children(f, id, m.deleted_nodes).len(),
        0 <= i < folder_rows(f, id, depth, by, m, base, n).len(),
        folder_rows(f, id, depth, by, m, base, n)[i].row.depth == depth,
    ensures
        0 <= a < n,
        folder_rows(f, id, depth, by, m, base, a).len() == i,
        ({
            let k = child_in_place(f, id, by, m, a);
            let cid = child_id(f, id, k);
            folder_rows(f, id, depth, by, m, base, n)[i] == folder_row(
                f.children[k],
                cid,
                depth,
                whole_of(f),
                m.expanded.contains(cid as usize),
                base,
            )
        }),
    decreases n,
{
    let before = folder_rows(f, id, depth, by, m, base, n - 1);
    lemma_row_in_place(f, id, depth, by, m, base, n - 1);
    if i < before.len() {
        assert(folder_rows(f, id, depth, by, m, base, n)[i] == before[i]);
        lemma_place_of_folder(f, id, depth, by, m, base, n - 1, i)
    } else {
        if i > before.len() {
            lemma_child_in_place(f, id, by, m, n - 1);
            let k = child_in_place(f, id, by, m, n - 1);
            lemma_counts(f, k);
            assert(child_id(f, id, k) > id);
            lemma_rows_deep(f.children[k], child_id(f, id, k), depth + 1, by, m, base);
            let more = rows_of(f.children[k], child_id(f, id, k), depth + 1, by, m, base);
            assert(folder_rows(f, id, depth, by, m, base, n)[i] == more[i - before.len() - 1]);
        }
        n - 1
    }
}

proof fn lemma_place_of_file(f: FolderView, id: int, depth: int, by: SortBy, m: MarksView, base: int, n: int, i: int) -> (a: int)
    requires
        0 <= n <= f.files.len() <= usize::MAX,
        0 <= i < file_rows(f, id, depth, by, m, base, n).len(),
    ensures
        0 <= a < n,
        file_rows(f, id, depth, by, m, base, a).len() == i,
        0 <= file_in_place(f, by, a) < f.files.len(),
        file_rows(f, id, depth, by, m, base, n)[i] == file_row(
            f.files[file_in_place(f, by, a)],
            id,
            file_in_place(f, by, a),
            depth,
            whole_of(f),
            base,
        ),
        !m.deleted_files.contains(
            FileRef { folder: id as usize, index: file_in_place(f, by, a) as usize },
        ),
    decreases n,
{
    let before = file_rows(f, id, depth, by, m, base, n - 1);
    lemma_order_in_range(file_keys(f, by.col), by.desc, n - 1);
    if i < before.len() {
        assert(file_rows(f, id, depth, by, m, base, n)[i] == before[i]);
        lemma_place_of_file(f, id, depth, by, m, base, n - 1, i)
    } else {
        n - 1
    }
}

proof fn lemma_file_rows_grow(f: FolderView, id: int, depth: int, by: SortBy, m: MarksView, base: int, a: int, n: int)
    requires
        0 <= a <= n,
    ensures
        file_rows(f, id, depth, by, m, base, a).len() <= file_rows(f, id, depth, by, m, base, n).len(),
        file_rows(f, id, depth, by, m, base, n).take(file_rows(f, id, depth, by, m, base, a).len() as int) == file_rows(f, id, depth, by, m, base, a),
    decreases n,
{
    let p = file_rows(f, id, depth, by, m, base, a);
    if a == n {
        assert(p.take(p.len() as int) =~= p);
    } else {
        lemma_file_rows_grow(f, id, depth, by, m, base, a, n - 1);
        let q = file_rows(f, id, depth, by, m, base, n - 1);
        assert(file_rows(f, id, depth, by, m, base, n).take(p.len() as int) =~= q.take(p.len() as int));
    }
}

// ---------------------------------------------------------------------- the laws

/// Every row of the level of a folder shows one of the folders directly in it or one of
/// its files, none of them deleted. The folders come first, and then the files.
pub proof fn law_rows_show_the_folder(f: FolderView, id: int, depth: int, by: SortBy, m: MarksView, base: int, i: int)
    requires
        can_be_shown(f, id, depth),
        0 <= i < rows_of(f, id, depth, by, m, base).len(),
        rows_of(f, id, depth, by, m, base)[i].row.depth == depth,
    ensures
        ({
            let r = rows_of(f, id, depth, by, m, base)[i];
            &&& r.row.is_folder ==> exists|k: int|
                {
                    &&& 0 <= k < f.children.len()
                    &&& #[trigger] shows_folder(
                        r,
                        f.children[k],
                        child_id(f, id, k),
                        f.size,
                        m.expanded.contains(child_id(f, id, k) as usize),
                        base,
                    )
                    &&& !m.deleted_nodes.contains(child_id(f, id, k) as usize)
                }
            &&& !r.row.is_folder ==> exists|k: int|
                {
                    &&& 0 <= k < f.files.len()
                    &&& #[trigger] shows_file(r, f.files[k], id, k, f.size, base)
                    &&& !m.deleted_files.contains(FileRef { folder: id as usize, index: k as usize })
                }
            &&& !r.row.is_folder ==> forall|j: int|
                i < j < rows_of(f, id, depth, by, m, base).len() ==> !(#[trigger] rows_of(f, id, depth, by, m, base)[j]).row.is_folder
        }),
{
    let n = live_children(f, id, m.deleted_nodes).len() as int;
    let (xs, ys) = (folder_rows(f, id, depth, by, m, base, n), file_rows(f, id, depth, by, m, base, f.files.len() as int));
    let rows = rows_of(f, id, depth, by, m, base);
    lemma_file_rows_deep(f, id, depth, by, m, base, f.files.len() as int);
    assert forall|j: int| xs.len() <= j < rows.len() implies !(#[trigger] rows[j]).row.is_folder by {
        assert(rows[j] == ys[j - xs.len()]);
    }
    if i < xs.len() {
        assert(rows[i] == xs[i]);
        let a = lemma_place_of_folder(f, id, depth, by, m, base, n, i);
        lemma_child_in_place(f, id, by, m, a);
        let k = child_in_place(f, id, by, m, a);
        assert(shows_folder(rows[i], f.children[k], child_id(f, id, k), f.size, m.expanded.contains(child_id(f, id, k) as usize), base));
    } else {
        assert(rows[i] == ys[i - xs.len()]);
        let a = lemma_place_of_file(f, id, depth, by, m, base, f.files.len() as int, i - xs.len());
        let k = file_in_place(f, by, a);
        assert(shows_file(rows[i], f.files[k], id, k, f.size, base));
    }
}

/// The rows of the folders in a folder, and those of its files, are in the order of what
/// the column shows that they are sorted by: the name, the share of the whole and the size,
/// the own size, the number of files, the number of folders, the time. Those that are the
/// same there are in the order of their names. No row is there twice.
pub proof fn law_rows_are_sorted(f: FolderView, id: int, depth: int, by: SortBy, m: MarksView, base: int, i: int, j: int)
    requires
        can_be_shown(f, id, depth),
        0 <= i < j < rows_of(f, id, depth, by, m, base).len(),
        rows_of(f, id, depth, by, m, base)[i].row.depth == depth,
        rows_of(f, id, depth, by, m, base)[j].row.depth == depth,
    ensures
        ({
            let (r, s) = (rows_of(f, id, depth, by, m, base)[i], rows_of(f, id, depth, by, m, base)[j]);
            &&& r.target != s.target
            &&& r.row.is_folder && s.row.is_folder ==> exists|k: int, l: int|
                {
                    &&& 0 <= k < f.children.len()
                    &&& 0 <= l < f.children.len()
                    &&& r.target == RowTarget::Folder(child_id(f, id, k) as usize)
                    &&& s.target == RowTarget::Folder(child_id(f, id, l) as usize)
                    &&& #[trigger] folders_in_turn(by, r, f.children[k], s, f.children[l])
                }
            &&& !r.row.is_folder && !s.row.is_folder ==> files_in_turn(by, r, s)
        }),
{
    let n = live_children(f, id, m.deleted_nodes).len() as int;
    let live = live_children(f, id, m.deleted_nodes);
    let (xs, ys) = (folder_rows(f, id, depth, by, m, base, n), file_rows(f, id, depth, by, m, base, f.files.len() as int));
    let rows = rows_of(f, id, depth, by, m, base);
    lemma_file_rows_deep(f, id, depth, by, m, base, f.files.len() as int);
    lemma_live(f, id, m.deleted_nodes, f.children.len() as int);
    lemma_count_at_least(f, f.children.len() as int);
    if j < xs.len() {
        assert(rows[i] == xs[i] && rows[j] == xs[j]);
        let a = lemma_place_of_folder(f, id, depth, by, m, base, n, i);
        let b = lemma_place_of_folder(f, id, depth, by, m, base, n, j);
        if b <= a {
            lemma_folder_rows_prefix(f, id, depth, by, m, base, b, a);
        }
        lemma_child_in_place(f, id, by, m, a);
        lemma_child_in_place(f, id, by, m, b);
        let (k, l) = (child_in_place(f, id, by, m, a), child_in_place(f, id, by, m, b));
        let keys = folder_keys(f, live, by.col);
        let order = order_of(keys, by.desc);
        lemma_order_exists(keys, by.desc);
        law_order_is_permutation(order, keys, by.desc);
        assert(stands_before(keys, by.desc, order[a], order[b]));
        assert(live[order[a] as int] == k && live[order[b] as int] == l);
        let (c, d) = (f.children[k], f.children[l]);
        assert(keys[order[a] as int] == row_key(folder_num(c, by.col), c.name, by.col));
        assert(keys[order[b] as int] == row_key(folder_num(d, by.col), d.name, by.col));
        law_text_order_total(lowercase(c.name), lowercase(d.name));
        assert(c.size == rows[i].row.size && d.size == rows[j].row.size);
        assert(folders_in_turn(by, rows[i], c, rows[j], d));
        lemma_live_once(f, id, m.deleted_nodes, f.children.len() as int, order[a] as int, order[b] as int);
        lemma_ids_differ(f, id, k, l);
        assert(rows[i].target != rows[j].target);
        assert(folders_in_turn(by, rows[i], f.children[k], rows[j], f.children[l]));
    } else if i >= xs.len() {
        let (p, q) = (i - xs.len(), j - xs.len());
        assert(rows[i] == ys[p] && rows[j] == ys[q]);
        let a = lemma_place_of_file(f, id, depth, by, m, base, f.files.len() as int, p);
        let b = lemma_place_of_file(f, id, depth, by, m, base, f.files.len() as int, q);
        if b <= a {
            lemma_file_rows_grow(f, id, depth, by, m, base, b, a);
        }
        let keys = file_keys(f, by.col);
        let order = order_of(keys, by.desc);
        lemma_order_exists(keys, by.desc);
        law_order_is_permutation(order, keys, by.desc);
        assert(stands_before(keys, by.desc, order[a], order[b]));
        let (x, y) = (f.files[order[a] as int], f.files[order[b] as int]);
        assert(keys[order[a] as int] == row_key(file_num(x, by.col), x.name, by.col));
        assert(keys[order[b] as int] == row_key(file_num(y, by.col), y.name, by.col));
        law_text_order_total(lowercase(x.name), lowercase(y.name));
        assert(x.size == rows[i].row.size && y.size == rows[j].row.size);
        assert(files_in_turn(by, rows[i], rows[j]));
        assert(rows[i].target != rows[j].target);
    } else {
        assert(rows[i] == xs[i] && rows[j] == ys[j - xs.len()]);
        let a = lemma_place_of_folder(f, id, depth, by, m, base, n, i);
        let b = lemma_place_of_file(f, id, depth, by, m, base, f.files.len() as int, j - xs.len());
        assert(rows[i].target != rows[j].target);
    }
}

proof fn lemma_ids_differ(f: FolderView, id: int, k: int, l: int)
    requires
        0 <= k < f.children.len(),
        0 <= l < f.children.len(),
        k != l,
        0 <= id,
        id + folders_of(f) <= usize::MAX,
    ensures
        child_id(f, id, k) as usize != child_id(f, id, l) as usize,
{
    lemma_counts(f, k);
    lemma_counts(f, l);
    assert(child_id(f, id, k) > id && child_id(f, id, l) > id);
    let (a, b) = if k < l {
        (k, l)
    } else {
        (l, k)
    };
    lemma_before_monotonic(f, a, b);
    let c = f.children[a];
    assert(folders_of(c) == 1 + folders_before(c, c.children.len() as int));
}

proof fn lemma_live_once(f: FolderView, id: int, deleted: Set<usize>, n: int, a: int, b: int)
    requires
        0 <= n <= f.children.len(),
        0 <= a < live_below(f, id, deleted, n).len(),
        0 <= b < live_below(f, id, deleted, n).len(),
        a != b,
    ensures
        live_below(f, id, deleted, n)[a] != live_below(f, id, deleted, n)[b],
    decreases n,
{
    if n > 0 {
        let before = live_below(f, id, deleted, n - 1);
        lemma_live(f, id, deleted, n - 1);
        if a < before.len() && b < before.len() {
            lemma_live_once(f, id, deleted, n - 1, a, b);
        }
    }
}

proof fn lemma_live_all(f: FolderView, id: int, deleted: Set<usize>, n: int, k: int)
    requires
        0 <= k < n <= f.children.len(),
        !deleted.contains(child_id(f, id, k) as usize),
    ensures
        live_below(f, id, deleted, n).contains(k),
    decreases n,
{
    let now = live_below(f, id, deleted, n);
    if k < n - 1 {
        lemma_live_all(f, id, deleted, n - 1, k);
        let before = live_below(f, id, deleted, n - 1);
        let i = choose|i: int| 0 <= i < before.len() && before[i] == k;
        assert(now[i] == k);
    } else {
        assert(now[now.len() - 1] == k);
    }
}

/// Every folder in a folder has a row, unless it is deleted. Where it is opened its own
/// rows follow, one level deeper, and else nothing of it does.
pub proof fn law_every_folder_has_a_row(f: FolderView, id: int, depth: int, by: SortBy, m: MarksView, base: int, k: int)
    requires
        can_be_shown(f, id, depth),
        0 <= k < f.children.len(),
        !m.deleted_nodes.contains(child_id(f, id, k) as usize),
    ensures
        ({
            let rows = rows_of(f, id, depth, by, m, base);
            let c = f.children[k];
            let cid = child_id(f, id, k);
            let open = m.expanded.contains(cid as usize);
            let inside = if open {
                rows_of(c, cid, depth + 1, by, m, base)
            } else {
                Seq::empty()
            };
            exists|i: int|
                {
                    &&& 0 <= i < rows.len()
                    &&& rows[i].row.depth == depth
                    &&& #[trigger] shows_folder(rows[i], c, cid, f.size, open, base)
                    &&& i + 1 + inside.len() <= rows.len()
                    &&& rows.subrange(i + 1, i + 1 + inside.len()) == inside
                    &&& i + 1 + inside.len() < rows.len() ==> rows[i + 1 + inside.len() as int].row.depth
                        == depth
                }
        }),
{
    let rows = rows_of(f, id, depth, by, m, base);
    let live = live_children(f, id, m.deleted_nodes);
    let keys = folder_keys(f, live, by.col);
    let order = order_of(keys, by.desc);
    lemma_live(f, id, m.deleted_nodes, f.children.len() as int);
    lemma_count_at_least(f, f.children.len() as int);
    lemma_live_all(f, id, m.deleted_nodes, f.children.len() as int, k);
    let p = choose|p: int| 0 <= p < live.len() && live[p] == k;
    lemma_order_exists(keys, by.desc);
    law_order_is_permutation(order, keys, by.desc);
    assert(order.contains(p as usize));
    let a = choose|a: int| 0 <= a < order.len() && order[a] == p as usize;
    assert(child_in_place(f, id, by, m, a) == k);
    lemma_row_in_place(f, id, depth, by, m, base, a);
    let c = f.children[k];
    let cid = child_id(f, id, k);
    let open = m.expanded.contains(cid as usize);
    let inside = if open {
        rows_of(c, cid, depth + 1, by, m, base)
    } else {
        Seq::empty()
    };
    if open && !can_open(c) {
        lemma_no_rows(c, cid, depth + 1, by, m, base);
        assert(inside =~= Seq::empty());
    }
    let (front, upto) = (folder_rows(f, id, depth, by, m, base, a), folder_rows(f, id, depth, by, m, base, a + 1));
    let i = front.len() as int;
    assert(upto == front.push(folder_row(c, cid, depth, whole_of(f), open, base)) + inside);
    let xs = folder_rows(f, id, depth, by, m, base, live.len() as int);
    lemma_folder_rows_prefix(f, id, depth, by, m, base, a + 1, live.len() as int);
    assert(xs.take(upto.len() as int) == upto);
    assert forall|j: int| 0 <= j < upto.len() implies rows[j] == #[trigger] upto[j] by {
        assert(xs.take(upto.len() as int)[j] == xs[j]);
    }
    assert(rows[i] == upto[i]);
    assert(rows.subrange(i + 1, i + 1 + inside.len()) =~= inside) by {
        assert forall|j: int| 0 <= j < inside.len() implies rows.subrange(
            i + 1,
            i + 1 + inside.len(),
        )[j] == #[trigger] inside[j] by {
            assert(upto[i + 1 + j] == inside[j]);
            assert(rows[i + 1 + j] == upto[i + 1 + j]);
        }
    }
    let next = i + 1 + inside.len();
    if next < rows.len() {
        if a + 1 < live.len() {
            lemma_row_in_place(f, id, depth, by, m, base, a + 1);
            lemma_folder_rows_prefix(f, id, depth, by, m, base, a + 2, live.len() as int);
            let more = folder_rows(f, id, depth, by, m, base, a + 2);
            assert(xs.take(more.len() as int)[next] == more[next]);
            assert(rows[next] == more[next]);
        } else {
            let ys = file_rows(f, id, depth, by, m, base, f.files.len() as int);
            lemma_file_rows_deep(f, id, depth, by, m, base, f.files.len() as int);
            assert(rows[next] == ys[0]);
        }
    }
    assert(shows_folder(rows[i], c, cid, f.size, open, base));
}

proof fn lemma_no_rows(f: FolderView, id: int, depth: int, by: SortBy, m: MarksView, base: int)
    requires
        f.children.len() == 0,
        f.files.len() == 0,
    ensures
        rows_of(f, id, depth, by, m, base).len() == 0,
{
}

/// Every file of a folder has a row, unless it is deleted.
pub proof fn law_every_file_has_a_row(f: FolderView, id: int, depth: int, by: SortBy, m: MarksView, base: int, k: int)
    requires
        can_be_shown(f, id, depth),
        0 <= k < f.files.len(),
        !m.deleted_files.contains(FileRef { folder: id as usize, index: k as usize }),
    ensures
        exists|i: int|
            {
                &&& 0 <= i < rows_of(f, id, depth, by, m, base).len()
                &&& rows_of(f, id, depth, by, m, base)[i].row.depth == depth
                &&& #[trigger] shows_file(rows_of(f, id, depth, by, m, base)[i], f.files[k], id, k, f.size, base)
            },
{
    let rows = rows_of(f, id, depth, by, m, base);
    let keys = file_keys(f, by.col);
    let order = order_of(keys, by.desc);
    lemma_order_exists(keys, by.desc);
    law_order_is_permutation(order, keys, by.desc);
    assert(order.contains(k as usize));
    let a = choose|a: int| 0 <= a < order.len() && order[a] == k as usize;
    let (front, upto) = (file_rows(f, id, depth, by, m, base, a), file_rows(f, id, depth, by, m, base, a + 1));
    let ys = file_rows(f, id, depth, by, m, base, f.files.len() as int);
    lemma_file_rows_grow(f, id, depth, by, m, base, a + 1, f.files.len() as int);
    let p = front.len() as int;
    assert(ys.take(upto.len() as int)[p] == ys[p]);
    assert(upto[p] == file_row(f.files[k], id, k, depth, whole_of(f), base));
    let i = folder_rows(f, id, depth, by, m, base, live_children(f, id, m.deleted_nodes).len() as int).len() + p;
    assert(rows[i] == ys[p]);
    assert(shows_file(rows[i], f.files[k], id, k, f.size, base));
}

/// Every column shows what its title says, and so does its cell.
pub proof fn law_cells_show_their_columns(col: int)
    requires
        0 <= col < main_columns_of().len(),
    ensures
        ({
            let title = main_columns_of()[col].title;
            let cell = cell_of(col, false);
            &&& title == "NAME"@ ==> cell == CellText::Name
            &&& title == "% OF PARENT"@ ==> cell == CellText::Share
            &&& title == "SIZE"@ ==> cell == CellText::Size
            &&& title == "OWN SIZE"@ ==> cell == CellText::OwnSize
            &&& title == "FILES"@ ==> cell == CellText::Files
            &&& title == "FOLDERS"@ ==> cell == CellText::Folders
            &&& title == "MODIFIED"@ ==> cell == CellText::Modified
        }),
        cell_of(0, true) == CellText::Name,
        cell_of(1, true) == CellText::Marquee,
        cell_of(2, true) == CellText::Scanning,
        col > 2 ==> cell_of(col, true) == CellText::Blank,
        main_columns_of().len() == 7,
{
    reveal_strlit("NAME");
    reveal_strlit("% OF PARENT");
    reveal_strlit("SIZE");
    reveal_strlit("OWN SIZE");
    reveal_strlit("FILES");
    reveal_strlit("FOLDERS");
    reveal_strlit("MODIFIED");
    let (a, b, c, d, e, g, h) = (
        "NAME"@,
        "% OF PARENT"@,
        "SIZE"@,
        "OWN SIZE"@,
        "FILES"@,
        "FOLDERS"@,
        "MODIFIED"@,
    );
    assert(a[0] == 'N' && b[0] == '%' && c[0] == 'S' && d[0] == 'O' && e[0] == 'F' && g[0] == 'F'
        && h[0] == 'M');
    assert(e[1] == 'I' && g[1] == 'O');
}

/// The folders of a folder are listed by name, without those that are deleted: all the
/// others are, and each once.
pub proof fn law_children_by_name(f: FolderView, id: int, deleted: Set<usize>, a: int, b: int, k: int)
    requires
        folders_of(f) <= usize::MAX,
        0 <= a < b < live_children(f, id, deleted).len(),
        0 <= k < f.children.len(),
    ensures
        ({
            let live = live_children(f, id, deleted);
            let order = order_of(folder_keys(f, live, 0), false);
            let (x, y) = (live[order[a] as int], live[order[b] as int]);
            &&& 0 <= x < f.children.len() && 0 <= y < f.children.len()
            &&& x != y
            &&& !deleted.contains(child_id(f, id, x) as usize)
            &&& names_in_turn(false, f.children[x].name, f.children[y].name)
            &&& !deleted.contains(child_id(f, id, k) as usize) ==> exists|c: int|
                0 <= c < live.len() && live[#[trigger] order[c] as int] == k
        }),
{
    let live = live_children(f, id, deleted);
    let keys = folder_keys(f, live, 0);
    let order = order_of(keys, false);
    lemma_live(f, id, deleted, f.children.len() as int);
    lemma_count_at_least(f, f.children.len() as int);
    lemma_order_exists(keys, false);
    law_order_is_permutation(order, keys, false);
    assert(stands_before(keys, false, order[a], order[b]));
    let (x, y) = (live[order[a] as int], live[order[b] as int]);
    lemma_live_once(f, id, deleted, f.children.len() as int, order[a] as int, order[b] as int);
    let (c, d) = (f.children[x], f.children[y]);
    assert(keys[order[a] as int] == row_key(folder_num(c, 0), c.name, 0));
    assert(keys[order[b] as int] == row_key(folder_num(d, 0), d.name, 0));
    law_text_order_total(lowercase(c.name), lowercase(d.name));
    if !deleted.contains(child_id(f, id, k) as usize) {
        lemma_live_all(f, id, deleted, f.children.len() as int, k);
        let p = choose|p: int| 0 <= p < live.len() && live[p] == k;
        assert(order.contains(p as usize));
        let e = choose|e: int| 0 <= e < order.len() && order[e] == p as usize;
        assert(live[order[e] as int] == k);
    }
}

} // verus!
