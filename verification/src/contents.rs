//! What a scan shows of a folder: the files and folders that lie in it, as they are
//! listed, whichever way the disk is read.

use crate::listing::{
    opened, subfolders, subfolders_upto, with_files, ItemKind, ItemView, ListingView, Spot,
};
use crate::mft::laws::law_volume_is_a_tree;
use crate::mft::record::EntryView;
use crate::mft::tree::{
    children_below, enough_depth, entry_at, family, grown_by, has_parent, is_plain_dir,
    law_depth_irrelevant, shallow, subtree, volume_tree, ROOT_FRN,
};
use crate::path::{joined, joined_as, PathStyle};
use crate::types::{empty_folder, tidy, with_child, FileView, FolderView};
use crate::walk::{
    completed, is_finite, law_scanned_is_tidy, law_scanned_unfolds, scanned, Disk, WalkRules,
};
use crate::wrap::{law_wrap_absorbs, law_wrap_fits, wrap};
use vstd::prelude::*;

verus! {

pub open spec fn is_file() -> spec_fn(ItemView) -> bool {
    |it: ItemView| it.kind == ItemKind::File
}

pub open spec fn is_folder() -> spec_fn(ItemView) -> bool {
    |it: ItemView| it.kind == ItemKind::Folder
}

/// An entry of a listing, as a file that is kept.
pub open spec fn as_file() -> spec_fn(ItemView) -> FileView {
    |it: ItemView|
        FileView { name: it.name, size: it.size, last_modified_ft: it.last_modified_ft }
}

/// The files that a listing names, each with its name, size and time.
pub open spec fn files_in(items: Seq<ItemView>) -> Seq<FileView> {
    items.filter(is_file()).map_values(as_file())
}

/// The folders that a listing of `path` names.
pub open spec fn folders_in(style: PathStyle, path: Seq<char>, items: Seq<ItemView>) -> Seq<Spot> {
    items.filter(is_folder()).map_values(
        |it: ItemView| Spot { path: joined_as(style, path, it.name), name: it.name },
    )
}

/// What files amount to in bytes.
pub open spec fn bytes_of(files: Seq<FileView>) -> int {
    files.fold_left(0int, |sum: int, x: FileView| sum + x.size)
}

/// Whether `f` holds directly the files `files`, and no others: it counts them and their
/// bytes, and keeps them where files are kept.
pub open spec fn holds_files(f: FolderView, files: Seq<FileView>, track: bool) -> bool {
    &&& f.files == if track {
        files
    } else {
        Seq::empty()
    }
    &&& f.direct_file_count == wrap(files.len() as int)
    &&& f.own_size == wrap(bytes_of(files))
}

proof fn lemma_filter_push<A>(s: Seq<A>, x: A, pred: spec_fn(A) -> bool)
    ensures
        s.push(x).filter(pred) == if pred(x) {
            s.filter(pred).push(x)
        } else {
            s.filter(pred)
        },
{
    reveal(Seq::filter);
    assert(s.push(x).drop_last() =~= s);
}

proof fn lemma_bytes_push(files: Seq<FileView>, x: FileView)
    ensures
        bytes_of(files.push(x)) == bytes_of(files) + x.size,
{
    assert(files.push(x).drop_last() =~= files);
}

proof fn lemma_with_files(f: FolderView, items: Seq<ItemView>, n: int, track: bool)
    requires
        0 <= n <= items.len(),
        f == empty_folder(f.full_path, f.name, f.last_modified_ft),
    ensures
        ({
            let g = with_files(f, items, n, track);
            &&& holds_files(g, files_in(items.take(n)), track)
            &&& g.size == g.own_size && g.file_count == g.direct_file_count
            &&& g == (FolderView {
                size: g.size,
                own_size: g.own_size,
                file_count: g.file_count,
                direct_file_count: g.direct_file_count,
                files: g.files,
                ..f
            })
        }),
    decreases n,
{
    let files = files_in(items.take(n));
    if n == 0 {
        reveal(Seq::filter);
        assert(files =~= Seq::empty());
        law_wrap_fits(0);
    } else {
        lemma_with_files(f, items, n - 1, track);
        let before = files_in(items.take(n - 1));
        let it = items[n - 1];
        assert(items.take(n) =~= items.take(n - 1).push(it));
        lemma_filter_push(items.take(n - 1), it, is_file());
        if it.kind == ItemKind::File {
            let x = as_file()(it);
            assert(files =~= before.push(x));
            lemma_bytes_push(before, x);
            law_wrap_absorbs(before.len() as int, 1);
            law_wrap_absorbs(bytes_of(before), x.size);
        }
    }
}

proof fn lemma_subfolders(style: PathStyle, path: Seq<char>, items: Seq<ItemView>, n: int)
    requires
        0 <= n <= items.len(),
    ensures
        subfolders_upto(style, path, items, n) == folders_in(style, path, items.take(n)),
    decreases n,
{
    if n == 0 {
        reveal(Seq::filter);
        assert(folders_in(style, path, items.take(0)) =~= Seq::empty());
    } else {
        lemma_subfolders(style, path, items, n - 1);
        assert(items.take(n) =~= items.take(n - 1).push(items[n - 1]));
        lemma_filter_push(items.take(n - 1), items[n - 1], is_folder());
        assert(subfolders_upto(style, path, items, n) =~= folders_in(style, path, items.take(n)));
    }
}

/// A folder that was listed holds exactly the files of its listing, in order, each with
/// the name, the size and the time that the listing gives, and the folders below it are
/// exactly the folders of the listing. What is neither is passed over. A folder that may
/// not be read is marked, and holds nothing; nor does one that is not there.
pub proof fn law_folder_is_as_listed(style: PathStyle, spot: Spot, listing: ListingView, track: bool)
    ensures
        ({
            let f = opened(spot, listing, track);
            let items = match listing {
                ListingView::Items(items) => items,
                _ => Seq::empty(),
            };
            &&& f.full_path == spot.path && f.name == spot.name
            &&& holds_files(f, files_in(items), track)
            &&& f.size == f.own_size && f.file_count == f.direct_file_count
            &&& f.folder_count == 0 && f.children.len() == 0
            &&& f.is_access_denied <==> listing is Denied
            &&& subfolders(style, spot.path, listing) == folders_in(style, spot.path, items)
        }),
{
    let f = empty_folder(spot.path, spot.name, 0);
    match listing {
        ListingView::Items(items) => {
            lemma_with_files(f, items, items.len() as int, track);
            lemma_subfolders(style, spot.path, items, items.len() as int);
            assert(items.take(items.len() as int) =~= items);
        },
        _ => {
            let none = Seq::<ItemView>::empty();
            lemma_with_files(f, none, 0, track);
            lemma_subfolders(style, spot.path, none, 0);
            assert(none.take(0) =~= none);
        },
    }
}

// -------------------------------------------------------------------------- the walk

proof fn lemma_completed_children(disk: Disk, rules: WalkRules, f: FolderView, subs: Seq<Spot>)
    ensures
        ({
            let g = completed(disk, rules, f, subs);
            &&& g.children == f.children + subs.map_values(|s: Spot| scanned(disk, rules, s))
            &&& g == (FolderView {
                size: g.size,
                file_count: g.file_count,
                folder_count: g.folder_count,
                children: g.children,
                ..f
            })
        }),
    decreases subs.len(),
{
    let trees = subs.map_values(|s: Spot| scanned(disk, rules, s));
    if subs.len() == 0 {
        assert(f.children + trees =~= f.children);
    } else {
        let next = with_child(f, scanned(disk, rules, subs[0]));
        lemma_completed_children(disk, rules, next, subs.skip(1));
        assert(next.children + subs.skip(1).map_values(|s: Spot| scanned(disk, rules, s))
            =~= f.children + trees);
    }
}

/// The tree of a scan shows the disk: a folder of it holds the files that the disk lists
/// there, with their names, sizes and times, and below it stands the tree of every folder
/// that the disk lists there, in order. So it goes on for each of those. The totals of
/// every folder are those of what lies in it.
pub proof fn law_scan_shows_the_disk(disk: Disk, rules: WalkRules, spot: Spot)
    requires
        is_finite(disk, rules, spot.path),
    ensures
        ({
            let f = scanned(disk, rules, spot);
            let items = match disk(spot.path) {
                ListingView::Items(items) => items,
                _ => Seq::empty(),
            };
            let below = folders_in(rules.style, spot.path, items);
            &&& f.full_path == spot.path && f.name == spot.name
            &&& holds_files(f, files_in(items), rules.track_files)
            &&& f.is_access_denied <==> disk(spot.path) is Denied
            &&& f.children.len() == below.len()
            &&& forall|i: int|
                0 <= i < below.len() ==> is_finite(disk, rules, below[i].path)
                    && #[trigger] f.children[i] == scanned(disk, rules, below[i])
            &&& tidy(f)
        }),
{
    let listing = disk(spot.path);
    law_scanned_unfolds(disk, rules, spot);
    law_scanned_is_tidy(disk, rules, spot);
    law_folder_is_as_listed(rules.style, spot, listing, rules.track_files);
    let subs = subfolders(rules.style, spot.path, listing);
    lemma_completed_children(disk, rules, opened(spot, listing, rules.track_files), subs);
    let items = match listing {
        ListingView::Items(items) => items,
        _ => Seq::empty(),
    };
    let below = folders_in(rules.style, spot.path, items);
    let f = scanned(disk, rules, spot);
    assert forall|i: int| 0 <= i < below.len() implies is_finite(disk, rules, below[i].path)
        && #[trigger] f.children[i] == scanned(disk, rules, below[i]) by {
        assert(subs[i] == below[i]);
    }
}

// ------------------------------------------------------------------------- the table

/// Whether the entry with number `x` lies in the directory `frn`: it names it as its
/// parent. The root lies in no directory.
pub open spec fn lies_in(es: Seq<Option<EntryView>>, frn: i64) -> spec_fn(int) -> bool {
    |x: int| x != 5 && es[x] is Some && es[x]->0.parent_frn == frn
}

/// The numbers of the entries that lie in the directory `frn`, in ascending order.
pub open spec fn entries_in(es: Seq<Option<EntryView>>, frn: i64) -> Seq<int> {
    Seq::new(es.len(), |i: int| i).filter(lies_in(es, frn))
}

pub open spec fn is_file_entry(es: Seq<Option<EntryView>>) -> spec_fn(int) -> bool {
    |x: int| !es[x]->0.is_dir
}

/// Directories that are no junctions or links.
pub open spec fn is_folder_entry(es: Seq<Option<EntryView>>) -> spec_fn(int) -> bool {
    |x: int| es[x]->0.is_dir && !es[x]->0.is_reparse
}

/// The files that lie in the directory `frn`.
pub open spec fn table_files(es: Seq<Option<EntryView>>, frn: i64) -> Seq<FileView> {
    entries_in(es, frn).filter(is_file_entry(es)).map_values(entry_file(es))
}

pub open spec fn entry_file(es: Seq<Option<EntryView>>) -> spec_fn(int) -> FileView {
    |x: int|
        FileView {
            name: es[x]->0.name,
            size: es[x]->0.size,
            last_modified_ft: es[x]->0.last_write_ft,
        }
}

/// The numbers of the folders that lie in the directory `frn`.
pub open spec fn table_folders(es: Seq<Option<EntryView>>, frn: i64) -> Seq<int> {
    entries_in(es, frn).filter(is_folder_entry(es))
}

/// The tree of the directory `frn`, which lies in the folder `path`.
pub open spec fn table_tree(
    es: Seq<Option<EntryView>>,
    track: bool,
    path: Seq<char>,
    frn: i64,
) -> FolderView {
    let e = es[frn as int]->0;
    let p = joined(path, e.name);
    subtree(es, family(es), track, empty_folder(p, e.name, e.last_write_ft), p, frn)
}

proof fn lemma_children_are_entries(es: Seq<Option<EntryView>>, frn: i64, n: int)
    requires
        0 <= n <= es.len() <= i64::MAX,
        entry_at(es, frn) is Some,
    ensures
        children_below(es, frn, n).map_values(|x: i64| x as int) == Seq::new(
            n as nat,
            |i: int| i,
        ).filter(lies_in(es, frn)),
    decreases n,
{
    let numbers = Seq::new(n as nat, |i: int| i);
    if n == 0 {
        reveal(Seq::filter);
        assert(numbers.filter(lies_in(es, frn)) =~= Seq::empty());
    } else {
        lemma_children_are_entries(es, frn, n - 1);
        let before = Seq::new((n - 1) as nat, |i: int| i);
        assert(numbers =~= before.push(n - 1));
        lemma_filter_push(before, n - 1, lies_in(es, frn));
        assert(has_parent(es, n - 1, frn) == lies_in(es, frn)(n - 1));
        assert(children_below(es, frn, n).map_values(|x: i64| x as int) =~= numbers.filter(
            lies_in(es, frn),
        ));
    }
}

spec fn kids_of(es: Seq<Option<EntryView>>, frn: i64) -> Seq<i64> {
    if family(es).contains_key(frn) {
        family(es)[frn]
    } else {
        Seq::empty()
    }
}

proof fn lemma_entries_in(es: Seq<Option<EntryView>>, frn: i64)
    requires
        es.len() <= i64::MAX,
        entry_at(es, frn) is Some,
    ensures
        kids_of(es, frn).map_values(|x: i64| x as int) == entries_in(es, frn),
        forall|i: int|
            0 <= i < kids_of(es, frn).len() ==> 0 <= #[trigger] kids_of(es, frn)[i] < es.len()
                && es[kids_of(es, frn)[i] as int] is Some,
{
    lemma_children_are_entries(es, frn, es.len() as int);
    let list = children_below(es, frn, es.len() as int);
    assert(!family(es).contains_key(frn) ==> list =~= Seq::empty());
    assert forall|i: int| 0 <= i < list.len() implies 0 <= #[trigger] list[i] < es.len() && es[list[i] as int] is Some by {
        crate::mft::laws::lemma_children_of(es, frn, es.len() as int, i);
    }
}

proof fn lemma_grown_by(
    es: Seq<Option<EntryView>>,
    track: bool,
    node: FolderView,
    path: Seq<char>,
    frn: i64,
    list: Seq<i64>,
    n: int,
    depth: nat,
)
    requires
        0 <= n <= list.len(),
        es.len() <= i64::MAX,
        node == empty_folder(node.full_path, node.name, node.last_modified_ft),
        family(es).contains_key(frn),
        list == family(es)[frn],
        shallow(es, family(es), frn, depth),
        forall|i: int|
            0 <= i < list.len() ==> 0 <= #[trigger] list[i] < es.len() && es[list[i] as int] is Some,
    ensures
        ({
            let g = grown_by(es, family(es), track, node, path, list, n, depth);
            let here = list.take(n).map_values(|x: i64| x as int);
            let dirs = here.filter(is_folder_entry(es));
            &&& holds_files(g, here.filter(is_file_entry(es)).map_values(entry_file(es)), track)
            &&& g.children == dirs.map_values(|x: int| table_tree(es, track, path, x as i64))
            &&& g == (FolderView {
                size: g.size,
                own_size: g.own_size,
                file_count: g.file_count,
                direct_file_count: g.direct_file_count,
                folder_count: g.folder_count,
                files: g.files,
                children: g.children,
                ..node
            })
        }),
    decreases n,
{
    let g = grown_by(es, family(es), track, node, path, list, n, depth);
    let here = list.take(n).map_values(|x: i64| x as int);
    let files = here.filter(is_file_entry(es)).map_values(entry_file(es));
    let dirs = here.filter(is_folder_entry(es));
    if n == 0 {
        reveal(Seq::filter);
        assert(files =~= Seq::empty());
        assert(g.children =~= dirs.map_values(|x: int| table_tree(es, track, path, x as i64)));
        law_wrap_fits(0);
    } else {
        lemma_grown_by(es, track, node, path, frn, list, n - 1, depth);
        let acc = grown_by(es, family(es), track, node, path, list, n - 1, depth);
        let before = list.take(n - 1).map_values(|x: i64| x as int);
        let x = list[n - 1] as int;
        assert(here =~= before.push(x));
        lemma_filter_push(before, x, is_file_entry(es));
        lemma_filter_push(before, x, is_folder_entry(es));
        let e = es[x]->0;
        assert(entry_at(es, list[n - 1]) == es[x]);
        let old_files = before.filter(is_file_entry(es)).map_values(entry_file(es));
        let old_dirs = before.filter(is_folder_entry(es));
        if !e.is_dir {
            let y = entry_file(es)(x);
            assert(files =~= old_files.push(y));
            lemma_bytes_push(old_files, y);
            law_wrap_absorbs(old_files.len() as int, 1);
            law_wrap_absorbs(bytes_of(old_files), y.size);
        } else if !e.is_reparse {
            assert(is_plain_dir(es, list[n - 1]));
            let d = (depth - 1) as nat;
            let p = joined(path, e.name);
            let fresh = empty_folder(p, e.name, e.last_write_ft);
            assert(shallow(es, family(es), list[n - 1], d));
            law_depth_irrelevant(
                es,
                family(es),
                track,
                fresh,
                p,
                list[n - 1],
                d,
                enough_depth(es, family(es), list[n - 1]),
            );
            assert(g.children =~= dirs.map_values(|x: int| table_tree(es, track, path, x as i64)));
        }
    }
}

/// The tree that is built from a table shows what the table says: a folder of it holds
/// the files whose entries name it as their parent, with the names, sizes and times that
/// the entries give, and below it stands the tree of every directory whose entry does, but
/// for junctions and links. So it goes on for each of those.
pub proof fn law_scan_shows_the_table(
    es: Seq<Option<EntryView>>,
    track: bool,
    path: Seq<char>,
    frn: i64,
    depth: nat,
)
    requires
        es.len() <= i64::MAX,
        entry_at(es, frn) is Some,
        shallow(es, family(es), frn, depth),
    ensures
        ({
            let e = es[frn as int]->0;
            let f = table_tree(es, track, path, frn);
            let below = table_folders(es, frn);
            &&& f.full_path == joined(path, e.name) && f.name == e.name && f.last_modified_ft
                == e.last_write_ft
            &&& holds_files(f, table_files(es, frn), track)
            &&& f.children == below.map_values(
                |x: int| table_tree(es, track, f.full_path, x as i64),
            )
        }),
{
    let e = es[frn as int]->0;
    let p = joined(path, e.name);
    lemma_subtree(es, track, empty_folder(p, e.name, e.last_write_ft), p, frn, depth);
}

proof fn lemma_subtree(
    es: Seq<Option<EntryView>>,
    track: bool,
    node: FolderView,
    path: Seq<char>,
    frn: i64,
    depth: nat,
)
    requires
        es.len() <= i64::MAX,
        entry_at(es, frn) is Some,
        shallow(es, family(es), frn, depth),
        node == empty_folder(node.full_path, node.name, node.last_modified_ft),
    ensures
        ({
            let f = subtree(es, family(es), track, node, path, frn);
            &&& f.full_path == node.full_path && f.name == node.name && f.last_modified_ft
                == node.last_modified_ft
            &&& holds_files(f, table_files(es, frn), track)
            &&& f.children == table_folders(es, frn).map_values(
                |x: int| table_tree(es, track, path, x as i64),
            )
        }),
{
    let d = enough_depth(es, family(es), frn);
    lemma_entries_in(es, frn);
    let list = kids_of(es, frn);
    if family(es).contains_key(frn) {
        lemma_grown_by(es, track, node, path, frn, list, list.len() as int, d);
        assert(list.take(list.len() as int) =~= list);
    } else {
        reveal(Seq::filter);
        assert(entries_in(es, frn) =~= Seq::empty());
        assert(table_files(es, frn) =~= Seq::empty());
        assert(node.children =~= table_folders(es, frn).map_values(
            |x: int| table_tree(es, track, path, x as i64),
        ));
        law_wrap_fits(0);
    }
}

/// The tree of a volume begins at its root: that holds the files and folders whose
/// entries name entry 5 as their parent.
pub proof fn law_volume_begins_at_root(es: Seq<Option<EntryView>>, drive: char, track: bool)
    requires
        5 < es.len() <= i64::MAX,
        es[5] is Some,
    ensures
        ({
            let f = volume_tree(es, drive, track);
            &&& f.full_path == seq![drive, ':', '\\'] && f.name == f.full_path
                && f.last_modified_ft == es[5]->0.last_write_ft
            &&& holds_files(f, table_files(es, 5), track)
            &&& f.children == table_folders(es, 5).map_values(
                |x: int| table_tree(es, track, f.full_path, x as i64),
            )
        }),
{
    law_volume_is_a_tree(es);
    let path = seq![drive, ':', '\\'];
    lemma_subtree(
        es,
        track,
        empty_folder(path, path, es[5]->0.last_write_ft),
        path,
        ROOT_FRN,
        es.len(),
    );
}

} // verus!
