//! What one folder holds, as an operating system lists it, and what a scan makes of it.

use crate::path::{join_as, joined_as, PathStyle};
use crate::types::{empty_folder, with_file, FileView, FolderNode, FolderView};
use crate::utf16::{decode, until_nul, wstr_to_string};
use crate::wrap::wrap;
use vstd::prelude::*;

verus! {

/// What kind of thing an entry of a folder is.
#[derive(Copy, Clone, Debug, PartialEq, Eq, Structural)]
pub enum ItemKind {
    /// A folder to go down into.
    Folder,
    /// A file, which counts.
    File,
    /// A link, junction or device, which is passed over.
    Other,
}

/// One entry of a folder.
#[derive(Debug)]
pub struct DirItem {
    pub name: String,
    pub kind: ItemKind,
    pub size: i64,
    pub last_modified_ft: i64,
}

/// The answer to the question what a folder holds.
#[derive(Debug)]
pub enum Listing {
    /// The folder may not be read.
    Denied,
    /// The folder is not there, or cannot be read for another reason.
    Missing,
    /// What it holds, in the order it was listed.
    Items(Vec<DirItem>),
}

pub struct ItemView {
    pub name: Seq<char>,
    pub kind: ItemKind,
    pub size: int,
    pub last_modified_ft: int,
}

pub enum ListingView {
    Denied,
    Missing,
    Items(Seq<ItemView>),
}

impl View for DirItem {
    type V = ItemView;

    open spec fn view(&self) -> ItemView {
        ItemView {
            name: self.name@,
            kind: self.kind,
            size: self.size as int,
            last_modified_ft: self.last_modified_ft as int,
        }
    }
}

impl View for Listing {
    type V = ListingView;

    open spec fn view(&self) -> ListingView {
        match self {
            Listing::Denied => ListingView::Denied,
            Listing::Missing => ListingView::Missing,
            Listing::Items(v) => ListingView::Items(v@.map_values(|i: DirItem| i@)),
        }
    }
}

/// A folder that is still to be listed.
#[derive(Debug)]
pub struct Subfolder {
    pub path: String,
    pub name: String,
}

pub struct Spot {
    pub path: Seq<char>,
    pub name: Seq<char>,
}

impl View for Subfolder {
    type V = Spot;

    open spec fn view(&self) -> Spot {
        Spot { path: self.path@, name: self.name@ }
    }
}

pub open spec fn spots(subs: Seq<Subfolder>) -> Seq<Spot> {
    subs.map_values(|s: Subfolder| s@)
}

/// `f` with the files among the first `n` of `items` added to it.
pub open spec fn with_files(f: FolderView, items: Seq<ItemView>, n: int, track: bool) -> FolderView
    decreases n,
{
    if n <= 0 {
        f
    } else {
        let acc = with_files(f, items, n - 1, track);
        let it = items[n - 1];
        if it.kind == ItemKind::File {
            with_file(
                acc,
                FileView { name: it.name, size: it.size, last_modified_ft: it.last_modified_ft },
                track,
            )
        } else {
            acc
        }
    }
}

/// The folders among the first `n` of `items`, which lie in `path`.
pub open spec fn subfolders_upto(
    style: PathStyle,
    path: Seq<char>,
    items: Seq<ItemView>,
    n: int,
) -> Seq<Spot>
    decreases n,
{
    if n <= 0 {
        Seq::empty()
    } else {
        let acc = subfolders_upto(style, path, items, n - 1);
        let it = items[n - 1];
        if it.kind == ItemKind::Folder {
            acc.push(Spot { path: joined_as(style, path, it.name), name: it.name })
        } else {
            acc
        }
    }
}

/// The folder at `spot` with the files that its listing names, before anything
/// below it is added.
pub open spec fn opened(spot: Spot, listing: ListingView, track: bool) -> FolderView {
    let f = empty_folder(spot.path, spot.name, 0);
    match listing {
        ListingView::Denied => FolderView { is_access_denied: true, ..f },
        ListingView::Missing => f,
        ListingView::Items(items) => with_files(f, items, items.len() as int, track),
    }
}

/// The folders that a listing of `path` names.
pub open spec fn subfolders(style: PathStyle, path: Seq<char>, listing: ListingView) -> Seq<Spot> {
    match listing {
        ListingView::Items(items) => subfolders_upto(style, path, items, items.len() as int),
        _ => Seq::empty(),
    }
}

/// Makes a folder of its listing, and says which folders below are still to be
/// listed.
pub fn open_folder(style: PathStyle, spot: Subfolder, listing: &Listing, track_files: bool) -> (r: (
    FolderNode,
    Vec<Subfolder>,
))
    ensures
        r.0@ == opened(spot@, listing@, track_files),
        spots(r.1@) == subfolders(style, spot@.path, listing@),
{
    let path = spot.path.clone();
    let mut node = FolderNode::new(spot.path, spot.name, 0);
    let mut subs: Vec<Subfolder> = Vec::new();
    match listing {
        Listing::Denied => {
            let ghost before = node@;
            node.is_access_denied = true;
            assert(node@.children =~= before.children);
            assert(node@.files =~= before.files);
        },
        Listing::Missing => {},
        Listing::Items(items) => {
            let ghost base = node@;
            let ghost its = items@.map_values(|i: DirItem| i@);
            let mut i: usize = 0;
            assert(spots(subs@) =~= subfolders_upto(style, path@, its, 0));
            while i < items.len()
                invariant
                    i <= items.len(),
                    its == items@.map_values(|i: DirItem| i@),
                    node@ == with_files(base, its, i as int, track_files),
                    spots(subs@) == subfolders_upto(style, path@, its, i as int),
                decreases items.len() - i,
            {
                let it = &items[i];
                assert(its[i as int] == it@);
                match it.kind {
                    ItemKind::File => {
                        node.add_file(it.name.as_str(), it.size, it.last_modified_ft, track_files);
                    },
                    ItemKind::Folder => {
                        let ghost before = spots(subs@);
                        let sub = Subfolder {
                            path: join_as(style, path.as_str(), it.name.as_str()),
                            name: it.name.clone(),
                        };
                        subs.push(sub);
                        assert(spots(subs@) =~= before.push(sub@));
                    },
                    ItemKind::Other => {},
                }
                i += 1;
            }
        },
    }
    assert(spots(subs@) =~= subfolders(style, path@, listing@));
    (node, subs)
}

/// The kind of an entry with these Windows attributes: a directory (bit 4) that is
/// a reparse point (bit 10) is a junction or link; anything that is no directory
/// counts as a file.
pub open spec fn kind_of(attributes: u32) -> ItemKind {
    if (attributes / 0x10) % 2 == 1 {
        if (attributes / 0x400) % 2 == 1 {
            ItemKind::Other
        } else {
            ItemKind::Folder
        }
    } else {
        ItemKind::File
    }
}

/// The signed 64-bit number with these upper and lower halves.
pub open spec fn from_halves(high: u32, low: u32) -> int {
    wrap(high * 0x1_0000_0000 + low)
}

fn join_halves(high: u32, low: u32) -> (r: i64)
    ensures
        r == from_halves(high, low),
{
    proof {
        reveal(wrap);
    }
    if high >= 0x8000_0000 {
        // The upper half carries the sign.
        -((0xFFFF_FFFF - high) as i64 * 0x1_0000_0000 + (0xFFFF_FFFF - low) as i64) - 1
    } else {
        high as i64 * 0x1_0000_0000 + low as i64
    }
}

/// Whether `name` stands for the folder itself or the one above it.
pub open spec fn is_dots(name: Seq<char>) -> bool {
    name == seq!['.'] || name == seq!['.', '.']
}

/// One entry as Windows reports it: its name in a NUL-terminated buffer, its
/// attributes, and its size and time of last write in halves.
pub fn item_from_find(
    name: &[u16],
    attributes: u32,
    size_high: u32,
    size_low: u32,
    time_high: u32,
    time_low: u32,
) -> (r: Option<DirItem>)
    ensures
        r is None <==> is_dots(decode(until_nul(name@))),
        r is Some ==> r->0@ == (ItemView {
            name: decode(until_nul(name@)),
            kind: kind_of(attributes),
            size: from_halves(size_high, size_low),
            last_modified_ft: from_halves(time_high, time_low),
        }),
{
    let name = wstr_to_string(name);
    let n: usize = name.as_str().unicode_len();
    if n == 1 && name.as_str().get_char(0) == '.' {
        assert(name@ =~= seq!['.']);
        return None;
    }
    if n == 2 && name.as_str().get_char(0) == '.' && name.as_str().get_char(1) == '.' {
        assert(name@ =~= seq!['.', '.']);
        return None;
    }
    let kind = if (attributes / 0x10) % 2 == 1 {
        if (attributes / 0x400) % 2 == 1 {
            ItemKind::Other
        } else {
            ItemKind::Folder
        }
    } else {
        ItemKind::File
    };
    Some(
        DirItem {
            name,
            kind,
            size: join_halves(size_high, size_low),
            last_modified_ft: join_halves(time_high, time_low),
        },
    )
}

/// The kind of an entry as a portable listing reports it: links are passed over
/// even where they lead to a folder or a file.
pub fn kind_from_file_type(is_symlink: bool, is_dir: bool, is_file: bool) -> (r: ItemKind)
    ensures
        r == (if is_symlink {
            ItemKind::Other
        } else if is_dir {
            ItemKind::Folder
        } else if is_file {
            ItemKind::File
        } else {
            ItemKind::Other
        }),
{
    if is_symlink {
        ItemKind::Other
    } else if is_dir {
        ItemKind::Folder
    } else if is_file {
        ItemKind::File
    } else {
        ItemKind::Other
    }
}

/// Bit 4 of the attributes says that an entry is a directory, and bit 10 that it leads
/// elsewhere: a folder is a directory that does not.
pub proof fn law_kind_by_bits(attributes: u32)
    ensures
        kind_of(attributes) == ItemKind::Folder <==> attributes & 0x10 != 0 && attributes & 0x400
            == 0,
        kind_of(attributes) == ItemKind::Other <==> attributes & 0x10 != 0 && attributes & 0x400
            != 0,
        kind_of(attributes) == ItemKind::File <==> attributes & 0x10 == 0,
{
    assert((attributes / 0x10) % 2 == 1 <==> attributes & 0x10 != 0) by (bit_vector);
    assert((attributes / 0x400) % 2 == 1 <==> attributes & 0x400 != 0) by (bit_vector);
}

/// A number in two halves is the upper one times 2^32 and the lower one.
pub proof fn law_halves(high: u32, low: u32)
    ensures
        high < 0x8000_0000 ==> from_halves(high, low) == high * 0x1_0000_0000 + low,
        high >= 0x8000_0000 ==> from_halves(high, low) == high * 0x1_0000_0000 + low
            - 0x1_0000_0000_0000_0000,
{
    reveal(wrap);
}

/// Only one or two dots stand for the folder itself or the one above it: any other name is
/// that of an entry.
pub proof fn law_dots_are_no_entries(name: Seq<char>)
    ensures
        is_dots(name) <==> (name.len() == 1 || name.len() == 2) && forall|i: int|
            0 <= i < name.len() ==> #[trigger] name[i] == '.',
{
    if name.len() == 1 && name[0] == '.' {
        assert(name =~= seq!['.']);
    }
    if name.len() == 2 && name[0] == '.' && name[1] == '.' {
        assert(name =~= seq!['.', '.']);
    }
}

} // verus!
