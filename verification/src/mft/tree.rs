//! Assembling the folder tree of a volume from the entries of its Master File
//! Table, which know only their parents.

use crate::mft::laws::law_volume_is_a_tree;
use crate::mft::record::{EntryView, MftEntry};
use crate::path::{join_path, joined};
use crate::types::{empty_folder, with_child, with_file, FileView, FolderNode, FolderView};
use std::collections::HashMap;
use vstd::prelude::*;

verus! {

broadcast use vstd::std_specs::hash::group_hash_axioms;

/// The record number of the root directory of a volume.
pub const ROOT_FRN: i64 = 5;

/// What the slots of a table hold.
pub open spec fn slots(entries: Seq<Option<MftEntry>>) -> Seq<Option<EntryView>> {
    Seq::new(
        entries.len(),
        |i: int|
            match entries[i] {
                Some(e) => Some(e@),
                None => None,
            },
    )
}

/// The lists of children that a map from parents holds.
pub open spec fn links(kids: Map<i64, Vec<i64>>) -> Map<i64, Seq<i64>> {
    kids.map_values(|v: Vec<i64>| v@)
}

/// The entry with number `frn`, where there is one.
pub open spec fn entry_at(es: Seq<Option<EntryView>>, frn: i64) -> Option<EntryView> {
    if 0 <= frn < es.len() {
        es[frn as int]
    } else {
        None
    }
}

/// Whether the tree goes on below `frn`: a directory that is no junction or link.
pub open spec fn is_plain_dir(es: Seq<Option<EntryView>>, frn: i64) -> bool {
    match entry_at(es, frn) {
        Some(e) => e.is_dir && !e.is_reparse,
        None => false,
    }
}

/// Whether no chain of directories below `frn` has more than `depth` links.
pub open spec fn shallow(
    es: Seq<Option<EntryView>>,
    kids: Map<i64, Seq<i64>>,
    frn: i64,
    depth: nat,
) -> bool
    decreases depth,
{
    kids.contains_key(frn) ==> forall|i: int|
        0 <= i < kids[frn].len() && is_plain_dir(es, #[trigger] kids[frn][i]) ==> depth > 0
            && shallow(es, kids, kids[frn][i], (depth - 1) as nat)
}

/// `node` after the first `n` of its children `list` were added to it.
///
/// Children without an entry are passed over, and so are directory junctions and
/// links, whose target lies elsewhere in the tree. Any other directory is added
/// with all that lies below it, and a file with its size. `depth` bounds how far
/// down the tree goes.
pub open spec fn grown_by(
    es: Seq<Option<EntryView>>,
    kids: Map<i64, Seq<i64>>,
    track: bool,
    node: FolderView,
    path: Seq<char>,
    list: Seq<i64>,
    n: int,
    depth: nat,
) -> FolderView
    decreases depth, 1int, n,
{
    if n <= 0 {
        node
    } else {
        let acc = grown_by(es, kids, track, node, path, list, n - 1, depth);
        let frn = list[n - 1];
        match entry_at(es, frn) {
            None => acc,
            Some(e) => if e.is_dir && (e.is_reparse || depth == 0) {
                acc
            } else if e.is_dir {
                let p = joined(path, e.name);
                with_child(
                    acc,
                    grown(
                        es,
                        kids,
                        track,
                        empty_folder(p, e.name, e.last_write_ft),
                        p,
                        frn,
                        (depth - 1) as nat,
                    ),
                )
            } else {
                with_file(
                    acc,
                    FileView { name: e.name, size: e.size, last_modified_ft: e.last_write_ft },
                    track,
                )
            },
        }
    }
}

/// `node`, which stands for the directory `frn`, with everything below it.
pub open spec fn grown(
    es: Seq<Option<EntryView>>,
    kids: Map<i64, Seq<i64>>,
    track: bool,
    node: FolderView,
    path: Seq<char>,
    frn: i64,
    depth: nat,
) -> FolderView
    decreases depth, 2int,
{
    if kids.contains_key(frn) {
        grown_by(es, kids, track, node, path, kids[frn], kids[frn].len() as int, depth)
    } else {
        node
    }
}

/// How far down a tree may go makes no difference to it, as long as it is far enough.
pub proof fn law_depth_irrelevant(
    es: Seq<Option<EntryView>>,
    kids: Map<i64, Seq<i64>>,
    track: bool,
    node: FolderView,
    path: Seq<char>,
    frn: i64,
    d: nat,
    e: nat,
)
    requires
        shallow(es, kids, frn, d),
        shallow(es, kids, frn, e),
    ensures
        grown(es, kids, track, node, path, frn, d) == grown(es, kids, track, node, path, frn, e),
    decreases d, 2int, 0int,
{
    if kids.contains_key(frn) {
        lemma_depth_irrelevant_by(es, kids, track, node, path, frn, kids[frn].len() as int, d, e);
    }
}

proof fn lemma_depth_irrelevant_by(
    es: Seq<Option<EntryView>>,
    kids: Map<i64, Seq<i64>>,
    track: bool,
    node: FolderView,
    path: Seq<char>,
    frn: i64,
    n: int,
    d: nat,
    e: nat,
)
    requires
        kids.contains_key(frn),
        n <= kids[frn].len(),
        shallow(es, kids, frn, d),
        shallow(es, kids, frn, e),
    ensures
        grown_by(es, kids, track, node, path, kids[frn], n, d) == grown_by(
            es,
            kids,
            track,
            node,
            path,
            kids[frn],
            n,
            e,
        ),
    decreases d, 1int, n,
{
    if n > 0 {
        lemma_depth_irrelevant_by(es, kids, track, node, path, frn, n - 1, d, e);
        let kid = kids[frn][n - 1];
        if is_plain_dir(es, kid) {
            let entry = entry_at(es, kid)->0;
            let p = joined(path, entry.name);
            assert(d > 0 && e > 0);
            law_depth_irrelevant(
                es,
                kids,
                track,
                empty_folder(p, entry.name, entry.last_write_ft),
                p,
                kid,
                (d - 1) as nat,
                (e - 1) as nat,
            );
        }
    }
}

/// A depth that no chain of directories below `frn` passes.
pub open spec fn enough_depth(es: Seq<Option<EntryView>>, kids: Map<i64, Seq<i64>>, frn: i64) -> nat {
    choose|d: nat| shallow(es, kids, frn, d)
}

/// `node`, which stands for the directory `frn`, with everything below it, where
/// no directory lies below itself.
pub open spec fn subtree(
    es: Seq<Option<EntryView>>,
    kids: Map<i64, Seq<i64>>,
    track: bool,
    node: FolderView,
    path: Seq<char>,
    frn: i64,
) -> FolderView {
    grown(es, kids, track, node, path, frn, enough_depth(es, kids, frn))
}

/// Adds to `node`, which stands for the directory `frn` at `node_path`, everything
/// that lies below it.
pub fn build_subtree(
    frn: i64,
    node: &mut FolderNode,
    node_path: &str,
    entries: &[Option<MftEntry>],
    kids: &HashMap<i64, Vec<i64>>,
    track_files: bool,
)
    requires
        exists|d: nat| shallow(slots(entries@), links(kids@), frn, d),
    ensures
        final(node)@ == subtree(
            slots(entries@),
            links(kids@),
            track_files,
            old(node)@,
            node_path@,
            frn,
        ),
{
    let ghost d = enough_depth(slots(entries@), links(kids@), frn);
    grow(frn, node, node_path, entries, kids, track_files, Ghost(d));
}

fn grow(
    frn: i64,
    node: &mut FolderNode,
    node_path: &str,
    entries: &[Option<MftEntry>],
    kids: &HashMap<i64, Vec<i64>>,
    track_files: bool,
    Ghost(depth): Ghost<nat>,
)
    requires
        shallow(slots(entries@), links(kids@), frn, depth),
    ensures
        final(node)@ == grown(
            slots(entries@),
            links(kids@),
            track_files,
            old(node)@,
            node_path@,
            frn,
            depth,
        ),
    decreases depth,
{
    let ghost es = slots(entries@);
    let ghost ks = links(kids@);
    let ghost start = node@;
    let list = match kids.get(&frn) {
        Some(v) => v,
        None => {
            return ;
        },
    };
    assert(ks[frn] == list@);
    let mut i: usize = 0;
    while i < list.len()
        invariant
            i <= list.len(),
            es == slots(entries@),
            ks == links(kids@),
            ks.contains_key(frn),
            ks[frn] == list@,
            shallow(es, ks, frn, depth),
            node@ == grown_by(es, ks, track_files, start, node_path@, list@, i as int, depth),
        decreases list.len() - i,
    {
        let kid: i64 = list[i];
        assert(ks[frn][i as int] == kid);
        if kid >= 0 && (kid as u64) < entries.len() as u64 {
            assert(es[kid as int] == match entries@[kid as int] {
                Some(e) => Some(e@),
                None => None,
            });
            if let Some(c) = &entries[kid as usize] {
                assert(entry_at(es, kid) == Some(c@));
                if c.is_dir {
                    if !c.is_reparse {
                        assert(is_plain_dir(es, ks[frn][i as int]));
                        let path = join_path(node_path, c.name.as_str());
                        let mut child = FolderNode::new(
                            path.clone(),
                            c.name.clone(),
                            c.last_write_ft,
                        );
                        grow(
                            kid,
                            &mut child,
                            path.as_str(),
                            entries,
                            kids,
                            track_files,
                            Ghost((depth - 1) as nat),
                        );
                        node.adopt(child);
                    }
                } else {
                    node.add_file(c.name.as_str(), c.size, c.last_write_ft, track_files);
                }
            }
        }
        i += 1;
    }
}

// ------------------------------------------------------------ the whole volume

/// Whether entry `frn` is listed under its parent: it is not the root, and its
/// parent is an entry of the table.
pub open spec fn has_parent(es: Seq<Option<EntryView>>, frn: int, parent: i64) -> bool {
    &&& frn != ROOT_FRN
    &&& es[frn] is Some
    &&& es[frn]->0.parent_frn == parent
    &&& entry_at(es, parent) is Some
}

/// The entries below `n` whose parent is `parent`, in ascending order.
pub open spec fn children_below(es: Seq<Option<EntryView>>, parent: i64, n: int) -> Seq<i64>
    decreases n,
{
    if n <= 0 {
        Seq::empty()
    } else {
        let rest = children_below(es, parent, n - 1);
        if has_parent(es, n - 1, parent) {
            rest.push((n - 1) as i64)
        } else {
            rest
        }
    }
}

/// The children of every entry of a table that has some, among the entries below `n`.
pub open spec fn family_below(es: Seq<Option<EntryView>>, n: int) -> Map<i64, Seq<i64>> {
    Map::new(
        |p: i64| children_below(es, p, n).len() > 0,
        |p: i64| children_below(es, p, n),
    )
}

/// The children of every entry of a table that has some.
pub open spec fn family(es: Seq<Option<EntryView>>) -> Map<i64, Seq<i64>> {
    family_below(es, es.len() as int)
}

/// The path of a volume's root: `C:\`.
pub open spec fn root_path(drive: char) -> Seq<char> {
    seq![drive, ':', '\\']
}

/// The folder tree of a volume: the root, with everything that its parent links
/// lead to.
pub open spec fn volume_tree(es: Seq<Option<EntryView>>, drive: char, track: bool) -> FolderView {
    subtree(
        es,
        family(es),
        track,
        empty_folder(root_path(drive), root_path(drive), es[5]->0.last_write_ft),
        root_path(drive),
        ROOT_FRN,
    )
}

/// Collects the children of every entry.
fn collect_kids(entries: &Vec<Option<MftEntry>>) -> (kids: HashMap<i64, Vec<i64>>)
    requires
        entries.len() <= i64::MAX,
    ensures
        links(kids@) == family(slots(entries@)),
{
    let mut kids: HashMap<i64, Vec<i64>> = HashMap::new();
    let ghost es = slots(entries@);
    let mut i: usize = 0;
    assert(links(kids@) =~= family_below(es, 0));
    while i < entries.len()
        invariant
            i <= entries.len() <= i64::MAX,
            es == slots(entries@),
            links(kids@) == family_below(es, i as int),
        decreases entries.len() - i,
    {
        let ghost before = kids@;
        let mut parent: Option<i64> = None;
        if i != 5 {
            if let Some(e) = &entries[i] {
                let pf: i64 = e.parent_frn;
                if pf >= 0 && (pf as u64) < entries.len() as u64 {
                    if let Some(_) = &entries[pf as usize] {
                        parent = Some(pf);
                    }
                }
            }
        }
        assert(forall|p: i64| #[trigger] has_parent(es, i as int, p) <==> parent == Some(p));
        if let Some(pf) = parent {
            let mut list: Vec<i64> = match kids.remove(&pf) {
                Some(v) => v,
                None => Vec::new(),
            };
            assert(list@ =~= children_below(es, pf, i as int)) by {
                if before.contains_key(pf) {
                    assert(links(before).contains_key(pf));
                    assert(links(before)[pf] == before[pf]@);
                } else {
                    assert(!links(before).contains_key(pf));
                }
            }
            list.push(i as i64);
            kids.insert(pf, list);
            assert(has_parent(es, i as int, pf));
            assert(kids@ =~= before.insert(pf, list));
        }
        proof {
            let a = links(kids@);
            let b = family_below(es, i + 1);
            assert forall|p: i64|
                (#[trigger] a.dom().contains(p) == b.dom().contains(p)) && (a.dom().contains(p)
                    ==> a[p] == b[p]) by {
                if parent != Some(p) {
                    assert(!has_parent(es, i as int, p));
                    assert(children_below(es, p, i + 1) == children_below(es, p, i as int));
                    assert(kids@.contains_key(p) == before.contains_key(p));
                    assert(links(before).contains_key(p) == family_below(es, i as int).contains_key(p));
                    if a.contains_key(p) {
                        assert(links(before)[p] == family_below(es, i as int)[p]);
                    }
                }
            }
            assert(a.dom() =~= b.dom());
            assert(a =~= b);
        }
        i += 1;
    }
    kids
}

/// Builds the folder tree of a volume from its table.
pub fn build_tree(entries: Vec<Option<MftEntry>>, drive: char, track_files: bool) -> (r: Result<
    FolderNode,
    String,
>)
    requires
        entries.len() <= i64::MAX,
    ensures
        r is Ok <==> entry_at(slots(entries@), ROOT_FRN) is Some,
        r is Ok ==> r->Ok_0@ == volume_tree(slots(entries@), drive, track_files),
        r is Err ==> r->Err_0@ == "MFT root entry (FRN 5) not found."@,
{
    let ghost es = slots(entries@);
    if entries.len() <= 5 {
        return Err("MFT root entry (FRN 5) not found.".to_owned());
    }
    assert(es[5] == match entries@[5] {
        Some(e) => Some(e@),
        None => None,
    });
    let root_ft: i64 = match &entries[5] {
        Some(e) => e.last_write_ft,
        None => {
            return Err("MFT root entry (FRN 5) not found.".to_owned());
        },
    };
    let kids = collect_kids(&entries);
    let mut path = String::new();
    path.push(drive);
    path.push(':');
    path.push('\\');
    assert(path@ =~= root_path(drive));
    let mut root = FolderNode::new(path.clone(), path.clone(), root_ft);
    proof {
        law_volume_is_a_tree(es);
    }
    build_subtree(ROOT_FRN, &mut root, path.as_str(), entries.as_slice(), &kids, track_files);
    Ok(root)
}

} // verus!
