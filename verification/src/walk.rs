//! Walking a folder tree: which folder to list next, and what the answers add up to.
//!
//! A `Walk` never reads a disk. It says which folder it wants listed, is handed the
//! listing, and in the end holds the finished tree.

use crate::listing::{
    open_folder, opened, spots, subfolders, with_files, ItemView, Listing, ListingView, Spot,
    Subfolder,
};
use crate::numbering::{folders_before, folders_of};
use crate::path::PathStyle;
use crate::progress::{is_due, percent_walked, report_due, walk_percent, ScanProgress};
use crate::scanner::{is_plain, ScanSettings};
use crate::text::{trim, trimmed};
use crate::types::{
    empty_folder, law_child_keeps_tidy, law_empty_is_tidy, law_file_keeps_tidy, tidy, with_child,
    FileView, FolderNode, FolderView,
};
use std::sync::atomic::{AtomicBool, Ordering};
use std::sync::Arc;
use vstd::prelude::*;

verus! {

/// What every folder of a disk holds.
pub type Disk = spec_fn(Seq<char>) -> ListingView;

/// How a scan treats what it finds.
#[derive(Copy, Clone, Debug, PartialEq, Eq, Structural)]
pub struct WalkRules {
    pub style: PathStyle,
    /// Whether single files are kept, or only counted.
    pub track_files: bool,
}

/// Whether no chain of folders below `path` has more than `depth` links.
pub open spec fn shallow_disk(disk: Disk, rules: WalkRules, path: Seq<char>, depth: nat) -> bool
    decreases depth, 0int,
{
    let subs = subfolders(rules.style, path, disk(path));
    subs.len() > 0 ==> depth > 0 && all_shallow(disk, rules, subs, (depth - 1) as nat)
}

/// Whether that holds below each of `subs`.
pub open spec fn all_shallow(disk: Disk, rules: WalkRules, subs: Seq<Spot>, depth: nat) -> bool
    decreases depth, 1int,
{
    forall|i: int|
        0 <= i < subs.len() ==> shallow_disk(disk, rules, (#[trigger] subs[i]).path, depth)
}

/// `f` with the first `n` of the folders `subs` added, each with all that lies below.
pub open spec fn with_subfolders(
    disk: Disk,
    rules: WalkRules,
    f: FolderView,
    subs: Seq<Spot>,
    n: int,
    depth: nat,
) -> FolderView
    decreases depth, 1int, n,
{
    if n <= 0 {
        f
    } else {
        let acc = with_subfolders(disk, rules, f, subs, n - 1, depth);
        with_child(
            acc,
            if depth == 0 {
                arbitrary()
            } else {
                scanned_to(disk, rules, subs[n - 1], (depth - 1) as nat)
            },
        )
    }
}

/// The tree of the folder at `spot`, where nothing lies deeper than `depth`.
pub open spec fn scanned_to(disk: Disk, rules: WalkRules, spot: Spot, depth: nat) -> FolderView
    decreases depth, 2int, 0int,
{
    let subs = subfolders(rules.style, spot.path, disk(spot.path));
    with_subfolders(
        disk,
        rules,
        opened(spot, disk(spot.path), rules.track_files),
        subs,
        subs.len() as int,
        depth,
    )
}

/// Whether the tree below `path` ends.
pub open spec fn is_finite(disk: Disk, rules: WalkRules, path: Seq<char>) -> bool {
    exists|d: nat| shallow_disk(disk, rules, path, d)
}

/// The tree of the folder at `spot`.
pub open spec fn scanned(disk: Disk, rules: WalkRules, spot: Spot) -> FolderView {
    scanned_to(disk, rules, spot, choose|d: nat| shallow_disk(disk, rules, spot.path, d))
}

/// Any depth that suffices gives the same tree.
proof fn lemma_any_depth(disk: Disk, rules: WalkRules, spot: Spot, d: nat, e: nat)
    requires
        shallow_disk(disk, rules, spot.path, d),
        shallow_disk(disk, rules, spot.path, e),
    ensures
        scanned_to(disk, rules, spot, d) == scanned_to(disk, rules, spot, e),
    decreases d, 2int, 0int,
{
    let subs = subfolders(rules.style, spot.path, disk(spot.path));
    let f = opened(spot, disk(spot.path), rules.track_files);
    lemma_any_depth_upto(disk, rules, f, subs, subs.len() as int, d, e);
}

proof fn lemma_any_depth_upto(
    disk: Disk,
    rules: WalkRules,
    f: FolderView,
    subs: Seq<Spot>,
    n: int,
    d: nat,
    e: nat,
)
    requires
        n <= subs.len(),
        subs.len() > 0 ==> d > 0 && all_shallow(disk, rules, subs, (d - 1) as nat),
        subs.len() > 0 ==> e > 0 && all_shallow(disk, rules, subs, (e - 1) as nat),
    ensures
        with_subfolders(disk, rules, f, subs, n, d) == with_subfolders(disk, rules, f, subs, n, e),
    decreases d, 1int, n,
{
    if n > 0 {
        lemma_any_depth_upto(disk, rules, f, subs, n - 1, d, e);
        assert(shallow_disk(disk, rules, subs[n - 1].path, (d - 1) as nat));
        lemma_any_depth(disk, rules, subs[n - 1], (d - 1) as nat, (e - 1) as nat);
    }
}

/// `f` with the folders `subs` added, each with all that lies below it.
pub open spec fn completed(disk: Disk, rules: WalkRules, f: FolderView, subs: Seq<Spot>) -> FolderView
    decreases subs.len(),
{
    if subs.len() == 0 {
        f
    } else {
        completed(
            disk,
            rules,
            with_child(f, scanned(disk, rules, subs[0])),
            subs.skip(1),
        )
    }
}

/// Scanning a folder is opening it and completing it with the folders it names.
pub proof fn law_scanned_unfolds(disk: Disk, rules: WalkRules, spot: Spot)
    requires
        is_finite(disk, rules, spot.path),
    ensures
        scanned(disk, rules, spot) == completed(
            disk,
            rules,
            opened(spot, disk(spot.path), rules.track_files),
            subfolders(rules.style, spot.path, disk(spot.path)),
        ),
        forall|i: int|
            0 <= i < subfolders(rules.style, spot.path, disk(spot.path)).len() ==> is_finite(
                disk,
                rules,
                (#[trigger] subfolders(rules.style, spot.path, disk(spot.path))[i]).path,
            ),
{
    let d = choose|d: nat| shallow_disk(disk, rules, spot.path, d);
    let subs = subfolders(rules.style, spot.path, disk(spot.path));
    let f = opened(spot, disk(spot.path), rules.track_files);
    assert forall|i: int| 0 <= i < subs.len() implies is_finite(
        disk,
        rules,
        (#[trigger] subs[i]).path,
    ) by {
        assert(shallow_disk(disk, rules, subs[i].path, (d - 1) as nat));
    }
    assert(subs.skip(0) =~= subs);
    lemma_completed(disk, rules, f, subs, 0, d);
}

proof fn lemma_completed(
    disk: Disk,
    rules: WalkRules,
    f: FolderView,
    subs: Seq<Spot>,
    k: int,
    d: nat,
)
    requires
        0 <= k <= subs.len(),
        subs.len() > 0 ==> d > 0 && all_shallow(disk, rules, subs, (d - 1) as nat),
    ensures
        completed(disk, rules, with_subfolders(disk, rules, f, subs, k, d), subs.skip(k))
            == with_subfolders(disk, rules, f, subs, subs.len() as int, d),
    decreases subs.len() - k,
{
    if k < subs.len() {
        assert(subs.skip(k)[0] == subs[k]);
        assert(subs.skip(k).skip(1) =~= subs.skip(k + 1));
        assert(shallow_disk(disk, rules, subs[k].path, (d - 1) as nat));
        lemma_any_depth(
            disk,
            rules,
            subs[k],
            (d - 1) as nat,
            choose|e: nat| shallow_disk(disk, rules, subs[k].path, e),
        );
        lemma_completed(disk, rules, f, subs, k + 1, d);
    }
}

// ------------------------------------------------------------------- the walk

/// A folder whose listing is known, with the folders below it still to be walked,
/// the next one last.
struct Frame {
    node: FolderNode,
    rest: Vec<Subfolder>,
}

/// What a frame is: the folder so far, and what is still to be added.
pub struct FrameView {
    pub node: FolderView,
    pub rest: Seq<Spot>,
}

impl Frame {
    spec fn open_view(self) -> FrameView {
        FrameView { node: self.node@, rest: spots(self.rest@).reverse() }
    }
}

/// A walk under way, or finished.
pub struct Walk {
    rules: WalkRules,
    frames: Vec<Frame>,
    /// The folder that is to be listed next.
    wanted: Option<Subfolder>,
    /// The finished tree.
    done: Option<FolderNode>,
}

/// Where a walk stands.
pub struct WalkView {
    pub rules: WalkRules,
    /// The folders from the root down to the one that is being walked.
    pub frames: Seq<FrameView>,
    pub wanted: Option<Spot>,
    pub done: Option<FolderView>,
}

impl View for Walk {
    type V = WalkView;

    closed spec fn view(&self) -> WalkView {
        WalkView {
            rules: self.rules,
            frames: self.frames@.map_values(|f: Frame| f.open_view()),
            wanted: match self.wanted {
                Some(s) => Some(s@),
                None => None,
            },
            done: match self.done {
                Some(n) => Some(n@),
                None => None,
            },
        }
    }
}

/// The tree that the first `n` frames end in once `sub`, which lies in the last of
/// them, is added.
pub open spec fn folded(
    disk: Disk,
    rules: WalkRules,
    frames: Seq<FrameView>,
    n: int,
    sub: FolderView,
) -> FolderView
    decreases n,
{
    if n <= 0 {
        sub
    } else {
        let f = frames[n - 1];
        folded(
            disk,
            rules,
            frames,
            n - 1,
            completed(disk, rules, with_child(f.node, sub), f.rest),
        )
    }
}

/// The tree that a walk ends in, on a given disk.
pub open spec fn outcome(w: WalkView, disk: Disk) -> FolderView {
    match w.done {
        Some(f) => f,
        None => folded(
            disk,
            w.rules,
            w.frames,
            w.frames.len() as int,
            scanned(disk, w.rules, w.wanted->0),
        ),
    }
}

/// Whether everything that a walk still has to visit ends, on a given disk.
pub open spec fn ends_on(w: WalkView, disk: Disk) -> bool {
    &&& w.wanted is Some ==> is_finite(disk, w.rules, w.wanted->0.path)
    &&& forall|i: int, j: int|
        0 <= i < w.frames.len() && 0 <= j < w.frames[i].rest.len() ==> is_finite(
            disk,
            w.rules,
            (#[trigger] w.frames[i].rest[j]).path,
        )
}

/// Whether a walk either wants a folder listed, or is finished and has nothing open.
pub open spec fn is_walk(w: WalkView) -> bool {
    &&& (w.wanted is Some) != (w.done is Some)
    &&& w.done is Some ==> w.frames.len() == 0
}

/// The walk once it went on to the next folder to be listed: every folder that has
/// none left is added to the one above it, and the last of them is the finished tree.
pub open spec fn advanced(w: WalkView) -> WalkView
    decreases w.frames.len(),
{
    let n = w.frames.len() as int;
    let top = w.frames.last();
    if n == 0 {
        w
    } else if top.rest.len() > 0 {
        let left = FrameView { node: top.node, rest: top.rest.skip(1) };
        WalkView { frames: w.frames.drop_last().push(left), wanted: Some(top.rest[0]), ..w }
    } else if n == 1 {
        WalkView { frames: Seq::empty(), done: Some(top.node), ..w }
    } else {
        let above = w.frames[n - 2];
        let grown = FrameView { node: with_child(above.node, top.node), rest: above.rest };
        advanced(WalkView { frames: w.frames.take(n - 2).push(grown), ..w })
    }
}

/// The walk once the folder that it wanted was listed: the folder is opened, and the
/// walk goes on to the first folder in it, or to the next one elsewhere.
pub open spec fn stepped(w: WalkView, listing: ListingView) -> WalkView {
    let spot = w.wanted->0;
    let opened_frame = FrameView {
        node: opened(spot, listing, w.rules.track_files),
        rest: subfolders(w.rules.style, spot.path, listing),
    };
    advanced(WalkView { frames: w.frames.push(opened_frame), wanted: None, ..w })
}

impl Walk {
    /// A walk of the folder at `spot`, not begun.
    pub fn start(rules: WalkRules, spot: Subfolder) -> (w: Walk)
        ensures
            is_walk(w@),
            w@.rules == rules,
            w@.wanted == Some(spot@),
            w@.frames.len() == 0,
            forall|disk: Disk| #[trigger] outcome(w@, disk) == scanned(disk, rules, spot@),
            forall|disk: Disk|
                #[trigger] ends_on(w@, disk) <==> is_finite(disk, rules, spot@.path),
    {
        Walk { rules, frames: Vec::new(), wanted: Some(spot), done: None }
    }

    /// The path of the folder that is to be listed next; `None` once the walk is
    /// finished.
    pub fn wanted(&self) -> (r: Option<&str>)
        requires
            is_walk(self@),
        ensures
            r is Some <==> self@.wanted is Some,
            r is Some ==> r->0@ == self@.wanted->0.path,
    {
        match &self.wanted {
            Some(s) => Some(s.path.as_str()),
            None => None,
        }
    }

    /// Takes the listing of the folder that was wanted, and goes on to the next. On
    /// every disk on which that folder holds what the listing says, the walk still ends
    /// in the same tree.
    pub fn listed(&mut self, listing: &Listing)
        requires
            is_walk(old(self)@),
            old(self)@.wanted is Some,
        ensures
            is_walk(final(self)@),
            final(self)@ == stepped(old(self)@, listing@),
            final(self)@.rules == old(self)@.rules,
            forall|disk: Disk|
                disk(old(self)@.wanted->0.path) == listing@ && #[trigger] ends_on(old(self)@, disk) ==> {
                    &&& ends_on(final(self)@, disk)
                    &&& outcome(final(self)@, disk) == outcome(old(self)@, disk)
                },
    {
        let ghost w0 = self@;
        let rules = self.rules;
        let mut taken: Option<Subfolder> = None;
        std::mem::swap(&mut taken, &mut self.wanted);
        if let Some(spot) = taken {
            let ghost s = spot@;
            let (node, mut subs) = open_folder(rules.style, spot, listing, rules.track_files);
            let ghost named = subs@;
            reverse(&mut subs);
            let frame = Frame { node, rest: subs };
            let ghost before = self.frames@;
            self.frames.push(frame);
            assert(frame.open_view().rest =~= spots(named));
            assert(self@.frames =~= w0.frames.push(frame.open_view()));
            assert(advanced(self@) == stepped(w0, listing@));
            assert forall|disk: Disk|
                disk(w0.wanted->0.path) == listing@ && #[trigger] ends_on(w0, disk) implies {
                &&& ends_on(self@, disk)
                &&& pending(self@, disk) == outcome(w0, disk)
            } by {
                let fs = self@.frames;
                assert(fs.take(fs.len() - 1) =~= w0.frames);
                assert(frame.open_view().rest =~= spots(named));
                law_scanned_unfolds(disk, rules, s);
                lemma_folded_prefix(disk, rules, fs, w0.frames, fs.len() - 1, completed(
                    disk,
                    rules,
                    fs.last().node,
                    fs.last().rest,
                ));
                assert forall|i: int, j: int|
                    0 <= i < fs.len() && 0 <= j < fs[i].rest.len() implies is_finite(
                    disk,
                    rules,
                    (#[trigger] fs[i].rest[j]).path,
                ) by {
                    if i < fs.len() - 1 {
                        assert(fs[i] == w0.frames[i]);
                        assert(is_finite(disk, rules, w0.frames[i].rest[j].path));
                    } else {
                        assert(fs[i].rest[j] == subfolders(rules.style, s.path, listing@)[j]);
                    }
                }
            }
            self.advance();
        }
    }

    /// Goes on to the next folder to be listed, closing every folder that has none
    /// left, or finishes.
    fn advance(&mut self)
        requires
            old(self).frames.len() > 0,
            old(self).wanted is None,
            old(self).done is None,
        ensures
            is_walk(final(self)@),
            final(self)@ == advanced(old(self)@),
            final(self)@.rules == old(self)@.rules,
            forall|disk: Disk| #[trigger]
                ends_on(old(self)@, disk) ==> {
                    &&& ends_on(final(self)@, disk)
                    &&& outcome(final(self)@, disk) == pending(old(self)@, disk)
                },
    {
        let ghost w0 = self@;
        loop
            invariant
                w0 == old(self)@,
                self.frames.len() > 0,
                self.wanted is None,
                self.done is None,
                self@.rules == w0.rules,
                advanced(self@) == advanced(w0),
                forall|disk: Disk| #[trigger]
                    ends_on(w0, disk) ==> {
                        &&& ends_on(self@, disk)
                        &&& pending(self@, disk) == pending(w0, disk)
                    },
            decreases self.frames.len(),
        {
            let ghost w1 = self@;
            let ghost fs = self@.frames;
            let mut top = match self.frames.pop() {
                Some(f) => f,
                None => {
                    return ;
                },
            };
            let ghost view1 = top.open_view();
            assert(view1 == fs.last());
            match top.rest.pop() {
                Some(next) => {
                    let ghost view2 = top.open_view();
                    assert(view1.rest[0] == next@);
                    assert(view2.rest =~= view1.rest.skip(1));
                    self.wanted = Some(next);
                    self.frames.push(top);
                    assert(self@.frames =~= fs.drop_last().push(view2));
                    assert(self@ == advanced(w1));
                    assert forall|disk: Disk| #[trigger] ends_on(w0, disk) implies {
                        &&& ends_on(self@, disk)
                        &&& outcome(self@, disk) == pending(w0, disk)
                    } by {
                        assert(ends_on(w1, disk));
                        let gs = self@.frames;
                        assert(gs.len() == fs.len());
                        assert(forall|i: int| 0 <= i < gs.len() - 1 ==> gs[i] == fs[i]);
                        lemma_folded_prefix(disk, w0.rules, fs, gs, fs.len() - 1, completed(
                            disk,
                            w0.rules,
                            view1.node,
                            view1.rest,
                        ));
                        assert forall|i: int, j: int|
                            0 <= i < gs.len() && 0 <= j < gs[i].rest.len() implies is_finite(
                            disk,
                            w0.rules,
                            (#[trigger] gs[i].rest[j]).path,
                        ) by {
                            if i < gs.len() - 1 {
                                assert(gs[i].rest[j] == fs[i].rest[j]);
                            } else {
                                assert(gs[i].rest[j] == fs[i].rest[j + 1]);
                            }
                        }
                        assert(is_finite(disk, w0.rules, fs[fs.len() - 1].rest[0].path));
                    }
                    return ;
                },
                None => {
                    assert(view1.rest.len() == 0);
                    let node = top.node;
                    match self.frames.pop() {
                        None => {
                            self.done = Some(node);
                            assert(self@.frames =~= Seq::empty());
                            assert(self@ == advanced(w1));
                            return ;
                        },
                        Some(mut above) => {
                            let ghost view2 = above.open_view();
                            assert(view2 == fs[fs.len() - 2]);
                            above.node.adopt(node);
                            assert(above.open_view().rest == view2.rest);
                            self.frames.push(above);
                            assert(self@.frames =~= fs.take(fs.len() - 2).push(above.open_view()));
                            assert(advanced(self@) == advanced(w1));
                            assert forall|disk: Disk| #[trigger] ends_on(w0, disk) implies {
                                &&& ends_on(self@, disk)
                                &&& pending(self@, disk) == pending(w0, disk)
                            } by {
                                assert(ends_on(w1, disk));
                                let gs = self@.frames;
                                assert(gs.len() == fs.len() - 1);
                                assert(forall|i: int| 0 <= i < gs.len() - 1 ==> gs[i] == fs[i]);
                                lemma_folded_prefix(
                                    disk,
                                    w0.rules,
                                    fs,
                                    gs,
                                    gs.len() - 1,
                                    completed(
                                        disk,
                                        w0.rules,
                                        gs.last().node,
                                        gs.last().rest,
                                    ),
                                );
                                assert forall|i: int, j: int|
                                    0 <= i < gs.len() && 0 <= j < gs[i].rest.len() implies is_finite(
                                    disk,
                                    w0.rules,
                                    (#[trigger] gs[i].rest[j]).path,
                                ) by {
                                    assert(gs[i].rest[j] == fs[i].rest[j]);
                                }
                            }
                        },
                    }
                },
            }
        }
    }

    /// The finished tree, or an error where the walk was cancelled or is not at its
    /// end.
    pub fn finish(self, cancelled: bool) -> (r: Result<FolderNode, &'static str>)
        ensures
            r is Ok <==> !cancelled && self@.done is Some,
            r is Ok ==> r->Ok_0@ == self@.done->0,
            r is Err ==> r->Err_0@ == "cancelled"@,
    {
        if cancelled {
            return Err("cancelled");
        }
        match self.done {
            Some(node) => Ok(node),
            None => Err("cancelled"),
        }
    }
}

/// The tree that a walk ends in while its last frame is being completed.
spec fn pending(w: WalkView, disk: Disk) -> FolderView {
    let n = w.frames.len() as int;
    let f = w.frames[n - 1];
    folded(disk, w.rules, w.frames, n - 1, completed(disk, w.rules, f.node, f.rest))
}

proof fn lemma_folded_prefix(
    disk: Disk,
    rules: WalkRules,
    a: Seq<FrameView>,
    b: Seq<FrameView>,
    n: int,
    sub: FolderView,
)
    requires
        n <= a.len(),
        n <= b.len(),
        forall|i: int| 0 <= i < n ==> a[i] == b[i],
    ensures
        folded(disk, rules, a, n, sub) == folded(disk, rules, b, n, sub),
    decreases n,
{
    if n > 0 {
        let f = a[n - 1];
        lemma_folded_prefix(
            disk,
            rules,
            a,
            b,
            n - 1,
            completed(disk, rules, with_child(f.node, sub), f.rest),
        );
    }
}

/// Puts the folders in the opposite order.
fn reverse(subs: &mut Vec<Subfolder>)
    ensures
        spots(final(subs)@) == spots(old(subs)@).reverse(),
{
    let mut out: Vec<Subfolder> = Vec::new();
    let ghost all = subs@;
    loop
        invariant
            subs@.len() + out@.len() == all.len(),
            subs@ == all.take(subs@.len() as int),
            out@ == all.skip(subs@.len() as int).reverse(),
        ensures
            subs@.len() == 0,
            out@ == all.reverse(),
        decreases subs@.len(),
    {
        match subs.pop() {
            Some(s) => {
                out.push(s);
                assert(subs@ =~= all.take(subs@.len() as int));
                assert(out@ =~= all.skip(subs@.len() as int).reverse());
            },
            None => {
                assert(all.skip(0) =~= all);
                break;
            },
        }
    }
    std::mem::swap(subs, &mut out);
    assert(spots(subs@) =~= spots(all).reverse());
}

/// Every tree that a walk ends in has the totals of what lies in it.
pub proof fn law_scanned_is_tidy(disk: Disk, rules: WalkRules, spot: Spot)
    requires
        is_finite(disk, rules, spot.path),
    ensures
        tidy(scanned(disk, rules, spot)),
{
    let d = choose|d: nat| shallow_disk(disk, rules, spot.path, d);
    lemma_scanned_to_is_tidy(disk, rules, spot, d);
}

proof fn lemma_scanned_to_is_tidy(disk: Disk, rules: WalkRules, spot: Spot, depth: nat)
    requires
        shallow_disk(disk, rules, spot.path, depth),
    ensures
        tidy(scanned_to(disk, rules, spot, depth)),
    decreases depth, 2int, 0int,
{
    let subs = subfolders(rules.style, spot.path, disk(spot.path));
    lemma_opened_is_tidy(spot, disk(spot.path), rules.track_files);
    lemma_subfolders_keep_tidy(
        disk,
        rules,
        opened(spot, disk(spot.path), rules.track_files),
        subs,
        subs.len() as int,
        depth,
    );
}

proof fn lemma_subfolders_keep_tidy(
    disk: Disk,
    rules: WalkRules,
    f: FolderView,
    subs: Seq<Spot>,
    n: int,
    depth: nat,
)
    requires
        n <= subs.len(),
        tidy(f),
        subs.len() > 0 ==> depth > 0 && all_shallow(disk, rules, subs, (depth - 1) as nat),
    ensures
        tidy(with_subfolders(disk, rules, f, subs, n, depth)),
    decreases depth, 1int, n,
{
    if n > 0 {
        lemma_subfolders_keep_tidy(disk, rules, f, subs, n - 1, depth);
        assert(shallow_disk(disk, rules, subs[n - 1].path, (depth - 1) as nat));
        lemma_scanned_to_is_tidy(disk, rules, subs[n - 1], (depth - 1) as nat);
        law_child_keeps_tidy(
            with_subfolders(disk, rules, f, subs, n - 1, depth),
            scanned_to(disk, rules, subs[n - 1], (depth - 1) as nat),
        );
    }
}

proof fn lemma_opened_is_tidy(spot: Spot, listing: ListingView, track: bool)
    ensures
        tidy(opened(spot, listing, track)),
{
    let f = empty_folder(spot.path, spot.name, 0);
    law_empty_is_tidy(spot.path, spot.name, 0);
    if let ListingView::Items(items) = listing {
        lemma_files_keep_tidy(f, items, items.len() as int, track);
    }
}

proof fn lemma_files_keep_tidy(f: FolderView, items: Seq<ItemView>, n: int, track: bool)
    requires
        tidy(f),
    ensures
        tidy(with_files(f, items, n, track)),
    decreases n,
{
    if n > 0 {
        lemma_files_keep_tidy(f, items, n - 1, track);
        let it = items[n - 1];
        law_file_keeps_tidy(
            with_files(f, items, n - 1, track),
            FileView { name: it.name, size: it.size, last_modified_ft: it.last_modified_ft },
            track,
        );
    }
}

// --------------------------------------------------------------- how much is left

/// How many folders the trees of `subs` have.
pub open spec fn folders_in(disk: Disk, rules: WalkRules, subs: Seq<Spot>) -> nat
    decreases subs.len(),
{
    if subs.len() == 0 {
        0
    } else {
        folders_of(scanned(disk, rules, subs[0])) + folders_in(disk, rules, subs.skip(1))
    }
}

/// How many folders are still to be listed in the first `n` frames.
pub open spec fn left_in(disk: Disk, rules: WalkRules, frames: Seq<FrameView>, n: int) -> nat
    decreases n,
{
    if n <= 0 {
        0
    } else {
        left_in(disk, rules, frames, n - 1) + folders_in(disk, rules, frames[n - 1].rest)
    }
}

/// How many folders a walk has still to see listed, on a given disk.
pub open spec fn left(w: WalkView, disk: Disk) -> nat {
    let wanted = match w.wanted {
        Some(s) => folders_of(scanned(disk, w.rules, s)),
        None => 0,
    };
    wanted + left_in(disk, w.rules, w.frames, w.frames.len() as int)
}

proof fn lemma_left_prefix(
    disk: Disk,
    rules: WalkRules,
    a: Seq<FrameView>,
    b: Seq<FrameView>,
    n: int,
)
    requires
        n <= a.len(),
        n <= b.len(),
        forall|i: int| 0 <= i < n ==> a[i].rest == b[i].rest,
    ensures
        left_in(disk, rules, a, n) == left_in(disk, rules, b, n),
    decreases n,
{
    if n > 0 {
        lemma_left_prefix(disk, rules, a, b, n - 1);
    }
}

proof fn lemma_folders_before_prefix(f: FolderView, g: FolderView, n: int)
    requires
        n <= f.children.len(),
        n <= g.children.len(),
        forall|i: int| 0 <= i < n ==> f.children[i] == g.children[i],
    ensures
        folders_before(f, n) == folders_before(g, n),
    decreases n,
{
    if n > 0 {
        lemma_folders_before_prefix(f, g, n - 1);
    }
}

proof fn lemma_folders_of_completed(disk: Disk, rules: WalkRules, f: FolderView, subs: Seq<Spot>)
    ensures
        folders_of(completed(disk, rules, f, subs)) == folders_of(f) + folders_in(
            disk,
            rules,
            subs,
        ),
    decreases subs.len(),
{
    if subs.len() > 0 {
        let c = scanned(disk, rules, subs[0]);
        let g = with_child(f, c);
        let n = f.children.len() as int;
        lemma_folders_before_prefix(f, g, n);
        assert(g.children[n] == c);
        assert(folders_of(g) == folders_of(f) + folders_of(c));
        lemma_folders_of_completed(disk, rules, g, subs.skip(1));
    }
}

proof fn lemma_files_bring_no_folders(f: FolderView, items: Seq<ItemView>, n: int, track: bool)
    ensures
        with_files(f, items, n, track).children == f.children,
    decreases n,
{
    if n > 0 {
        lemma_files_bring_no_folders(f, items, n - 1, track);
    }
}

proof fn lemma_advanced_keeps_left(w: WalkView, disk: Disk)
    requires
        w.wanted is None,
        w.frames.len() > 0,
    ensures
        left(advanced(w), disk) == left(w, disk),
    decreases w.frames.len(),
{
    let n = w.frames.len() as int;
    let top = w.frames.last();
    let next = advanced(w);
    if top.rest.len() > 0 {
        lemma_left_prefix(disk, w.rules, w.frames, next.frames, n - 1);
    } else if n == 1 {
        assert(left_in(disk, w.rules, w.frames, 0) == 0);
    } else {
        let above = w.frames[n - 2];
        let grown = FrameView { node: with_child(above.node, top.node), rest: above.rest };
        let v = WalkView { frames: w.frames.take(n - 2).push(grown), ..w };
        lemma_left_prefix(disk, w.rules, w.frames, v.frames, n - 1);
        lemma_advanced_keeps_left(v, disk);
    }
}

/// Every listing brings a walk nearer to its end: a walk begins with as many folders
/// to be listed as the finished tree has, each listing takes one of them, and once none
/// is left the walk is finished.
pub proof fn law_walk_comes_to_an_end(w: WalkView, disk: Disk)
    requires
        is_walk(w),
        ends_on(w, disk),
    ensures
        left(w, disk) == 0 <==> w.done is Some,
        w.wanted is Some ==> left(stepped(w, disk(w.wanted->0.path)), disk) == left(w, disk) - 1,
        w.wanted is Some && w.frames.len() == 0 ==> left(w, disk) == folders_of(outcome(w, disk)),
{
    assert(w.frames.len() == 0 ==> left_in(disk, w.rules, w.frames, w.frames.len() as int) == 0);
    if w.wanted is Some {
        let spot = w.wanted->0;
        let listing = disk(spot.path);
        let subs = subfolders(w.rules.style, spot.path, listing);
        let f = opened(spot, listing, w.rules.track_files);
        law_scanned_unfolds(disk, w.rules, spot);
        lemma_folders_of_completed(disk, w.rules, f, subs);
        if let ListingView::Items(items) = listing {
            lemma_files_bring_no_folders(
                empty_folder(spot.path, spot.name, 0),
                items,
                items.len() as int,
                w.rules.track_files,
            );
        }
        assert(f.children.len() == 0);
        assert(folders_of(f) == 1);
        let v = WalkView {
            frames: w.frames.push(FrameView { node: f, rest: subs }),
            wanted: None,
            ..w
        };
        lemma_left_prefix(disk, w.rules, w.frames, v.frames, w.frames.len() as int);
        lemma_advanced_keeps_left(v, disk);
    }
}

// ------------------------------------------------------------ the portable scanner

/// A walk of folders on any platform, as it is set up.
pub struct WalkScanner {
    pub style: PathStyle,
    pub cancel: Arc<AtomicBool>,
    pub progress: bool,
    pub parallel_top_levels: i32,
    pub total_size_hint: i64,
    pub track_files: bool,
}

impl View for WalkScanner {
    type V = ScanSettings;

    open spec fn view(&self) -> ScanSettings {
        ScanSettings {
            cancel: self.cancel,
            progress: self.progress,
            parallel_top_levels: self.parallel_top_levels,
            total_size_hint: self.total_size_hint,
            track_files: self.track_files,
        }
    }
}

impl Default for WalkScanner {
    fn default() -> (r: Self)
        ensures
            is_plain(r@),
            r.total_size_hint == 0,
            r.path_style() == PathStyle::Unix,
    {
        Self::new()
    }
}

impl WalkScanner {
    /// How the paths that it walks are joined.
    pub open spec fn path_style(&self) -> PathStyle {
        self.style
    }

    pub fn new() -> (r: Self)
        ensures
            is_plain(r@),
            r.total_size_hint == 0,
            r.path_style() == PathStyle::Unix,
    {
        WalkScanner {
            style: PathStyle::Unix,
            cancel: Arc::new(AtomicBool::new(false)),
            progress: false,
            parallel_top_levels: 2,
            total_size_hint: 0,
            track_files: false,
        }
    }

    /// Watches `c`, which cancels the scan once it is set.
    pub fn with_cancel(self, c: Arc<AtomicBool>) -> (r: Self)
        ensures
            r@ == (ScanSettings { cancel: c, ..self@ }),
            r.path_style() == self.path_style(),
    {
        let mut s = self;
        s.cancel = c;
        s
    }

    /// Asks for progress reports.
    pub fn with_progress(self) -> (r: Self)
        ensures
            r@ == (ScanSettings { progress: true, ..self@ }),
            r.path_style() == self.path_style(),
    {
        let mut s = self;
        s.progress = true;
        s
    }

    /// Keeps single files, or only counts them.
    pub fn with_track_files(self, b: bool) -> (r: Self)
        ensures
            r@ == (ScanSettings { track_files: b, ..self@ }),
            r.path_style() == self.path_style(),
    {
        let mut s = self;
        s.track_files = b;
        s
    }

    /// Sets the number of bytes that are expected, so that progress can report a
    /// percentage; 0 leaves it open.
    pub fn with_size_hint(self, bytes: i64) -> (r: Self)
        ensures
            r@ == (ScanSettings { total_size_hint: bytes, ..self@ }),
            r.total_size_hint == bytes,
            r.path_style() == self.path_style(),
    {
        let mut s = self;
        s.total_size_hint = bytes;
        s
    }

    /// Shares the folders of the root out to workers, where `depth` is positive.
    pub fn with_parallelism(self, depth: i32) -> (r: Self)
        ensures
            r@ == (ScanSettings { parallel_top_levels: depth, ..self@ }),
            r.path_style() == self.path_style(),
    {
        let mut s = self;
        s.parallel_top_levels = depth;
        s
    }

    /// Joins paths as the platform does that the folders lie on.
    pub fn with_style(self, style: PathStyle) -> (r: Self)
        ensures
            r@ == self@,
            r.path_style() == style,
    {
        let mut s = self;
        s.style = style;
        s
    }

    pub fn parallelism(&self) -> (r: i32)
        ensures
            r == self@.parallel_top_levels,
    {
        self.parallel_top_levels
    }

    pub fn rules(&self) -> (r: WalkRules)
        ensures
            r == (WalkRules { style: self.path_style(), track_files: self@.track_files }),
    {
        WalkRules { style: self.style, track_files: self.track_files }
    }

    /// Whether the scan has been cancelled by now. The flag belongs to other
    /// threads too, so nothing is known of its value.
    pub fn is_cancelled(&self) -> bool {
        self.cancel.load(Ordering::Relaxed)
    }

    /// Begins a scan of the folder `root`, which the tree carries as its name too.
    /// On every disk whose folders end, the walk ends in the tree of that folder.
    pub fn scan(&self, root: &str) -> (w: Walk)
        ensures
            is_walk(w@),
            w@.rules == (WalkRules { style: self.path_style(), track_files: self@.track_files }),
            w@.wanted == Some(Spot { path: trimmed(root@), name: trimmed(root@) }),
            w@.frames.len() == 0,
            forall|disk: Disk| #[trigger]
                outcome(w@, disk) == scanned(disk, w@.rules, w@.wanted->0),
            forall|disk: Disk| #[trigger]
                ends_on(w@, disk) <==> is_finite(disk, w@.rules, trimmed(root@)),
    {
        let path = trim(root);
        let name = path.clone();
        Walk::start(self.rules(), Subfolder { path, name })
    }

    /// The report that is due at `now_ms`, `last_ms` being the time of the last one;
    /// none where nobody asked for reports or the last one is too recent.
    pub fn report_progress(
        &self,
        path: &str,
        now_ms: i64,
        last_ms: i64,
        total_size: i64,
        files_scanned: i64,
    ) -> (r: Option<ScanProgress>)
        requires
            i64::MIN <= now_ms - last_ms <= i64::MAX,
        ensures
            r is Some <==> self@.progress && is_due(now_ms as int, last_ms as int),
            r is Some ==> {
                &&& r->0.total_size == total_size
                &&& r->0.files_scanned == files_scanned
                &&& r->0.current_path@ == path@
                &&& r->0.percent == walk_percent(
                    total_size as int,
                    self@.total_size_hint as int,
                )
            },
    {
        if !self.progress || !report_due(now_ms, last_ms) {
            return None;
        }
        Some(
            ScanProgress {
                total_size,
                files_scanned,
                current_path: path.to_owned(),
                percent: percent_walked(total_size, self.total_size_hint),
            },
        )
    }
}

} // verus!
