//! Scanning drives: which way, one or all of them, and what the status bar says.

use crate::decimal::{decimal, push_decimal};
use crate::format::{bytes_text, count_text, format_bytes, format_count, Units};
use crate::numbering::{
    checked_count, child_id, folders_before, folders_of, lemma_before_monotonic,
};
use crate::sort::{
    is_order_of, is_permutation, key_views, law_order_is_permutation, law_text_order_total, reorder,
    sorted_order, stands_before, text_less, KeyView, SortKey,
};
use crate::text::{chars_of, same_text};
use crate::types::{
    blank_folder, empty_folder, sum_over, sum_upto, tidy, FolderNode, FolderView,
};
use crate::wrap::{law_wrap_absorbs, law_wrap_fits, wrap, wrapping_sum};
use vstd::prelude::*;

verus! {

/// A way to scan a drive.
#[derive(Copy, Clone, Debug, PartialEq, Eq, Structural)]
pub enum Attempt {
    /// By its Master File Table.
    Mft,
    /// Folder by folder.
    Walker,
}

/// What to try first.
pub fn first_attempt(use_mft: bool) -> (r: Attempt)
    ensures
        r == (if use_mft {
            Attempt::Mft
        } else {
            Attempt::Walker
        }),
{
    if use_mft {
        Attempt::Mft
    } else {
        Attempt::Walker
    }
}

/// What to try once an attempt failed: a drive whose table cannot be read is walked
/// instead, unless the scan was cancelled. `None` where the failure stands.
pub fn scan_one(failed: Attempt, cancelled: bool) -> (r: Option<Attempt>)
    ensures
        r == (if failed == Attempt::Mft && !cancelled {
            Some(Attempt::Walker)
        } else {
            None
        }),
{
    match failed {
        Attempt::Mft => if cancelled {
            None
        } else {
            Some(Attempt::Walker)
        },
        Attempt::Walker => None,
    }
}

/// A drive that is to be scanned.
#[derive(Debug)]
pub struct ScanTarget {
    pub path: String,
    pub use_mft: bool,
}

/// What is scanned again on request.
#[derive(Debug)]
pub enum ScanRequest {
    Single(String, bool),
    AllDrives,
}

/// What a drive is sorted by: its path.
pub open spec fn path_keys(targets: Seq<ScanTarget>) -> Seq<KeyView> {
    targets.map_values(|t: ScanTarget| KeyView { num: 0, text: t.path@ })
}

/// The drives in the order of their paths.
pub fn sort_targets(targets: Vec<ScanTarget>) -> (r: Vec<ScanTarget>)
    ensures
        exists|order: Seq<usize>| #[trigger]
            is_order_of(order, path_keys(targets@), false) && is_permutation(
                order,
                targets@.len(),
            ) && r@ == order.map_values(|i: usize| targets@[i as int]),
{
    let mut keys: Vec<SortKey> = Vec::new();
    let mut i: usize = 0;
    while i < targets.len()
        invariant
            i <= targets.len(),
            keys@.len() == i,
            forall|j: int| 0 <= j < i ==> (#[trigger] keys@[j])@ == path_keys(targets@)[j],
        decreases targets.len() - i,
    {
        keys.push(SortKey { num: 0, text: chars_of(targets[i].path.as_str()) });
        i += 1;
    }
    assert(key_views(keys@) =~= path_keys(targets@));
    let order = sorted_order(&keys, false);
    reorder(targets, &order)
}

/// A scan of all drives under way.
pub struct ScanAll {
    pub root: FolderNode,
    /// Which drives are still being scanned.
    pub pending: Vec<bool>,
    pub expected: usize,
    pub done: usize,
    pub first_err: Option<String>,
}

pub struct ScanAllView {
    pub root: FolderView,
    pub pending: Seq<bool>,
    pub expected: int,
    pub done: int,
    pub first_err: Option<Seq<char>>,
}

impl View for ScanAll {
    type V = ScanAllView;

    open spec fn view(&self) -> ScanAllView {
        ScanAllView {
            root: self.root@,
            pending: self.pending@,
            expected: self.expected as int,
            done: self.done as int,
            first_err: match self.first_err {
                Some(e) => Some(e@),
                None => None,
            },
        }
    }
}

/// How a drive turned out.
#[derive(Debug)]
pub struct DriveResult {
    pub path: String,
    pub result: Result<FolderNode, String>,
}

/// The folder above all drives, with an empty folder for each.
pub open spec fn drive_slots(paths: Seq<Seq<char>>) -> FolderView {
    FolderView {
        name: "All drives"@,
        children: paths.map_values(|p: Seq<char>| empty_folder(p, p, 0)),
        ..blank_folder()
    }
}

pub open spec fn target_paths(targets: Seq<ScanTarget>) -> Seq<Seq<char>> {
    targets.map_values(|t: ScanTarget| t.path@)
}

/// The place of the first of `cs` with that path; their number where there is none.
pub open spec fn slot_of(cs: Seq<FolderView>, path: Seq<char>) -> int
    decreases cs.len(),
{
    if cs.len() == 0 || cs[0].full_path == path {
        0
    } else {
        1 + slot_of(cs.skip(1), path)
    }
}

/// What becomes of a scan of all drives when one of them is done. Its slot takes its
/// tree, or stays empty where it failed; the first failure is remembered.
pub open spec fn with_result(s: ScanAllView, d: DriveResult) -> ScanAllView {
    let k = slot_of(s.root.children, d.path@);
    let found = 0 <= k < s.root.children.len();
    ScanAllView {
        root: match d.result {
            Ok(node) if found => FolderView {
                children: s.root.children.update(k, node@),
                ..s.root
            },
            _ => s.root,
        },
        pending: if found {
            s.pending.update(k, false)
        } else {
            s.pending
        },
        done: s.done + 1,
        first_err: match d.result {
            Err(e) if s.first_err is None => Some(e@),
            _ => s.first_err,
        },
        ..s
    }
}

/// The same for the first `n` of `ds`.
pub open spec fn with_results(s: ScanAllView, ds: Seq<DriveResult>, n: int) -> ScanAllView
    decreases n,
{
    if n <= 0 {
        s
    } else {
        with_result(with_results(s, ds, n - 1), ds[n - 1])
    }
}

/// `f` with totals that are the sums of its children's.
pub open spec fn recounted(f: FolderView) -> FolderView {
    FolderView {
        size: wrap(sum_over(f.children, |c: FolderView| c.size)),
        file_count: wrap(sum_over(f.children, |c: FolderView| c.file_count)),
        folder_count: wrap(sum_over(f.children, |c: FolderView| c.folder_count + 1)),
        ..f
    }
}

/// Whether every slot has its mark.
pub open spec fn is_scan_all(s: ScanAllView) -> bool {
    s.pending.len() == s.root.children.len()
}

/// Whether the folder with number `folder` is a drive that is still being scanned.
pub open spec fn is_pending_drive(s: ScanAllView, folder: int) -> bool {
    exists|k: int|
        0 <= k < s.pending.len() && s.pending[k] && #[trigger] child_id(s.root, 0, k) == folder
}

proof fn lemma_later_drives(f: FolderView, k: int)
    requires
        0 <= k <= f.children.len(),
    ensures
        forall|i: int|
            k <= i <= f.children.len() ==> #[trigger] child_id(f, 0, i) >= child_id(f, 0, k),
        forall|i: int|
            k < i <= f.children.len() ==> #[trigger] child_id(f, 0, i) > child_id(f, 0, k),
{
    assert forall|i: int| k < i <= f.children.len() implies #[trigger] child_id(f, 0, i) > child_id(
        f,
        0,
        k,
    ) by {
        lemma_before_monotonic(f, k, i);
        let c = f.children[k];
        assert(folders_of(c) == 1 + folders_before(c, c.children.len() as int));
    }
}

/// The first folder with that path.
fn find_slot(children: &Vec<FolderNode>, path: &str, Ghost(f): Ghost<FolderView>) -> (k: usize)
    requires
        f.children.len() == children@.len(),
        forall|i: int| 0 <= i < children@.len() ==> #[trigger] f.children[i] == children@[i]@,
    ensures
        k == slot_of(f.children, path@),
        k <= children.len(),
{
    let mut k: usize = 0;
    assert(f.children.skip(0) =~= f.children);
    while k < children.len()
        invariant
            k <= children.len(),
            f.children.len() == children@.len(),
            forall|i: int| 0 <= i < children@.len() ==> #[trigger] f.children[i] == children@[i]@,
            k + slot_of(f.children.skip(k as int), path@) == slot_of(f.children, path@),
        decreases children.len() - k,
    {
        assert(f.children.skip(k as int)[0] == f.children[k as int]);
        assert(f.children[k as int] == children@[k as int]@);
        if same_text(children[k].full_path.as_str(), path) {
            return k;
        }
        assert(f.children.skip(k as int).skip(1) =~= f.children.skip(k + 1));
        k += 1;
    }
    k
}

impl ScanAll {
    /// Begins a scan of these drives. `None` where there are none.
    pub fn start_scan_all(targets: &Vec<ScanTarget>) -> (r: Option<ScanAll>)
        ensures
            r is None <==> targets@.len() == 0,
            r is Some ==> {
                &&& is_scan_all(r->0@)
                &&& r->0@.root == drive_slots(target_paths(targets@))
                &&& r->0@.pending == Seq::new(targets@.len(), |i: int| true)
                &&& r->0@.expected == targets@.len()
                &&& r->0@.done == 0
                &&& r->0@.first_err is None
            },
    {
        let n: usize = targets.len();
        if n == 0 {
            return None;
        }
        let mut root = FolderNode::new(String::new(), "All drives".to_owned(), 0);
        let mut pending: Vec<bool> = Vec::new();
        let mut i: usize = 0;
        let ghost base = root@;
        assert(root@.children =~= drive_slots(target_paths(targets@)).children.take(0));
        while i < n
            invariant
                i <= n == targets.len(),
                base == empty_folder(Seq::empty(), "All drives"@, 0),
                root@.children == drive_slots(target_paths(targets@)).children.take(i as int),
                root@ == (FolderView { children: root@.children, ..base }),
                pending@ == Seq::new(i as nat, |i: int| true),
            decreases n - i,
        {
            let path = targets[i].path.clone();
            let name = path.clone();
            let slot = FolderNode::new(path, name, 0);
            let ghost before = root@;
            assert(drive_slots(target_paths(targets@)).children[i as int] == slot@);
            root.children.push(slot);
            pending.push(true);
            i += 1;
            assert(root@.children =~= before.children.push(slot@));
            assert(root@.files =~= before.files);
            assert(root@.children =~= drive_slots(target_paths(targets@)).children.take(i as int));
            assert(pending@ =~= Seq::new(i as nat, |i: int| true));
        }
        assert(root@.children =~= drive_slots(target_paths(targets@)).children);
        Some(ScanAll { root, pending, expected: n, done: 0, first_err: None })
    }

    /// One drive is done.
    fn take_result(&mut self, d: DriveResult)
        requires
            is_scan_all(old(self)@),
            old(self).done < usize::MAX,
        ensures
            is_scan_all(final(self)@),
            final(self)@ == with_result(old(self)@, d),
    {
        let ghost s0 = self@;
        let k: usize = find_slot(&self.root.children, d.path.as_str(), Ghost(self.root@));
        self.done += 1;
        let found = k < self.root.children.len();
        if found {
            self.pending.set(k, false);
        }
        match d.result {
            Ok(node) => {
                if found {
                    self.root.children.set(k, node);
                    assert(self@.root.children =~= s0.root.children.update(k as int, node@));
                    assert(self@.root.files =~= s0.root.files);
                }
            },
            Err(e) => {
                if let None = self.first_err {
                    self.first_err = Some(e);
                }
            },
        }
    }

    /// Some drives are done: their trees take their slots, and the totals over all
    /// drives are counted again. Tells whether all drives are done.
    pub fn on_drive_done(&mut self, results: Vec<DriveResult>) -> (finished: bool)
        requires
            is_scan_all(old(self)@),
            old(self).done + results@.len() <= usize::MAX,
        ensures
            is_scan_all(final(self)@),
            ({
                let s = with_results(old(self)@, results@, results@.len() as int);
                final(self)@ == (ScanAllView { root: recounted(s.root), ..s })
            }),
            finished <==> forall|i: int|
                0 <= i < final(self)@.pending.len() ==> !(#[trigger] final(self)@.pending[i]),
    {
        let ghost s0 = self@;
        let total: usize = results.len();
        for d in it: results
            invariant
                it.seq() == results@,
                total == results@.len(),
                is_scan_all(self@),
                self.done == s0.done + it.index(),
                s0.done + total <= usize::MAX,
                self@ == with_results(s0, results@, it.index() as int),
        {
            self.take_result(d);
        }
        self.recount();
        self.is_finished()
    }

    /// Whether the folder with that number is a drive that is still being scanned.
    pub fn is_drive_pending(&self, folder: usize) -> (r: bool)
        requires
            is_scan_all(self@),
        ensures
            r == is_pending_drive(self@, folder as int),
    {
        let ghost f = self.root@;
        let mut at: usize = 1;
        let mut k: usize = 0;
        while k < self.pending.len() && at < folder
            invariant
                k <= self.pending.len(),
                is_scan_all(self@),
                f == self.root@,
                at == child_id(f, 0, k as int),
                forall|i: int| 0 <= i < k ==> #[trigger] child_id(f, 0, i) < folder,
            decreases self.pending.len() - k,
        {
            let count = checked_count(&self.root.children[k]);
            assert(f.children[k as int] == self.root.children@[k as int]@);
            let next = match count {
                Some(n) => at.checked_add(n),
                None => None,
            };
            match next {
                Some(n) => {
                    at = n;
                    k += 1;
                },
                None => {
                    proof {
                        lemma_later_drives(f, k + 1);
                    }
                    return false;
                },
            }
        }
        proof {
            lemma_later_drives(f, k as int);
        }
        if k < self.pending.len() && at == folder {
            assert(child_id(f, 0, k as int) == folder);
            self.pending[k]
        } else {
            false
        }
    }

    /// Whether no drive is still being scanned.
    pub fn is_finished(&self) -> (r: bool)
        ensures
            r <==> forall|i: int| 0 <= i < self@.pending.len() ==> !(#[trigger] self@.pending[i]),
    {
        let mut i: usize = 0;
        while i < self.pending.len()
            invariant
                i <= self.pending.len(),
                forall|j: int| 0 <= j < i ==> !(#[trigger] self@.pending[j]),
            decreases self.pending.len() - i,
        {
            if self.pending[i] {
                assert(self@.pending[i as int]);
                return false;
            }
            i += 1;
        }
        true
    }

    /// Counts the totals over all drives again.
    fn recount(&mut self)
        ensures
            final(self)@ == (ScanAllView { root: recounted(old(self)@.root), ..old(self)@ }),
    {
        let ghost f = self.root@;
        let (mut size, mut files, mut folders): (i64, i64, i64) = (0, 0, 0);
        let mut i: usize = 0;
        proof {
            law_wrap_fits(0);
        }
        while i < self.root.children.len()
            invariant
                i <= self.root.children.len(),
                f == self.root@,
                self@ == old(self)@,
                size == wrap(sum_upto(f.children, |c: FolderView| c.size, i as int)),
                files == wrap(sum_upto(f.children, |c: FolderView| c.file_count, i as int)),
                folders == wrap(
                    sum_upto(f.children, |c: FolderView| c.folder_count + 1, i as int),
                ),
            decreases self.root.children.len() - i,
        {
            let c = &self.root.children[i];
            proof {
                assert(f.children[i as int] == c@);
                law_wrap_absorbs(
                    sum_upto(f.children, |c: FolderView| c.size, i as int),
                    c.size as int,
                );
                law_wrap_absorbs(
                    sum_upto(f.children, |c: FolderView| c.file_count, i as int),
                    c.file_count as int,
                );
                law_wrap_absorbs(
                    sum_upto(f.children, |c: FolderView| c.folder_count + 1, i as int),
                    c.folder_count + 1,
                );
                law_wrap_absorbs(c.folder_count + 1, folders as int);
            }
            size = wrapping_sum(size, c.size);
            files = wrapping_sum(files, c.file_count);
            folders = wrapping_sum(folders, wrapping_sum(c.folder_count, 1));
            i += 1;
        }
        self.root.size = size;
        self.root.file_count = files;
        self.root.folder_count = folders;
        assert(self.root@.children =~= f.children);
        assert(self.root@.files =~= f.files);
    }
}

/// The totals over all drives are those of the drives: once every drive's own
/// totals are right, so are those of the folder above them.
pub proof fn law_all_drives_tidy(f: FolderView)
    requires
        f.own_size == 0,
        f.direct_file_count == 0,
        forall|i: int| 0 <= i < f.children.len() ==> tidy(#[trigger] f.children[i]),
    ensures
        tidy(recounted(f)),
{
}

/// A drive whose scan is done, well or badly, is no longer pending, and no other
/// drive is affected.
pub proof fn law_one_drive_at_a_time(s: ScanAllView, d: DriveResult, k: int)
    requires
        is_scan_all(s),
        k == slot_of(s.root.children, d.path@),
        k < s.root.children.len(),
    ensures
        !with_result(s, d).pending[k],
        with_result(s, d).root.children.len() == s.root.children.len(),
        forall|i: int|
            0 <= i < s.pending.len() && i != k ==> with_result(s, d).pending[i]
                == #[trigger] s.pending[i] && with_result(s, d).root.children[i]
                == s.root.children[i],
        d.result is Err ==> with_result(s, d).root == s.root,
{
    lemma_slot(s.root.children, d.path@);
}

proof fn lemma_slot(cs: Seq<FolderView>, path: Seq<char>)
    ensures
        0 <= slot_of(cs, path) <= cs.len(),
    decreases cs.len(),
{
    if cs.len() > 0 && cs[0].full_path != path {
        lemma_slot(cs.skip(1), path);
    }
}

// ------------------------------------------------------------------ status texts

/// What the status bar says when a scan begins.
pub fn scanning_text(path: &str, use_mft: bool) -> (r: String)
    ensures
        r@ == "Scanning "@ + path@ + " ("@ + (if use_mft {
            "MFT"@
        } else {
            "walker"@
        }) + ")..."@,
{
    let mut r = "Scanning ".to_owned();
    r.append(path);
    r.append(" (");
    if use_mft {
        r.append("MFT");
    } else {
        r.append("walker");
    }
    r.append(")...");
    r
}

/// What it says when a scan of `n` drives begins.
pub fn scanning_drives_text(n: usize) -> (r: String)
    requires
        n <= i64::MAX,
    ensures
        r@ == "Scanning "@ + decimal(n as int) + " drives..."@,
{
    let mut r = "Scanning ".to_owned();
    push_decimal(&mut r, n as i64);
    r.append(" drives...");
    r
}

/// What it says while drives are still being scanned.
pub open spec fn so_far_text(done: int, expected: int, size: int, files: int, base: int) -> Seq<char> {
    "Scanned "@ + decimal(done) + "/"@ + decimal(expected) + " drives \u{2014} "@ + bytes_text(
        size,
        base,
    ) + " ("@ + count_text(files) + " files) so far..."@
}

/// What it says once all drives are done: what they amount to, and why the first one
/// that was skipped was.
pub open spec fn all_done_text(f: FolderView, err: Option<Seq<char>>, elapsed: Seq<char>, base: int) -> Seq<
    char,
> {
    if f.children.len() == 0 {
        "Scan failed: "@ + match err {
            Some(e) => e,
            None => "no drives scanned"@,
        }
    } else {
        "All drives scanned"@ + (match err {
            Some(e) => "  [some skipped: "@ + e + "]"@,
            None => ""@,
        }) + totals_text(f, elapsed, base)
    }
}

/// What a tree amounts to, and how long it took.
pub open spec fn totals_text(f: FolderView, elapsed: Seq<char>, base: int) -> Seq<char> {
    "\tSize: "@ + bytes_text(f.size, base) + "  \u{B7}  Files: "@ + count_text(f.file_count)
        + "  \u{B7}  Folders: "@ + count_text(f.folder_count) + elapsed
}

fn push_totals(out: &mut String, node: &FolderNode, elapsed: &str, units: &Units)
    ensures
        final(out)@ == old(out)@ + totals_text(node@, elapsed@, units.step()),
{
    let ghost before = out@;
    out.append("\tSize: ");
    out.append(format_bytes(node.size, units).as_str());
    out.append("  \u{B7}  Files: ");
    out.append(format_count(node.file_count).as_str());
    out.append("  \u{B7}  Folders: ");
    out.append(format_count(node.folder_count).as_str());
    out.append(elapsed);
    assert(out@ =~= before + totals_text(node@, elapsed@, units.step()));
}

impl ScanAll {
    pub fn so_far(&self, units: &Units) -> (r: String)
        requires
            self.done <= i64::MAX,
            self.expected <= i64::MAX,
        ensures
            r@ == so_far_text(
                self@.done,
                self@.expected,
                self@.root.size,
                self@.root.file_count,
                units.step(),
            ),
    {
        let mut r = "Scanned ".to_owned();
        push_decimal(&mut r, self.done as i64);
        r.append("/");
        push_decimal(&mut r, self.expected as i64);
        r.append(" drives \u{2014} ");
        r.append(format_bytes(self.root.size, units).as_str());
        r.append(" (");
        r.append(format_count(self.root.file_count).as_str());
        r.append(" files) so far...");
        r
    }

    /// Tells how a scan of all drives ended; `elapsed` is how long it took.
    pub fn finish_scan_all(&self, elapsed: &str, units: &Units) -> (r: String)
        ensures
            r@ == all_done_text(self@.root, self@.first_err, elapsed@, units.step()),
    {
        if self.root.children.len() == 0 {
            let mut r = "Scan failed: ".to_owned();
            match &self.first_err {
                Some(e) => r.append(e.as_str()),
                None => r.append("no drives scanned"),
            }
            return r;
        }
        let mut r = "All drives scanned".to_owned();
        let ghost start = r@;
        match &self.first_err {
            Some(e) => {
                r.append("  [some skipped: ");
                r.append(e.as_str());
                r.append("]");
                assert(r@ =~= start + ("  [some skipped: "@ + e@ + "]"@));
            },
            None => {
                r.append("");
            },
        }
        push_totals(&mut r, &self.root, elapsed, units);
        r
    }
}

/// Tells how the scan of one drive or folder ended.
pub fn scan_done_text(result: &Result<FolderNode, String>, elapsed: &str, units: &Units) -> (r:
    String)
    ensures
        match result {
            Ok(node) => r@ == node.name@ + " scanned"@ + totals_text(node@, elapsed@, units.step()),
            Err(e) => r@ == "Scan failed: "@ + e@,
        },
{
    match result {
        Ok(node) => {
            let mut r = node.name.clone();
            r.append(" scanned");
            push_totals(&mut r, node, elapsed, units);
            r
        },
        Err(e) => {
            let mut r = "Scan failed: ".to_owned();
            r.append(e.as_str());
            r
        },
    }
}

/// What the status bar says while a scan is under way: how far it has come where
/// that is known, else where it is.
pub fn progress_text(
    files: i64,
    bytes: i64,
    percent: Option<&str>,
    path: &str,
    units: &Units,
) -> (r: String)
    ensures
        r@ == "Scanning... "@ + count_text(files as int) + " files, "@ + bytes_text(
            bytes as int,
            units.step(),
        ) + (match percent {
            Some(p) => " ("@ + p@ + "%)"@,
            None => "  "@ + path@,
        }),
{
    let mut r = "Scanning... ".to_owned();
    r.append(format_count(files).as_str());
    r.append(" files, ");
    r.append(format_bytes(bytes, units).as_str());
    let ghost start = r@;
    match percent {
        Some(p) => {
            r.append(" (");
            r.append(p);
            r.append("%)");
            assert(r@ =~= start + (" ("@ + p@ + "%)"@));
        },
        None => {
            r.append("  ");
            r.append(path);
            assert(r@ =~= start + ("  "@ + path@));
        },
    }
    r
}

/// The tree of a drive takes the slot that has its path, and so does nothing else: where
/// the scan failed the slot stays empty. The first failure is remembered, and every drive
/// that reports counts as done.
pub proof fn law_tree_takes_its_slot(s: ScanAllView, d: DriveResult, k: int)
    requires
        is_scan_all(s),
        0 <= k < s.root.children.len(),
        s.root.children[k].full_path == d.path@,
        forall|i: int|
            0 <= i < k ==> (#[trigger] s.root.children[i]).full_path != d.path@,
    ensures
        ({
            let t = with_result(s, d);
            &&& d.result is Ok ==> t.root.children[k] == d.result->Ok_0@
            &&& d.result is Err ==> t.root.children[k] == s.root.children[k]
            &&& !t.pending[k]
            &&& t.done == s.done + 1
            &&& t.expected == s.expected
            &&& d.result is Err && s.first_err is None ==> t.first_err == Some(d.result->Err_0@)
            &&& d.result is Ok || s.first_err is Some ==> t.first_err == s.first_err
        }),
{
    lemma_slot_is(s.root.children, d.path@, k);
}

proof fn lemma_slot_is(cs: Seq<FolderView>, path: Seq<char>, k: int)
    requires
        0 <= k < cs.len(),
        cs[k].full_path == path,
        forall|i: int| 0 <= i < k ==> (#[trigger] cs[i]).full_path != path,
    ensures
        slot_of(cs, path) == k,
    decreases k,
{
    if k > 0 {
        assert(cs[0].full_path != path);
        assert(cs.skip(1)[k - 1] == cs[k]);
        assert forall|i: int| 0 <= i < k - 1 implies (#[trigger] cs.skip(1)[i]).full_path != path by {
            assert(cs.skip(1)[i] == cs[i + 1]);
        }
        lemma_slot_is(cs.skip(1), path, k - 1);
    }
}

/// The drives are scanned in the order of their paths, all of them and each once.
pub proof fn law_drives_by_path(
    r: Seq<ScanTarget>,
    targets: Seq<ScanTarget>,
    order: Seq<usize>,
)
    requires
        is_order_of(order, path_keys(targets), false),
        is_permutation(order, targets.len()),
        r == order.map_values(|i: usize| targets[i as int]),
        targets.len() <= usize::MAX,
    ensures
        r.len() == targets.len(),
        forall|i: int| 0 <= i < targets.len() ==> r.contains(#[trigger] targets[i]),
        forall|i: int, j: int|
            0 <= i < j < r.len() ==> !text_less((#[trigger] r[j]).path@, (#[trigger] r[i]).path@),
{
    let keys = path_keys(targets);
    law_order_is_permutation(order, keys, false);
    assert forall|i: int| 0 <= i < targets.len() implies r.contains(#[trigger] targets[i]) by {
        assert(order.contains(i as usize));
        let k = choose|k: int| 0 <= k < order.len() && order[k] == i;
        assert(r[k] == targets[i]);
    }
    assert forall|i: int, j: int| 0 <= i < j < r.len() implies !text_less(
        (#[trigger] r[j]).path@,
        (#[trigger] r[i]).path@,
    ) by {
        assert(stands_before(keys, false, order[i], order[j]));
        law_text_order_total(r[i].path@, r[j].path@);
    }
}

} // verus!
