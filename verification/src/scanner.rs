//! The settings of a folder walk on Windows.

use crate::listing::{Spot, Subfolder};
use crate::path::{normal_root, scan_root, PathStyle};
use crate::progress::{is_due, percent_walked, report_due, walk_percent, ScanProgress};
use crate::walk::{ends_on, is_finite, is_walk, outcome, scanned, Disk, Walk, WalkRules};
use std::sync::atomic::{AtomicBool, Ordering};
use std::sync::Arc;
use vstd::prelude::*;

verus! {

/// A walk of Windows folders, as it is set up.
pub struct Scanner {
    pub cancel: Arc<AtomicBool>,
    pub progress: bool,
    pub parallel_top_levels: i32,
    pub total_size_hint: i64,
    pub track_files: bool,
}

/// The settings of a scanner.
pub struct ScanSettings {
    pub cancel: Arc<AtomicBool>,
    pub progress: bool,
    pub parallel_top_levels: i32,
    pub total_size_hint: i64,
    pub track_files: bool,
}

impl View for Scanner {
    type V = ScanSettings;

    open spec fn view(&self) -> ScanSettings {
        ScanSettings {
            cancel: self.cancel,
            progress: self.progress,
            parallel_top_levels: self.parallel_top_levels,
            total_size_hint: self.total_size_hint,
            track_files: self.track_files,
        }
    }
}

/// The settings that scanners have at first: no reports, a fan-out, no
/// expected size, and files only counted.
pub open spec fn is_plain(s: ScanSettings) -> bool {
    !s.progress && s.parallel_top_levels == 2 && s.total_size_hint == 0 && !s.track_files
}

impl Default for Scanner {
    fn default() -> (r: Self)
        ensures
            is_plain(r@),
            r.total_size_hint == 0,
    {
        Self::new()
    }
}

impl Scanner {
    pub fn new() -> (r: Self)
        ensures
            is_plain(r@),
            r.total_size_hint == 0,
    {
        Scanner {
            cancel: Arc::new(AtomicBool::new(false)),
            progress: false,
            parallel_top_levels: 2,
            total_size_hint: 0,
            track_files: false,
        }
    }

    /// Watches `c`, which cancels the scan once it is set.
    pub fn with_cancel(self, c: Arc<AtomicBool>) -> (r: Self)
        ensures
            r@ == (ScanSettings { cancel: c, ..self@ }),
    {
        let mut s = self;
        s.cancel = c;
        s
    }

    /// Asks for progress reports.
    pub fn with_progress(self) -> (r: Self)
        ensures
            r@ == (ScanSettings { progress: true, ..self@ }),
    {
        let mut s = self;
        s.progress = true;
        s
    }

    /// Keeps single files, or only counts them.
    pub fn with_track_files(self, b: bool) -> (r: Self)
        ensures
            r@ == (ScanSettings { track_files: b, ..self@ }),
    {
        let mut s = self;
        s.track_files = b;
        s
    }

    /// Shares the folders of the root out to workers, where `depth` is positive.
    pub fn with_parallelism(self, depth: i32) -> (r: Self)
        ensures
            r@ == (ScanSettings { parallel_top_levels: depth, ..self@ }),
    {
        let mut s = self;
        s.parallel_top_levels = depth;
        s
    }

    pub fn parallelism(&self) -> (r: i32)
        ensures
            r == self@.parallel_top_levels,
    {
        self.parallel_top_levels
    }

    pub fn rules(&self) -> (r: WalkRules)
        ensures
            r == (WalkRules { style: PathStyle::Windows, track_files: self@.track_files }),
    {
        WalkRules { style: PathStyle::Windows, track_files: self.track_files }
    }

    /// Whether the scan has been cancelled by now. The flag belongs to other
    /// threads too, so nothing is known of its value.
    pub fn is_cancelled(&self) -> bool {
        self.cancel.load(Ordering::Relaxed)
    }

    /// Begins a scan of the folder `root`, which the tree carries as its name too.
    /// On every disk whose folders end, the walk ends in the tree of that folder.
    pub fn scan(&self, root: &str) -> (w: Walk)
        ensures
            is_walk(w@),
            w@.rules == (WalkRules { style: PathStyle::Windows, track_files: self@.track_files }),
            w@.wanted == Some(Spot { path: scan_root(root@), name: scan_root(root@) }),
            w@.frames.len() == 0,
            forall|disk: Disk| #[trigger]
                outcome(w@, disk) == scanned(disk, w@.rules, w@.wanted->0),
            forall|disk: Disk| #[trigger]
                ends_on(w@, disk) <==> is_finite(disk, w@.rules, scan_root(root@)),
    {
        let path = normal_root(root);
        let name = path.clone();
        Walk::start(self.rules(), Subfolder { path, name })
    }

    /// The report that is due at `now_ms`, `last_ms` being the time of the last one;
    /// none where nobody asked for reports or the last one is too recent.
    pub fn report_progress(
        &self,
        path: &str,
        now_ms: i64,
        last_ms: i64,
        total_size: i64,
        files_scanned: i64,
    ) -> (r: Option<ScanProgress>)
        requires
            i64::MIN <= now_ms - last_ms <= i64::MAX,
        ensures
            r is Some <==> self@.progress && is_due(now_ms as int, last_ms as int),
            r is Some ==> {
                &&& r->0.total_size == total_size
                &&& r->0.files_scanned == files_scanned
                &&& r->0.current_path@ == path@
                &&& r->0.percent == walk_percent(
                    total_size as int,
                    self@.total_size_hint as int,
                )
            },
    {
        if !self.progress || !report_due(now_ms, last_ms) {
            return None;
        }
        Some(
            ScanProgress {
                total_size,
                files_scanned,
                current_path: path.to_owned(),
                percent: percent_walked(total_size, self.total_size_hint),
            },
        )
    }
}

} // verus!
