//! The settings of a table scan, the volume that it opens, and the tree and
//! reports that it gives.

use crate::mft::record::MftEntry;
use crate::mft::tree::{build_tree, entry_at, slots, volume_tree, ROOT_FRN};
use crate::progress::{is_due, percent_read, report_due, table_percent, ScanProgress};
use crate::text::{
    ascii_lowered, ascii_upper, chars_of, code_of, eq_ignore_ascii_case, skip_back, skip_white,
    skip_white_back, to_ascii_upper, trim, trim_end_of, trimmed,
};
use crate::types::FolderNode;
use crate::utf16::{decode, until_nul, wstr_to_string};
use std::sync::atomic::{AtomicBool, Ordering};
use std::sync::Arc;
use vstd::prelude::*;

verus! {

/// A table scan, as it is set up.
pub struct MftScanner {
    cancel: Arc<AtomicBool>,
    progress: bool,
    track_files: bool,
}

/// The settings of a table scan.
pub struct MftSettings {
    pub cancel: Arc<AtomicBool>,
    pub progress: bool,
    pub track_files: bool,
}

impl View for MftScanner {
    type V = MftSettings;

    closed spec fn view(&self) -> MftSettings {
        MftSettings {
            cancel: self.cancel,
            progress: self.progress,
            track_files: self.track_files,
        }
    }
}

impl Default for MftScanner {
    fn default() -> (r: Self)
        ensures
            !r@.progress,
            !r@.track_files,
    {
        Self::new()
    }
}

/// What is left of `root` once backslashes at its end and then white space around
/// it are left out.
pub open spec fn bare_root(root: Seq<char>) -> Seq<char> {
    trimmed(trim_end_of(root, '\\'))
}

/// The drive letter that `root` starts with, in upper case: a single ASCII
/// character in front of a colon.
pub open spec fn drive_of(root: Seq<char>) -> Option<char> {
    let s = bare_root(root);
    if s.len() >= 2 && s[0] as int <= 0x7F && s[1] == ':' {
        Some(ascii_upper(s[0]))
    } else {
        None
    }
}

/// The device of a drive: `\\.\C:`.
pub open spec fn volume_path(drive: char) -> Seq<char> {
    seq!['\\', '\\', '.', '\\', drive, ':']
}

/// A volume whose table is to be read.
#[derive(Debug)]
pub struct Volume {
    pub drive: char,
    /// The device to open.
    pub path: String,
}

impl MftScanner {
    pub fn new() -> (r: Self)
        ensures
            !r@.progress,
            !r@.track_files,
    {
        MftScanner {
            cancel: Arc::new(AtomicBool::new(false)),
            progress: false,
            track_files: false,
        }
    }

    /// Watches `c`, which cancels the scan once it is set.
    pub fn with_cancel(self, c: Arc<AtomicBool>) -> (r: Self)
        ensures
            r@ == (MftSettings { cancel: c, ..self@ }),
    {
        let mut s = self;
        s.cancel = c;
        s
    }

    /// Asks for progress reports.
    pub fn with_progress(self) -> (r: Self)
        ensures
            r@ == (MftSettings { progress: true, ..self@ }),
    {
        let mut s = self;
        s.progress = true;
        s
    }

    /// Keeps single files, or only counts them.
    pub fn with_track_files(self, b: bool) -> (r: Self)
        ensures
            r@ == (MftSettings { track_files: b, ..self@ }),
    {
        let mut s = self;
        s.track_files = b;
        s
    }

    /// Whether the scan has been cancelled by now. The flag belongs to other
    /// threads too, so nothing is known of its value.
    pub fn is_cancelled(&self) -> bool {
        self.cancel.load(Ordering::Relaxed)
    }

    /// Begins a scan of the drive `root`: says which volume to open.
    pub fn scan(&self, root: &str) -> (r: Result<Volume, String>)
        ensures
            r is Ok <==> drive_of(root@) is Some,
            r is Ok ==> r->Ok_0.drive == drive_of(root@)->0 && r->Ok_0.path@ == volume_path(
                drive_of(root@)->0,
            ),
            r is Err ==> r->Err_0@ == "MFT scan requires a drive-letter root (e.g. C:)"@,
    {
        let cs = chars_of(root);
        let n: usize = skip_back(&cs, cs.len(), '\\');
        let a: usize = skip_white(&cs, 0, n);
        let b: usize = skip_white_back(&cs, a, n);
        let ghost s = bare_root(root@);
        proof {
            assert(cs@.take(cs.len() as int) =~= root@);
            assert(cs@.subrange(0, n as int) =~= cs@.take(n as int));
            assert(s == cs@.subrange(a as int, b as int));
        }
        if b - a < 2 || code_of(cs[a]) > 0x7F || cs[a + 1] != ':' {
            return Err("MFT scan requires a drive-letter root (e.g. C:)".to_owned());
        }
        assert(s[0] == cs@[a as int] && s[1] == cs@[a + 1]);
        let drive = to_ascii_upper(cs[a]);
        let mut path = String::new();
        path.push('\\');
        path.push('\\');
        path.push('.');
        path.push('\\');
        path.push(drive);
        path.push(':');
        assert(path@ =~= volume_path(drive));
        Ok(Volume { drive, path })
    }

    /// Builds the tree of a drive from its table.
    pub fn build_tree(&self, entries: Vec<Option<MftEntry>>, drive: char) -> (r: Result<
        FolderNode,
        String,
    >)
        requires
            entries.len() <= i64::MAX,
        ensures
            r is Ok <==> entry_at(slots(entries@), ROOT_FRN) is Some,
            r is Ok ==> r->Ok_0@ == volume_tree(slots(entries@), drive, self@.track_files),
            r is Err ==> r->Err_0@ == "MFT root entry (FRN 5) not found."@,
    {
        build_tree(entries, drive, self.track_files)
    }

    /// The report that is due at `now_ms`, `last_ms` being the time of the last one;
    /// none where nobody asked for reports or the last one is too recent.
    pub fn report_progress(
        &self,
        now_ms: i64,
        last_ms: i64,
        total_size: i64,
        files_scanned: i64,
        bytes_read: i64,
        bytes_total: i64,
    ) -> (r: Option<ScanProgress>)
        requires
            i64::MIN <= now_ms - last_ms <= i64::MAX,
        ensures
            r is Some <==> self@.progress && is_due(now_ms as int, last_ms as int),
            r is Some ==> {
                &&& r->0.total_size == total_size
                &&& r->0.files_scanned == files_scanned
                &&& r->0.current_path@ == "MFT scan in progress..."@
                &&& r->0.percent == table_percent(bytes_read as int, bytes_total as int)
            },
    {
        if !self.progress || !report_due(now_ms, last_ms) {
            return None;
        }
        Some(
            ScanProgress {
                total_size,
                files_scanned,
                current_path: "MFT scan in progress...".to_owned(),
                percent: percent_read(bytes_read, bytes_total),
            },
        )
    }
}

/// The drive root that `path` names, `C:\`, whether or not it has its backslash.
pub open spec fn named_root(path: Seq<char>) -> Option<Seq<char>> {
    let t = trimmed(path);
    let r = if t.len() == 2 {
        t.push('\\')
    } else {
        t
    };
    if r.len() == 3 && r[0] as int <= 0x7F && r[1] == ':' && r[2] == '\\' {
        Some(r)
    } else {
        None
    }
}

/// The drive root whose file system decides whether `path` can be scanned by its
/// table; `None` where `path` is no drive root.
pub fn drive_root(path: &str) -> (r: Option<String>)
    ensures
        r is Some <==> named_root(path@) is Some,
        r is Some ==> r->0@ == named_root(path@)->0,
{
    let mut t = trim(path);
    if t.as_str().unicode_len() == 2 {
        t.push('\\');
    }
    if t.as_str().unicode_len() != 3 {
        return None;
    }
    let cs = chars_of(t.as_str());
    if code_of(cs[0]) <= 0x7F && cs[1] == ':' && cs[2] == '\\' {
        Some(t)
    } else {
        None
    }
}

/// Whether `path` is the root of an NTFS drive, `file_system` being the name of the
/// file system on the drive that `drive_root` gives, in a NUL-terminated buffer;
/// `None` where the system did not tell.
pub fn is_ntfs_drive_root(path: &str, file_system: Option<&[u16]>) -> (r: bool)
    ensures
        r == (named_root(path@) is Some && file_system is Some && ascii_lowered(
            decode(until_nul(file_system->0@)),
        ) == ascii_lowered("NTFS"@)),
{
    match drive_root(path) {
        None => false,
        Some(_) => match file_system {
            None => false,
            Some(buf) => eq_ignore_ascii_case(wstr_to_string(buf).as_str(), "NTFS"),
        },
    }
}

/// A drive goes by its letter, with or without a backslash: its device is named in upper
/// case, its root as it was written.
pub proof fn law_drives_by_letter(c: char)
    requires
        'A' <= c <= 'Z' || 'a' <= c <= 'z',
    ensures
        named_root(seq![c, ':']) == Some(seq![c, ':', '\\']),
        named_root(seq![c, ':', '\\']) == Some(seq![c, ':', '\\']),
        drive_of(seq![c, ':']) == drive_of(seq![c, ':', '\\']),
        drive_of(seq![c, ':']) is Some,
        'A' <= drive_of(seq![c, ':'])->0 <= 'Z',
        drive_of(seq![c, ':'])->0 as int == if c <= 'Z' {
            c as int
        } else {
            c as int - 32
        },
{
    let (bare, root) = (seq![c, ':'], seq![c, ':', '\\']);
    assert(trimmed(bare) == bare && trimmed(root) == root);
    assert(bare.push('\\') =~= root);
    assert(root.drop_last() =~= bare);
    assert(trim_end_of(bare, '\\') == bare);
    assert(trim_end_of(root, '\\') == trim_end_of(root.drop_last(), '\\'));
}

/// Nothing else is a drive root: it is a single character, a colon and at most a backslash.
pub proof fn law_only_drives_are_roots(path: Seq<char>)
    ensures
        named_root(path) is Some <==> {
            let t = trimmed(path);
            &&& t.len() == 2 || (t.len() == 3 && t[2] == '\\')
            &&& (t[0] as int) < 128
            &&& t[1] == ':'
        },
{
}

} // verus!
