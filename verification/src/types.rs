//! The scanned tree: folders, their files, and the totals they carry.

use crate::wrap::{law_wrap_absorbs, law_wrap_fits, wrap, wrapping_sum};
use vstd::prelude::*;

verus! {

/// One file directly inside a folder.
#[derive(Debug)]
pub struct FileEntry {
    pub name: String,
    pub size: i64,
    /// Windows FILETIME, in UTC; 0 where it is not known.
    pub last_modified_ft: i64,
}

/// One folder of a scan, with the totals of everything below it.
#[derive(Debug)]
pub struct FolderNode {
    pub full_path: String,
    pub name: String,
    /// Bytes in this folder and everything below it.
    pub size: i64,
    /// Bytes of the files directly in this folder.
    pub own_size: i64,
    /// Files in this folder and everything below it.
    pub file_count: i64,
    /// Files directly in this folder.
    pub direct_file_count: i64,
    /// Folders below this one, at any depth.
    pub folder_count: i64,
    pub last_modified_ft: i64,
    pub is_access_denied: bool,
    pub children: Vec<FolderNode>,
    pub files: Vec<FileEntry>,
}

/// What a `FileEntry` is: its name, size and time.
pub struct FileView {
    pub name: Seq<char>,
    pub size: int,
    pub last_modified_ft: int,
}

impl View for FileEntry {
    type V = FileView;

    open spec fn view(&self) -> FileView {
        FileView {
            name: self.name@,
            size: self.size as int,
            last_modified_ft: self.last_modified_ft as int,
        }
    }
}

/// What a `FolderNode` is: a finite tree of names, paths and numbers.
pub struct FolderView {
    pub full_path: Seq<char>,
    pub name: Seq<char>,
    pub size: int,
    pub own_size: int,
    pub file_count: int,
    pub direct_file_count: int,
    pub folder_count: int,
    pub last_modified_ft: int,
    pub is_access_denied: bool,
    pub children: Seq<FolderView>,
    pub files: Seq<FileView>,
}

impl FolderNode {
    pub open spec fn model(self) -> FolderView
        decreases self,
    {
        FolderView {
            full_path: self.full_path@,
            name: self.name@,
            size: self.size as int,
            own_size: self.own_size as int,
            file_count: self.file_count as int,
            direct_file_count: self.direct_file_count as int,
            folder_count: self.folder_count as int,
            last_modified_ft: self.last_modified_ft as int,
            is_access_denied: self.is_access_denied,
            children: Seq::new(
                self.children@.len(),
                |i: int|
                    if 0 <= i < self.children@.len() {
                        self.children@[i].model()
                    } else {
                        arbitrary()
                    },
            ),
            files: Seq::new(self.files@.len(), |i: int| self.files@[i]@),
        }
    }
}

impl View for FolderNode {
    type V = FolderView;

    open spec fn view(&self) -> FolderView {
        self.model()
    }
}

/// A folder with nothing in it and nothing known of it.
pub open spec fn blank_folder() -> FolderView {
    FolderView {
        full_path: Seq::empty(),
        name: Seq::empty(),
        size: 0,
        own_size: 0,
        file_count: 0,
        direct_file_count: 0,
        folder_count: 0,
        last_modified_ft: 0,
        is_access_denied: false,
        children: Seq::empty(),
        files: Seq::empty(),
    }
}

/// An empty folder of that path, name and time.
pub open spec fn empty_folder(path: Seq<char>, name: Seq<char>, ft: int) -> FolderView {
    FolderView { full_path: path, name, last_modified_ft: ft, ..blank_folder() }
}

/// `f` with one more file directly in it; the file itself is listed only where
/// files are tracked.
pub open spec fn with_file(f: FolderView, file: FileView, track: bool) -> FolderView {
    FolderView {
        size: wrap(f.size + file.size),
        own_size: wrap(f.own_size + file.size),
        file_count: wrap(f.file_count + 1),
        direct_file_count: wrap(f.direct_file_count + 1),
        files: if track {
            f.files.push(file)
        } else {
            f.files
        },
        ..f
    }
}

/// `f` with one more folder directly in it.
pub open spec fn with_child(f: FolderView, c: FolderView) -> FolderView {
    FolderView {
        size: wrap(f.size + c.size),
        file_count: wrap(f.file_count + c.file_count),
        folder_count: wrap(f.folder_count + c.folder_count + 1),
        children: f.children.push(c),
        ..f
    }
}

impl Default for FolderNode {
    fn default() -> (r: Self)
        ensures
            r@ == blank_folder(),
    {
        let r = FolderNode {
            full_path: String::new(),
            name: String::new(),
            size: 0,
            own_size: 0,
            file_count: 0,
            direct_file_count: 0,
            folder_count: 0,
            last_modified_ft: 0,
            is_access_denied: false,
            children: Vec::new(),
            files: Vec::new(),
        };
        assert(r@.children =~= Seq::empty());
        assert(r@.files =~= Seq::empty());
        r
    }
}

impl FolderNode {
    /// An empty folder of that path, name and time.
    pub fn new(full_path: String, name: String, last_modified_ft: i64) -> (r: Self)
        ensures
            r@ == empty_folder(full_path@, name@, last_modified_ft as int),
    {
        let r = FolderNode {
            full_path,
            name,
            size: 0,
            own_size: 0,
            file_count: 0,
            direct_file_count: 0,
            folder_count: 0,
            last_modified_ft,
            is_access_denied: false,
            children: Vec::new(),
            files: Vec::new(),
        };
        assert(r@.children =~= Seq::empty());
        assert(r@.files =~= Seq::empty());
        r
    }

    /// Adds a file that lies directly in this folder.
    pub fn add_file(&mut self, name: &str, size: i64, last_modified_ft: i64, track: bool)
        ensures
            final(self)@ == with_file(
                old(self)@,
                (FileView { name: name@, size: size as int, last_modified_ft: last_modified_ft as int }),
                track,
            ),
    {
        let ghost before = self@;
        self.size = wrapping_sum(self.size, size);
        self.own_size = wrapping_sum(self.own_size, size);
        self.file_count = wrapping_sum(self.file_count, 1);
        self.direct_file_count = wrapping_sum(self.direct_file_count, 1);
        if track {
            self.files.push(FileEntry { name: name.to_owned(), size, last_modified_ft });
        }
        assert(self@.children =~= before.children);
        assert(self@.files =~= if track {
            before.files.push(
                FileView { name: name@, size: size as int, last_modified_ft: last_modified_ft as int },
            )
        } else {
            before.files
        });
    }

    /// Adds a finished folder directly below this one.
    pub fn adopt(&mut self, child: FolderNode)
        ensures
            final(self)@ == with_child(old(self)@, child@),
    {
        let ghost before = self@;
        self.size = wrapping_sum(self.size, child.size);
        self.file_count = wrapping_sum(self.file_count, child.file_count);
        let below: i64 = wrapping_sum(child.folder_count, 1);
        proof {
            law_wrap_absorbs(child.folder_count + 1, self.folder_count as int);
        }
        self.folder_count = wrapping_sum(self.folder_count, below);
        self.children.push(child);
        assert(self@.children =~= before.children.push(child@));
        assert(self@.files =~= before.files);
    }
}

/// The sum of what `amount` gives for the first `n` of `cs`.
pub open spec fn sum_upto(cs: Seq<FolderView>, amount: spec_fn(FolderView) -> int, n: int) -> int
    decreases n,
{
    if n <= 0 {
        0
    } else {
        sum_upto(cs, amount, n - 1) + amount(cs[n - 1])
    }
}

/// The sum over all of `cs`.
pub open spec fn sum_over(cs: Seq<FolderView>, amount: spec_fn(FolderView) -> int) -> int {
    sum_upto(cs, amount, cs.len() as int)
}

/// Whether the totals of a folder are those of what lies in it, here and in every
/// folder below.
pub open spec fn tidy(f: FolderView) -> bool
    decreases f,
{
    &&& f.size == wrap(f.own_size + sum_over(f.children, |c: FolderView| c.size))
    &&& f.file_count == wrap(
        f.direct_file_count + sum_over(f.children, |c: FolderView| c.file_count),
    )
    &&& f.folder_count == wrap(sum_over(f.children, |c: FolderView| c.folder_count + 1))
    &&& forall|i: int| 0 <= i < f.children.len() ==> tidy(#[trigger] f.children[i])
}

/// Only the first `n` folders matter for the sum of `n`.
pub proof fn lemma_sum_prefix(
    a: Seq<FolderView>,
    b: Seq<FolderView>,
    amount: spec_fn(FolderView) -> int,
    n: int,
)
    requires
        n <= a.len(),
        n <= b.len(),
        forall|i: int| 0 <= i < n ==> a[i] == b[i],
    ensures
        sum_upto(a, amount, n) == sum_upto(b, amount, n),
    decreases n,
{
    if n > 0 {
        lemma_sum_prefix(a, b, amount, n - 1);
    }
}

/// One more folder adds its amount to the sum.
pub proof fn lemma_sum_push(cs: Seq<FolderView>, c: FolderView, amount: spec_fn(FolderView) -> int)
    ensures
        sum_over(cs.push(c), amount) == sum_over(cs, amount) + amount(c),
{
    lemma_sum_prefix(cs.push(c), cs, amount, cs.len() as int);
}

/// An empty folder is tidy.
pub proof fn law_empty_is_tidy(path: Seq<char>, name: Seq<char>, ft: int)
    ensures
        tidy(empty_folder(path, name, ft)),
        tidy(blank_folder()),
{
    law_wrap_fits(0);
}

/// Adding a file to a tidy folder leaves it tidy.
pub proof fn law_file_keeps_tidy(f: FolderView, file: FileView, track: bool)
    requires
        tidy(f),
    ensures
        tidy(with_file(f, file, track)),
{
    let s = sum_over(f.children, |c: FolderView| c.size);
    let n = sum_over(f.children, |c: FolderView| c.file_count);
    law_wrap_absorbs(f.own_size + s, file.size);
    law_wrap_absorbs(f.own_size + file.size, s);
    law_wrap_absorbs(f.direct_file_count + n, 1);
    law_wrap_absorbs(f.direct_file_count + 1, n);
}

/// Adding a tidy folder to a tidy folder leaves it tidy.
pub proof fn law_child_keeps_tidy(f: FolderView, c: FolderView)
    requires
        tidy(f),
        tidy(c),
    ensures
        tidy(with_child(f, c)),
{
    let g = with_child(f, c);
    lemma_sum_push(f.children, c, |c: FolderView| c.size);
    lemma_sum_push(f.children, c, |c: FolderView| c.file_count);
    lemma_sum_push(f.children, c, |c: FolderView| c.folder_count + 1);
    law_wrap_absorbs(f.own_size + sum_over(f.children, |c: FolderView| c.size), c.size);
    law_wrap_absorbs(
        f.direct_file_count + sum_over(f.children, |c: FolderView| c.file_count),
        c.file_count,
    );
    law_wrap_absorbs(sum_over(f.children, |c: FolderView| c.folder_count + 1), c.folder_count + 1);
    assert forall|i: int| 0 <= i < g.children.len() implies tidy(#[trigger] g.children[i]) by {
        if i < f.children.len() {
            assert(g.children[i] == f.children[i]);
        }
    }
}

} // verus!
