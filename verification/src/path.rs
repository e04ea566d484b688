//! Paths as text: joining, the long-path form, and what a folder is listed by.

use crate::text::{chars_of, ends_with_char, skip_back, string_of, trim, trim_end_of, trimmed};
use vstd::prelude::*;

verus! {

/// How a scanner writes the path of a folder's entry.
#[derive(Copy, Clone, Debug, PartialEq, Eq, Structural)]
pub enum PathStyle {
    /// Parts stand behind backslashes.
    Windows,
    /// As the path functions of Windows join them: a slash separates too, and a bare
    /// drive, such as `C:`, stands for a folder of its own.
    WindowsPath,
    /// Parts stand behind slashes.
    Unix,
}

/// `leaf` in the folder `dir`, with a single backslash between them.
pub open spec fn joined(dir: Seq<char>, leaf: Seq<char>) -> Seq<char> {
    if dir.len() > 0 && dir.last() == '\\' {
        dir + leaf
    } else {
        dir.push('\\') + leaf
    }
}

/// `leaf` relative to `dir`, with slashes: a leaf that is itself absolute stays as
/// it is.
pub open spec fn joined_native(dir: Seq<char>, leaf: Seq<char>) -> Seq<char> {
    if leaf.len() > 0 && leaf[0] == '/' {
        leaf
    } else if dir.len() == 0 || dir.last() == '/' {
        dir + leaf
    } else {
        dir.push('/') + leaf
    }
}

/// Whether a character separates the parts of a path on Windows.
pub open spec fn is_sep(c: char) -> bool {
    c == '\\' || c == '/'
}

/// Whether a path begins with a drive letter.
pub open spec fn has_drive(p: Seq<char>) -> bool {
    p.len() >= 2 && is_ascii_letter(p[0]) && p[1] == ':'
}

pub open spec fn is_ascii_letter(c: char) -> bool {
    'a' <= c <= 'z' || 'A' <= c <= 'Z'
}

/// The name `leaf` in the folder `dir`, as the path functions of Windows join them.
pub open spec fn joined_windows(dir: Seq<char>, leaf: Seq<char>) -> Seq<char> {
    if dir.len() == 0 || is_sep(dir.last()) || (has_drive(dir) && dir.len() == 2) {
        dir + leaf
    } else {
        dir.push('\\') + leaf
    }
}

/// `leaf` in `dir`, in any style.
pub open spec fn joined_as(style: PathStyle, dir: Seq<char>, leaf: Seq<char>) -> Seq<char> {
    match style {
        PathStyle::Windows => joined(dir, leaf),
        PathStyle::WindowsPath => joined_windows(dir, leaf),
        PathStyle::Unix => joined_native(dir, leaf),
    }
}

/// Joins a directory and a leaf name with a single backslash, tolerating a
/// directory that already ends in one (a drive root).
pub fn join_path(dir: &str, leaf: &str) -> (r: String)
    ensures
        r@ == joined(dir@, leaf@),
{
    let mut r = dir.to_owned();
    if !ends_with_char(dir, '\\') {
        r.push('\\');
    }
    r.append(leaf);
    r
}

/// Joins a directory and a leaf name the way slash-separated paths are joined.
pub fn join_native(dir: &str, leaf: &str) -> (r: String)
    ensures
        r@ == joined_native(dir@, leaf@),
{
    if leaf.unicode_len() > 0 && leaf.get_char(0) == '/' {
        return leaf.to_owned();
    }
    let mut r = dir.to_owned();
    if dir.unicode_len() > 0 && !ends_with_char(dir, '/') {
        r.push('/');
    }
    r.append(leaf);
    r
}

fn is_separator(c: char) -> (r: bool)
    ensures
        r == is_sep(c),
{
    c == '\\' || c == '/'
}

fn begins_with_drive(cs: &Vec<char>) -> (r: bool)
    ensures
        r == has_drive(cs@),
{
    cs.len() >= 2 && (('a' <= cs[0] && cs[0] <= 'z') || ('A' <= cs[0] && cs[0] <= 'Z')) && cs[1]
        == ':'
}

fn join_windows(dir: &str, leaf: &str) -> (r: String)
    ensures
        r@ == joined_windows(dir@, leaf@),
{
    let cs = chars_of(dir);
    let n: usize = cs.len();
    let mut r = dir.to_owned();
    if n > 0 && !is_separator(cs[n - 1]) && !(n == 2 && begins_with_drive(&cs)) {
        r.push('\\');
    }
    r.append(leaf);
    r
}

/// Joins a directory and a leaf name in the way that a style asks for.
pub fn join_as(style: PathStyle, dir: &str, leaf: &str) -> (r: String)
    ensures
        r@ == joined_as(style, dir@, leaf@),
{
    match style {
        PathStyle::Windows => join_path(dir, leaf),
        PathStyle::WindowsPath => join_windows(dir, leaf),
        PathStyle::Unix => join_native(dir, leaf),
    }
}

/// The mark of a path that is passed on without normalising: `\\?\`.
pub open spec fn long_mark() -> Seq<char> {
    seq!['\\', '\\', '?', '\\']
}

/// The mark of a network path in that form: `\\?\UNC\`.
pub open spec fn long_unc_mark() -> Seq<char> {
    long_mark() + seq!['U', 'N', 'C', '\\']
}

/// Whether `p` starts with `mark`.
pub open spec fn starts_with(p: Seq<char>, mark: Seq<char>) -> bool {
    p.len() >= mark.len() && p.take(mark.len() as int) == mark
}

/// The long form of a path, free of the usual length limit. An empty path and one
/// already in that form stay as they are; `\\server` becomes `\\?\UNC\server`.
pub open spec fn long_path(p: Seq<char>) -> Seq<char> {
    if p.len() == 0 || starts_with(p, long_mark()) {
        p
    } else if starts_with(p, seq!['\\', '\\']) {
        long_unc_mark() + p.skip(2)
    } else {
        long_mark() + p
    }
}

pub fn to_long_path(p: &str) -> (r: String)
    ensures
        r@ == long_path(p@),
{
    let cs = chars_of(p);
    let n: usize = cs.len();
    if n == 0 {
        return p.to_owned();
    }
    if n >= 4 && cs[0] == '\\' && cs[1] == '\\' && cs[2] == '?' && cs[3] == '\\' {
        assert(p@.take(4) =~= long_mark());
        return p.to_owned();
    }
    assert(!starts_with(p@, long_mark())) by {
        if starts_with(p@, long_mark()) {
            let t = p@.take(4);
            assert(t[0] == p@[0] && t[1] == p@[1] && t[2] == p@[2] && t[3] == p@[3]);
        }
    }
    let mut r = String::new();
    r.push('\\');
    r.push('\\');
    r.push('?');
    r.push('\\');
    assert(r@ =~= long_mark());
    if n >= 2 && cs[0] == '\\' && cs[1] == '\\' {
        assert(p@.take(2) =~= seq!['\\', '\\']);
        r.push('U');
        r.push('N');
        r.push('C');
        r.push('\\');
        assert(r@ =~= long_unc_mark());
        let rest = string_of(&cs, 2, n);
        assert(rest@ =~= p@.skip(2));
        r.append(rest.as_str());
    } else {
        assert(!starts_with(p@, seq!['\\', '\\'])) by {
            if starts_with(p@, seq!['\\', '\\']) {
                let t = p@.take(2);
                assert(t[0] == p@[0] && t[1] == p@[1]);
            }
        }
        r.append(p);
    }
    r
}

/// The long form of a path is its own long form.
pub proof fn law_long_path_idempotent(p: Seq<char>)
    ensures
        long_path(long_path(p)) == long_path(p),
{
    let q = long_path(p);
    if p.len() > 0 && !starts_with(p, long_mark()) {
        assert(q.take(4) =~= long_mark());
    }
}

/// Joining a folder that ends in a backslash and one that does not gives the same
/// path, with one backslash between folder and leaf.
pub proof fn law_one_separator(dir: Seq<char>, leaf: Seq<char>)
    requires
        dir.len() > 0,
        dir.last() != '\\',
    ensures
        joined(dir, leaf) == joined(dir.push('\\'), leaf),
        joined(dir, leaf)[dir.len() as int] == '\\',
        joined(dir, leaf).take(dir.len() as int) == dir,
        joined(dir, leaf).skip((dir.len() + 1) as int) == leaf,
{
    let j = joined(dir, leaf);
    assert(j.take(dir.len() as int) =~= dir);
    assert(j.skip((dir.len() + 1) as int) =~= leaf);
}

/// The path of an entry is the path of its folder, one separator and the name: a
/// separator that the folder's path ends in is not doubled, and none is lost.
pub proof fn law_name_behind_folder(style: PathStyle, dir: Seq<char>, leaf: Seq<char>)
    requires
        dir.len() > 0,
        leaf.len() > 0 ==> leaf[0] != '/',
    ensures
        ({
            let sep = if style == PathStyle::Unix {
                '/'
            } else {
                '\\'
            };
            &&& dir.last() == sep ==> joined_as(style, dir, leaf) == dir + leaf
            &&& dir.last() != '/' && dir.last() != '\\' && dir.last() != ':' ==> joined_as(
                style,
                dir,
                leaf,
            ) == dir + seq![sep] + leaf
        }),
{
    assert(dir.push('/') =~= dir + seq!['/']);
    assert(dir.push('\\') =~= dir + seq!['\\']);
}

/// The length of a text in bytes.
pub open spec fn byte_len(s: Seq<char>) -> nat {
    vstd::utf8::encode_utf8(s).len()
}

/// What the entries of a folder are listed by: the folder's path with `\*` behind
/// it, in long form where that is over 240 bytes.
pub open spec fn find_pattern(path: Seq<char>) -> Seq<char> {
    let p = joined(path, seq!['*']);
    if byte_len(p) > 240 {
        long_path(p)
    } else {
        p
    }
}

pub fn find_path(path: &str) -> (r: String)
    ensures
        r@ == find_pattern(path@),
{
    let p = join_path(path, "*");
    proof {
        reveal_strlit("*");
        assert("*"@ =~= seq!['*']);
    }
    if p.as_str().as_bytes().len() > 240 {
        to_long_path(p.as_str())
    } else {
        p
    }
}

/// The path that a scan of `root` on Windows starts at: without white space around
/// it, and without trailing backslashes where it is longer than a drive root.
pub open spec fn scan_root(root: Seq<char>) -> Seq<char> {
    let p = trimmed(root);
    if byte_len(p) > 3 && p.last() == '\\' {
        trim_end_of(p, '\\')
    } else {
        p
    }
}

pub fn normal_root(root: &str) -> (r: String)
    ensures
        r@ == scan_root(root@),
{
    let p = trim(root);
    if p.as_str().as_bytes().len() > 3 && ends_with_char(p.as_str(), '\\') {
        let cs = chars_of(p.as_str());
        let n: usize = skip_back(&cs, cs.len(), '\\');
        assert(cs@.take(cs.len() as int) =~= p@);
        assert(cs@.subrange(0, n as int) =~= cs@.take(n as int));
        string_of(&cs, 0, n)
    } else {
        assert(byte_len(Seq::empty()) == 0);
        p
    }
}

/// Where the first separator from `from` on stands; the end where there is none.
pub open spec fn next_sep(p: Seq<char>, from: int) -> int
    decreases p.len() - from,
{
    if 0 <= from < p.len() && !is_sep(p[from]) {
        next_sep(p, from + 1)
    } else {
        from
    }
}

/// Where the drive or the network share that a path begins with ends; 0 where there is
/// neither.
pub open spec fn prefix_end(p: Seq<char>) -> int {
    if has_drive(p) {
        2
    } else if p.len() >= 2 && is_sep(p[0]) && is_sep(p[1]) {
        let server = next_sep(p, 2);
        if server <= 2 || server >= p.len() {
            0
        } else {
            let share = next_sep(p, server + 1);
            if share == server + 1 {
                0
            } else {
                share
            }
        }
    } else {
        0
    }
}

/// Where the root of a path ends: the drive or share, and a separator behind it.
pub open spec fn root_end(p: Seq<char>) -> int {
    let e = prefix_end(p);
    if e < p.len() && is_sep(p[e]) {
        e + 1
    } else {
        e
    }
}

/// `to` without the separators in front of it, but not further back than `low`.
pub open spec fn before_seps(p: Seq<char>, low: int, to: int) -> int
    decreases to - low,
{
    if low < to <= p.len() && 0 < to && is_sep(p[to - 1]) {
        before_seps(p, low, to - 1)
    } else {
        to
    }
}

/// Where the part that ends at `to` begins, but not further back than `low`.
pub open spec fn part_start(p: Seq<char>, low: int, to: int) -> int
    decreases to - low,
{
    if low < to <= p.len() && 0 < to && !is_sep(p[to - 1]) {
        part_start(p, low, to - 1)
    } else {
        to
    }
}

/// Where the last part of a path ends, separators behind it left aside.
pub open spec fn leaf_end(p: Seq<char>) -> int {
    before_seps(p, root_end(p), p.len() as int)
}

/// Where the last part of a path begins.
pub open spec fn leaf_start(p: Seq<char>) -> int {
    part_start(p, root_end(p), leaf_end(p))
}

/// The last part of a path; the whole path where it is nothing but a root.
pub open spec fn leaf_of(p: Seq<char>) -> Seq<char> {
    if leaf_start(p) == leaf_end(p) {
        p
    } else {
        p.subrange(leaf_start(p), leaf_end(p))
    }
}

/// The folder that a path leads into: a root keeps its separator. A path that is
/// nothing but a root leads into none.
pub open spec fn folder_of(p: Seq<char>) -> Seq<char> {
    if leaf_start(p) == leaf_end(p) {
        Seq::empty()
    } else {
        p.take(before_seps(p, root_end(p), leaf_start(p)))
    }
}

proof fn lemma_next_sep(p: Seq<char>, from: int)
    requires
        0 <= from <= p.len(),
    ensures
        from <= next_sep(p, from) <= p.len(),
    decreases p.len() - from,
{
    if from < p.len() && !is_sep(p[from]) {
        lemma_next_sep(p, from + 1);
    }
}

proof fn lemma_root_end(p: Seq<char>)
    ensures
        0 <= root_end(p) <= p.len(),
{
    if p.len() >= 2 && is_sep(p[0]) && is_sep(p[1]) {
        lemma_next_sep(p, 2);
        let server = next_sep(p, 2);
        if server < p.len() {
            lemma_next_sep(p, server + 1);
        }
    }
}

fn find_sep(cs: &Vec<char>, from: usize) -> (r: usize)
    requires
        from <= cs.len(),
    ensures
        r == next_sep(cs@, from as int),
        from <= r <= cs.len(),
{
    let mut i: usize = from;
    while i < cs.len() && !is_separator(cs[i])
        invariant
            from <= i <= cs.len(),
            next_sep(cs@, i as int) == next_sep(cs@, from as int),
        decreases cs.len() - i,
    {
        i += 1;
    }
    i
}

fn find_root_end(cs: &Vec<char>) -> (r: usize)
    ensures
        r == root_end(cs@),
        r <= cs.len(),
{
    let n: usize = cs.len();
    let mut e: usize = 0;
    if begins_with_drive(cs) {
        e = 2;
    } else if n >= 2 && is_separator(cs[0]) && is_separator(cs[1]) {
        let server: usize = find_sep(cs, 2);
        if server > 2 && server < n {
            let share: usize = find_sep(cs, server + 1);
            if share != server + 1 {
                e = share;
            }
        }
    }
    assert(e == prefix_end(cs@));
    if e < n && is_separator(cs[e]) {
        e + 1
    } else {
        e
    }
}

fn back_over_seps(cs: &Vec<char>, low: usize, to: usize) -> (r: usize)
    requires
        low <= to <= cs.len(),
    ensures
        r == before_seps(cs@, low as int, to as int),
        low <= r <= to,
{
    let mut i: usize = to;
    while i > low && is_separator(cs[i - 1])
        invariant
            low <= i <= to <= cs.len(),
            before_seps(cs@, low as int, i as int) == before_seps(cs@, low as int, to as int),
        decreases i,
    {
        i -= 1;
    }
    i
}

fn back_over_part(cs: &Vec<char>, low: usize, to: usize) -> (r: usize)
    requires
        low <= to <= cs.len(),
    ensures
        r == part_start(cs@, low as int, to as int),
        low <= r <= to,
{
    let mut i: usize = to;
    while i > low && !is_separator(cs[i - 1])
        invariant
            low <= i <= to <= cs.len(),
            part_start(cs@, low as int, i as int) == part_start(cs@, low as int, to as int),
        decreases i,
    {
        i -= 1;
    }
    i
}

/// Parts the path of a file into its folder and its name.
pub fn split_path(path: &str) -> (r: (String, String))
    ensures
        r.0@ == folder_of(path@),
        r.1@ == leaf_of(path@),
{
    let cs = chars_of(path);
    let low: usize = find_root_end(&cs);
    let end: usize = back_over_seps(&cs, low, cs.len());
    let start: usize = back_over_part(&cs, low, end);
    if start == end {
        let folder = String::new();
        assert(folder@ =~= folder_of(path@));
        return (folder, path.to_owned());
    }
    let leaf = string_of(&cs, start, end);
    let folder = string_of(&cs, 0, back_over_seps(&cs, low, start));
    assert(folder@ =~= folder_of(path@));
    (folder, leaf)
}

/// Whether a path is that of a folder as it stands: a root that ends in a separator, or
/// something below a root that does not end in one.
pub open spec fn is_folder_path(dir: Seq<char>) -> bool {
    &&& dir.len() > 0
    &&& is_sep(dir.last()) == (dir.len() == root_end(dir))
    &&& dir.len() >= 2 && is_sep(dir[0]) && is_sep(dir[1]) ==> prefix_end(dir) > 0
}

proof fn lemma_next_sep_extends(p: Seq<char>, q: Seq<char>, from: int)
    requires
        0 <= from <= p.len(),
        p.len() <= q.len(),
        forall|i: int| 0 <= i < p.len() ==> p[i] == q[i],
        p.len() == q.len() || is_sep(q[p.len() as int]) || next_sep(p, from) < p.len(),
    ensures
        next_sep(q, from) == next_sep(p, from),
    decreases p.len() - from,
{
    if from < p.len() && !is_sep(p[from]) {
        lemma_next_sep_extends(p, q, from + 1);
    }
}

/// What stands behind a folder's path does not change where its root ends.
proof fn lemma_root_extends(dir: Seq<char>, q: Seq<char>)
    requires
        is_folder_path(dir),
        dir.len() < q.len(),
        forall|i: int| 0 <= i < dir.len() ==> dir[i] == q[i],
        !is_sep(dir.last()) ==> is_sep(q[dir.len() as int]),
        is_sep(dir.last()) ==> !is_sep(q[dir.len() as int]),
    ensures
        root_end(q) == root_end(dir),
{
    lemma_root_end(dir);
    if dir.len() == 1 {
        // A single character: a root, or a name with a separator behind it.
        if is_sep(dir[0]) {
            assert(!is_sep(q[1]));
        }
    } else if has_drive(dir) {
    } else if is_sep(dir[0]) && is_sep(dir[1]) {
        lemma_next_sep(dir, 2);
        let server = next_sep(dir, 2);
        lemma_next_sep_extends(dir, q, 2);
        lemma_next_sep(dir, server + 1);
        let share = next_sep(dir, server + 1);
        if share < dir.len() || !is_sep(dir.last()) {
            lemma_next_sep_extends(dir, q, server + 1);
        } else {
            assert(share == dir.len());
            lemma_no_sep_before(dir, server + 1, dir.len() - 1);
        }
    }
}

proof fn lemma_no_sep_before(p: Seq<char>, from: int, i: int)
    requires
        0 <= from <= i < next_sep(p, from),
        from <= p.len(),
    ensures
        !is_sep(p[i]),
    decreases i - from,
{
    if from < i {
        lemma_no_sep_before(p, from + 1, i);
    }
}

proof fn lemma_part_goes_back(p: Seq<char>, low: int, from: int, to: int)
    requires
        0 <= low <= from <= to <= p.len(),
        forall|i: int| from <= i < to ==> !is_sep(#[trigger] p[i]),
        from == low || is_sep(p[from - 1]),
    ensures
        part_start(p, low, to) == from,
    decreases to - from,
{
    if from < to {
        assert(!is_sep(p[to - 1]));
        lemma_part_goes_back(p, low, from, to - 1);
    }
}

/// What was joined comes apart again: a name in a folder or in a root.
pub proof fn law_split_undoes_join(dir: Seq<char>, leaf: Seq<char>)
    requires
        is_folder_path(dir),
        leaf.len() > 0,
        forall|i: int| 0 <= i < leaf.len() ==> !is_sep(#[trigger] leaf[i]),
        dir.last() != '/',
    ensures
        folder_of(joined(dir, leaf)) == dir,
        leaf_of(joined(dir, leaf)) == leaf,
{
    let p = joined(dir, leaf);
    let n = dir.len() as int;
    let from = if is_sep(dir.last()) {
        n
    } else {
        n + 1
    };
    assert(from == n ==> p[n] == leaf[0]);
    lemma_root_extends(dir, p);
    lemma_root_end(dir);
    let low = root_end(dir);
    let to = p.len() as int;
    assert(p.last() == leaf.last());
    assert(leaf_end(p) == to);
    assert forall|i: int| from <= i < to implies !is_sep(#[trigger] p[i]) by {
        assert(p[i] == leaf[i - from]);
    }
    lemma_part_goes_back(p, low, from, to);
    assert(leaf_of(p) =~= leaf);
    assert(before_seps(p, low, from) == n) by {
        if from == n + 1 {
            assert(before_seps(p, low, n) == n);
        }
    }
    assert(folder_of(p) =~= dir);
}

/// A folder is listed by a star behind it, and in long form where the whole takes more than
/// 240 bytes.
pub proof fn law_listed_by_a_star(path: Seq<char>)
    requires
        path.len() > 0,
        path.last() != '\\',
    ensures
        ({
            let p = path + seq!['\\', '*'];
            find_pattern(path) == find_pattern(path.push('\\')) && find_pattern(path) == if byte_len(p)
                <= 240 {
                p
            } else {
                long_path(p)
            }
        }),
{
    assert(joined(path, seq!['*']) =~= path + seq!['\\', '*']);
    assert(joined(path.push('\\'), seq!['*']) =~= path + seq!['\\', '*']);
}

/// Backslashes behind a folder make no difference to where its scan starts.
pub proof fn law_scan_starts_at_the_folder(path: Seq<char>, n: nat)
    requires
        path.len() > 0,
        path.last() != '\\',
        trimmed(path) == path,
        byte_len(path + Seq::new(n, |i: int| '\\')) > 3,
    ensures
        scan_root(path + Seq::new(n, |i: int| '\\')) == path,
{
    let s = path + Seq::new(n, |i: int| '\\');
    lemma_behind(path, n);
    assert(trimmed(s) == s) by {
        assert(s[0] == path[0]);
        crate::text::law_trimmed_is_bare(path);
        assert(n > 0 ==> s.last() == '\\');
        assert(n == 0 ==> s =~= path);
    }
}

/// The backslash of a drive root belongs to where its scan starts.
pub proof fn law_scan_starts_at_the_root(c: char)
    requires
        'A' <= c <= 'Z' || 'a' <= c <= 'z',
    ensures
        scan_root(seq![c, ':', '\\']) == seq![c, ':', '\\'],
{
    let r = seq![c, ':', '\\'];
    assert(trimmed(r) == r);
    vstd::utf8::is_ascii_chars_encode_utf8(r);
}

proof fn lemma_behind(path: Seq<char>, n: nat)
    requires
        path.len() > 0,
        path.last() != '\\',
    ensures
        trim_end_of(path + Seq::new(n, |i: int| '\\'), '\\') == path,
    decreases n,
{
    let s = path + Seq::new(n, |i: int| '\\');
    if n == 0 {
        assert(s =~= path);
    } else {
        lemma_behind(path, (n - 1) as nat);
        assert(s.drop_last() =~= path + Seq::new((n - 1) as nat, |i: int| '\\'));
        assert(s.last() == '\\');
    }
}

/// The long form of a path has `\\?\` in front of a path on a drive, and `\\?\UNC\` in place
/// of the two backslashes of a server. What has a mark already keeps the one it has.
pub proof fn law_long_form(p: Seq<char>)
    requires
        p.len() > 0,
    ensures
        p[0] != '\\' ==> long_path(p) == seq!['\\', '\\', '?', '\\'] + p,
        p[0] != '\\' ==> long_path(seq!['\\', '\\'] + p) == if p[0] == '?' && p.len() >= 2 && p[1]
            == '\\' {
            seq!['\\', '\\'] + p
        } else {
            seq!['\\', '\\', '?', '\\', 'U', 'N', 'C', '\\'] + p
        },
        long_path(seq!['\\', '\\', '?', '\\'] + p) == seq!['\\', '\\', '?', '\\'] + p,
{
    let two = seq!['\\', '\\'];
    let q = two + p;
    let r = long_mark() + p;
    assert(r.take(4) =~= long_mark());
    assert(q.take(2) =~= two);
    assert(q.skip(2) =~= p);
    if starts_with(p, long_mark()) {
        assert(p.take(4)[0] == p[0]);
    }
    if starts_with(p, two) {
        assert(p.take(2)[0] == p[0]);
    }
    if p.len() >= 2 && p[0] == '?' && p[1] == '\\' {
        assert(q.take(4) =~= long_mark());
    } else if starts_with(q, long_mark()) {
        assert(q.take(4)[2] == p[0] && q.take(4)[3] == p[1]);
    }
    assert(long_unc_mark() =~= seq!['\\', '\\', '?', '\\', 'U', 'N', 'C', '\\']);
}

} // verus!
