//! The volumes of a machine: which ones there are, and how full they are.

use crate::path::starts_with;
use crate::text::{chars_of, lines, split_lines, split_words, texts, words};
use vstd::prelude::*;

verus! {

/// A volume that can be scanned.
#[derive(Debug)]
pub struct DriveInfo {
    /// The root to scan, such as `C:\` or `/`.
    pub path: String,
    /// What it is called, such as `C:` or `/home`.
    pub label: String,
    pub total: u64,
    pub free: u64,
}

impl DriveInfo {
    /// How many bytes are in use.
    pub fn used(&self) -> (r: u64)
        ensures
            r == if self.total >= self.free {
                self.total - self.free
            } else {
                0
            },
    {
        self.total.saturating_sub(self.free)
    }
}

/// A place where a volume may be found.
#[derive(Debug)]
pub struct MountPoint {
    pub path: String,
    pub label: String,
}

pub struct MountView {
    pub path: Seq<char>,
    pub label: Seq<char>,
}

impl View for MountPoint {
    type V = MountView;

    open spec fn view(&self) -> MountView {
        MountView { path: self.path@, label: self.label@ }
    }
}

pub open spec fn mount_views(v: Seq<MountPoint>) -> Seq<MountView> {
    v.map_values(|m: MountPoint| m@)
}

/// `\040`, which stands for a space in a mount table.
pub open spec fn space_mark() -> Seq<char> {
    seq!['\\', '0', '4', '0']
}

/// `s` with every mark for a space replaced by one.
pub open spec fn with_spaces(s: Seq<char>) -> Seq<char>
    decreases s.len(),
{
    if s.len() == 0 {
        Seq::empty()
    } else if starts_with(s, space_mark()) {
        seq![' '] + with_spaces(s.skip(4))
    } else {
        seq![s[0]] + with_spaces(s.skip(1))
    }
}

fn put_spaces(s: &str) -> (r: String)
    ensures
        r@ == with_spaces(s@),
{
    let cs = chars_of(s);
    let n: usize = cs.len();
    let mut r = String::new();
    let mut i: usize = 0;
    proof {
        assert(cs@.skip(0) =~= s@);
        assert(r@ + with_spaces(s@) =~= with_spaces(s@));
    }
    while i < n
        invariant
            i <= n == cs.len(),
            r@ + with_spaces(cs@.skip(i as int)) == with_spaces(s@),
        decreases n - i,
    {
        let ghost rest = cs@.skip(i as int);
        let ghost before = r@;
        if n - i >= 4 && cs[i] == '\\' && cs[i + 1] == '0' && cs[i + 2] == '4' && cs[i + 3] == '0' {
            assert(rest.take(4) =~= space_mark());
            assert(rest.skip(4) =~= cs@.skip(i + 4));
            r.push(' ');
            i += 4;
            assert(before + (seq![' '] + with_spaces(cs@.skip(i as int))) =~= r@ + with_spaces(
                cs@.skip(i as int),
            ));
        } else {
            assert(!starts_with(rest, space_mark())) by {
                if starts_with(rest, space_mark()) {
                    let t = rest.take(4);
                    assert(t[0] == rest[0] && t[1] == rest[1] && t[2] == rest[2] && t[3] == rest[3]);
                }
            }
            assert(rest.skip(1) =~= cs@.skip(i + 1));
            let c: char = cs[i];
            r.push(c);
            i += 1;
            assert(before + (seq![c] + with_spaces(cs@.skip(i as int))) =~= r@ + with_spaces(
                cs@.skip(i as int),
            ));
        }
    }
    assert(cs@.skip(n as int) =~= Seq::empty());
    assert(r@ + Seq::<char>::empty() =~= r@);
    r
}

/// The mount point that a line of a mount table names: its second word, where its
/// first names a device.
pub open spec fn mounted_at(line: Seq<char>) -> Option<Seq<char>> {
    let w = words(line);
    if w.len() >= 2 && starts_with(w[0], "/dev/"@) && w[1].len() > 0 {
        Some(with_spaces(w[1]))
    } else {
        None
    }
}

/// Whether `path` is among `points`.
pub open spec fn is_known(points: Seq<MountView>, path: Seq<char>) -> bool {
    exists|i: int| 0 <= i < points.len() && (#[trigger] points[i]).path == path
}

/// The mount points that the first `n` lines name, each once.
pub open spec fn mounts_upto(table: Seq<Seq<char>>, n: int) -> Seq<MountView>
    decreases n,
{
    if n <= 0 {
        Seq::empty()
    } else {
        let known = mounts_upto(table, n - 1);
        match mounted_at(table[n - 1]) {
            Some(p) => if is_known(known, p) {
                known
            } else {
                known.push(MountView { path: p, label: p })
            },
            None => known,
        }
    }
}

/// The mount points of a mount table: at least the root.
pub open spec fn mounts_of(table: Option<Seq<char>>) -> Seq<MountView> {
    let found = match table {
        Some(t) => mounts_upto(lines(t), lines(t).len() as int),
        None => Seq::empty(),
    };
    if found.len() == 0 {
        seq![MountView { path: "/"@, label: "/"@ }]
    } else {
        found
    }
}

fn names_device(s: &str) -> (r: bool)
    ensures
        r == starts_with(s@, "/dev/"@),
{
    let cs = chars_of(s);
    proof {
        reveal_strlit("/dev/");
    }
    if cs.len() >= 5 && cs[0] == '/' && cs[1] == 'd' && cs[2] == 'e' && cs[3] == 'v' && cs[4]
        == '/' {
        assert(s@.take(5) =~= "/dev/"@);
        true
    } else {
        assert(!starts_with(s@, "/dev/"@)) by {
            if starts_with(s@, "/dev/"@) {
                let t = s@.take(5);
                assert(t[0] == s@[0] && t[1] == s@[1] && t[2] == s@[2] && t[3] == s@[3] && t[4]
                    == s@[4]);
            }
        }
        false
    }
}

fn mount_of_line(line: &str) -> (r: Option<String>)
    ensures
        r is Some <==> mounted_at(line@) is Some,
        r is Some ==> r->0@ == mounted_at(line@)->0,
{
    let w = split_words(line);
    if w.len() < 2 {
        return None;
    }
    assert(texts(w@)[0] == w@[0]@ && texts(w@)[1] == w@[1]@);
    if names_device(w[0].as_str()) && !w[1].as_str().is_empty() {
        Some(put_spaces(w[1].as_str()))
    } else {
        None
    }
}

/// Lists the device-backed mount points that a mount table names; only the root
/// where it names none or could not be read.
pub fn mount_points(table: Option<&str>) -> (r: Vec<MountPoint>)
    ensures
        mount_views(r@) == mounts_of(
            match table {
                Some(t) => Some(t@),
                None => None,
            },
        ),
{
    let mut out: Vec<MountPoint> = Vec::new();
    assert(mount_views(out@) =~= Seq::empty());
    if let Some(text) = table {
        let ls = split_lines(text);
        let mut i: usize = 0;
        while i < ls.len()
            invariant
                i <= ls.len(),
                texts(ls@) == lines(text@),
                mount_views(out@) == mounts_upto(lines(text@), i as int),
            decreases ls.len() - i,
        {
            assert(texts(ls@)[i as int] == ls@[i as int]@);
            if let Some(path) = mount_of_line(ls[i].as_str()) {
                let mut known = false;
                let mut j: usize = 0;
                while j < out.len()
                    invariant
                        j <= out.len(),
                        known == exists|k: int|
                            0 <= k < j && (#[trigger] mount_views(out@)[k]).path == path@,
                    decreases out.len() - j,
                {
                    assert(mount_views(out@)[j as int] == out@[j as int]@);
                    if out[j].path == path {
                        known = true;
                    }
                    j += 1;
                }
                if !known {
                    let ghost before = mount_views(out@);
                    let label = path.clone();
                    let m = MountPoint { path, label };
                    out.push(m);
                    assert(mount_views(out@) =~= before.push(m@));
                }
            }
            i += 1;
        }
        assert(texts(ls@).len() == ls@.len());
    }
    if out.len() == 0 {
        let m = MountPoint { path: "/".to_owned(), label: "/".to_owned() };
        out.push(m);
        assert(mount_views(out@) =~= seq![m@]);
    }
    out
}

/// No mount point is listed twice.
pub proof fn law_mounts_deduped(table: Seq<Seq<char>>, n: int, i: int, j: int)
    requires
        0 <= i < j < mounts_upto(table, n).len(),
    ensures
        mounts_upto(table, n)[i].path != mounts_upto(table, n)[j].path,
    decreases n,
{
    if n > 0 {
        if j < mounts_upto(table, n - 1).len() {
            law_mounts_deduped(table, n - 1, i, j);
        }
    }
}

/// How many bytes `count` blocks of `size` bytes hold, as far as that can be counted.
pub open spec fn bytes_in(count: u64, size: u64) -> u64 {
    if count * size > u64::MAX {
        u64::MAX
    } else {
        (count * size) as u64
    }
}

/// The size of a volume and its free space in bytes, from its blocks: they are
/// counted in fragments where there is a fragment size.
pub fn volume_space(blocks: u64, available: u64, fragment_size: u64, block_size: u64) -> (r: (
    u64,
    u64,
))
    ensures
        ({
            let size = if fragment_size != 0 {
                fragment_size
            } else {
                block_size
            };
            r == (bytes_in(blocks, size), bytes_in(available, size))
        }),
{
    let size: u64 = if fragment_size != 0 {
        fragment_size
    } else {
        block_size
    };
    (bytes(blocks, size), bytes(available, size))
}

fn bytes(count: u64, size: u64) -> (r: u64)
    ensures
        r == bytes_in(count, size),
{
    match count.checked_mul(size) {
        Some(n) => n,
        None => u64::MAX,
    }
}

/// Whether `d` is the volume at `m`.
pub open spec fn is_drive_at(d: DriveInfo, m: MountView, total: u64, free: u64) -> bool {
    d.path@ == m.path && d.label@ == m.label && d.total == total && d.free == free
}

/// Whether `space` tells of a volume that holds anything.
pub open spec fn is_usable(space: Option<(u64, u64)>) -> bool {
    match space {
        Some((total, _)) => total != 0,
        None => false,
    }
}

/// The places below `n` with a usable volume, in order.
pub open spec fn usable_below(space: Seq<Option<(u64, u64)>>, n: int) -> Seq<int>
    decreases n,
{
    if n <= 0 {
        Seq::empty()
    } else if is_usable(space[n - 1]) {
        usable_below(space, n - 1).push(n - 1)
    } else {
        usable_below(space, n - 1)
    }
}

/// Whether `drives` are the volumes that can be scanned, in order: those whose
/// total size and free space the system told, and that hold anything.
pub open spec fn are_drives_of(
    drives: Seq<DriveInfo>,
    points: Seq<MountView>,
    space: Seq<Option<(u64, u64)>>,
) -> bool {
    let at = usable_below(space, space.len() as int);
    &&& drives.len() == at.len()
    &&& forall|i: int|
        0 <= i < drives.len() ==> is_drive_at(
            #[trigger] drives[i],
            points[at[i]],
            (space[at[i]]->0).0,
            (space[at[i]]->0).1,
        )
}

/// Lists the volumes at `points` that can be scanned, `space` giving the total size
/// and free space of each, where the system told.
pub fn list_drives(points: Vec<MountPoint>, space: &Vec<Option<(u64, u64)>>) -> (r: Vec<DriveInfo>)
    requires
        points.len() == space.len(),
    ensures
        are_drives_of(r@, mount_views(points@), space@),
{
    let ghost ps = mount_views(points@);
    let mut out: Vec<DriveInfo> = Vec::new();
    let total: usize = points.len();
    let mut i: usize = 0;
    for p in it: points
        invariant
            it.seq() == points@,
            total == points@.len(),
            total == space.len(),
            ps == mount_views(points@),
            i == it.index(),
            out.len() == usable_below(space@, i as int).len(),
            forall|k: int|
                0 <= k < out.len() ==> is_drive_at(
                    #[trigger] out@[k],
                    ps[usable_below(space@, i as int)[k]],
                    (space@[usable_below(space@, i as int)[k]]->0).0,
                    (space@[usable_below(space@, i as int)[k]]->0).1,
                ),
    {
        assert(ps[i as int] == p@);
        if let Some((size, free)) = space[i] {
            if size != 0 {
                out.push(DriveInfo { path: p.path, label: p.label, total: size, free });
            }
        }
        i += 1;
    }
    out
}

// ---------------------------------------------------------------- drive letters

/// Whether bit `i` of `mask` is set.
pub open spec fn has_bit(mask: u32, i: int) -> bool
    decreases i,
{
    if i <= 0 {
        mask % 2 == 1
    } else {
        has_bit(mask / 2, i - 1)
    }
}

/// The letter of drive `i`.
pub open spec fn drive_letter(i: int) -> char {
    (65 + i) as char
}

/// The drive with a letter: `C:\`, called `C:`.
pub open spec fn drive_mount(letter: char) -> MountView {
    MountView { path: seq![letter, ':', '\\'], label: seq![letter, ':'] }
}

/// The drives below `n` that a mask names, from `A` on.
pub open spec fn drives_below(mask: u32, n: int) -> Seq<MountView>
    decreases n,
{
    if n <= 0 {
        Seq::empty()
    } else if has_bit(mask, n - 1) {
        drives_below(mask, n - 1).push(drive_mount(drive_letter(n - 1)))
    } else {
        drives_below(mask, n - 1)
    }
}

fn is_bit_set(mask: u32, i: u32) -> (r: bool)
    ensures
        r == has_bit(mask, i as int),
{
    let mut m: u32 = mask;
    let mut k: u32 = i;
    while k > 0
        invariant
            has_bit(m, k as int) == has_bit(mask, i as int),
        decreases k,
    {
        m = m / 2;
        k -= 1;
    }
    m % 2 == 1
}

/// Lists the drives that a mask of drive letters names: bit 0 is `A`, bit 25 is `Z`.
pub fn drives_of_mask(mask: u32) -> (r: Vec<MountPoint>)
    ensures
        mount_views(r@) == drives_below(mask, 26),
{
    let mut out: Vec<MountPoint> = Vec::new();
    let mut i: u32 = 0;
    assert(mount_views(out@) =~= Seq::empty());
    while i < 26
        invariant
            i <= 26,
            mount_views(out@) == drives_below(mask, i as int),
        decreases 26 - i,
    {
        if is_bit_set(mask, i) {
            let letter: char = (65u8 + i as u8) as char;
            let mut label = String::new();
            label.push(letter);
            label.push(':');
            let mut path = label.clone();
            path.push('\\');
            let m = MountPoint { path, label };
            let ghost before = mount_views(out@);
            out.push(m);
            assert(m@.path =~= drive_mount(drive_letter(i as int)).path);
            assert(m@.label =~= drive_mount(drive_letter(i as int)).label);
            assert(mount_views(out@) =~= before.push(m@));
        }
        i += 1;
    }
    out
}

/// Whether a drive of that Windows type holds a volume to scan: a removable or a
/// fixed one does.
pub fn is_scannable_type(drive_type: u32) -> (r: bool)
    ensures
        r == (drive_type == 2 || drive_type == 3),
{
    drive_type == 2 || drive_type == 3
}

// ---------------------------------------------------------------------- laws

/// Whether a line of a mount table tells of a device at `path`: its first word begins with
/// `/dev/`, and its second is the path, with `\\040` for every space.
pub open spec fn tells_of(line: Seq<char>, path: Seq<char>) -> bool {
    let w = words(line);
    &&& w.len() >= 2
    &&& w[0].len() >= 5
    &&& w[0].subrange(0, 5) == seq!['/', 'd', 'e', 'v', '/']
    &&& w[1].len() > 0
    &&& path == with_spaces(w[1])
}

/// The mount points of a table are those of its devices, each called by its path: every
/// device is listed, and nothing else is. A table without a device has the root.
pub proof fn law_devices_are_listed(table: Seq<char>)
    ensures
        ({
            let found = mounts_of(Some(table));
            let ls = lines(table);
            &&& forall|k: int, p: Seq<char>|
                0 <= k < ls.len() && #[trigger] tells_of(ls[k], p) ==> is_known(found, p)
            &&& forall|i: int|
                0 <= i < found.len() ==> {
                    let m = #[trigger] found[i];
                    &&& m.label == m.path
                    &&& (exists|k: int| 0 <= k < ls.len() && #[trigger] tells_of(ls[k], m.path)) || (
                    found.len() == 1 && m.path == seq!['/'])
                }
            &&& found.len() >= 1
        }),
        mounts_of(None) == seq![MountView { path: seq!['/'], label: seq!['/'] }],
{
    reveal_strlit("/");
    assert("/"@ =~= seq!['/']);
    let ls = lines(table);
    let n = ls.len() as int;
    lemma_mounts(ls, n);
    let found = mounts_upto(ls, n);
    assert forall|k: int, p: Seq<char>| 0 <= k < ls.len() && #[trigger] tells_of(ls[k], p) implies is_known(
        mounts_of(Some(table)),
        p,
    ) by {
        assert(is_known(found, p));
    }
}

proof fn lemma_tells(line: Seq<char>, path: Seq<char>)
    ensures
        mounted_at(line) == Some(path) <==> tells_of(line, path),
{
    reveal_strlit("/dev/");
    let w = words(line);
    assert("/dev/"@ =~= seq!['/', 'd', 'e', 'v', '/']);
    if w.len() >= 1 && w[0].len() >= 5 {
        assert(w[0].take(5) =~= w[0].subrange(0, 5));
    }
}

proof fn lemma_mounts(ls: Seq<Seq<char>>, n: int)
    requires
        0 <= n <= ls.len(),
    ensures
        forall|k: int, p: Seq<char>|
            0 <= k < n && #[trigger] tells_of(ls[k], p) ==> is_known(mounts_upto(ls, n), p),
        forall|i: int|
            0 <= i < mounts_upto(ls, n).len() ==> {
                let m = #[trigger] mounts_upto(ls, n)[i];
                m.label == m.path && exists|k: int| 0 <= k < n && #[trigger] tells_of(ls[k], m.path)
            },
    decreases n,
{
    if n > 0 {
        lemma_mounts(ls, n - 1);
        let before = mounts_upto(ls, n - 1);
        let now = mounts_upto(ls, n);
        assert forall|k: int, p: Seq<char>| 0 <= k < n && #[trigger] tells_of(ls[k], p) implies is_known(
            now,
            p,
        ) by {
            if is_known(before, p) {
                let i = choose|i: int| 0 <= i < before.len() && (#[trigger] before[i]).path == p;
                assert(now[i] == before[i]);
            } else {
                assert(k == n - 1);
                lemma_tells(ls[k], p);
                assert(now[before.len() as int].path == p);
            }
        }
        assert forall|i: int| 0 <= i < now.len() implies {
            let m = #[trigger] now[i];
            m.label == m.path && exists|k: int| 0 <= k < n && #[trigger] tells_of(ls[k], m.path)
        } by {
            if i < before.len() {
                assert(now[i] == before[i]);
                let k = choose|k: int| 0 <= k < n - 1 && #[trigger] tells_of(ls[k], before[i].path);
                assert(tells_of(ls[k], now[i].path));
            } else {
                lemma_tells(ls[n - 1], now[i].path);
                assert(tells_of(ls[n - 1], now[i].path));
            }
        }
    }
}

/// A mark for a space becomes one, and everything else stays.
pub proof fn law_marks_become_spaces(a: Seq<char>, b: Seq<char>)
    requires
        forall|i: int| 0 <= i < a.len() ==> #[trigger] a[i] != '\\',
    ensures
        with_spaces(a) == a,
        with_spaces(a + (seq!['\\', '0', '4', '0'] + b)) == a + (seq![' '] + with_spaces(b)),
    decreases a.len(),
{
    let mark = seq!['\\', '0', '4', '0'];
    let more = mark + b;
    if a.len() == 0 {
        assert(a + more =~= more);
        assert(more.take(4) =~= space_mark());
        assert(more.skip(4) =~= b);
        assert(with_spaces(more) == seq![' '] + with_spaces(b));
        assert(a + (seq![' '] + with_spaces(b)) =~= seq![' '] + with_spaces(b));
        assert(with_spaces(a) =~= a);
    } else {
        let rest = a.skip(1);
        law_marks_become_spaces(rest, b);
        let all = a + more;
        assert(all.skip(1) =~= rest + more);
        assert(all[0] == a[0]);
        assert(!starts_with(all, space_mark())) by {
            if starts_with(all, space_mark()) {
                assert(all.take(4)[0] == all[0]);
            }
        }
        assert(!starts_with(a, space_mark())) by {
            if starts_with(a, space_mark()) {
                assert(a.take(4)[0] == a[0]);
            }
        }
        assert(with_spaces(all) =~= a + (seq![' '] + with_spaces(b)));
        assert(with_spaces(a) =~= a);
    }
}

/// The drives that are listed are the volumes whose size is known and not nothing, in the
/// order of their places, each with its path, its name, its size and its free space.
pub proof fn law_volumes_are_listed(
    drives: Seq<DriveInfo>,
    points: Seq<MountView>,
    space: Seq<Option<(u64, u64)>>,
)
    requires
        are_drives_of(drives, points, space),
    ensures
        forall|k: int|
            0 <= k < space.len() && #[trigger] space[k] is Some && (space[k]->0).0 > 0
                ==> exists|i: int|
                0 <= i < drives.len() && is_drive_at(
                    #[trigger] drives[i],
                    points[k],
                    (space[k]->0).0,
                    (space[k]->0).1,
                ),
        forall|i: int|
            0 <= i < drives.len() ==> (#[trigger] drives[i]).total > 0 && exists|k: int|
                0 <= k < space.len() && #[trigger] space[k] is Some && drives[i].path@ == points[k].path
                    && drives[i].label@ == points[k].label && drives[i].total == (space[k]->0).0
                    && drives[i].free == (space[k]->0).1,
{
    let n = space.len() as int;
    let at = usable_below(space, n);
    lemma_usable(space, n);
    assert forall|k: int| 0 <= k < space.len() && #[trigger] space[k] is Some && (space[k]->0).0 > 0 implies exists|
        i: int,
    |
        0 <= i < drives.len() && is_drive_at(
            #[trigger] drives[i],
            points[k],
            (space[k]->0).0,
            (space[k]->0).1,
        ) by {
        assert(at.contains(k));
        let i = choose|i: int| 0 <= i < at.len() && at[i] == k;
        assert(is_drive_at(drives[i], points[at[i]], (space[at[i]]->0).0, (space[at[i]]->0).1));
    }
    assert forall|i: int| 0 <= i < drives.len() implies (#[trigger] drives[i]).total > 0 && exists|
        k: int,
    |
        0 <= k < space.len() && #[trigger] space[k] is Some && drives[i].path@ == points[k].path
            && drives[i].label@ == points[k].label && drives[i].total == (space[k]->0).0
            && drives[i].free == (space[k]->0).1 by {
        let k = at[i];
        assert(at.contains(k));
        assert(space[k] is Some);
    }
}

proof fn lemma_usable(space: Seq<Option<(u64, u64)>>, n: int)
    requires
        0 <= n <= space.len(),
    ensures
        forall|k: int| #[trigger]
            usable_below(space, n).contains(k) <==> 0 <= k < n && space[k] is Some && (
            space[k]->0).0 > 0,
    decreases n,
{
    if n > 0 {
        lemma_usable(space, n - 1);
        let before = usable_below(space, n - 1);
        let now = usable_below(space, n);
        assert forall|k: int| #[trigger] now.contains(k) <==> 0 <= k < n && space[k] is Some && (
        space[k]->0).0 > 0 by {
            if now.contains(k) {
                let i = choose|i: int| 0 <= i < now.len() && now[i] == k;
                if i < before.len() {
                    assert(before[i] == k);
                    assert(before.contains(k));
                }
            }
            if 0 <= k < n && space[k] is Some && (space[k]->0).0 > 0 {
                if k < n - 1 {
                    assert(before.contains(k));
                    let i = choose|i: int| 0 <= i < before.len() && before[i] == k;
                    assert(now[i] == k);
                } else {
                    assert(now[before.len() as int] == k);
                }
            }
        }
    }
}

/// Every bit of a mask that is set names a drive: the lowest is `A:\\`, the next `B:\\` and
/// so on, and no other drive is named.
pub proof fn law_bits_name_drives(mask: u32, i: u32)
    requires
        i < 26,
    ensures
        ({
            let letter = (65 + i) as char;
            let d = MountView { path: seq![letter, ':', '\\'], label: seq![letter, ':'] };
            drives_below(mask, 26).contains(d) <==> (mask >> i) & 1 == 1
        }),
        drives_below(mask, 26).len() <= 26,
{
    lemma_bit(mask, i);
    lemma_drives_below(mask, 26);
    let letter = (65 + i) as char;
    let d = MountView { path: seq![letter, ':', '\\'], label: seq![letter, ':'] };
    let all = drives_below(mask, 26);
    if all.contains(d) {
        let k = choose|k: int| 0 <= k < 26 && has_bit(mask, k) && d == #[trigger] drive_mount(
            drive_letter(k),
        );
        assert(d.path[0] == drive_letter(k));
        assert((65 + i) as char == (65 + k) as char);
        assert(i == k);
    }
    if has_bit(mask, i as int) {
        assert(d == drive_mount(drive_letter(i as int)));
    }
}

proof fn lemma_bit(mask: u32, i: u32)
    requires
        i < 32,
    ensures
        has_bit(mask, i as int) == ((mask >> i) & 1 == 1),
    decreases i,
{
    if i == 0 {
        assert((mask >> 0u32) & 1 == mask % 2) by (bit_vector);
    } else {
        let j: u32 = (i - 1) as u32;
        let half: u32 = mask / 2;
        lemma_bit(half, j);
        assert((half >> j) & 1 == (mask >> i) & 1) by (bit_vector)
            requires
                half == mask / 2,
                j == i - 1,
                0 < i < 32,
        ;
    }
}

proof fn lemma_drives_below(mask: u32, n: int)
    requires
        0 <= n <= 26,
    ensures
        forall|d: MountView| #[trigger]
            drives_below(mask, n).contains(d) <==> exists|k: int|
                0 <= k < n && has_bit(mask, k) && d == #[trigger] drive_mount(drive_letter(k)),
        drives_below(mask, n).len() <= n,
    decreases n,
{
    if n > 0 {
        lemma_drives_below(mask, n - 1);
        let before = drives_below(mask, n - 1);
        let now = drives_below(mask, n);
        assert forall|d: MountView| #[trigger] now.contains(d) <==> exists|k: int|
            0 <= k < n && has_bit(mask, k) && d == #[trigger] drive_mount(drive_letter(k)) by {
            if now.contains(d) {
                let i = choose|i: int| 0 <= i < now.len() && now[i] == d;
                if i < before.len() {
                    assert(before[i] == d);
                    assert(before.contains(d));
                    let k = choose|k: int|
                        0 <= k < n - 1 && has_bit(mask, k) && d == #[trigger] drive_mount(
                            drive_letter(k),
                        );
                    assert(d == drive_mount(drive_letter(k)));
                } else {
                    assert(d == drive_mount(drive_letter(n - 1)));
                }
            }
            if exists|k: int|
                0 <= k < n && has_bit(mask, k) && d == #[trigger] drive_mount(drive_letter(k)) {
                let k = choose|k: int|
                    0 <= k < n && has_bit(mask, k) && d == #[trigger] drive_mount(drive_letter(k));
                if k < n - 1 {
                    assert(before.contains(d));
                    let i = choose|i: int| 0 <= i < before.len() && before[i] == d;
                    assert(now[i] == d);
                } else {
                    assert(now[before.len() as int] == d);
                }
            }
        }
    }
}

} // verus!
