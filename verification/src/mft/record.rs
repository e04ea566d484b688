//! One FILE record of the Master File Table: repairing its sector tails and
//! reading its name, parent, size and times out of its attributes.

use crate::bytes::{i64_le, le, le_signed, le_uint, u16_le, u32_le};
use crate::utf16::{decode, units_le, utf16le_to_string};
use vstd::prelude::*;
use vstd::slice::slice_subrange;

verus! {

/// What one in-use record says of its file or directory.
#[derive(Debug)]
pub struct MftEntry {
    pub parent_frn: i64,
    pub name: String,
    pub size: i64,
    pub is_dir: bool,
    pub is_reparse: bool,
    pub last_write_ft: i64,
}

pub struct EntryView {
    pub parent_frn: int,
    pub name: Seq<char>,
    pub size: int,
    pub is_dir: bool,
    pub is_reparse: bool,
    pub last_write_ft: int,
}

impl View for MftEntry {
    type V = EntryView;

    open spec fn view(&self) -> EntryView {
        EntryView {
            parent_frn: self.parent_frn as int,
            name: self.name@,
            size: self.size as int,
            is_dir: self.is_dir,
            is_reparse: self.is_reparse,
            last_write_ft: self.last_write_ft as int,
        }
    }
}

/// How much a `$FILE_NAME` namespace is preferred: Win32&DOS over Win32 over POSIX
/// over DOS over anything else.
pub open spec fn priority(ns: u8) -> int {
    if ns == 3 {
        4
    } else if ns == 1 {
        3
    } else if ns == 0 {
        2
    } else if ns == 2 {
        1
    } else {
        0
    }
}

pub fn name_priority(ns: u8) -> (r: i32)
    ensures
        r == priority(ns),
{
    match ns {
        3 => 4,
        1 => 3,
        0 => 2,
        2 => 1,
        _ => 0,
    }
}

/// Whether the record at `off` carries the signature `FILE`.
pub open spec fn is_file_record(b: Seq<u8>, off: int) -> bool {
    b[off] == 0x46 && b[off + 1] == 0x49 && b[off + 2] == 0x4C && b[off + 3] == 0x45
}

fn has_signature(buf: &[u8], off: usize) -> (r: bool)
    requires
        off + 4 <= buf.len(),
    ensures
        r == is_file_record(buf@, off as int),
{
    buf[off] == 0x46 && buf[off + 1] == 0x49 && buf[off + 2] == 0x4C && buf[off + 3] == 0x45
}

// ---------------------------------------------------------------- attributes

/// Whether a whole attribute stands at `p` of a record that ends at `end`: its
/// header fits, it is not the end mark, and its length is positive and fits.
pub open spec fn attr_ok(b: Seq<u8>, end: int, p: int) -> bool {
    &&& p + 24 <= end
    &&& le(b, p, 4) != 0xFFFF_FFFF
    &&& le(b, p + 4, 4) > 0
    &&& p + le(b, p + 4, 4) <= end
}

/// What has been read from the attributes of a record so far.
pub struct Facts {
    pub name: Option<Seq<char>>,
    pub ns: u8,
    pub parent_frn: int,
    pub size: int,
    pub size_found: bool,
    pub last_write_ft: int,
    pub is_reparse: bool,
}

pub open spec fn no_facts() -> Facts {
    Facts {
        name: None,
        ns: 0xFF,
        parent_frn: -1,
        size: 0,
        size_found: false,
        last_write_ft: 0,
        is_reparse: false,
    }
}

/// `$STANDARD_INFORMATION`: the write time stands at value+8 and is taken while
/// none is known; the DOS attributes stand at value+32 and carry the
/// reparse-point bit.
pub open spec fn note_times(b: Seq<u8>, end: int, p: int, f: Facts) -> Facts {
    let v = p + le(b, p + 20, 2);
    Facts {
        last_write_ft: if v + 16 <= end && f.last_write_ft == 0 {
            le_signed(b, v + 8, 8)
        } else {
            f.last_write_ft
        },
        is_reparse: if v + 36 <= end {
            (le(b, v + 32, 4) / 0x400) % 2 == 1
        } else {
            f.is_reparse
        },
        ..f
    }
}

/// How much the name kept so far is preferred; a name of any namespace beats none.
pub open spec fn kept_priority(f: Facts) -> int {
    if f.name is Some {
        priority(f.ns)
    } else {
        -1
    }
}

/// Where the name of a `$FILE_NAME` value at `v` ends.
pub open spec fn name_end(b: Seq<u8>, v: int) -> int {
    v + 66 + 2 * b[v + 64]
}

/// `$FILE_NAME`: parent reference (48 bits) at the value, write time at +16, name
/// length in units at +64, namespace at +65, name from +66 on. The name is taken
/// when its namespace is preferred to that of the name kept so far.
pub open spec fn note_name(b: Seq<u8>, end: int, p: int, f: Facts) -> Facts {
    let v = p + le(b, p + 20, 2);
    if v + 66 <= end && name_end(b, v) <= end && priority(b[v + 65]) > kept_priority(f) {
        Facts {
            name: Some(decode(units_le(b.subrange(v + 66, name_end(b, v))))),
            ns: b[v + 65],
            parent_frn: le(b, v, 6) as int,
            last_write_ft: if f.last_write_ft == 0 {
                le_signed(b, v + 16, 8)
            } else {
                f.last_write_ft
            },
            ..f
        }
    } else {
        f
    }
}

/// The unnamed `$DATA` stream: its length is the value length of a resident
/// attribute, the real size of a non-resident one.
pub open spec fn note_size(b: Seq<u8>, end: int, p: int, f: Facts) -> Facts {
    Facts {
        size: if b[p + 8] == 0 {
            le(b, p + 16, 4) as int
        } else if p + 56 <= end {
            le_signed(b, p + 48, 8)
        } else {
            f.size
        },
        size_found: true,
        ..f
    }
}

/// What the attribute at `p` adds.
pub open spec fn note_attr(b: Seq<u8>, end: int, p: int, f: Facts) -> Facts {
    let kind = le(b, p, 4);
    let resident = b[p + 8] == 0;
    if kind == 0x10 && resident {
        note_times(b, end, p, f)
    } else if kind == 0x30 && resident {
        note_name(b, end, p, f)
    } else if kind == 0x80 && b[p + 9] == 0 && !f.size_found {
        note_size(b, end, p, f)
    } else {
        f
    }
}

/// What all the attributes from `p` on add, up to the first that is not whole.
pub open spec fn note_attrs(b: Seq<u8>, end: int, p: int, f: Facts) -> Facts
    decreases end - p,
{
    if attr_ok(b, end, p) {
        note_attrs(b, end, p + le(b, p + 4, 4), note_attr(b, end, p, f))
    } else {
        f
    }
}

/// Whether a record of `size` bytes at `off` lies in the buffer, is signed, and
/// is in use.
pub open spec fn record_in_use(b: Seq<u8>, off: int, size: int) -> bool {
    &&& size >= 42
    &&& off + size <= b.len()
    &&& is_file_record(b, off)
    &&& le(b, off + 22, 2) % 2 == 1
}

/// The facts that the attributes of the record at `off` give.
pub open spec fn record_facts(b: Seq<u8>, off: int, size: int) -> Facts {
    note_attrs(b, off + size, off + le(b, off + 20, 2), no_facts())
}

/// The entry that the record at `off` describes: none where the record is free or
/// malformed or has no name. A directory has no size of its own.
pub open spec fn record_entry(b: Seq<u8>, off: int, size: int) -> Option<EntryView> {
    let f = record_facts(b, off, size);
    let is_dir = (le(b, off + 22, 2) / 2) % 2 == 1;
    if record_in_use(b, off, size) && f.name is Some {
        Some(
            EntryView {
                parent_frn: f.parent_frn,
                name: f.name->0,
                size: if is_dir {
                    0
                } else {
                    f.size
                },
                is_dir,
                is_reparse: f.is_reparse,
                last_write_ft: f.last_write_ft,
            },
        )
    } else {
        None
    }
}

/// `Facts` as the parser holds them.
struct FactsBuf {
    name: Option<String>,
    ns: u8,
    parent_frn: i64,
    size: i64,
    size_found: bool,
    last_write_ft: i64,
    is_reparse: bool,
}

impl FactsBuf {
    spec fn facts(self) -> Facts {
        Facts {
            name: match self.name {
                Some(s) => Some(s@),
                None => None,
            },
            ns: self.ns,
            parent_frn: self.parent_frn as int,
            size: self.size as int,
            size_found: self.size_found,
            last_write_ft: self.last_write_ft as int,
            is_reparse: self.is_reparse,
        }
    }

    fn note_times(&mut self, buf: &[u8], end: usize, p: usize)
        requires
            p + 24 <= end <= buf.len(),
        ensures
            final(self).facts() == note_times(buf@, end as int, p as int, old(self).facts()),
    {
        let v_off: usize = u16_le(buf, p + 20) as usize;
        let room: usize = end - p;
        if room >= 16 && v_off <= room - 16 && self.last_write_ft == 0 {
            self.last_write_ft = i64_le(buf, p + v_off + 8);
        }
        if room >= 36 && v_off <= room - 36 {
            self.is_reparse = (u32_le(buf, p + v_off + 32) / 0x400) % 2 == 1;
        }
    }

    fn note_name(&mut self, buf: &[u8], end: usize, p: usize)
        requires
            p + 24 <= end <= buf.len(),
        ensures
            final(self).facts() == note_name(buf@, end as int, p as int, old(self).facts()),
    {
        let v_off: usize = u16_le(buf, p + 20) as usize;
        let room: usize = end - p;
        if room < 66 || v_off > room - 66 {
            return;
        }
        let v: usize = p + v_off;
        let name_bytes: usize = buf[v + 64] as usize * 2;
        let ns: u8 = buf[v + 65];
        if name_bytes > end - (v + 66) {
            return;
        }
        let kept: i32 = match self.name {
            Some(_) => name_priority(self.ns),
            None => -1,
        };
        if name_priority(ns) > kept {
            let name = utf16le_to_string(slice_subrange(buf, v + 66, v + 66 + name_bytes));
            self.name = Some(name);
            self.ns = ns;
            let parent: u64 = le_uint(buf, v, 6);
            proof {
                crate::bytes::lemma_le_bound(buf@, v as int, 6);
                reveal_with_fuel(crate::bytes::pow256, 7);
            }
            self.parent_frn = parent as i64;
            if self.last_write_ft == 0 {
                self.last_write_ft = i64_le(buf, v + 16);
            }
        }
    }

    fn note_size(&mut self, buf: &[u8], end: usize, p: usize)
        requires
            p + 24 <= end <= buf.len(),
        ensures
            final(self).facts() == note_size(buf@, end as int, p as int, old(self).facts()),
    {
        if buf[p + 8] == 0 {
            self.size = u32_le(buf, p + 16) as i64;
        } else if end - p >= 56 {
            self.size = i64_le(buf, p + 48);
        }
        self.size_found = true;
    }
}

/// Parses the record of `rec_size` bytes at offset `off` of `buf`.
pub fn parse_record(buf: &[u8], off: usize, rec_size: usize) -> (r: Option<MftEntry>)
    ensures
        r is Some <==> record_entry(buf@, off as int, rec_size as int) is Some,
        r is Some ==> r->0@ == record_entry(buf@, off as int, rec_size as int)->0,
{
    if rec_size < 42 || rec_size > buf.len() || off > buf.len() - rec_size {
        return None;
    }
    if !has_signature(buf, off) {
        return None;
    }
    let flags: u16 = u16_le(buf, off + 22);
    if flags % 2 != 1 {
        return None;
    }
    let is_dir = (flags / 2) % 2 == 1;
    let first: usize = u16_le(buf, off + 20) as usize;
    let end: usize = off + rec_size;
    let mut f = FactsBuf {
        name: None,
        ns: 0xFF,
        parent_frn: -1,
        size: 0,
        size_found: false,
        last_write_ft: 0,
        is_reparse: false,
    };
    if first <= rec_size {
        let mut p: usize = off + first;
        let ghost all = record_facts(buf@, off as int, rec_size as int);
        while end - p >= 24
            invariant_except_break
                all == note_attrs(buf@, end as int, p as int, f.facts()),
            invariant
                p <= end <= buf.len(),
            ensures
                all == f.facts(),
            decreases end - p,
        {
            let kind: u32 = u32_le(buf, p);
            if kind == 0xFFFF_FFFF {
                break;
            }
            let alen: usize = u32_le(buf, p + 4) as usize;
            if alen == 0 || alen > end - p {
                break;
            }
            let resident = buf[p + 8] == 0;
            if kind == 0x10 && resident {
                f.note_times(buf, end, p);
            } else if kind == 0x30 && resident {
                f.note_name(buf, end, p);
            } else if kind == 0x80 && buf[p + 9] == 0 && !f.size_found {
                f.note_size(buf, end, p);
            }
            p += alen;
        }
    }
    let FactsBuf { name, ns: _, parent_frn, size, size_found: _, last_write_ft, is_reparse } = f;
    match name {
        None => None,
        Some(name) => Some(
            MftEntry {
                parent_frn,
                name,
                size: if is_dir {
                    0
                } else {
                    size
                },
                is_dir,
                is_reparse,
                last_write_ft,
            },
        ),
    }
}

// ---------------------------------------------------------------------- laws

/// Where the whole attributes from `p` on start.
pub open spec fn attr_offsets(b: Seq<u8>, end: int, p: int) -> Seq<int>
    decreases end - p,
{
    if attr_ok(b, end, p) {
        seq![p] + attr_offsets(b, end, p + le(b, p + 4, 4))
    } else {
        Seq::empty()
    }
}

/// Whether the attribute at `p` is a resident `$FILE_NAME` that fits the record.
pub open spec fn is_name_attr(b: Seq<u8>, end: int, p: int) -> bool {
    let v = p + le(b, p + 20, 2);
    le(b, p, 4) == 0x30 && b[p + 8] == 0 && v + 66 <= end && name_end(b, v) <= end
}

/// The namespace of the `$FILE_NAME` at `p`.
pub open spec fn name_ns(b: Seq<u8>, p: int) -> u8 {
    b[p + le(b, p + 20, 2) + 65]
}

/// Whether the attribute at `p` is an unnamed `$DATA`.
pub open spec fn is_data_attr(b: Seq<u8>, p: int) -> bool {
    le(b, p, 4) == 0x80 && b[p + 9] == 0
}

/// The name of a record is the best of all its `$FILE_NAME` attributes: no other
/// one is preferred to it. There is a name exactly where there is such an
/// attribute.
pub proof fn law_best_name_wins(b: Seq<u8>, end: int, p: int)
    ensures
        forall|i: int|
            0 <= i < attr_offsets(b, end, p).len() && is_name_attr(
                b,
                end,
                #[trigger] attr_offsets(b, end, p)[i],
            ) ==> priority(name_ns(b, attr_offsets(b, end, p)[i])) <= kept_priority(
                note_attrs(b, end, p, no_facts()),
            ),
        note_attrs(b, end, p, no_facts()).name is Some <==> exists|i: int|
            0 <= i < attr_offsets(b, end, p).len() && is_name_attr(
                b,
                end,
                #[trigger] attr_offsets(b, end, p)[i],
            ),
{
    lemma_best_name(b, end, p, no_facts());
}

proof fn lemma_best_name(b: Seq<u8>, end: int, p: int, f: Facts)
    ensures
        kept_priority(f) <= kept_priority(note_attrs(b, end, p, f)),
        forall|i: int|
            0 <= i < attr_offsets(b, end, p).len() && is_name_attr(
                b,
                end,
                #[trigger] attr_offsets(b, end, p)[i],
            ) ==> priority(name_ns(b, attr_offsets(b, end, p)[i])) <= kept_priority(
                note_attrs(b, end, p, f),
            ),
        note_attrs(b, end, p, f).name is Some <==> f.name is Some || exists|i: int|
            0 <= i < attr_offsets(b, end, p).len() && is_name_attr(
                b,
                end,
                #[trigger] attr_offsets(b, end, p)[i],
            ),
    decreases end - p,
{
    if attr_ok(b, end, p) {
        let q = p + le(b, p + 4, 4);
        let g = note_attr(b, end, p, f);
        lemma_best_name(b, end, q, g);
        let all = attr_offsets(b, end, p);
        let rest = attr_offsets(b, end, q);
        assert(all.len() == rest.len() + 1 && all[0] == p);
        assert(forall|i: int| 0 <= i < rest.len() ==> #[trigger] rest[i] == all[i + 1]);
        assert forall|i: int| 0 <= i < all.len() && is_name_attr(b, end, #[trigger] all[i]) implies priority(
            name_ns(b, all[i]),
        ) <= kept_priority(note_attrs(b, end, p, f)) by {
            if i > 0 {
                assert(rest[i - 1] == all[i]);
            }
        }
        if note_attrs(b, end, p, f).name is Some && f.name is None {
            if g.name is Some {
                assert(is_name_attr(b, end, all[0]));
            } else {
                let i = choose|i: int|
                    0 <= i < rest.len() && is_name_attr(b, end, #[trigger] rest[i]);
                assert(is_name_attr(b, end, all[i + 1]));
            }
        }
    }
}

/// The size of a record is that of its first unnamed `$DATA` attribute; later ones
/// do not count.
pub proof fn law_first_data_wins(b: Seq<u8>, end: int, p: int, k: int)
    requires
        0 <= k < attr_offsets(b, end, p).len(),
        is_data_attr(b, attr_offsets(b, end, p)[k]),
        forall|i: int| 0 <= i < k ==> !is_data_attr(b, #[trigger] attr_offsets(b, end, p)[i]),
    ensures
        note_attrs(b, end, p, no_facts()).size == note_size(
            b,
            end,
            attr_offsets(b, end, p)[k],
            no_facts(),
        ).size,
{
    lemma_first_data(b, end, p, k, no_facts());
}

proof fn lemma_first_data(b: Seq<u8>, end: int, p: int, k: int, f: Facts)
    requires
        0 <= k < attr_offsets(b, end, p).len(),
        is_data_attr(b, attr_offsets(b, end, p)[k]),
        forall|i: int| 0 <= i < k ==> !is_data_attr(b, #[trigger] attr_offsets(b, end, p)[i]),
        !f.size_found,
        f.size == 0,
    ensures
        note_attrs(b, end, p, f).size == note_size(
            b,
            end,
            attr_offsets(b, end, p)[k],
            no_facts(),
        ).size,
    decreases end - p,
{
    let q = p + le(b, p + 4, 4);
    let all = attr_offsets(b, end, p);
    let rest = attr_offsets(b, end, q);
    assert(forall|i: int| 0 <= i < rest.len() ==> #[trigger] rest[i] == all[i + 1]);
    if k == 0 {
        lemma_size_settled(b, end, q, note_attr(b, end, p, f));
    } else {
        assert(!is_data_attr(b, all[0]));
        assert(rest[k - 1] == all[k]);
        lemma_first_data(b, end, q, k - 1, note_attr(b, end, p, f));
    }
}

proof fn lemma_size_settled(b: Seq<u8>, end: int, p: int, f: Facts)
    requires
        f.size_found,
    ensures
        note_attrs(b, end, p, f).size == f.size,
    decreases end - p,
{
    if attr_ok(b, end, p) {
        lemma_size_settled(b, end, p + le(b, p + 4, 4), note_attr(b, end, p, f));
    }
}

} // verus!
