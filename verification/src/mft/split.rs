//! Records stand alone: a stretch of them can be cut at any record, and the parts be
//! parsed by different workers.

use crate::bytes::{le, le_signed};
use crate::mft::chunk::{chunk_entries, repaired};
use crate::mft::fixups::{
    fixed, fixed_upto, fixup_applies, has_header, lemma_nothing_to_restore, tails_inside, usa_count,
    usa_pos,
};
use crate::mft::record::{
    attr_ok, name_end, note_attr, note_attrs, record_entry, record_facts, EntryView, Facts,
};
use vstd::prelude::*;

verus! {

/// Whether `c` is the `c.len()` bytes of `b` from `off` on.
pub open spec fn lies_at(b: Seq<u8>, off: int, c: Seq<u8>) -> bool {
    &&& 0 <= off
    &&& off + c.len() <= b.len()
    &&& forall|i: int| 0 <= i < c.len() ==> #[trigger] c[i] == b[off + i]
}

/// Whether the update-sequence array of the record at `rec`, if there is one, lies in
/// that record.
pub open spec fn has_own_array(b: Seq<u8>, rec: int, size: int) -> bool {
    has_header(b, rec) ==> usa_pos(b, rec) + 2 * usa_count(b, rec) <= rec + size
}

/// What a record describes, seen by itself.
pub open spec fn entry_of(record: Seq<u8>, sector: int) -> Option<EntryView> {
    record_entry(fixed(record, 0, record.len() as int, sector), 0, record.len() as int)
}

proof fn lemma_le_at(b: Seq<u8>, off: int, c: Seq<u8>, o: int, n: nat)
    requires
        lies_at(b, off, c),
        0 <= o,
        o + n <= c.len(),
    ensures
        le(b, off + o, n) == le(c, o, n),
        le_signed(b, off + o, n) == le_signed(c, o, n),
    decreases n,
{
    if n > 0 {
        lemma_le_at(b, off, c, o + 1, (n - 1) as nat);
        assert(c[o] == b[off + o]);
        assert(off + o + 1 == off + (o + 1));
    }
}

proof fn lemma_attr_at(b: Seq<u8>, off: int, c: Seq<u8>, p: int, f: Facts)
    requires
        lies_at(b, off, c),
        0 <= p,
        p + 24 <= c.len(),
    ensures
        note_attr(b, off + c.len(), off + p, f) == note_attr(c, c.len() as int, p, f),
{
    let end = c.len() as int;
    lemma_le_at(b, off, c, p, 4);
    lemma_le_at(b, off, c, p + 16, 4);
    lemma_le_at(b, off, c, p + 20, 2);
    assert(c[p + 8] == b[off + (p + 8)]);
    assert(c[p + 9] == b[off + (p + 9)]);
    let v = p + le(c, p + 20, 2);
    if v + 16 <= end {
        lemma_le_at(b, off, c, v + 8, 8);
    }
    if v + 36 <= end {
        lemma_le_at(b, off, c, v + 32, 4);
    }
    if p + 56 <= end {
        lemma_le_at(b, off, c, p + 48, 8);
    }
    if v + 66 <= end {
        lemma_le_at(b, off, c, v, 6);
        lemma_le_at(b, off, c, v + 16, 8);
        assert(c[v + 64] == b[off + (v + 64)]);
        assert(c[v + 65] == b[off + (v + 65)]);
        assert(off + v == off + p + le(b, off + p + 20, 2));
        assert(name_end(b, off + v) == off + name_end(c, v));
        if name_end(c, v) <= end {
            assert(b.subrange(off + v + 66, name_end(b, off + v)) =~= c.subrange(
                v + 66,
                name_end(c, v),
            ));
        }
    }
}

proof fn lemma_attrs_at(b: Seq<u8>, off: int, c: Seq<u8>, p: int, f: Facts)
    requires
        lies_at(b, off, c),
        0 <= p,
    ensures
        note_attrs(b, off + c.len(), off + p, f) == note_attrs(c, c.len() as int, p, f),
    decreases c.len() - p,
{
    let end = c.len() as int;
    if p + 24 <= end {
        lemma_le_at(b, off, c, p, 4);
        lemma_le_at(b, off, c, p + 4, 4);
        lemma_attr_at(b, off, c, p, f);
        assert(attr_ok(b, off + end, off + p) == attr_ok(c, end, p));
        if attr_ok(c, end, p) {
            let n = le(c, p + 4, 4);
            lemma_attrs_at(b, off, c, p + n, note_attr(c, end, p, f));
            assert(off + p + n == off + (p + n));
        }
    }
}

/// A record is parsed alike wherever it lies.
pub proof fn law_parsed_alike_anywhere(b: Seq<u8>, off: int, record: Seq<u8>)
    requires
        lies_at(b, off, record),
    ensures
        record_entry(b, off, record.len() as int) == record_entry(record, 0, record.len() as int),
{
    let size = record.len() as int;
    if size >= 42 {
        lemma_le_at(b, off, record, 20, 2);
        lemma_le_at(b, off, record, 22, 2);
        assert(forall|i: int| 0 <= i < 4 ==> #[trigger] record[i] == b[off + i]);
        assert(record[0] == b[off + 0] && record[1] == b[off + 1]);
        assert(record[2] == b[off + 2] && record[3] == b[off + 3]);
        let first = le(record, 20, 2) as int;
        lemma_attrs_at(b, off, record, first, crate::mft::record::no_facts());
        assert(record_facts(b, off, size) == record_facts(record, 0, size));
    }
}

/// Repairing a record changes nothing outside it.
proof fn lemma_fixed_within(b: Seq<u8>, rec: int, size: int, sector: int, n: int)
    requires
        0 <= rec,
        rec + size <= b.len(),
        sector >= 2,
    ensures
        fixed_upto(b, rec, size, sector, n).len() == b.len(),
        forall|k: int|
            0 <= k < b.len() && !(rec <= k < rec + size) ==> #[trigger] fixed_upto(
                b,
                rec,
                size,
                sector,
                n,
            )[k] == b[k],
    decreases n,
{
    if n > 1 {
        lemma_fixed_within(b, rec, size, sector, n - 1);
        assert((n - 1) * sector >= 2) by (nonlinear_arith)
            requires
                n - 1 >= 1,
                sector >= 2,
        ;
    }
}

/// Repairing a record changes nothing behind it.
proof fn lemma_fixed_behind(b: Seq<u8>, rec: int, size: int, sector: int, n: int)
    requires
        0 <= rec,
        rec + size <= b.len(),
        sector >= 2 || (sector == 1 && rec >= 1),
    ensures
        fixed_upto(b, rec, size, sector, n).len() == b.len(),
        forall|k: int|
            rec + size <= k < b.len() ==> #[trigger] fixed_upto(b, rec, size, sector, n)[k] == b[k],
    decreases n,
{
    if n > 1 {
        lemma_fixed_behind(b, rec, size, sector, n - 1);
        assert((n - 1) * sector >= sector) by (nonlinear_arith)
            requires
                n - 1 >= 1,
                sector >= 1,
        ;
    }
}

/// A record with an array of its own is repaired alike wherever it lies.
proof fn lemma_fixed_at(b: Seq<u8>, off: int, c: Seq<u8>, sector: int, n: int)
    requires
        lies_at(b, off, c),
        c.len() >= 8,
        sector >= 2,
        usa_pos(c, 0) + 2 * usa_count(c, 0) <= c.len(),
        n <= usa_count(c, 0),
    ensures
        lies_at(
            fixed_upto(b, off, c.len() as int, sector, n),
            off,
            fixed_upto(c, 0, c.len() as int, sector, n),
        ),
        fixed_upto(c, 0, c.len() as int, sector, n).len() == c.len(),
    decreases n,
{
    let size = c.len() as int;
    lemma_le_at(b, off, c, 4, 2);
    lemma_le_at(b, off, c, 6, 2);
    lemma_fixed_within(b, off, size, sector, n);
    lemma_fixed_within(c, 0, size, sector, n);
    if n > 1 {
        lemma_fixed_at(b, off, c, sector, n - 1);
        let j = n - 1;
        assert(j * sector >= 2) by (nonlinear_arith)
            requires
                j >= 1,
                sector >= 2,
        ;
        assert(fixup_applies(b, off, size, sector, j) == fixup_applies(c, 0, size, sector, j));
        let pb = fixed_upto(b, off, size, sector, j);
        let pc = fixed_upto(c, 0, size, sector, j);
        let src = usa_pos(c, 0) + 2 * j;
        assert(usa_pos(b, off) + 2 * j == off + src);
        if fixup_applies(c, 0, size, sector, j) {
            let end = j * sector;
            assert(pc[src] == pb[off + src]);
            let oc = pc.update(end - 2, pc[src]);
            let ob = pb.update(off + end - 2, pb[off + src]);
            assert(lies_at(ob, off, oc)) by {
                assert forall|i: int| 0 <= i < oc.len() implies #[trigger] oc[i] == ob[off + i] by {
                    if i != end - 2 {
                        assert(pc[i] == pb[off + i]);
                    }
                }
            }
            assert(oc[src + 1] == ob[off + (src + 1)]);
            let fc = oc.update(end - 1, oc[src + 1]);
            let fb = ob.update(off + end - 1, ob[off + src + 1]);
            assert forall|i: int| 0 <= i < fc.len() implies #[trigger] fc[i] == fb[off + i] by {
                if i != end - 1 {
                    assert(oc[i] == ob[off + i]);
                }
            }
            assert(fixed_upto(c, 0, size, sector, n) == fc);
            assert(fixed_upto(b, off, size, sector, n) == fb);
        }
    }
}

proof fn lemma_repaired_at(b: Seq<u8>, off: int, c: Seq<u8>, sector: int)
    requires
        lies_at(b, off, c),
        c.len() >= 8,
        sector >= 2,
        has_own_array(b, off, c.len() as int),
    ensures
        lies_at(fixed(b, off, c.len() as int, sector), off, fixed(c, 0, c.len() as int, sector)),
        fixed(c, 0, c.len() as int, sector).len() == c.len(),
{
    lemma_le_at(b, off, c, 4, 2);
    lemma_le_at(b, off, c, 6, 2);
    assert(c[0] == b[off + 0] && c[1] == b[off + 1] && c[2] == b[off + 2] && c[3] == b[off + 3]);
    assert(has_header(b, off) == has_header(c, 0));
    if has_header(c, 0) {
        lemma_fixed_at(b, off, c, sector, usa_count(c, 0) as int);
    }
}

/// Repairing the records in front changes nothing from there on.
proof fn lemma_repaired_in_front(b: Seq<u8>, record: int, sector: int, n: int)
    requires
        record >= 1,
        sector >= 1,
        n >= 1 ==> tails_inside(b, 0, record, sector),
        0 <= n,
        n * record <= b.len(),
    ensures
        repaired(b, record, sector, n).len() == b.len(),
        forall|k: int|
            n * record <= k < b.len() ==> #[trigger] repaired(b, record, sector, n)[k] == b[k],
    decreases n,
{
    if n > 0 {
        assert((n - 1) * record + record == n * record) by (nonlinear_arith);
        assert((n - 1) * record >= 0) by (nonlinear_arith)
            requires
                n >= 1,
                record >= 1,
        ;
        lemma_repaired_in_front(b, record, sector, n - 1);
        let prev = repaired(b, record, sector, n - 1);
        let rec = (n - 1) * record;
        if sector == 1 && n == 1 {
            lemma_nothing_to_restore(b, 0, record);
        } else {
            assert(n >= 2 ==> (n - 1) * record >= 1) by (nonlinear_arith)
                requires
                    record >= 1,
            ;
            lemma_fixed_behind(prev, rec, record, sector, usa_count(prev, rec) as int);
        }
    }
}

proof fn lemma_entry_in_chunk(b: Seq<u8>, record: int, sector: int, n: int, k: int)
    requires
        0 <= k < n,
    ensures
        chunk_entries(b, record, sector, n).len() == n,
        chunk_entries(b, record, sector, n)[k] == record_entry(
            repaired(b, record, sector, k + 1),
            k * record,
            record,
        ),
    decreases n,
{
    if k < n - 1 {
        lemma_entry_in_chunk(b, record, sector, n - 1, k);
    } else {
        lemma_chunk_len(b, record, sector, n - 1);
    }
}

pub proof fn lemma_chunk_len(b: Seq<u8>, record: int, sector: int, n: int)
    requires
        0 <= n,
    ensures
        chunk_entries(b, record, sector, n).len() == n,
    decreases n,
{
    if n > 0 {
        lemma_chunk_len(b, record, sector, n - 1);
    }
}

/// What a record of a stretch describes is what it describes by itself: its place
/// in the stretch and the other records do not matter. Its update-sequence array and
/// its sector tails have to lie in the record, the tails of the first record too.
pub proof fn law_records_stand_alone(b: Seq<u8>, record: int, sector: int, n: int, k: int)
    requires
        record >= 1,
        0 <= k < n,
        n * record <= b.len(),
        has_own_array(b, k * record, record),
        tails_inside(b, 0, record, sector),
        tails_inside(b, k * record, record, sector),
    ensures
        chunk_entries(b, record, sector, n).len() == n,
        chunk_entries(b, record, sector, n)[k] == entry_of(
            b.subrange(k * record, k * record + record),
            sector,
        ),
{
    let off = k * record;
    assert(0 <= off && off + record <= n * record) by (nonlinear_arith)
        requires
            0 <= k < n,
            record >= 1,
            off == k * record,
    ;
    lemma_entry_in_chunk(b, record, sector, n, k);
    let c = b.subrange(off, off + record);
    let before = repaired(b, record, sector, k);
    lemma_repaired_in_front(b, record, sector, k);
    assert(k + 1 - 1 == k);
    let after = fixed(before, off, record, sector);
    assert(repaired(b, record, sector, k + 1) == after);
    if record >= 42 {
        assert(lies_at(b, off, c));
        assert(lies_at(before, off, c)) by {
            assert forall|i: int| 0 <= i < c.len() implies #[trigger] c[i] == before[off + i] by {
                assert(before[off + i] == b[off + i]);
            }
        }
        lemma_le_at(b, off, c, 4, 2);
        lemma_le_at(b, off, c, 6, 2);
        lemma_le_at(before, off, c, 4, 2);
        lemma_le_at(before, off, c, 6, 2);
        assert(before[off] == b[off] && before[off + 1] == b[off + 1]);
        assert(before[off + 2] == b[off + 2] && before[off + 3] == b[off + 3]);
        assert(has_own_array(before, off, record));
        if sector == 1 {
            lemma_tails_in_part(b, off, c, 0, record, 1);
            lemma_nothing_to_restore(before, off, record);
            lemma_nothing_to_restore(c, 0, record);
        } else {
            lemma_repaired_at(before, off, c, sector);
        }
        law_parsed_alike_anywhere(after, off, fixed(c, 0, record, sector));
    }
}

/// An array that lies in its record does so in any part of the stretch that holds it.
pub proof fn lemma_own_array_in_part(b: Seq<u8>, off: int, c: Seq<u8>, rec: int, size: int)
    requires
        lies_at(b, off, c),
        0 <= rec,
        has_own_array(b, off + rec, size),
    ensures
        has_own_array(c, rec, size),
{
    if has_header(c, rec) {
        lemma_le_at(b, off, c, rec + 4, 2);
        lemma_le_at(b, off, c, rec + 6, 2);
        assert(c[rec] == b[off + rec] && c[rec + 1] == b[off + (rec + 1)]);
        assert(c[rec + 2] == b[off + (rec + 2)] && c[rec + 3] == b[off + (rec + 3)]);
        assert(has_header(b, off + rec));
    }
}

/// Tails that lie in their record do so in any part of the stretch that holds it.
pub proof fn lemma_tails_in_part(b: Seq<u8>, off: int, c: Seq<u8>, rec: int, size: int, sector: int)
    requires
        lies_at(b, off, c),
        0 <= rec,
        tails_inside(b, off + rec, size, sector),
    ensures
        tails_inside(c, rec, size, sector),
{
    if has_header(c, rec) {
        lemma_le_at(b, off, c, rec + 4, 2);
        lemma_le_at(b, off, c, rec + 6, 2);
        assert(c[rec] == b[off + rec] && c[rec + 1] == b[off + (rec + 1)]);
        assert(c[rec + 2] == b[off + (rec + 2)] && c[rec + 3] == b[off + (rec + 3)]);
        assert(has_header(b, off + rec));
    }
}

/// A stretch can be cut at any record: the parts describe, one behind the other, what
/// the whole describes. Update-sequence arrays and sector tails have to lie in their
/// records.
pub proof fn law_stretch_can_be_cut(b: Seq<u8>, record: int, sector: int, n: int, m: int)
    requires
        record >= 1,
        0 <= m <= n,
        n * record <= b.len(),
        forall|k: int| 0 <= k < n ==> #[trigger] has_own_array(b, k * record, record),
        forall|k: int| 0 <= k < n ==> #[trigger] tails_inside(b, k * record, record, sector),
    ensures
        chunk_entries(b, record, sector, n) == chunk_entries(b.take(m * record), record, sector, m)
            + chunk_entries(b.skip(m * record), record, sector, n - m),
{
    let (front, back) = (b.take(m * record), b.skip(m * record));
    assert(0 <= m * record <= n * record && (n - m) * record == n * record - m * record)
        by (nonlinear_arith)
        requires
            0 <= m <= n,
            record >= 1,
    ;
    let whole = chunk_entries(b, record, sector, n);
    let one = chunk_entries(front, record, sector, m);
    let two = chunk_entries(back, record, sector, n - m);
    lemma_chunk_len(b, record, sector, n);
    lemma_chunk_len(front, record, sector, m);
    lemma_chunk_len(back, record, sector, n - m);
    assert forall|k: int| 0 <= k < n implies #[trigger] whole[k] == (one + two)[k] by {
        let at = k * record;
        assert(has_own_array(b, k * record, record));
        assert(tails_inside(b, k * record, record, sector));
        assert(tails_inside(b, 0 * record, record, sector));
        law_records_stand_alone(b, record, sector, n, k);
        if k < m {
            assert(at + record <= m * record && 0 <= at) by (nonlinear_arith)
                requires
                    0 <= k < m,
                    record >= 1,
                    at == k * record,
            ;
            assert(lies_at(b, 0, front));
            lemma_own_array_in_part(b, 0, front, at, record);
            lemma_tails_in_part(b, 0, front, at, record, sector);
            lemma_tails_in_part(b, 0, front, 0, record, sector);
            law_records_stand_alone(front, record, sector, m, k);
            assert(front.subrange(at, at + record) =~= b.subrange(at, at + record));
        } else {
            let j = k - m;
            assert(at == j * record + m * record && 0 <= j * record && j * record + record <= (n - m)
                * record) by (nonlinear_arith)
                requires
                    m <= k < n,
                    j == k - m,
                    record >= 1,
                    at == k * record,
            ;
            assert(lies_at(b, m * record, back));
            assert(m * record + j * record == k * record);
            lemma_own_array_in_part(b, m * record, back, j * record, record);
            lemma_tails_in_part(b, m * record, back, j * record, record, sector);
            assert(tails_inside(b, m * record, record, sector));
            lemma_tails_in_part(b, m * record, back, 0, record, sector);
            law_records_stand_alone(back, record, sector, n - m, j);
            assert(back.subrange(j * record, j * record + record) =~= b.subrange(at, at + record));
        }
    }
    assert(whole =~= one + two);
}

} // verus!
