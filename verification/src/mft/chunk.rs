//! A stretch of the Master File Table: whole records, one behind the other.

use crate::mft::fixups::{
    apply_fixups, first_tails_inside, fixed, fixups_in_bounds, has_header, lemma_inside_in_bounds,
    tails_inside, usa_count,
};
use crate::mft::reader::{
    check_geometry, geometry_error, geometry_message, is_sound_geometry,
};
use crate::mft::record::{parse_record, record_entry, EntryView, MftEntry};
use crate::mft::tree::slots;
use crate::wrap::{law_wrap_absorbs, law_wrap_fits, wrap, wrapping_sum};
use vstd::prelude::*;

verus! {

/// The stretch `b` with its first `n` records repaired.
pub open spec fn repaired(b: Seq<u8>, record: int, sector: int, n: int) -> Seq<u8>
    decreases n,
{
    if n <= 0 {
        b
    } else {
        fixed(repaired(b, record, sector, n - 1), (n - 1) * record, record, sector)
    }
}

/// What the first `n` records of the stretch `b` describe.
pub open spec fn chunk_entries(b: Seq<u8>, record: int, sector: int, n: int) -> Seq<
    Option<EntryView>,
>
    decreases n,
{
    if n <= 0 {
        Seq::empty()
    } else {
        chunk_entries(b, record, sector, n - 1).push(
            record_entry(repaired(b, record, sector, n), (n - 1) * record, record),
        )
    }
}

/// How many of `es` are files.
pub open spec fn count_files(es: Seq<Option<EntryView>>) -> int
    decreases es.len(),
{
    if es.len() == 0 {
        0
    } else {
        count_files(es.drop_last()) + match es.last() {
            Some(e) => if e.is_dir {
                0int
            } else {
                1
            },
            None => 0,
        }
    }
}

/// What the files among `es` amount to in bytes.
pub open spec fn sum_files(es: Seq<Option<EntryView>>) -> int
    decreases es.len(),
{
    if es.len() == 0 {
        0
    } else {
        sum_files(es.drop_last()) + match es.last() {
            Some(e) => if e.is_dir {
                0
            } else {
                e.size
            },
            None => 0,
        }
    }
}

/// Repairs and parses every record of a stretch. Gives what each describes, how
/// many of them are files, and what those amount to in bytes.
pub fn parse_chunk(buf: &mut [u8], rec_size: usize, sector_size: usize) -> (r: (
    Vec<Option<MftEntry>>,
    i64,
    i64,
))
    requires
        rec_size >= 1,
        sector_size >= 1,
        old(buf)@.len() >= rec_size ==> tails_inside(
            old(buf)@,
            0,
            rec_size as int,
            sector_size as int,
        ),
    ensures
        r.0.len() == old(buf)@.len() / rec_size as nat,
        slots(r.0@) == chunk_entries(
            old(buf)@,
            rec_size as int,
            sector_size as int,
            r.0.len() as int,
        ),
        r.1 == wrap(count_files(slots(r.0@))),
        r.2 == wrap(sum_files(slots(r.0@))),
        final(buf)@ == repaired(old(buf)@, rec_size as int, sector_size as int, r.0.len() as int),
{
    let ghost b0 = buf@;
    let ghost (record, sector) = (rec_size as int, sector_size as int);
    let len: usize = buf.len();
    let n: usize = len / rec_size;
    let mut out: Vec<Option<MftEntry>> = Vec::new();
    let (mut files, mut size): (i64, i64) = (0, 0);
    let mut i: usize = 0;
    let mut off: usize = 0;
    proof {
        assert(slots(out@) =~= Seq::empty());
        law_wrap_fits(0);
        assert(n >= 1 ==> len >= rec_size) by (nonlinear_arith)
            requires
                n == len / rec_size,
                rec_size >= 1,
        ;
    }
    while i < n
        invariant
            i <= n,
            n == len / rec_size,
            rec_size >= 1,
            sector_size >= 1,
            n >= 1 ==> tails_inside(b0, 0, record, sector),
            record == rec_size,
            sector == sector_size,
            off == i * record,
            buf@.len() == len,
            buf@ == repaired(b0, record, sector, i as int),
            out.len() == i,
            slots(out@) == chunk_entries(b0, record, sector, i as int),
            files == wrap(count_files(slots(out@))),
            size == wrap(sum_files(slots(out@))),
        decreases n - i,
    {
        proof {
            assert((i + 1) * record <= len) by (nonlinear_arith)
                requires
                    i + 1 <= n,
                    n == len / rec_size,
                    rec_size >= 1,
                    record == rec_size,
            ;
            assert((i + 1) * record == i * record + record) by (nonlinear_arith);
            if i == 0 {
                assert(buf@ == b0);
            } else {
                assert(i * record >= 1) by (nonlinear_arith)
                    requires
                        i >= 1,
                        record >= 1,
                ;
            }
            if has_header(buf@, off as int) {
                lemma_inside_in_bounds(buf@, off as int, record, sector);
                lemma_fixed_keeps_len(buf@, off as int, record, sector);
            }
        }
        apply_fixups(buf, off, rec_size, sector_size);
        let entry = parse_record(buf, off, rec_size);
        let ghost before = slots(out@);
        let ghost (f0, s0) = (count_files(before), sum_files(before));
        if let Some(e) = &entry {
            if !e.is_dir {
                proof {
                    law_wrap_absorbs(f0, 1);
                    law_wrap_absorbs(s0, e.size as int);
                }
                files = wrapping_sum(files, 1);
                size = wrapping_sum(size, e.size);
            }
        }
        let ghost view = record_entry(buf@, off as int, record);
        out.push(entry);
        assert(slots(out@) =~= before.push(view));
        assert(before.push(view).drop_last() =~= before);
        i += 1;
        off += rec_size;
    }
    (out, files, size)
}

/// The same for any geometry. Where records cannot be read in it, or the first has a
/// sector tail that the stretch has no room for, nothing is parsed.
pub fn try_chunk(buf: &mut [u8], rec_size: usize, sector_size: usize) -> (r: Result<
    (Vec<Option<MftEntry>>, i64, i64),
    String,
>)
    ensures
        ({
            let (b, record, sector) = (old(buf)@, rec_size as int, sector_size as int);
            let n = b.len() as int / record;
            &&& r is Ok <==> is_sound_geometry(record, sector) && (n >= 1 ==> tails_inside(
                b,
                0,
                record,
                sector,
            ))
            &&& r is Err ==> r->Err_0@ == geometry_error(rec_size as nat, sector_size as nat)
                && final(buf)@ == b
            &&& r is Ok ==> {
                let (entries, files, bytes) = r->Ok_0;
                &&& slots(entries@) == chunk_entries(b, record, sector, n)
                &&& files == wrap(count_files(slots(entries@)))
                &&& bytes == wrap(sum_files(slots(entries@)))
                &&& final(buf)@ == repaired(b, record, sector, n)
            }
        }),
{
    if let Err(e) = check_geometry(rec_size, sector_size) {
        return Err(e);
    }
    if buf.len() / rec_size >= 1 && !first_tails_inside(buf, rec_size, sector_size) {
        return Err(geometry_message(rec_size, sector_size));
    }
    proof {
        if buf@.len() >= rec_size {
            vstd::arithmetic::div_mod::lemma_div_non_zero(buf@.len() as int, rec_size as int);
        }
    }
    Ok(parse_chunk(buf, rec_size, sector_size))
}

/// Repairing a record in the buffer keeps the buffer's length.
proof fn lemma_fixed_keeps_len(b: Seq<u8>, rec: int, size: int, sector: int)
    requires
        fixups_in_bounds(b, rec, size, sector),
    ensures
        fixed(b, rec, size, sector).len() == b.len(),
{
    if has_header(b, rec) {
        crate::mft::fixups::lemma_fixed_len(b, rec, size, sector, usa_count(b, rec) as int);
    }
}

/// How many records each of `workers` takes of `n`: enough for all of them.
pub fn records_per_worker(n: usize, workers: usize) -> (r: usize)
    requires
        n >= 1,
    ensures
        ({
            let w = if workers < 1 {
                1
            } else if workers > n {
                n as int
            } else {
                workers as int
            };
            r >= 1 && (r - 1) * w < n <= r * w
        }),
{
    let w: usize = if workers < 1 {
        1
    } else if workers > n {
        n
    } else {
        workers
    };
    let q: usize = n / w;
    let m: usize = n % w;
    assert(n == q * w + m && 0 <= m < w && q >= 1) by (nonlinear_arith)
        requires
            1 <= w <= n,
            q == n / w,
            m == n % w,
    ;
    assert((q + 1) * w == q * w + w && (q - 1) * w == q * w - w) by (nonlinear_arith);
    assert(q <= n) by (nonlinear_arith)
        requires
            n >= q * w,
            w >= 1,
            q >= 0,
    ;
    if m > 0 {
        assert(q < n) by (nonlinear_arith)
            requires
                n > q * w,
                w >= 1,
                q >= 0,
        ;
        q + 1
    } else {
        q
    }
}

/// Whether a record describes a file.
pub open spec fn is_a_file(e: Option<EntryView>) -> bool {
    e matches Some(x) && !x.is_dir
}

/// What a stretch reports: as many files as its records describe, and what those have in
/// bytes, added up. Folders and records that describe nothing do not count.
pub proof fn law_files_are_counted(es: Seq<Option<EntryView>>)
    ensures
        ({
            let files = es.filter(|e: Option<EntryView>| is_a_file(e));
            &&& count_files(es) == files.len()
            &&& sum_files(es) == files.map_values(|e: Option<EntryView>| e->0.size).fold_left(
                0,
                |a: int, b: int| a + b,
            )
        }),
    decreases es.len(),
{
    reveal(Seq::filter);
    let p = |e: Option<EntryView>| is_a_file(e);
    let size = |e: Option<EntryView>| e->0.size;
    if es.len() > 0 {
        let front = es.drop_last();
        law_files_are_counted(front);
        let files = es.filter(p);
        if is_a_file(es.last()) {
            assert(files == front.filter(p).push(es.last()));
            assert(files.map_values(size).drop_last() =~= front.filter(p).map_values(size));
        }
    }
}

} // verus!
