//! The whole table: every record is filed at its number, however the table is spread
//! over the volume and in whatever pieces it is read.

use crate::mft::chunk::chunk_entries;
use crate::mft::fixups::tails_inside;
use crate::mft::reader::{
    in_run, is_reading, next_length, next_run, record_count, sought, taken, unread_table,
    usable_records, TableView, CHUNK, MAX_RECORD_SIZE,
};
use crate::mft::runs::DataRun;
use crate::mft::split::{
    entry_of, has_own_array, law_records_stand_alone, lemma_own_array_in_part, lemma_tails_in_part,
    lies_at,
};
use crate::wrap::law_wrap_fits;
use vstd::prelude::*;

verus! {

/// What a volume holds at every position.
pub type VolumeBytes = spec_fn(int) -> u8;

/// The bytes of a volume from `pos` on.
pub open spec fn bytes_at(volume: VolumeBytes, pos: int, len: int) -> Seq<u8> {
    Seq::new(len as nat, |i: int| volume(pos + i))
}

/// The bytes of the first `n` runs, one behind the other.
pub open spec fn table_bytes(
    volume: VolumeBytes,
    runs: Seq<DataRun>,
    cluster: int,
    n: int,
) -> Seq<u8>
    decreases n,
{
    if n <= 0 {
        Seq::empty()
    } else {
        table_bytes(volume, runs, cluster, n - 1) + bytes_at(
            volume,
            runs[n - 1].lcn * cluster,
            runs[n - 1].length * cluster,
        )
    }
}

/// The bytes of the table.
pub open spec fn table_of(volume: VolumeBytes, t: TableView) -> Seq<u8> {
    table_bytes(volume, t.runs, t.cluster, t.runs.len() as int)
}

/// Whether a run lies on a volume and holds whole records.
pub open spec fn is_sound_run(run: DataRun, cluster: int, record: int) -> bool {
    &&& 0 <= run.lcn * cluster
    &&& 0 <= run.length * cluster
    &&& run.lcn * cluster + run.length * cluster <= i64::MAX
    &&& (run.length * cluster) % record == 0
}

/// Record `k` of a table.
pub open spec fn record_at(table: Seq<u8>, record: int, k: int) -> Seq<u8> {
    table.subrange(k * record, k * record + record)
}

/// Whether the update-sequence array of every record lies in that record.
pub open spec fn has_own_arrays(table: Seq<u8>, record: int) -> bool {
    forall|k: int|
        0 <= k && (k + 1) * record <= table.len() ==> #[trigger] has_own_array(
            table,
            k * record,
            record,
        )
}

/// Whether the sector tails of every record lie in that record.
pub open spec fn has_own_tails(table: Seq<u8>, record: int, sector: int) -> bool {
    forall|k: int|
        0 <= k && (k + 1) * record <= table.len() ==> #[trigger] tails_inside(
            table,
            k * record,
            record,
            sector,
        )
}

/// Whether the run under way goes on where the records that were filed end.
pub open spec fn is_aligned(t: TableView, volume: VolumeBytes) -> bool {
    let done = t.length - t.remaining;
    let table = table_of(volume, t);
    &&& done == t.frn * t.record_size
    &&& table_bytes(volume, t.runs, t.cluster, t.run).len() == done + t.run_bytes
    &&& done + t.run_bytes <= table.len()
    &&& t.run_bytes >= 0
    &&& t.run_bytes % t.record_size == 0
    &&& 0 <= t.pos
    &&& t.pos + t.run_bytes <= i64::MAX
    &&& forall|i: int| 0 <= i < t.run_bytes ==> #[trigger] volume(t.pos + i) == table[done + i]
}

/// Whether everything that was filed is what the records of the table with those numbers
/// describe, and the reading goes on with the next.
pub open spec fn is_in_order(t: TableView, volume: VolumeBytes, sector: int) -> bool {
    &&& is_reading(t)
    &&& forall|i: int|
        0 <= i < t.runs.len() ==> is_sound_run(#[trigger] t.runs[i], t.cluster, t.record_size)
    &&& t.entries.len() == record_count(t.length, t.record_size)
    &&& t.length <= table_of(volume, t).len()
    &&& t.length - t.remaining == t.frn * t.record_size
    &&& forall|k: int|
        0 <= k < t.frn ==> #[trigger] t.entries[k] == entry_of(
            record_at(table_of(volume, t), t.record_size, k),
            sector,
        )
    &&& t.frn == t.entries.len() || is_aligned(t, volume)
}

proof fn lemma_prefix(volume: VolumeBytes, runs: Seq<DataRun>, cluster: int, n: int, m: int)
    requires
        0 <= n <= m,
    ensures
        table_bytes(volume, runs, cluster, n).len() <= table_bytes(volume, runs, cluster, m).len(),
        forall|i: int|
            0 <= i < table_bytes(volume, runs, cluster, n).len() ==> #[trigger] table_bytes(
                volume,
                runs,
                cluster,
                m,
            )[i] == table_bytes(volume, runs, cluster, n)[i],
    decreases m,
{
    if n < m {
        lemma_prefix(volume, runs, cluster, n, m - 1);
    }
}

/// Where less than a record is left, all records are filed.
proof fn lemma_all_filed(t: TableView)
    requires
        t.record_size >= 1,
        t.entries.len() == record_count(t.length, t.record_size),
        t.length - t.remaining == t.frn * t.record_size,
        0 <= t.remaining < t.record_size,
        t.frn >= 0,
    ensures
        t.frn == t.entries.len(),
{
    let (r, k, len) = (t.record_size, t.frn, t.length);
    assert(k * r >= 0) by (nonlinear_arith)
        requires
            k >= 0,
            r >= 1,
    ;
    vstd::arithmetic::div_mod::lemma_fundamental_div_mod_converse(len, r, k, t.remaining);
    if len == 0 {
        assert(k == 0) by (nonlinear_arith)
            requires
                k * r <= 0,
                k >= 0,
                r >= 1,
        ;
    }
}

/// A whole number of records that is not empty has at least one.
proof fn lemma_at_least_one(x: int, r: int)
    requires
        r >= 1,
        x > 0,
        x % r == 0,
    ensures
        x >= r,
{
    if x < r {
        vstd::arithmetic::div_mod::lemma_small_mod(x as nat, r as nat);
    }
}

/// A table that is about to be read is in order.
pub proof fn law_begins_in_order(
    record: int,
    cluster: int,
    runs: Seq<DataRun>,
    length: int,
    volume: VolumeBytes,
    sector: int,
)
    requires
        is_reading(unread_table(record, cluster, runs, length)),
        forall|i: int| 0 <= i < runs.len() ==> is_sound_run(#[trigger] runs[i], cluster, record),
        length <= table_bytes(volume, runs, cluster, runs.len() as int).len(),
    ensures
        is_in_order(unread_table(record, cluster, runs, length), volume, sector),
{
    let t = unread_table(record, cluster, runs, length);
    assert(0 * record == 0);
    assert(0int % record == 0);
    if length > 0 {
        vstd::arithmetic::div_mod::lemma_div_pos_is_pos(length, record);
    }
    assert(is_aligned(t, volume));
}

proof fn lemma_next_run_in_order(t: TableView, volume: VolumeBytes, sector: int)
    requires
        is_in_order(t, volume, sector),
        !in_run(t),
        t.remaining > 0,
        t.run < t.runs.len(),
    ensures
        is_in_order(next_run(t), volume, sector),
{
    let n = next_run(t);
    if t.frn < t.entries.len() {
        if t.run_bytes > 0 {
            lemma_at_least_one(t.run_bytes, t.record_size);
            lemma_nothing_left(t);
        } else {
            let run = t.runs[t.run];
            assert(is_sound_run(run, t.cluster, t.record_size));
            law_wrap_fits(run.lcn * t.cluster);
            law_wrap_fits(run.length * t.cluster);
            lemma_prefix(volume, t.runs, t.cluster, t.run + 1, t.runs.len() as int);
            let done = t.length - t.remaining;
            let table = table_of(volume, t);
            let upto = table_bytes(volume, t.runs, t.cluster, t.run + 1);
            assert forall|i: int| 0 <= i < n.run_bytes implies #[trigger] volume(n.pos + i)
                == table[done + i] by {
                assert(upto[done + i] == volume(n.pos + i));
            }
            assert(is_aligned(n, volume));
        }
    }
}

/// A run with something left in which nothing is read: the table is at its end.
proof fn lemma_nothing_left(t: TableView)
    requires
        1 <= t.record_size <= MAX_RECORD_SIZE,
        t.run_bytes >= t.record_size,
        t.remaining > 0,
        next_length(t) <= 0,
        t.entries.len() == record_count(t.length, t.record_size),
        t.length - t.remaining == t.frn * t.record_size,
        t.frn >= 0,
    ensures
        t.frn == t.entries.len(),
{
    let a = if CHUNK < t.run_bytes {
        CHUNK as int
    } else {
        t.run_bytes
    };
    let want = if a < t.remaining {
        a
    } else {
        t.remaining
    };
    vstd::arithmetic::div_mod::lemma_mod_bound(want, t.record_size);
    assert(want < t.record_size);
    lemma_all_filed(t);
}

/// Passing over runs with nothing to read keeps a table in order.
pub proof fn law_seeking_keeps_order(t: TableView, volume: VolumeBytes, sector: int)
    requires
        is_in_order(t, volume, sector),
    ensures
        is_in_order(sought(t), volume, sector),
    decreases t.runs.len() - t.run,
{
    if !(in_run(t) || t.remaining <= 0 || t.run >= t.runs.len()) {
        lemma_next_run_in_order(t, volume, sector);
        law_seeking_keeps_order(next_run(t), volume, sector);
    }
}

/// An answer in full keeps a table in order: the records that were asked for are filed
/// at their numbers.
pub proof fn law_answer_keeps_order(
    t: TableView,
    volume: VolumeBytes,
    sector: int,
    files: int,
    bytes: int,
)
    requires
        is_in_order(t, volume, sector),
        in_run(t),
        has_own_arrays(table_of(volume, t), t.record_size),
        has_own_tails(table_of(volume, t), t.record_size, sector),
    ensures
        ({
            let got = next_length(t);
            let es = chunk_entries(
                bytes_at(volume, t.pos, got),
                t.record_size,
                sector,
                usable_records(t, got),
            );
            is_in_order(taken(t, es, files, bytes, got), volume, sector)
        }),
{
    let got = next_length(t);
    let r = t.record_size;
    let buf = bytes_at(volume, t.pos, got);
    let n = usable_records(t, got);
    let es = chunk_entries(buf, r, sector, n);
    let u = taken(t, es, files, bytes, got);
    let table = table_of(volume, t);
    let done = t.length - t.remaining;
    // Whole records are asked for, and no more than are left.
    let a = if CHUNK < t.run_bytes {
        CHUNK as int
    } else {
        t.run_bytes
    };
    let want = if a < t.remaining {
        a
    } else {
        t.remaining
    };
    vstd::arithmetic::div_mod::lemma_mod_bound(want, r);
    vstd::arithmetic::div_mod::lemma_fundamental_div_mod(want, r);
    let m = want / r;
    assert(got == m * r) by (nonlinear_arith)
        requires
            got == want - want % r,
            want == r * m + want % r,
    ;
    vstd::arithmetic::div_mod::lemma_div_multiples_vanish(m, r);
    assert(got / r == m) by {
        assert(m * r == r * m) by (nonlinear_arith);
    }
    assert(m >= 1) by (nonlinear_arith)
        requires
            m * r > 0,
            r >= 1,
    ;
    if t.frn == t.entries.len() {
        // Everything is filed, so that not a whole record can be left.
        lemma_records_left(t);
    }
    assert(is_aligned(t, volume));
    lemma_room(t, m);
    assert(n == m);
    law_wrap_fits(t.pos + got);
    assert(lies_at(table, done, buf)) by {
        assert forall|i: int| 0 <= i < buf.len() implies #[trigger] buf[i] == table[done + i] by {
            assert(volume(t.pos + i) == table[done + i]);
        }
    }
    assert(es.len() == n) by {
        crate::mft::split::lemma_chunk_len(buf, r, sector, n);
    }
    assert forall|k: int| 0 <= k < u.frn implies #[trigger] u.entries[k] == entry_of(
        record_at(table, r, k),
        sector,
    ) by {
        if k < t.frn {
            assert(u.entries[k] == t.entries[k]);
        } else {
            let j = k - t.frn;
            assert(u.entries[k] == es[j]);
            assert(k * r == done + j * r && 0 <= j * r && j * r + r <= got) by (nonlinear_arith)
                requires
                    done == t.frn * r,
                    j == k - t.frn,
                    0 <= j < m,
                    got == m * r,
                    r >= 1,
            ;
            assert((k + 1) * r == k * r + r) by (nonlinear_arith);
            assert(has_own_array(table, k * r, r));
            lemma_own_array_in_part(table, done, buf, j * r, r);
            assert(tails_inside(table, k * r, r, sector));
            lemma_tails_in_part(table, done, buf, j * r, r, sector);
            assert((t.frn + 1) * r == t.frn * r + r) by (nonlinear_arith);
            assert(tails_inside(table, t.frn * r, r, sector));
            lemma_tails_in_part(table, done, buf, 0, r, sector);
            assert(n * r <= buf.len());
            law_records_stand_alone(buf, r, sector, n, j);
            assert(buf.subrange(j * r, j * r + r) =~= record_at(table, r, k)) by {
                assert forall|i: int| 0 <= i < r implies #[trigger] buf.subrange(
                    j * r,
                    j * r + r,
                )[i] == record_at(table, r, k)[i] by {
                    assert(buf[j * r + i] == table[done + (j * r + i)]);
                }
            }
        }
    }
    assert forall|i: int| u.frn <= i < u.entries.len() implies #[trigger] u.entries[i] is None by {
        assert(u.entries[i] == t.entries[i]);
    }
    assert(u.frn * r == t.frn * r + m * r) by (nonlinear_arith)
        requires
            u.frn == t.frn + m,
    ;
    assert(u.run_bytes % r == 0) by {
        vstd::arithmetic::div_mod::lemma_mod_multiples_vanish(-m, t.run_bytes, r);
        assert(r * (-m) + t.run_bytes == t.run_bytes - m * r) by (nonlinear_arith);
    }
    assert forall|i: int| 0 <= i < u.run_bytes implies #[trigger] volume(u.pos + i) == table[u.length
        - u.remaining + i] by {
        assert(volume(t.pos + (got + i)) == table[done + (got + i)]);
    }
    assert(is_aligned(u, volume));
    assert(is_reading(u));
}

/// Where everything is filed, nothing is left to read.
proof fn lemma_records_left(t: TableView)
    requires
        is_reading(t),
        t.entries.len() == record_count(t.length, t.record_size),
        t.length - t.remaining == t.frn * t.record_size,
        t.frn == t.entries.len(),
    ensures
        !in_run(t),
{
    let r = t.record_size;
    vstd::arithmetic::div_mod::lemma_fundamental_div_mod(t.length, r);
    assert(t.frn * r == r * t.frn) by (nonlinear_arith);
    assert(t.length <= 0 ==> t.frn * r == 0) by (nonlinear_arith)
        requires
            t.length <= 0 ==> t.frn == 0,
    ;
    assert(t.remaining < r);
    let a = if CHUNK < t.run_bytes {
        CHUNK as int
    } else {
        t.run_bytes
    };
    let want = if a < t.remaining {
        a
    } else {
        t.remaining
    };
    if want > 0 {
        vstd::arithmetic::div_mod::lemma_small_mod(want as nat, r as nat);
    }
}

/// As many records fit as are asked for.
proof fn lemma_room(t: TableView, m: int)
    requires
        1 <= t.record_size,
        t.length - t.remaining == t.frn * t.record_size,
        t.entries.len() == record_count(t.length, t.record_size),
        m >= 0,
        m * t.record_size <= t.remaining,
        t.remaining > 0,
        t.frn >= 0,
    ensures
        t.frn + m <= t.entries.len(),
{
    let r = t.record_size;
    let k = t.frn + m;
    assert(k * r == t.frn * r + m * r) by (nonlinear_arith)
        requires
            k == t.frn + m,
    ;
    assert(t.frn * r >= 0) by (nonlinear_arith)
        requires
            t.frn >= 0,
            r >= 1,
    ;
    assert(k * r <= t.length);
    vstd::arithmetic::div_mod::lemma_div_is_ordered(k * r, t.length, r);
    vstd::arithmetic::div_mod::lemma_div_multiples_vanish(k, r);
    assert(k * r == r * k) by (nonlinear_arith);
}

/// Once nothing is left to read, every record of the table is filed at its number.
pub proof fn law_table_is_read_whole(t: TableView, volume: VolumeBytes, sector: int)
    requires
        is_in_order(t, volume, sector),
        sought(t) == t,
        !in_run(t),
    ensures
        t.frn == t.entries.len(),
        forall|k: int|
            0 <= k < t.entries.len() ==> #[trigger] t.entries[k] == entry_of(
                record_at(table_of(volume, t), t.record_size, k),
                sector,
            ),
{
    if t.frn < t.entries.len() {
        assert(is_aligned(t, volume));
        if t.remaining <= 0 {
            assert(t.length > 0);
            lemma_all_filed(t);
        } else if t.run < t.runs.len() {
            lemma_run_differs(t);
        } else {
            assert(t.run_bytes >= t.remaining);
            lemma_at_least_one(t.run_bytes, t.record_size);
            lemma_nothing_left(t);
        }
    }
}

/// Seeking goes on to another run.
proof fn lemma_run_differs(t: TableView)
    requires
        !in_run(t),
        t.remaining > 0,
        t.run < t.runs.len(),
    ensures
        sought(t).run > t.run,
    decreases t.runs.len() - t.run,
{
    let n = next_run(t);
    assert(sought(t) == sought(n));
    if !(in_run(n) || n.remaining <= 0 || n.run >= n.runs.len()) {
        lemma_run_differs(n);
    }
}

} // verus!
