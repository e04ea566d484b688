//! Reading the Master File Table off a volume: what to read next, and where the
//! records that came back belong.

use crate::decimal::{digits, push_digits};
use crate::mft::fixups::{
    apply_fixups, first_tails_inside, fixed, has_header, lemma_inside_in_bounds, tails_inside,
};
use crate::mft::record::{EntryView, MftEntry};
use crate::mft::runs::{extract_mft_data_runs, record_runs, DataRun};
use crate::mft::tree::slots;
use crate::wrap::{wrap, wrapping_product, wrapping_sum};
use vstd::prelude::*;

verus! {

/// The most that is read at once, in bytes.
pub const CHUNK: i64 = 16_777_216;

/// The most records that a table may have.
pub const MAX_MFT_RECORDS: usize = 268_435_456;

/// The largest record, in bytes.
pub const MAX_RECORD_SIZE: usize = 65_536;

/// Whether records of that size can be read in sectors of that size: neither is empty,
/// and a record is whole sectors and not too large.
pub open spec fn is_sound_geometry(record_size: int, sector_size: int) -> bool {
    record_size != 0 && sector_size != 0 && record_size % sector_size == 0 && record_size
        <= MAX_RECORD_SIZE
}

/// What is said of a geometry that is not sound.
pub open spec fn geometry_error(record_size: nat, sector_size: nat) -> Seq<char> {
    "Unexpected NTFS geometry (record="@ + digits(record_size) + ", sector="@ + digits(sector_size)
        + ")"@
}

pub fn check_geometry(record_size: usize, sector_size: usize) -> (r: Result<(), String>)
    ensures
        r is Ok <==> is_sound_geometry(record_size as int, sector_size as int),
        r is Err ==> r->Err_0@ == geometry_error(record_size as nat, sector_size as nat),
{
    if record_size == 0 || sector_size == 0 || record_size % sector_size != 0 || record_size
        > MAX_RECORD_SIZE {
        return Err(geometry_message(record_size, sector_size));
    }
    Ok(())
}

pub(crate) fn geometry_message(record_size: usize, sector_size: usize) -> (r: String)
    ensures
        r@ == geometry_error(record_size as nat, sector_size as nat),
{
    let mut e = "Unexpected NTFS geometry (record=".to_owned();
    push_digits(&mut e, record_size as u64);
    e.append(", sector=");
    push_digits(&mut e, sector_size as u64);
    e.append(")");
    e
}

/// A stretch of a volume that is to be read.
#[derive(Copy, Clone, Debug, PartialEq, Eq, Structural)]
pub struct ReadRequest {
    pub pos: i64,
    pub len: usize,
}

/// A table that is being read.
pub struct TableReader {
    record_size: usize,
    cluster: i64,
    runs: Vec<DataRun>,
    run: usize,
    pos: i64,
    run_bytes: i64,
    length: i64,
    remaining: i64,
    entries: Vec<Option<MftEntry>>,
    frn: usize,
    files: i64,
    bytes: i64,
}

/// Where the reading of a table stands.
pub struct TableView {
    pub record_size: int,
    /// Bytes in a cluster.
    pub cluster: int,
    pub runs: Seq<DataRun>,
    /// The next run to be begun.
    pub run: int,
    /// Where on the volume the run under way goes on, and how much of it is left.
    pub pos: int,
    pub run_bytes: int,
    /// The length of the table, and how much of it is left.
    pub length: int,
    pub remaining: int,
    /// What every record describes, as far as it has been read.
    pub entries: Seq<Option<EntryView>>,
    /// The next record.
    pub frn: int,
    pub files: int,
    pub bytes: int,
}

impl View for TableReader {
    type V = TableView;

    closed spec fn view(&self) -> TableView {
        TableView {
            record_size: self.record_size as int,
            cluster: self.cluster as int,
            runs: self.runs@,
            run: self.run as int,
            pos: self.pos as int,
            run_bytes: self.run_bytes as int,
            length: self.length as int,
            remaining: self.remaining as int,
            entries: slots(self.entries@),
            frn: self.frn as int,
            files: self.files as int,
            bytes: self.bytes as int,
        }
    }
}

/// Whether nothing is filed beyond the records that were read, and the records
/// have a sound size.
pub open spec fn is_reading(t: TableView) -> bool {
    &&& 1 <= t.record_size <= MAX_RECORD_SIZE
    &&& 0 <= t.run <= t.runs.len()
    &&& 0 <= t.frn <= t.entries.len() <= MAX_MFT_RECORDS
    &&& t.remaining <= t.length
    &&& t.remaining == t.length || t.remaining >= 0
    &&& forall|i: int| t.frn <= i < t.entries.len() ==> #[trigger] t.entries[i] is None
}

/// How many whole records a table of `length` bytes has.
pub open spec fn record_count(length: int, record_size: int) -> int {
    if length <= 0 {
        0
    } else {
        length / record_size
    }
}

/// The table at the outset.
pub open spec fn unread_table(
    record_size: int,
    cluster: int,
    runs: Seq<DataRun>,
    length: int,
) -> TableView {
    TableView {
        record_size,
        cluster,
        runs,
        run: 0,
        pos: 0,
        run_bytes: 0,
        length,
        remaining: length,
        entries: Seq::new(record_count(length, record_size) as nat, |i: int| None),
        frn: 0,
        files: 0,
        bytes: 0,
    }
}

/// What is said of a table with too many records.
pub open spec fn too_many_records(n: nat) -> Seq<char> {
    "MFT reports "@ + digits(n) + " records \u{2014} implausibly large, using walker instead"@
}

/// How much is read next: whole records, as many as fit in a chunk, the run and
/// the table.
pub open spec fn next_length(t: TableView) -> int {
    let a = if CHUNK < t.run_bytes {
        CHUNK as int
    } else {
        t.run_bytes
    };
    let want = if a < t.remaining {
        a
    } else {
        t.remaining
    };
    want - want % t.record_size
}

/// Whether something is left to read of the run under way.
pub open spec fn in_run(t: TableView) -> bool {
    t.run_bytes > 0 && t.remaining > 0 && next_length(t) > 0
}

/// The table with its next run begun.
pub open spec fn next_run(t: TableView) -> TableView {
    TableView {
        run: t.run + 1,
        pos: wrap(t.runs[t.run].lcn * t.cluster),
        run_bytes: wrap(t.runs[t.run].length * t.cluster),
        ..t
    }
}

/// The table once runs with nothing to read are passed over.
pub open spec fn sought(t: TableView) -> TableView
    decreases t.runs.len() - t.run,
{
    if in_run(t) || t.remaining <= 0 || t.run >= t.runs.len() {
        t
    } else {
        sought(next_run(t))
    }
}

/// How many of the records in `got` bytes are filed.
pub open spec fn usable_records(t: TableView, got: int) -> int {
    let n = got / t.record_size;
    if n < t.entries.len() - t.frn {
        n
    } else {
        t.entries.len() - t.frn
    }
}

/// The table once `got` bytes came back, in which `es` are the records. Nothing at
/// all ends the run under way.
pub open spec fn taken(
    t: TableView,
    es: Seq<Option<EntryView>>,
    files: int,
    bytes: int,
    got: int,
) -> TableView {
    if got == 0 {
        TableView { run_bytes: 0, ..t }
    } else {
        TableView {
            entries: t.entries.take(t.frn) + es + t.entries.skip(t.frn + es.len()),
            frn: t.frn + es.len(),
            files: wrap(t.files + files),
            bytes: wrap(t.bytes + bytes),
            pos: wrap(t.pos + got),
            run_bytes: t.run_bytes - got,
            remaining: t.remaining - got,
            ..t
        }
    }
}

/// The error that opening a table gives, if any. A first record with a sector tail that
/// it has no room for cannot be repaired, so that its geometry is refused too.
pub open spec fn open_error(
    record0: Seq<u8>,
    record_size: int,
    sector_size: int,
    length: int,
) -> Option<Seq<char>> {
    if !is_sound_geometry(record_size, sector_size) || !tails_inside(
        record0,
        0,
        record_size,
        sector_size,
    ) {
        Some(geometry_error(record_size as nat, sector_size as nat))
    } else if record_runs(fixed(record0, 0, record_size, sector_size)).len() == 0 {
        Some("Could not parse MFT data runs from record 0."@)
    } else if record_count(length, record_size) > MAX_MFT_RECORDS {
        Some(too_many_records(record_count(length, record_size) as nat))
    } else {
        None
    }
}

impl TableReader {
    /// Opens the table that `record0`, its first record as it came off the volume,
    /// describes. `length` is the table's length in bytes.
    pub fn open(
        record0: &mut [u8],
        sector_size: usize,
        bytes_per_cluster: i64,
        length: i64,
    ) -> (r: Result<TableReader, String>)
        ensures
            ({
                let size = old(record0)@.len() as int;
                let e = open_error(old(record0)@, size, sector_size as int, length as int);
                &&& r is Ok <==> e is None
                &&& r is Err ==> r->Err_0@ == e->0
                &&& r is Ok ==> is_reading(r->Ok_0@) && r->Ok_0@ == unread_table(
                    size,
                    bytes_per_cluster as int,
                    record_runs(fixed(old(record0)@, 0, size, sector_size as int)),
                    length as int,
                )
            }),
    {
        let record_size: usize = record0.len();
        if let Err(e) = check_geometry(record_size, sector_size) {
            return Err(e);
        }
        if !first_tails_inside(record0, record_size, sector_size) {
            return Err(geometry_message(record_size, sector_size));
        }
        proof {
            if has_header(record0@, 0) {
                lemma_inside_in_bounds(record0@, 0, record_size as int, sector_size as int);
            }
        }
        apply_fixups(record0, 0, record_size, sector_size);
        let runs = extract_mft_data_runs(record0);
        if runs.len() == 0 {
            return Err("Could not parse MFT data runs from record 0.".to_owned());
        }
        let n: u64 = if length <= 0 {
            0
        } else {
            length as u64 / record_size as u64
        };
        if n > MAX_MFT_RECORDS as u64 {
            let mut e = "MFT reports ".to_owned();
            push_digits(&mut e, n);
            e.append(" records \u{2014} implausibly large, using walker instead");
            return Err(e);
        }
        let mut entries: Vec<Option<MftEntry>> = Vec::new();
        while entries.len() < n as usize
            invariant
                n <= MAX_MFT_RECORDS,
                entries.len() <= n,
                forall|i: int| 0 <= i < entries.len() ==> #[trigger] entries@[i] is None,
            decreases n - entries.len(),
        {
            entries.push(None);
        }
        assert(slots(entries@) =~= Seq::new(n as nat, |i: int| None));
        Ok(
            TableReader {
                record_size,
                cluster: bytes_per_cluster,
                runs,
                run: 0,
                pos: 0,
                run_bytes: 0,
                length,
                remaining: length,
                entries,
                frn: 0,
                files: 0,
                bytes: 0,
            },
        )
    }

    /// Where on the volume to read next, and how many bytes: whole records, never
    /// more than a chunk or what is left. `None` once the table is read.
    pub fn next(&mut self) -> (r: Option<ReadRequest>)
        requires
            is_reading(old(self)@),
        ensures
            is_reading(final(self)@),
            final(self)@ == sought(old(self)@),
            r is Some <==> in_run(final(self)@),
            r is Some ==> {
                &&& r->0.pos == final(self)@.pos
                &&& r->0.len == next_length(final(self)@)
                &&& 0 < r->0.len <= CHUNK
                &&& r->0.len % final(self)@.record_size as usize == 0
                &&& r->0.len <= final(self)@.remaining
            },
    {
        let ghost goal = sought(self@);
        loop
            invariant
                is_reading(self@),
                goal == sought(old(self)@),
                goal == sought(self@),
            decreases self@.runs.len() - self@.run,
        {
            if self.run_bytes > 0 && self.remaining > 0 {
                let mut want: i64 = CHUNK;
                if self.run_bytes <= want {
                    want = self.run_bytes;
                }
                if self.remaining <= want {
                    want = self.remaining;
                }
                let size: i64 = self.record_size as i64;
                let to_read: i64 = want - want % size;
                if to_read > 0 {
                    assert(to_read % size == 0) by (nonlinear_arith)
                        requires
                            to_read == want - want % size,
                            size > 0,
                            want > 0,
                    ;
                    return Some(ReadRequest { pos: self.pos, len: to_read as usize });
                }
            }
            if self.remaining <= 0 || self.run >= self.runs.len() {
                return None;
            }
            let next: DataRun = self.runs[self.run];
            self.pos = wrapping_product(next.lcn, self.cluster);
            self.run_bytes = wrapping_product(next.length, self.cluster);
            self.run += 1;
        }
    }

    /// How many of the records in `got` bytes are to be parsed.
    pub fn usable(&self, got: usize) -> (r: usize)
        requires
            is_reading(self@),
        ensures
            r == usable_records(self@, got as int),
    {
        let n: usize = got / self.record_size;
        let room: usize = self.entries.len() - self.frn;
        if n < room {
            n
        } else {
            room
        }
    }

    /// Files the records that `got` bytes held: what they describe, how many of
    /// them are files, and what those amount to.
    pub fn take(&mut self, parsed: Vec<Option<MftEntry>>, files: i64, bytes: i64, got: usize)
        requires
            is_reading(old(self)@),
            in_run(old(self)@),
            got <= next_length(old(self)@),
            got > 0 ==> parsed.len() == usable_records(old(self)@, got as int),
        ensures
            is_reading(final(self)@),
            final(self)@ == taken(
                old(self)@,
                slots(parsed@),
                files as int,
                bytes as int,
                got as int,
            ),
    {
        if got == 0 {
            self.run_bytes = 0;
            return;
        }
        let ghost t0 = self@;
        let ghost es = slots(parsed@);
        let start: usize = self.frn;
        let count: usize = parsed.len();
        proof {
            vstd::arithmetic::div_mod::lemma_div_pos_is_pos(got as int, t0.record_size);
            assert(t0.entries.take(t0.frn) + es.take(0) + t0.entries.skip(t0.frn) =~= t0.entries);
        }
        for e in it: parsed
            invariant
                it.seq() == parsed@,
                count == parsed.len(),
                es == slots(parsed@),
                start + count <= self.entries.len(),
                start == t0.frn,
                self.frn == start + it.index(),
                self@ == (TableView {
                    frn: self.frn as int,
                    entries: self@.entries,
                    ..t0
                }),
                self@.entries.len() == t0.entries.len(),
                self@.entries == t0.entries.take(t0.frn) + es.take(it.index() as int)
                    + t0.entries.skip(t0.frn + it.index()),
        {
            let ghost k = it.index() as int;
            assert(es[k] == match parsed@[k] {
                Some(x) => Some(x@),
                None => None,
            });
            let at: usize = self.frn;
            let ghost before = self@.entries;
            assert(e == parsed@[k]);
            self.entries.set(at, e);
            self.frn = at + 1;
            assert(self@.entries =~= before.update(at as int, es[k]));
            assert(self@.entries =~= t0.entries.take(t0.frn) + es.take(k + 1) + t0.entries.skip(
                t0.frn + k + 1,
            ));
        }
        assert(es.take(count as int) =~= es);
        self.files = wrapping_sum(self.files, files);
        self.bytes = wrapping_sum(self.bytes, bytes);
        self.pos = wrapping_sum(self.pos, got as i64);
        self.run_bytes = self.run_bytes - got as i64;
        self.remaining = self.remaining - got as i64;
    }

    /// Everything that was filed.
    pub fn into_entries(self) -> (r: Vec<Option<MftEntry>>)
        ensures
            slots(r@) == self@.entries,
    {
        self.entries
    }

    /// How many files were found so far.
    pub fn files(&self) -> (r: i64)
        ensures
            r == self@.files,
    {
        self.files
    }

    /// What the files found so far amount to in bytes.
    pub fn bytes(&self) -> (r: i64)
        ensures
            r == self@.bytes,
    {
        self.bytes
    }

    /// How many bytes of the table were read so far.
    pub fn bytes_read(&self) -> (r: i64)
        requires
            is_reading(self@),
        ensures
            r == self@.length - self@.remaining,
    {
        self.length - self.remaining
    }
}

/// Every answer brings the end of the reading closer: it either leaves less of the
/// table to read or ends the run under way.
pub proof fn law_reading_goes_on(
    t: TableView,
    es: Seq<Option<EntryView>>,
    files: int,
    bytes: int,
    got: int,
)
    requires
        in_run(t),
        0 <= got <= next_length(t),
    ensures
        taken(t, es, files, bytes, got).remaining < t.remaining || !in_run(
            taken(t, es, files, bytes, got),
        ),
        taken(t, es, files, bytes, got).remaining <= t.remaining,
        taken(t, es, files, bytes, got).run == t.run,
{
}

/// A table opens unless something is wrong with it: a record of nothing or of more than
/// 65536 bytes, sectors of nothing or that do not make up records, a first record without
/// runs, or more than 268435456 records.
pub proof fn law_good_tables_open(record0: Seq<u8>, sector_size: int, length: int)
    requires
        0 <= sector_size,
    ensures
        ({
            let size = record0.len() as int;
            let runs = record_runs(fixed(record0, 0, size, sector_size));
            open_error(record0, size, sector_size, length) is None <==> {
                &&& 0 < size <= 65536
                &&& sector_size > 0
                &&& size % sector_size == 0
                &&& tails_inside(record0, 0, size, sector_size)
                &&& runs.len() > 0
                &&& length <= 0 || length / size <= 268435456
            }
        }),
{
}

} // verus!
