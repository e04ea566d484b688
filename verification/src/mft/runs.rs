//! Data runs: where on the volume the clusters of a non-resident attribute lie.

use crate::bytes::{
    dword, law_numbers_are_little_endian, law_numbers_by_place, le, le_signed, lemma_le_bound, pow256,
    read_signed_le, signed_place_value, u16_le, u32_le, word,
};
use crate::wrap::{law_wrap_fits, wrap, wrapping_sum};
use vstd::prelude::*;

verus! {

/// `length` clusters from cluster `lcn` on.
#[derive(Copy, Clone, Debug, PartialEq, Eq, Structural)]
pub struct DataRun {
    pub lcn: i64,
    pub length: i64,
}

/// The runs encoded at `p..end`, where `prev` is the cluster of the run before.
///
/// The low nibble of a header byte is the width of the length field, the high
/// nibble that of the offset field; the offset is relative to the run before. A
/// run without an offset is sparse and stands nowhere. Decoding ends at a zero
/// header, at a field wider than eight bytes or empty, and where a field would
/// pass `end`.
pub open spec fn runs_from(b: Seq<u8>, p: int, end: int, prev: int) -> Seq<DataRun>
    decreases end - p,
{
    if p >= end {
        Seq::empty()
    } else {
        let n = (b[p] % 16) as int;
        let m = (b[p] / 16) as int;
        if b[p] == 0 || n == 0 || n > 8 || p + 1 + n > end {
            Seq::empty()
        } else if m == 0 {
            runs_from(b, p + 1 + n, end, prev)
        } else if m > 8 || p + 1 + n + m > end {
            Seq::empty()
        } else {
            let lcn = wrap(prev + le_signed(b, p + 1 + n, m as nat));
            let length = le_signed(b, p + 1, n as nat);
            seq![DataRun { lcn: lcn as i64, length: length as i64 }] + runs_from(
                b,
                p + 1 + n + m,
                end,
                lcn,
            )
        }
    }
}

/// Decodes the runs in `buf[start..end]`.
pub fn parse_data_runs(buf: &[u8], start: usize, end: usize) -> (runs: Vec<DataRun>)
    requires
        start < end ==> end <= buf.len(),
    ensures
        runs@ == runs_from(buf@, start as int, end as int, 0),
{
    let mut runs: Vec<DataRun> = Vec::new();
    let mut prev: i64 = 0;
    let mut p: usize = start;
    let ghost all = runs_from(buf@, start as int, end as int, 0);
    assert(runs@ + all =~= all);
    while p < end
        invariant_except_break
            runs@ + runs_from(buf@, p as int, end as int, prev as int) == all,
        invariant
            p < end ==> end <= buf.len(),
        ensures
            runs@ == all,
        decreases end - p,
    {
        let ghost rest = runs_from(buf@, p as int, end as int, prev as int);
        let header: u8 = buf[p];
        let n: usize = (header % 16) as usize;
        let m: usize = (header / 16) as usize;
        if header == 0 || n == 0 || n > 8 || n > end - p - 1 {
            assert(runs@ + rest =~= runs@);
            break;
        }
        let length: i64 = read_signed_le(buf, p + 1, n);
        let q: usize = p + 1 + n;
        if m == 0 {
            p = q;
            continue;
        }
        if m > 8 || m > end - q {
            assert(runs@ + rest =~= runs@);
            break;
        }
        let offset: i64 = read_signed_le(buf, q, m);
        let lcn: i64 = wrapping_sum(prev, offset);
        let run = DataRun { lcn, length };
        let ghost before = runs@;
        runs.push(run);
        prev = lcn;
        p = q + m;
        assert(before + (seq![run] + runs_from(buf@, p as int, end as int, prev as int))
            =~= runs@ + runs_from(buf@, p as int, end as int, prev as int));
    }
    proof {
        if p >= end {
            assert(runs@ + Seq::<DataRun>::empty() =~= runs@);
        }
    }
    runs
}

/// Whether the attribute at `p` is a non-resident unnamed `$DATA` with room for
/// its run-list offset.
pub open spec fn is_unnamed_data(b: Seq<u8>, p: int) -> bool {
    le(b, p, 4) == 0x80 && b[p + 8] == 1 && b[p + 9] == 0 && p + 34 <= b.len()
}

/// Whether a whole attribute stands at `p` of the record `b`.
pub open spec fn run_attr_ok(b: Seq<u8>, p: int) -> bool {
    &&& p + 10 <= b.len()
    &&& le(b, p, 4) != 0xFFFF_FFFF
    &&& le(b, p + 4, 4) > 0
    &&& p + le(b, p + 4, 4) <= b.len()
}

/// The runs of the first non-resident unnamed `$DATA` attribute from `p` on.
pub open spec fn data_runs_from(b: Seq<u8>, p: int) -> Seq<DataRun>
    decreases b.len() - p,
{
    if !run_attr_ok(b, p) {
        Seq::empty()
    } else if is_unnamed_data(b, p) {
        runs_from(b, p + le(b, p + 32, 2), p + le(b, p + 4, 4), 0)
    } else {
        data_runs_from(b, p + le(b, p + 4, 4))
    }
}

/// The runs of a whole record: none in a record too short for its header.
pub open spec fn record_runs(b: Seq<u8>) -> Seq<DataRun> {
    if b.len() < 42 {
        Seq::empty()
    } else {
        data_runs_from(b, le(b, 20, 2) as int)
    }
}

/// Finds where the Master File Table itself lies, from its record 0.
pub fn extract_mft_data_runs(rec: &[u8]) -> (runs: Vec<DataRun>)
    ensures
        runs@ == record_runs(rec@),
{
    let len: usize = rec.len();
    if len < 42 {
        return Vec::new();
    }
    let mut p: usize = u16_le(rec, 20) as usize;
    while p <= len && len - p >= 10
        invariant
            len == rec.len(),
            record_runs(rec@) == data_runs_from(rec@, p as int),
        decreases len - p,
    {
        let kind: u32 = u32_le(rec, p);
        if kind == 0xFFFF_FFFF {
            return Vec::new();
        }
        let alen: usize = u32_le(rec, p + 4) as usize;
        if alen == 0 || alen > len - p {
            return Vec::new();
        }
        if kind == 0x80 && rec[p + 8] == 1 && rec[p + 9] == 0 && len - p >= 34 {
            let run_offset: usize = u16_le(rec, p + 32) as usize;
            if run_offset >= alen {
                return Vec::new();
            }
            return parse_data_runs(rec, p + run_offset, p + alen);
        }
        p += alen;
    }
    Vec::new()
}

// ---------------------------------------------------------------------- laws

/// A run says where it lies by how far it is from the one before. Its first byte gives the
/// widths of two fields, its length in the low half and that distance in the high half, and
/// the fields follow in that order. A run without a distance is none, and a zero ends the
/// list.
pub proof fn law_runs_are_relative(b: Seq<u8>, p: int, end: int, prev: int)
    requires
        p < end,
    ensures
        ({
            let n = b[p] % 16;
            let m = b[p] / 16;
            let all = runs_from(b, p, end, prev);
            &&& b[p] == 0 ==> all.len() == 0
            &&& 1 <= n <= 8 && m == 0 && p + 1 + n <= end ==> all == runs_from(
                b,
                p + 1 + n,
                end,
                prev,
            )
            &&& 1 <= n <= 8 && 1 <= m <= 8 && p + 1 + n + m <= end ==> {
                let to = prev + signed_place_value(b, p + 1 + n, m as nat);
                &&& all.len() > 0
                &&& i64::MIN <= to <= i64::MAX ==> all[0].lcn == to
                &&& all[0].length == signed_place_value(b, p + 1, n as nat)
                &&& i64::MIN <= to <= i64::MAX ==> all.skip(1) == runs_from(
                    b,
                    p + 1 + n + m,
                    end,
                    to,
                )
            }
        }),
{
    let n = b[p] % 16;
    let m = b[p] / 16;
    if 1 <= n <= 8 && 1 <= m <= 8 && p + 1 + n + m <= end {
        law_numbers_by_place(b, p + 1, n as nat);
        law_numbers_by_place(b, p + 1 + n, m as nat);
        lemma_signed_fits(b, p + 1, n as nat);
        let to = prev + le_signed(b, p + 1 + n, m as nat);
        let lcn = wrap(to);
        if i64::MIN <= to <= i64::MAX {
            law_wrap_fits(to);
        }
        let rest = runs_from(b, p + 1 + n + m, end, lcn);
        let all = runs_from(b, p, end, prev);
        assert(all.skip(1) =~= rest);
    }
}

/// Whether an attribute that the list of runs may be in stands at `p`.
pub open spec fn is_whole_attribute(b: Seq<u8>, p: int) -> bool {
    &&& p + 10 <= b.len()
    &&& dword(b, p) != 0xFFFF_FFFF
    &&& dword(b, p + 4) > 0
    &&& p + dword(b, p + 4) <= b.len()
}

/// Whether the attribute at `p` is the unnamed stream of the table, which lies elsewhere on
/// the volume.
pub open spec fn is_table_stream(b: Seq<u8>, p: int) -> bool {
    dword(b, p) == 0x80 && b[p + 8] == 1 && b[p + 9] == 0 && p + 34 <= b.len()
}

/// The runs of the table are those of the first unnamed stream of its first record that
/// lies elsewhere: they stand at the offset in the two bytes at 32, up to the end of the
/// attribute. `at` are the places of the attributes up to that one, each of which has its
/// length in the four bytes at 4; the header has that of the first at 20.
pub proof fn law_runs_of_the_table(b: Seq<u8>, at: Seq<int>)
    requires
        b.len() >= 42,
        at.len() > 0,
        at[0] == word(b, 20),
        forall|i: int|
            0 < i < at.len() ==> #[trigger] at[i] == at[i - 1] + dword(b, at[i - 1] + 4),
        forall|i: int| 0 <= i < at.len() ==> is_whole_attribute(b, #[trigger] at[i]),
        forall|i: int| 0 <= i < at.len() - 1 ==> !is_table_stream(b, #[trigger] at[i]),
        is_table_stream(b, at.last()),
    ensures
        record_runs(b) == runs_from(
            b,
            at.last() + word(b, at.last() + 32),
            at.last() + dword(b, at.last() + 4),
            0,
        ),
{
    law_numbers_are_little_endian(b, 20);
    lemma_runs_at(b, at, 0);
}

proof fn lemma_runs_at(b: Seq<u8>, at: Seq<int>, i: int)
    requires
        0 <= i < at.len(),
        forall|i: int|
            0 < i < at.len() ==> #[trigger] at[i] == at[i - 1] + dword(b, at[i - 1] + 4),
        forall|i: int| 0 <= i < at.len() ==> is_whole_attribute(b, #[trigger] at[i]),
        forall|i: int| 0 <= i < at.len() - 1 ==> !is_table_stream(b, #[trigger] at[i]),
        is_table_stream(b, at.last()),
    ensures
        data_runs_from(b, at[i]) == runs_from(
            b,
            at.last() + word(b, at.last() + 32),
            at.last() + dword(b, at.last() + 4),
            0,
        ),
    decreases at.len() - i,
{
    let p = at[i];
    law_numbers_are_little_endian(b, p);
    law_numbers_are_little_endian(b, p + 4);
    law_numbers_are_little_endian(b, p + 32);
    assert(is_whole_attribute(b, at[i]));
    if i < at.len() - 1 {
        assert(!is_table_stream(b, at[i]));
        assert(at[i + 1] == p + dword(b, p + 4));
        lemma_runs_at(b, at, i + 1);
    }
}

proof fn lemma_signed_fits(b: Seq<u8>, o: int, n: nat)
    requires
        1 <= n <= 8,
    ensures
        i64::MIN <= le_signed(b, o, n) <= i64::MAX,
{
    lemma_le_bound(b, o, n);
    reveal_with_fuel(pow256, 9);
    assert(n == 1 || n == 2 || n == 3 || n == 4 || n == 5 || n == 6 || n == 7 || n == 8);
}

} // verus!
