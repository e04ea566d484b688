//! Update-sequence fixups: the last two bytes of every sector of a record are kept
//! in an array in its header, and have to be put back before the record is read.

use crate::bytes::{law_numbers_are_little_endian, le, u16_le, word};
use crate::mft::record::is_file_record;
use vstd::prelude::*;

verus! {

/// Where the update-sequence array of the record at `rec` stands.
pub open spec fn usa_pos(b: Seq<u8>, rec: int) -> int {
    rec + le(b, rec + 4, 2)
}

/// How many entries it has, the sequence number in front among them.
pub open spec fn usa_count(b: Seq<u8>, rec: int) -> nat {
    le(b, rec + 6, 2)
}

/// Whether a record header stands at `rec`.
pub open spec fn has_header(b: Seq<u8>, rec: int) -> bool {
    rec + 8 <= b.len() && is_file_record(b, rec)
}

/// Whether sector `i` (from 1) lies in the record and its saved tail in the buffer.
pub open spec fn fixup_applies(b: Seq<u8>, rec: int, size: int, sector: int, i: int) -> bool {
    i * sector <= size && usa_pos(b, rec) + 2 * i + 2 <= b.len()
}

/// Every sector tail that is to be written lies in the buffer.
pub open spec fn fixups_in_bounds(b: Seq<u8>, rec: int, size: int, sector: int) -> bool {
    forall|i: int|
        1 <= i < usa_count(b, rec) && #[trigger] fixup_applies(b, rec, size, sector, i) ==> 2 <= rec
            + i * sector <= b.len()
}

/// Whether every sector tail of the record at `rec` that is to be put back lies in
/// that record. It does, but for the first of sectors of a single byte: there is no
/// room for the two bytes of its tail.
pub open spec fn tails_inside(b: Seq<u8>, rec: int, size: int, sector: int) -> bool {
    sector >= 2 || (sector == 1 && !(has_header(b, rec) && usa_count(b, rec) >= 2 && fixup_applies(
        b,
        rec,
        size,
        1,
        1,
    )))
}

/// Tails that lie in their record lie in a buffer that holds the record.
pub proof fn lemma_inside_in_bounds(b: Seq<u8>, rec: int, size: int, sector: int)
    requires
        0 <= rec,
        rec + size <= b.len(),
        sector >= 1,
        has_header(b, rec),
        rec >= 1 || tails_inside(b, rec, size, sector),
    ensures
        fixups_in_bounds(b, rec, size, sector),
{
    assert forall|i: int|
        1 <= i < usa_count(b, rec) && #[trigger] fixup_applies(b, rec, size, sector, i) implies 2 <= rec
        + i * sector <= b.len() by {
        assert(i * sector >= i && i * sector >= sector) by (nonlinear_arith)
            requires
                i >= 1,
                sector >= 1,
        ;
        if sector == 1 {
            assert(fixup_applies(b, rec, size, 1, 1));
        }
    }
}

/// A record of single-byte sectors with no tail to put back stays as it is.
pub proof fn lemma_nothing_to_restore(b: Seq<u8>, rec: int, size: int)
    requires
        tails_inside(b, rec, size, 1),
    ensures
        fixed(b, rec, size, 1) == b,
{
    if has_header(b, rec) && usa_count(b, rec) >= 2 {
        lemma_fixups_stop(b, rec, size, 1, 1, usa_count(b, rec) as int);
    }
}

/// Tells whether the sector tails of the first record of `buf` lie in that record.
pub fn first_tails_inside(buf: &[u8], rec_size: usize, sector_size: usize) -> (r: bool)
    ensures
        r == tails_inside(buf@, 0, rec_size as int, sector_size as int),
{
    if sector_size != 1 {
        return sector_size >= 2;
    }
    if buf.len() < 8 || !(buf[0] == 0x46 && buf[1] == 0x49 && buf[2] == 0x4C && buf[3] == 0x45) {
        return true;
    }
    let usa_offset: usize = u16_le(buf, 4) as usize;
    let count: usize = u16_le(buf, 6) as usize;
    count < 2 || rec_size < 1 || usa_offset > buf.len() - 4
}

/// The buffer `b` after the tails of the sectors below `n` were put back, in order.
pub open spec fn fixed_upto(b: Seq<u8>, rec: int, size: int, sector: int, n: int) -> Seq<u8>
    decreases n,
{
    if n <= 1 {
        b
    } else {
        let prev = fixed_upto(b, rec, size, sector, n - 1);
        let src = usa_pos(b, rec) + 2 * (n - 1);
        let end = rec + (n - 1) * sector;
        if fixup_applies(b, rec, size, sector, n - 1) {
            let one = prev.update(end - 2, prev[src]);
            one.update(end - 1, one[src + 1])
        } else {
            prev
        }
    }
}

/// The buffer with the record at `rec` repaired; untouched where there is none.
pub open spec fn fixed(b: Seq<u8>, rec: int, size: int, sector: int) -> Seq<u8> {
    if has_header(b, rec) {
        fixed_upto(b, rec, size, sector, usa_count(b, rec) as int)
    } else {
        b
    }
}

pub proof fn lemma_fixed_len(b: Seq<u8>, rec: int, size: int, sector: int, n: int)
    requires
        fixups_in_bounds(b, rec, size, sector),
        n <= usa_count(b, rec),
    ensures
        fixed_upto(b, rec, size, sector, n).len() == b.len(),
    decreases n,
{
    if n > 1 {
        lemma_fixed_len(b, rec, size, sector, n - 1);
    }
}

/// Once a fixup does not apply, no later one does.
proof fn lemma_fixups_stop(b: Seq<u8>, rec: int, size: int, sector: int, i: int, n: int)
    requires
        1 <= i <= n,
        sector >= 0,
        !fixup_applies(b, rec, size, sector, i),
    ensures
        fixed_upto(b, rec, size, sector, n) == fixed_upto(b, rec, size, sector, i),
    decreases n,
{
    if n > i {
        lemma_fixups_stop(b, rec, size, sector, i, n - 1);
        assert(i * sector <= (n - 1) * sector) by (nonlinear_arith)
            requires
                i <= n - 1,
                sector >= 0,
        ;
        assert(!fixup_applies(b, rec, size, sector, n - 1));
    }
}

/// Puts the sector tails of the record at `rec_off` back in place.
pub fn apply_fixups(buf: &mut [u8], rec_off: usize, rec_size: usize, sector_size: usize)
    requires
        has_header(old(buf)@, rec_off as int) ==> (sector_size >= 2 && rec_off + rec_size
            <= old(buf)@.len()) || fixups_in_bounds(
            old(buf)@,
            rec_off as int,
            rec_size as int,
            sector_size as int,
        ),
    ensures
        final(buf)@ == fixed(
            old(buf)@,
            rec_off as int,
            rec_size as int,
            sector_size as int,
        ),
{
    let ghost b0 = buf@;
    let ghost (rec, size, sector) = (rec_off as int, rec_size as int, sector_size as int);
    if buf.len() < 8 || rec_off > buf.len() - 8 {
        return;
    }
    if !(buf[rec_off] == 0x46 && buf[rec_off + 1] == 0x49 && buf[rec_off + 2] == 0x4C
        && buf[rec_off + 3] == 0x45) {
        return;
    }
    proof {
        if sector_size >= 2 && rec_off + rec_size <= buf@.len() {
            lemma_inside_in_bounds(b0, rec, size, sector);
        }
    }
    let usa_offset: usize = u16_le(buf, rec_off + 4) as usize;
    let count: usize = u16_le(buf, rec_off + 6) as usize;
    let len: usize = buf.len();
    // Room in the buffer behind the start of the array.
    if usa_offset > len - rec_off {
        proof {
            if count >= 1 {
                lemma_fixups_stop(b0, rec, size, sector, 1, count as int);
            }
        }
        return;
    }
    let room: usize = len - rec_off - usa_offset;
    let mut i: usize = 1;
    let mut done: usize = 0;
    while i < count
        invariant_except_break
            1 <= i,
            i <= count || i == 1,
            done == (i - 1) * sector_size,
            done <= rec_size,
            buf@ == fixed_upto(b0, rec, size, sector, i as int),
        invariant
            has_header(b0, rec),
            count == usa_count(b0, rec),
            count <= 0xFFFF,
            fixups_in_bounds(b0, rec, size, sector),
            rec == rec_off,
            size == rec_size,
            sector == sector_size,
            rec_off + usa_offset == usa_pos(b0, rec),
            room == b0.len() - usa_pos(b0, rec),
            b0.len() == len,
        ensures
            buf@ == fixed_upto(b0, rec, size, sector, count as int),
        decreases count - i,
    {
        proof {
            lemma_fixed_len(b0, rec, size, sector, i as int);
            assert(i * sector == (i - 1) * sector + sector) by (nonlinear_arith);
        }
        if sector_size > rec_size - done || room < 2 || room - 2 < 2 * i {
            proof {
                assert(!fixup_applies(b0, rec, size, sector, i as int));
                lemma_fixups_stop(b0, rec, size, sector, i as int, count as int);
            }
            break;
        }
        assert(fixup_applies(b0, rec, size, sector, i as int));
        done += sector_size;
        let end: usize = rec_off + done;
        let src: usize = rec_off + usa_offset + 2 * i;
        let first: u8 = buf[src];
        buf[end - 2] = first;
        let second: u8 = buf[src + 1];
        buf[end - 1] = second;
        i += 1;
    }
}

/// Whether byte `k` is one of the two tail bytes of a sector below `n` that is
/// put back.
pub open spec fn is_restored(b: Seq<u8>, rec: int, size: int, sector: int, n: int, k: int) -> bool {
    exists|i: int|
        1 <= i < n && #[trigger] fixup_applies(b, rec, size, sector, i) && rec + i * sector - 2 <= k
            < rec + i * sector
}

/// Whether none of the bytes from `from` up to `to` is a sector tail that is put back.
pub open spec fn clear_of_tails(
    b: Seq<u8>,
    rec: int,
    size: int,
    sector: int,
    from: int,
    to: int,
) -> bool {
    forall|k: int|
        from <= k < to ==> !(#[trigger] is_restored(
            b,
            rec,
            size,
            sector,
            usa_count(b, rec) as int,
            k,
        ))
}

/// Whether the update-sequence array overlaps no sector tail, and no two tails
/// overlap.
pub open spec fn array_clear_of_tails(b: Seq<u8>, rec: int, size: int, sector: int) -> bool {
    (sector >= 2 || usa_count(b, rec) <= 2) && clear_of_tails(
        b,
        rec,
        size,
        sector,
        usa_pos(b, rec),
        usa_pos(b, rec) + 2 * usa_count(b, rec),
    )
}

/// In a record whose array does not overlap a sector tail, every sector in the
/// record gets back the two bytes that the array saved for it, and no other byte
/// of the buffer changes.
pub proof fn law_fixups_restore_tails(b: Seq<u8>, rec: int, size: int, sector: int)
    requires
        0 <= rec,
        has_header(b, rec),
        fixups_in_bounds(b, rec, size, sector),
        array_clear_of_tails(b, rec, size, sector),
    ensures
        fixed(b, rec, size, sector).len() == b.len(),
        forall|i: int|
            1 <= i < usa_count(b, rec) && #[trigger] fixup_applies(b, rec, size, sector, i) ==> {
                &&& fixed(b, rec, size, sector)[rec + i * sector - 2] == b[usa_pos(b, rec) + 2 * i]
                &&& fixed(b, rec, size, sector)[rec + i * sector - 1] == b[usa_pos(b, rec) + 2 * i
                    + 1]
            },
        forall|k: int|
            0 <= k < b.len() && !is_restored(b, rec, size, sector, usa_count(b, rec) as int, k)
                ==> #[trigger] fixed(b, rec, size, sector)[k] == b[k],
{
    lemma_restored(b, rec, size, sector, usa_count(b, rec) as int);
}

proof fn lemma_restored_later(b: Seq<u8>, rec: int, size: int, sector: int, n: int, k: int)
    requires
        n <= usa_count(b, rec),
        !is_restored(b, rec, size, sector, usa_count(b, rec) as int, k),
    ensures
        !is_restored(b, rec, size, sector, n, k),
{
    if is_restored(b, rec, size, sector, n, k) {
        let i = choose|i: int|
            1 <= i < n && #[trigger] fixup_applies(b, rec, size, sector, i) && rec + i * sector - 2
                <= k < rec + i * sector;
        assert(1 <= i < usa_count(b, rec) && fixup_applies(b, rec, size, sector, i));
    }
}

proof fn lemma_restored(b: Seq<u8>, rec: int, size: int, sector: int, n: int)
    requires
        0 <= rec,
        has_header(b, rec),
        fixups_in_bounds(b, rec, size, sector),
        array_clear_of_tails(b, rec, size, sector),
        n <= usa_count(b, rec),
    ensures
        fixed_upto(b, rec, size, sector, n).len() == b.len(),
        forall|i: int|
            1 <= i < n && #[trigger] fixup_applies(b, rec, size, sector, i) ==> {
                &&& fixed_upto(b, rec, size, sector, n)[rec + i * sector - 2] == b[usa_pos(b, rec)
                    + 2 * i]
                &&& fixed_upto(b, rec, size, sector, n)[rec + i * sector - 1] == b[usa_pos(b, rec)
                    + 2 * i + 1]
            },
        forall|k: int|
            0 <= k < b.len() && !is_restored(b, rec, size, sector, n, k)
                ==> #[trigger] fixed_upto(b, rec, size, sector, n)[k] == b[k],
    decreases n,
{
    if n > 1 {
        lemma_restored(b, rec, size, sector, n - 1);
        let prev = fixed_upto(b, rec, size, sector, n - 1);
        let next = fixed_upto(b, rec, size, sector, n);
        let j = n - 1;
        if fixup_applies(b, rec, size, sector, j) {
            let src = usa_pos(b, rec) + 2 * j;
            lemma_restored_later(b, rec, size, sector, n - 1, src);
            lemma_restored_later(b, rec, size, sector, n - 1, src + 1);
            assert(prev[src] == b[src]);
            assert(prev[src + 1] == b[src + 1]);
            let end = rec + j * sector;
            assert(is_restored(b, rec, size, sector, usa_count(b, rec) as int, end - 2));
            assert(src + 1 != end - 2);
            assert forall|i: int| 1 <= i < n && #[trigger] fixup_applies(b, rec, size, sector, i) implies {
                &&& next[rec + i * sector - 2] == b[usa_pos(b, rec) + 2 * i]
                &&& next[rec + i * sector - 1] == b[usa_pos(b, rec) + 2 * i + 1]
            } by {
                if i < j {
                    assert(i * sector + sector <= j * sector) by (nonlinear_arith)
                        requires
                            i + 1 <= j,
                            sector >= 2,
                    ;
                    assert(2 <= rec + i * sector);
                }
            }
        }
        assert forall|k: int| 0 <= k < b.len() && !is_restored(b, rec, size, sector, n, k) implies next[k]
            == b[k] by {
            if is_restored(b, rec, size, sector, n - 1, k) {
                let i = choose|i: int|
                    1 <= i < n - 1 && #[trigger] fixup_applies(b, rec, size, sector, i) && rec + i
                        * sector - 2 <= k < rec + i * sector;
                assert(1 <= i < n && fixup_applies(b, rec, size, sector, i));
            }
            if fixup_applies(b, rec, size, sector, j) {
                assert(!(rec + j * sector - 2 <= k < rec + j * sector));
            }
        }
    }
}

/// Repairing a repaired record changes nothing more, where no sector tail lies in the
/// header that says where the array is.
pub proof fn law_fixups_idempotent(b: Seq<u8>, rec: int, size: int, sector: int)
    requires
        0 <= rec,
        has_header(b, rec),
        fixups_in_bounds(b, rec, size, sector),
        array_clear_of_tails(b, rec, size, sector),
        clear_of_tails(b, rec, size, sector, rec, rec + 8),
    ensures
        fixed(fixed(b, rec, size, sector), rec, size, sector) == fixed(b, rec, size, sector),
{
    let c = fixed(b, rec, size, sector);
    let n = usa_count(b, rec) as int;
    lemma_restored(b, rec, size, sector, n);
    reveal_with_fuel(le, 3);
    assert(c[rec] == b[rec] && c[rec + 1] == b[rec + 1] && c[rec + 2] == b[rec + 2] && c[rec + 3]
        == b[rec + 3] && c[rec + 4] == b[rec + 4] && c[rec + 5] == b[rec + 5] && c[rec + 6] == b[rec
        + 6] && c[rec + 7] == b[rec + 7]);
    assert(usa_pos(c, rec) == usa_pos(b, rec));
    assert(usa_count(c, rec) == usa_count(b, rec));
    lemma_fixups_settled(b, rec, size, sector, n);
}

/// A record whose array overlaps no sector tail is repaired as a whole, once and for
/// all: every sector in it gets back the two bytes that the array saved for it, no
/// other byte of the buffer changes, and repairing it again changes nothing. Its
/// sectors are long enough to leave the header alone.
pub proof fn law_record_is_repaired(b: Seq<u8>, rec: int, size: int, sector: int)
    requires
        0 <= rec,
        rec + size <= b.len(),
        sector >= 10,
        has_header(b, rec) ==> array_clear_of_tails(b, rec, size, sector),
    ensures
        fixed(b, rec, size, sector).len() == b.len(),
        has_header(b, rec) ==> forall|i: int|
            1 <= i < usa_count(b, rec) && #[trigger] fixup_applies(b, rec, size, sector, i) ==> {
                &&& fixed(b, rec, size, sector)[rec + i * sector - 2] == b[usa_pos(b, rec) + 2 * i]
                &&& fixed(b, rec, size, sector)[rec + i * sector - 1] == b[usa_pos(b, rec) + 2 * i
                    + 1]
            },
        forall|k: int|
            0 <= k < b.len() && !is_restored(b, rec, size, sector, usa_count(b, rec) as int, k)
                ==> #[trigger] fixed(b, rec, size, sector)[k] == b[k],
        fixed(fixed(b, rec, size, sector), rec, size, sector) == fixed(b, rec, size, sector),
{
    if has_header(b, rec) {
        lemma_inside_in_bounds(b, rec, size, sector);
        law_fixups_restore_tails(b, rec, size, sector);
        let n = usa_count(b, rec) as int;
        assert forall|k: int| rec <= k < rec + 8 implies !(#[trigger] is_restored(
            b,
            rec,
            size,
            sector,
            n,
            k,
        )) by {
            if is_restored(b, rec, size, sector, n, k) {
                let i = choose|i: int|
                    1 <= i < n && #[trigger] fixup_applies(b, rec, size, sector, i) && rec + i
                        * sector - 2 <= k < rec + i * sector;
                assert(i * sector >= 10) by (nonlinear_arith)
                    requires
                        i >= 1,
                        sector >= 10,
                ;
            }
        }
        law_fixups_idempotent(b, rec, size, sector);
    }
}

proof fn lemma_fixups_settled(b: Seq<u8>, rec: int, size: int, sector: int, n: int)
    requires
        0 <= rec,
        has_header(b, rec),
        fixups_in_bounds(b, rec, size, sector),
        array_clear_of_tails(b, rec, size, sector),
        n <= usa_count(b, rec),
        usa_pos(fixed(b, rec, size, sector), rec) == usa_pos(b, rec),
    ensures
        fixed_upto(fixed(b, rec, size, sector), rec, size, sector, n) == fixed(b, rec, size, sector),
    decreases n,
{
    let c = fixed(b, rec, size, sector);
    if n > 1 {
        lemma_fixups_settled(b, rec, size, sector, n - 1);
        lemma_restored(b, rec, size, sector, usa_count(b, rec) as int);
        let j = n - 1;
        if fixup_applies(c, rec, size, sector, j) {
            assert(fixup_applies(b, rec, size, sector, j));
            let src = usa_pos(b, rec) + 2 * j;
            assert(c[src] == b[src]);
            assert(c[src + 1] == b[src + 1]);
            let end = rec + j * sector;
            assert(c.update(end - 2, c[src]) =~= c);
            assert(c.update(end - 1, c[src + 1]) =~= c);
        }
    }
}

/// Whether the two bytes in front of `end` are `x` and `y`.
pub open spec fn ends_with(c: Seq<u8>, end: int, x: u8, y: u8) -> bool {
    c[end - 2] == x && c[end - 1] == y
}

/// Whether the byte at `k` is one of the last two of sector `i` (from 1) of the record at
/// `rec`.
pub open spec fn ends_sector(rec: int, sector: int, i: int, k: int) -> bool {
    k == rec + i * sector - 2 || k == rec + i * sector - 1
}

/// In a record whose array overlaps no sector tail, every sector in it is repaired: the two
/// bytes in front of its end become those that the array has for it, which stands where
/// the two bytes at 4 say and has as many entries as those at 6 say. No byte changes that
/// is not in front of the end of a sector.
pub proof fn law_every_sector_is_repaired(b: Seq<u8>, rec: int, size: int, sector: int)
    requires
        0 <= rec,
        rec + size <= b.len(),
        sector >= 2,
        has_header(b, rec),
        array_clear_of_tails(b, rec, size, sector),
    ensures
        ({
            let c = fixed(b, rec, size, sector);
            let at = rec + word(b, rec + 4);
            let count = word(b, rec + 6);
            &&& c.len() == b.len()
            &&& forall|i: int|
                1 <= i < count && i * sector <= size && at + 2 * i + 2 <= b.len()
                    ==> #[trigger] ends_with(c, rec + i * sector, b[at + 2 * i], b[at + 2 * i + 1])
            &&& forall|k: int|
                0 <= k < b.len() && (forall|i: int|
                    1 <= i < count ==> !#[trigger] ends_sector(rec, sector, i, k))
                    ==> #[trigger] c[k] == b[k]
        }),
{
    law_numbers_are_little_endian(b, rec + 4);
    law_numbers_are_little_endian(b, rec + 6);
    lemma_inside_in_bounds(b, rec, size, sector);
    law_fixups_restore_tails(b, rec, size, sector);
    let c = fixed(b, rec, size, sector);
    let at = rec + word(b, rec + 4);
    let count = word(b, rec + 6);
    assert forall|i: int|
        1 <= i < count && i * sector <= size && at + 2 * i + 2 <= b.len() implies #[trigger] ends_with(
        c,
        rec + i * sector,
        b[at + 2 * i],
        b[at + 2 * i + 1],
    ) by {
        assert(fixup_applies(b, rec, size, sector, i));
    }
    assert forall|k: int|
        0 <= k < b.len() && (forall|i: int|
            1 <= i < count ==> !#[trigger] ends_sector(rec, sector, i, k)) implies #[trigger] c[k]
        == b[k] by {
        if is_restored(b, rec, size, sector, usa_count(b, rec) as int, k) {
            let i = choose|i: int|
                1 <= i < usa_count(b, rec) && #[trigger] fixup_applies(b, rec, size, sector, i)
                    && rec + i * sector - 2 <= k < rec + i * sector;
            assert(ends_sector(rec, sector, i, k));
        }
    }
}

} // verus!
