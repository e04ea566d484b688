//! What the bytes of a FILE record say of its file: which attribute each of the name,
//! the parent, the size and the time comes from, and where in it they stand.

use crate::bytes::{
    dword, law_numbers_are_little_endian, le, le_signed, signed_qword, six_bytes, word,
};
use crate::mft::record::{
    attr_ok, kept_priority, name_end, no_facts, note_attr, note_attrs, priority, record_entry,
    record_facts, record_in_use, Facts,
};
use crate::utf16::{decode, units_le};
use vstd::prelude::*;

verus! {

/// Whether a whole attribute stands at `p` of a record that ends at `end`.
pub open spec fn is_attribute(b: Seq<u8>, end: int, p: int) -> bool {
    &&& p + 24 <= end
    &&& dword(b, p) != 0xFFFF_FFFF
    &&& dword(b, p + 4) > 0
    &&& p + dword(b, p + 4) <= end
}

/// Where the attribute behind the first `i` of `at` starts.
pub open spec fn next_start(b: Seq<u8>, off: int, at: Seq<int>, i: int) -> int {
    if i <= 0 {
        off + word(b, off + 20)
    } else {
        at[i - 1] + dword(b, at[i - 1] + 4)
    }
}

/// Whether the attributes of the record at `off` start at the places `at`: the header
/// says where the first one does, each has its length in it, and they end where no whole
/// attribute stands.
pub open spec fn are_attributes(b: Seq<u8>, off: int, size: int, at: Seq<int>) -> bool {
    &&& forall|i: int|
        0 <= i < at.len() ==> is_attribute(b, off + size, #[trigger] at[i]) && at[i] == next_start(
            b,
            off,
            at,
            i,
        )
    &&& !is_attribute(b, off + size, next_start(b, off, at, at.len() as int))
}

/// Whether a record in use stands at `off`: it is signed `FILE`, and its lowest flag is
/// set.
pub open spec fn is_used(b: Seq<u8>, off: int, size: int) -> bool {
    &&& 0 <= off
    &&& size >= 42
    &&& off + size <= b.len()
    &&& b.subrange(off, off + 4) == seq![0x46u8, 0x49u8, 0x4Cu8, 0x45u8]
    &&& b[off + 22] % 2 == 1
}

/// Where the value of the resident attribute at `p` starts.
pub open spec fn value_of(b: Seq<u8>, p: int) -> int {
    p + word(b, p + 20)
}

/// Whether the attribute at `p` is the unnamed stream of a file.
pub open spec fn is_stream(b: Seq<u8>, p: int) -> bool {
    dword(b, p) == 0x80 && b[p + 9] == 0
}

/// Whether the attribute at `p` is a name that lies in the record.
pub open spec fn is_name(b: Seq<u8>, end: int, p: int) -> bool {
    let v = value_of(b, p);
    dword(b, p) == 0x30 && b[p + 8] == 0 && v + 66 <= end && v + 66 + 2 * b[v + 64] <= end
}

/// The namespace of the name at `p`.
pub open spec fn namespace(b: Seq<u8>, p: int) -> u8 {
    b[value_of(b, p) + 65]
}

/// Whether a name of namespace `a` is wanted more than one of namespace `c`: the name of
/// Windows and DOS in one first, then that of Windows, then that of POSIX, then that of
/// DOS alone.
pub open spec fn is_wanted_more(a: u8, c: u8) -> bool {
    ||| a == 3 && c != 3
    ||| a == 1 && c != 3 && c != 1
    ||| a == 0 && c != 3 && c != 1 && c != 0
    ||| a == 2 && c != 3 && c != 1 && c != 0 && c != 2
}

/// Whether the attribute at `p` holds the standard information, with the bytes of its
/// value up to `n` in the record.
pub open spec fn is_standard(b: Seq<u8>, end: int, p: int, n: int) -> bool {
    dword(b, p) == 0x10 && b[p + 8] == 0 && value_of(b, p) + n <= end
}

// ---------------------------------------------------------- attribute by attribute

spec fn gathered(b: Seq<u8>, end: int, at: Seq<int>, i: int, f: Facts) -> Facts
    decreases at.len() - i,
{
    if 0 <= i < at.len() {
        gathered(b, end, at, i + 1, note_attr(b, end, at[i], f))
    } else {
        f
    }
}

proof fn lemma_attribute(b: Seq<u8>, end: int, p: int)
    ensures
        attr_ok(b, end, p) == is_attribute(b, end, p),
        le(b, p, 4) == dword(b, p),
        le(b, p + 4, 4) == dword(b, p + 4),
        le(b, p + 16, 4) == dword(b, p + 16),
        le(b, p + 20, 2) == word(b, p + 20),
        le_signed(b, p + 48, 8) == signed_qword(b, p + 48),
{
    law_numbers_are_little_endian(b, p);
    law_numbers_are_little_endian(b, p + 4);
    law_numbers_are_little_endian(b, p + 16);
    law_numbers_are_little_endian(b, p + 20);
    law_numbers_are_little_endian(b, p + 48);
}

proof fn lemma_gathered(b: Seq<u8>, off: int, size: int, at: Seq<int>, i: int, f: Facts)
    requires
        are_attributes(b, off, size, at),
        0 <= i <= at.len(),
    ensures
        note_attrs(b, off + size, next_start(b, off, at, i), f) == gathered(b, off + size, at, i, f),
    decreases at.len() - i,
{
    let end = off + size;
    lemma_attribute(b, end, next_start(b, off, at, i));
    if i < at.len() {
        assert(is_attribute(b, end, at[i]));
        lemma_gathered(b, off, size, at, i + 1, note_attr(b, end, at[i], f));
        assert(next_start(b, off, at, i + 1) == at[i] + dword(b, at[i] + 4));
    }
}

proof fn lemma_record(b: Seq<u8>, off: int, size: int, at: Seq<int>)
    requires
        are_attributes(b, off, size, at),
    ensures
        record_facts(b, off, size) == gathered(b, off + size, at, 0, no_facts()),
        record_in_use(b, off, size) && 0 <= off <==> is_used(b, off, size),
        (le(b, off + 22, 2) / 2) % 2 == (b[off + 22] / 2) % 2,
{
    assert(le(b, off + 20, 2) == word(b, off + 20)) by {
        law_numbers_are_little_endian(b, off + 20);
    }
    assert(le(b, off + 22, 2) == word(b, off + 22)) by {
        law_numbers_are_little_endian(b, off + 22);
    }
    lemma_gathered(b, off, size, at, 0, no_facts());
    lemma_low_bits(b[off + 22] as int, b[off + 23] as int);
    if 0 <= off && size >= 42 && off + size <= b.len() {
        let sign = b.subrange(off, off + 4);
        assert(sign[0] == b[off] && sign[1] == b[off + 1] && sign[2] == b[off + 2] && sign[3] == b[off
            + 3]);
        if record_in_use(b, off, size) {
            assert(sign =~= seq![0x46u8, 0x49u8, 0x4Cu8, 0x45u8]);
        }
    }
}

/// The two lowest bits of a number of two bytes are those of its first byte.
proof fn lemma_low_bits(low: int, high: int)
    ensures
        (low + 256 * high) % 2 == low % 2,
        ((low + 256 * high) / 2) % 2 == (low / 2) % 2,
{
}

/// The attributes of a record can be told: there is one list of the places where they
/// start.
pub proof fn law_attributes_can_be_told(b: Seq<u8>, off: int, size: int)
    ensures
        exists|at: Seq<int>| are_attributes(b, off, size, at),
{
    lemma_told(b, off, size, Seq::empty());
}

proof fn lemma_told(b: Seq<u8>, off: int, size: int, at: Seq<int>)
    requires
        forall|i: int|
            0 <= i < at.len() ==> is_attribute(b, off + size, #[trigger] at[i]) && at[i]
                == next_start(b, off, at, i),
    ensures
        exists|all: Seq<int>| are_attributes(b, off, size, all),
    decreases off + size - next_start(b, off, at, at.len() as int) + 1,
{
    let p = next_start(b, off, at, at.len() as int);
    if is_attribute(b, off + size, p) {
        let more = at.push(p);
        assert forall|i: int| 0 <= i < more.len() implies is_attribute(
            b,
            off + size,
            #[trigger] more[i],
        ) && more[i] == next_start(b, off, more, i) by {
            if i < at.len() {
                assert(more[i] == at[i]);
                if i > 0 {
                    assert(more[i - 1] == at[i - 1]);
                }
            } else if i > 0 {
                assert(more[i - 1] == at[i - 1]);
            }
        }
        assert(next_start(b, off, more, more.len() as int) == p + dword(b, p + 4));
        lemma_told(b, off, size, more);
    } else {
        assert(are_attributes(b, off, size, at));
    }
}

// ------------------------------------------------------------------------- the size

proof fn lemma_size_stays(b: Seq<u8>, end: int, at: Seq<int>, i: int, f: Facts)
    requires
        0 <= i <= at.len(),
        f.size_found || forall|j: int| i <= j < at.len() ==> !is_stream(b, #[trigger] at[j]),
    ensures
        gathered(b, end, at, i, f).size == f.size,
    decreases at.len() - i,
{
    if i < at.len() {
        lemma_attribute(b, end, at[i]);
        lemma_size_stays(b, end, at, i + 1, note_attr(b, end, at[i], f));
    }
}

proof fn lemma_size_at(b: Seq<u8>, end: int, at: Seq<int>, i: int, k: int, f: Facts)
    requires
        0 <= i <= k < at.len(),
        is_stream(b, at[k]),
        forall|j: int| i <= j < k ==> !is_stream(b, #[trigger] at[j]),
        !f.size_found,
        f.size == 0,
    ensures
        b[at[k] + 8] == 0 ==> gathered(b, end, at, i, f).size == dword(b, at[k] + 16),
        b[at[k] + 8] != 0 && at[k] + 56 <= end ==> gathered(b, end, at, i, f).size == signed_qword(
            b,
            at[k] + 48,
        ),
        b[at[k] + 8] != 0 && at[k] + 56 > end ==> gathered(b, end, at, i, f).size == 0,
    decreases at.len() - i,
{
    lemma_attribute(b, end, at[i]);
    if i < k {
        lemma_size_at(b, end, at, i + 1, k, note_attr(b, end, at[i], f));
    } else {
        lemma_size_stays(b, end, at, i + 1, note_attr(b, end, at[i], f));
    }
}

/// The size of a file is that of its first unnamed stream. One that lies in the record
/// has its length in the four bytes at 16. One that lies elsewhere on the volume has its
/// real size in the eight bytes at 48. A file without such a stream is empty, and a
/// directory has no size.
pub proof fn law_size_of_a_file(b: Seq<u8>, off: int, size: int, at: Seq<int>, k: int)
    requires
        is_used(b, off, size),
        are_attributes(b, off, size, at),
        record_entry(b, off, size) is Some,
        0 <= k <= at.len(),
        forall|j: int| 0 <= j < k ==> !is_stream(b, #[trigger] at[j]),
        k < at.len() ==> is_stream(b, at[k]),
    ensures
        ({
            let e = record_entry(b, off, size)->0;
            let is_file = (b[off + 22] / 2) % 2 == 0;
            &&& e.is_dir == !is_file
            &&& !is_file ==> e.size == 0
            &&& is_file && k == at.len() ==> e.size == 0
            &&& is_file && k < at.len() && b[at[k] + 8] == 0 ==> e.size == dword(b, at[k] + 16)
            &&& is_file && k < at.len() && b[at[k] + 8] != 0 && at[k] + 56 <= off + size ==> e.size
                == signed_qword(b, at[k] + 48)
        }),
{
    lemma_record(b, off, size, at);
    if k < at.len() {
        lemma_size_at(b, off + size, at, 0, k, no_facts());
    } else {
        lemma_size_stays(b, off + size, at, 0, no_facts());
    }
}

// ------------------------------------------------------------- the name and the parent

/// Whether the name at `p` is the one that was kept.
spec fn is_kept(b: Seq<u8>, p: int, f: Facts) -> bool {
    let v = value_of(b, p);
    &&& f.ns == namespace(b, p)
    &&& f.name == Some(decode(Seq::new(b[v + 64] as nat, |i: int| word(b, v + 66 + 2 * i) as u16)))
    &&& f.parent_frn == six_bytes(b, v)
}

proof fn lemma_name_attr(b: Seq<u8>, end: int, p: int, f: Facts)
    requires
        0 <= p,
        end <= b.len(),
    ensures
        !is_name(b, end, p) ==> note_attr(b, end, p, f).name == f.name && note_attr(
            b,
            end,
            p,
            f,
        ).ns == f.ns && note_attr(b, end, p, f).parent_frn == f.parent_frn,
        is_name(b, end, p) && priority(namespace(b, p)) <= kept_priority(f) ==> note_attr(
            b,
            end,
            p,
            f,
        ) == f,
        is_name(b, end, p) && priority(namespace(b, p)) > kept_priority(f) ==> is_kept(
            b,
            p,
            note_attr(b, end, p, f),
        ),
{
    lemma_attribute(b, end, p);
    let v = value_of(b, p);
    if is_name(b, end, p) {
        law_numbers_are_little_endian(b, v);
        let bytes = b.subrange(v + 66, name_end(b, v));
        let units = Seq::new(b[v + 64] as nat, |i: int| word(b, v + 66 + 2 * i) as u16);
        assert(units_le(bytes) =~= units) by {
            assert forall|i: int| 0 <= i < units.len() implies units_le(bytes)[i] == #[trigger] units[i] by {
                law_numbers_are_little_endian(bytes, 2 * i);
                assert(bytes[2 * i] == b[v + 66 + 2 * i]);
                assert(bytes[2 * i + 1] == b[v + 66 + 2 * i + 1]);
            }
        }
    }
}

/// Whether the name at `at[k]` is wanted more than those in front of it from `i` on, and
/// at least as much as those behind it.
spec fn is_best(b: Seq<u8>, end: int, at: Seq<int>, i: int, k: int) -> bool {
    &&& i <= k < at.len()
    &&& is_name(b, end, at[k])
    &&& forall|j: int|
        i <= j < k && is_name(b, end, #[trigger] at[j]) ==> priority(namespace(b, at[j]))
            < priority(namespace(b, at[k]))
    &&& forall|j: int|
        k < j < at.len() && is_name(b, end, #[trigger] at[j]) ==> priority(namespace(b, at[j]))
            <= priority(namespace(b, at[k]))
}

proof fn lemma_name_kept(b: Seq<u8>, end: int, at: Seq<int>, i: int, f: Facts)
    requires
        0 <= i <= at.len(),
        end <= b.len(),
        forall|j: int| 0 <= j < at.len() ==> 0 <= #[trigger] at[j],
    ensures
        ({
            let g = gathered(b, end, at, i, f);
            ||| g.name == f.name && g.ns == f.ns && g.parent_frn == f.parent_frn && forall|j: int|
                i <= j < at.len() && is_name(b, end, #[trigger] at[j]) ==> priority(
                    namespace(b, at[j]),
                ) <= kept_priority(f)
            ||| exists|k: int| #[trigger] is_best(b, end, at, i, k) && is_kept(b, at[k], g)
                && priority(namespace(b, at[k])) > kept_priority(f)
        }),
    decreases at.len() - i,
{
    if i < at.len() {
        let g = note_attr(b, end, at[i], f);
        lemma_name_attr(b, end, at[i], f);
        lemma_name_kept(b, end, at, i + 1, g);
        let all = gathered(b, end, at, i, f);
        if exists|k: int| #[trigger] is_best(b, end, at, i + 1, k) && is_kept(b, at[k], all)
            && priority(namespace(b, at[k])) > kept_priority(g) {
            let k = choose|k: int| #[trigger]
                is_best(b, end, at, i + 1, k) && is_kept(b, at[k], all) && priority(
                    namespace(b, at[k]),
                ) > kept_priority(g);
            assert(is_best(b, end, at, i, k));
        } else if is_name(b, end, at[i]) && priority(namespace(b, at[i])) > kept_priority(f) {
            assert(is_best(b, end, at, i, i));
        }
    }
}

/// Whether the name at `at[k]` is the one that a file goes by: none in front of it is
/// wanted as much, and none behind it more.
pub open spec fn goes_by(b: Seq<u8>, end: int, at: Seq<int>, k: int) -> bool {
    &&& 0 <= k < at.len()
    &&& is_name(b, end, at[k])
    &&& forall|j: int|
        0 <= j < at.len() && is_name(b, end, #[trigger] at[j]) ==> !is_wanted_more(
            namespace(b, at[j]),
            namespace(b, at[k]),
        )
    &&& forall|j: int|
        0 <= j < k && is_name(b, end, #[trigger] at[j]) ==> is_wanted_more(
            namespace(b, at[k]),
            namespace(b, at[j]),
        )
}

/// A record describes a file exactly where it is in use and holds a name. The name and
/// the parent come from the same name attribute, the one that is wanted most: the parent
/// is in the first six bytes of its value, the length of the name in the byte at 64, and
/// the name in the code units from 66 on.
pub proof fn law_name_and_parent_of_a_file(b: Seq<u8>, off: int, size: int, at: Seq<int>)
    requires
        0 <= off,
        are_attributes(b, off, size, at),
    ensures
        record_entry(b, off, size) is Some <==> is_used(b, off, size) && exists|j: int|
            0 <= j < at.len() && is_name(b, off + size, #[trigger] at[j]),
        record_entry(b, off, size) is Some ==> exists|k: int|
            {
                let e = record_entry(b, off, size)->0;
                let v = value_of(b, at[k]);
                &&& #[trigger] goes_by(b, off + size, at, k)
                &&& e.parent_frn == six_bytes(b, v)
                &&& e.name == decode(
                    Seq::new(b[v + 64] as nat, |i: int| word(b, v + 66 + 2 * i) as u16),
                )
            },
{
    let end = off + size;
    lemma_record(b, off, size, at);
    if is_used(b, off, size) {
        let g = record_facts(b, off, size);
        assert forall|j: int| 0 <= j < at.len() implies 0 <= #[trigger] at[j] by {
            lemma_starts_inside(b, off, size, at, j);
        }
        lemma_name_kept(b, end, at, 0, no_facts());
        if exists|k: int| #[trigger] is_best(b, end, at, 0, k) && is_kept(b, at[k], g) && priority(
            namespace(b, at[k]),
        ) > kept_priority(no_facts()) {
            let k = choose|k: int| #[trigger]
                is_best(b, end, at, 0, k) && is_kept(b, at[k], g) && priority(namespace(b, at[k]))
                    > kept_priority(no_facts());
            assert(goes_by(b, end, at, k));
        } else {
            assert(g.name is None);
            assert forall|j: int| 0 <= j < at.len() implies !is_name(b, end, #[trigger] at[j]) by {
                assert(priority(namespace(b, at[j])) > kept_priority(no_facts()));
            }
        }
    }
}

proof fn lemma_starts_inside(b: Seq<u8>, off: int, size: int, at: Seq<int>, i: int)
    requires
        0 <= off,
        are_attributes(b, off, size, at),
        0 <= i < at.len(),
    ensures
        off <= at[i],
    decreases i,
{
    assert(at[i] == next_start(b, off, at, i));
    if i > 0 {
        lemma_starts_inside(b, off, size, at, i - 1);
    }
}

// ------------------------------------------------------------------------- the time

/// The time that the attribute at `p` offers; 0 where it offers none.
pub open spec fn time_at(b: Seq<u8>, end: int, p: int) -> int {
    if is_standard(b, end, p, 16) {
        signed_qword(b, value_of(b, p) + 8)
    } else if is_name(b, end, p) {
        signed_qword(b, value_of(b, p) + 16)
    } else {
        0
    }
}

proof fn lemma_time_attr(b: Seq<u8>, end: int, p: int, f: Facts)
    requires
        f.last_write_ft == 0,
    ensures
        is_standard(b, end, p, 16) ==> note_attr(b, end, p, f).last_write_ft == signed_qword(
            b,
            value_of(b, p) + 8,
        ),
        !is_standard(b, end, p, 16) && !is_name(b, end, p) ==> note_attr(
            b,
            end,
            p,
            f,
        ).last_write_ft == 0,
        is_name(b, end, p) && f.name is None ==> note_attr(b, end, p, f).last_write_ft
            == signed_qword(b, value_of(b, p) + 16),
{
    lemma_attribute(b, end, p);
    law_numbers_are_little_endian(b, value_of(b, p) + 8);
    law_numbers_are_little_endian(b, value_of(b, p) + 16);
}

proof fn lemma_time_stays(b: Seq<u8>, end: int, at: Seq<int>, i: int, f: Facts)
    requires
        0 <= i <= at.len(),
        f.last_write_ft != 0,
    ensures
        gathered(b, end, at, i, f).last_write_ft == f.last_write_ft,
    decreases at.len() - i,
{
    if i < at.len() {
        lemma_time_stays(b, end, at, i + 1, note_attr(b, end, at[i], f));
    }
}

proof fn lemma_time_at(b: Seq<u8>, end: int, at: Seq<int>, i: int, k: int, f: Facts)
    requires
        0 <= i <= k <= at.len(),
        end <= b.len(),
        forall|j: int| 0 <= j < at.len() ==> 0 <= #[trigger] at[j],
        forall|j: int|
            i <= j < k ==> time_at(b, end, #[trigger] at[j]) == 0 && !is_name(b, end, at[j]),
        k < at.len() ==> time_at(b, end, at[k]) != 0,
        f.last_write_ft == 0,
        f.name is None,
    ensures
        k < at.len() ==> gathered(b, end, at, i, f).last_write_ft == time_at(b, end, at[k]),
        k == at.len() ==> gathered(b, end, at, i, f).last_write_ft == 0,
    decreases at.len() - i,
{
    if i < at.len() {
        lemma_time_attr(b, end, at[i], f);
        lemma_name_attr(b, end, at[i], f);
        let g = note_attr(b, end, at[i], f);
        if i < k {
            lemma_time_at(b, end, at, i + 1, k, g);
        } else {
            lemma_time_stays(b, end, at, i + 1, g);
        }
    }
}

/// The time of a file is the first that an attribute offers: the standard information
/// has it in the eight bytes at 8 of its value, a name in those at 16. No name without a
/// time stands in front of it.
pub proof fn law_time_of_a_file(b: Seq<u8>, off: int, size: int, at: Seq<int>, k: int)
    requires
        is_used(b, off, size),
        are_attributes(b, off, size, at),
        record_entry(b, off, size) is Some,
        0 <= k < at.len(),
        forall|j: int|
            0 <= j < k ==> time_at(b, off + size, #[trigger] at[j]) == 0 && !is_name(
                b,
                off + size,
                at[j],
            ),
        time_at(b, off + size, at[k]) != 0,
    ensures
        record_entry(b, off, size)->0.last_write_ft == time_at(b, off + size, at[k]),
{
    lemma_record(b, off, size, at);
    assert forall|j: int| 0 <= j < at.len() implies 0 <= #[trigger] at[j] by {
        lemma_starts_inside(b, off, size, at, j);
    }
    lemma_time_at(b, off + size, at, 0, k, no_facts());
}

// ------------------------------------------------------------- junctions and links

proof fn lemma_reparse(b: Seq<u8>, end: int, at: Seq<int>, i: int, k: int, f: Facts)
    requires
        0 <= i <= at.len(),
        k < at.len(),
        k >= i ==> is_standard(b, end, at[k], 36),
        forall|j: int| i <= j < at.len() && j > k ==> !is_standard(b, end, #[trigger] at[j], 36),
    ensures
        k >= i ==> gathered(b, end, at, i, f).is_reparse == ((b[value_of(b, at[k]) + 33] / 4) % 2
            == 1),
        k < i ==> gathered(b, end, at, i, f).is_reparse == f.is_reparse,
    decreases at.len() - i,
{
    if i < at.len() {
        lemma_note_reparse(b, end, at[i], f);
        lemma_reparse(b, end, at, i + 1, k, note_attr(b, end, at[i], f));
    }
}

/// What a single attribute says of the record being that of a link.
proof fn lemma_note_reparse(b: Seq<u8>, end: int, p: int, f: Facts)
    ensures
        note_attr(b, end, p, f).is_reparse == if is_standard(b, end, p, 36) {
            (b[value_of(b, p) + 33] / 4) % 2 == 1
        } else {
            f.is_reparse
        },
{
    let v = value_of(b, p);
    lemma_attribute(b, end, p);
    law_numbers_are_little_endian(b, v + 32);
    lemma_bit_of_byte(b[v + 32] as int, b[v + 33] as int, b[v + 34] as int, b[v + 35] as int);
}

proof fn lemma_bit_of_byte(x: int, y: int, z: int, w: int)
    requires
        0 <= x < 256,
        0 <= y < 256,
        0 <= z < 256,
        0 <= w < 256,
    ensures
        ((x + 256 * y + 0x1_0000 * z + 0x100_0000 * w) / 0x400) % 2 == (y / 4) % 2,
{
    let d = x + 256 * y + 0x1_0000 * z + 0x100_0000 * w;
    assert(d == 0x400 * (y / 4 + 64 * z + 0x4000 * w) + (x + 256 * (y % 4)));
    assert(d / 0x400 == y / 4 + 64 * z + 0x4000 * w);
}

/// A record is that of a junction or link exactly where the last standard information in
/// it has the bit 0x400 in the attributes at 32; `k` is its place, and -1 where there is
/// none.
pub proof fn law_links_are_marked(b: Seq<u8>, off: int, size: int, at: Seq<int>, k: int)
    requires
        is_used(b, off, size),
        are_attributes(b, off, size, at),
        record_entry(b, off, size) is Some,
        -1 <= k < at.len(),
        k >= 0 ==> is_standard(b, off + size, at[k], 36),
        forall|j: int| k < j < at.len() ==> !is_standard(b, off + size, #[trigger] at[j], 36),
    ensures
        record_entry(b, off, size)->0.is_reparse == (k >= 0 && (b[value_of(b, at[k]) + 33] / 4) % 2
            == 1),
{
    lemma_record(b, off, size, at);
    lemma_reparse(b, off + size, at, 0, k, no_facts());
}

} // verus!
