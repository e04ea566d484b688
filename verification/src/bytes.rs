//! Little-endian integers inside a byte buffer.

use vstd::arithmetic::power::pow;
use vstd::prelude::*;

verus! {

/// The unsigned number that the `n` bytes of `b` from offset `o` on spell, least
/// significant byte first.
pub open spec fn le(b: Seq<u8>, o: int, n: nat) -> nat
    decreases n,
{
    if n == 0 {
        0
    } else {
        b[o] as nat + 256 * le(b, o + 1, (n - 1) as nat)
    }
}

/// 256 to the power `n`.
pub open spec fn pow256(n: nat) -> nat
    decreases n,
{
    if n == 0 {
        1
    } else {
        256 * pow256((n - 1) as nat)
    }
}

/// The two's complement number that the same bytes spell.
pub open spec fn le_signed(b: Seq<u8>, o: int, n: nat) -> int {
    let u = le(b, o, n);
    if 2 * u >= pow256(n) {
        u - pow256(n)
    } else {
        u as int
    }
}

/// A number of `n` bytes is below 256 to the `n`.
pub proof fn lemma_le_bound(b: Seq<u8>, o: int, n: nat)
    ensures
        le(b, o, n) < pow256(n),
    decreases n,
{
    if n > 0 {
        lemma_le_bound(b, o + 1, (n - 1) as nat);
    }
}

/// The most significant byte of a number tells whether it reaches half its range.
proof fn lemma_le_top(b: Seq<u8>, o: int, n: nat)
    requires
        n > 0,
    ensures
        2 * le(b, o, n) >= pow256(n) <==> b[o + n - 1] >= 0x80,
    decreases n,
{
    reveal_with_fuel(le, 2);
    reveal_with_fuel(pow256, 2);
    if n > 1 {
        lemma_le_top(b, o + 1, (n - 1) as nat);
        assert(pow256((n - 1) as nat) == 256 * pow256((n - 2) as nat));
    }
}

proof fn lemma_pow256_table()
    ensures
        pow256(1) == 0x100,
        pow256(2) == 0x1_0000,
        pow256(3) == 0x100_0000,
        pow256(4) == 0x1_0000_0000,
        pow256(5) == 0x100_0000_0000,
        pow256(6) == 0x1_0000_0000_0000,
        pow256(7) == 0x100_0000_0000_0000,
        pow256(8) == 0x1_0000_0000_0000_0000,
{
    reveal_with_fuel(pow256, 9);
}

/// Reads `n` bytes, at most eight, as an unsigned number.
pub fn le_uint(b: &[u8], o: usize, n: usize) -> (v: u64)
    requires
        n <= 8,
        o + n <= b.len(),
    ensures
        v == le(b@, o as int, n as nat),
{
    let mut v: u64 = 0;
    let mut i: usize = n;
    while i > 0
        invariant
            i <= n <= 8,
            o + n <= b.len(),
            v == le(b@, o + i, (n - i) as nat),
        decreases i,
    {
        proof {
            lemma_le_bound(b@, o + i, (n - i) as nat);
            lemma_le_bound(b@, o + i - 1, (n - i + 1) as nat);
            lemma_pow256_table();
            assert(n - i == 0 || n - i == 1 || n - i == 2 || n - i == 3 || n - i == 4 || n - i == 5
                || n - i == 6 || n - i == 7);
        }
        i -= 1;
        v = v * 256 + b[o + i] as u64;
    }
    v
}

/// The 16-bit unsigned number at offset `o`.
pub fn u16_le(b: &[u8], o: usize) -> (v: u16)
    requires
        o + 2 <= b.len(),
    ensures
        v == le(b@, o as int, 2),
{
    let v: u64 = le_uint(b, o, 2);
    proof {
        lemma_le_bound(b@, o as int, 2);
        lemma_pow256_table();
    }
    v as u16
}

/// The 32-bit unsigned number at offset `o`.
pub fn u32_le(b: &[u8], o: usize) -> (v: u32)
    requires
        o + 4 <= b.len(),
    ensures
        v == le(b@, o as int, 4),
{
    let v: u64 = le_uint(b, o, 4);
    proof {
        lemma_le_bound(b@, o as int, 4);
        lemma_pow256_table();
    }
    v as u32
}

/// The 64-bit two's complement number at offset `o`.
pub fn i64_le(b: &[u8], o: usize) -> (v: i64)
    requires
        o + 8 <= b.len(),
    ensures
        v == le_signed(b@, o as int, 8),
{
    read_signed_le(b, o, 8)
}

/// The two's complement number in the `len` bytes at offset `off`.
pub fn read_signed_le(buf: &[u8], off: usize, len: usize) -> (v: i64)
    requires
        1 <= len <= 8,
        off + len <= buf.len(),
    ensures
        v == le_signed(buf@, off as int, len as nat),
{
    let u: u64 = le_uint(buf, off, len);
    proof {
        lemma_le_top(buf@, off as int, len as nat);
        lemma_le_bound(buf@, off as int, len as nat);
        lemma_pow256_table();
        assert(len == 1 || len == 2 || len == 3 || len == 4 || len == 5 || len == 6 || len == 7
            || len == 8);
    }
    if buf[off + len - 1] >= 0x80 {
        // All bits above the field are copies of its sign bit.
        let top: u64 = if len == 8 {
            u64::MAX
        } else {
            pow256_of(len) - 1
        };
        -((top - u) as i64) - 1
    } else {
        u as i64
    }
}

/// 256 to the power `n`, for fields narrower than a machine word.
fn pow256_of(n: usize) -> (p: u64)
    requires
        n <= 7,
    ensures
        p == pow256(n as nat),
{
    let mut p: u64 = 1;
    let mut i: usize = 0;
    while i < n
        invariant
            i <= n <= 7,
            p == pow256(i as nat),
        decreases n - i,
    {
        proof {
            lemma_pow256_table();
            assert(i == 0 || i == 1 || i == 2 || i == 3 || i == 4 || i == 5 || i == 6);
        }
        p = p * 256;
        i += 1;
    }
    p
}

// -------------------------------------------------------------------- numbers

/// The number in two bytes, the low one first.
pub open spec fn word(b: Seq<u8>, o: int) -> int {
    b[o] + 256 * b[o + 1]
}

/// The number in four bytes, the lowest first.
pub open spec fn dword(b: Seq<u8>, o: int) -> int {
    b[o] + 0x100 * b[o + 1] + 0x1_0000 * b[o + 2] + 0x100_0000 * b[o + 3]
}

/// The number in six bytes, the lowest first.
pub open spec fn six_bytes(b: Seq<u8>, o: int) -> int {
    dword(b, o) + 0x1_0000_0000 * b[o + 4] + 0x100_0000_0000 * b[o + 5]
}

/// The number in eight bytes, the lowest first; the highest bit counts as minus.
pub open spec fn signed_qword(b: Seq<u8>, o: int) -> int {
    let low = six_bytes(b, o) + 0x1_0000_0000_0000 * b[o + 6] + 0x100_0000_0000_0000 * b[o + 7];
    if b[o + 7] >= 128 {
        low - 0x1_0000_0000_0000_0000
    } else {
        low
    }
}

/// The bytes of a number count 1, 256, 65536 and so on, from the first one on; a number
/// with a sign is negative where its last byte is 128 or more.
pub proof fn law_numbers_are_little_endian(b: Seq<u8>, o: int)
    ensures
        le(b, o, 1) == b[o],
        le(b, o, 2) == word(b, o),
        le(b, o, 4) == dword(b, o),
        le(b, o, 6) == six_bytes(b, o),
        le_signed(b, o, 8) == signed_qword(b, o),
{
    reveal_with_fuel(le, 9);
    lemma_pow256_table();
}

/// The number in `n` bytes: the byte at place `i` counts 256 to the power `i`.
pub open spec fn place_value(b: Seq<u8>, o: int, n: nat) -> int
    decreases n,
{
    if n == 0 {
        0
    } else {
        place_value(b, o, (n - 1) as nat) + b[o + n - 1] * pow(256, (n - 1) as nat)
    }
}

/// The same with a sign: where the last byte is 128 or more the number is negative.
pub open spec fn signed_place_value(b: Seq<u8>, o: int, n: nat) -> int {
    if n > 0 && b[o + n - 1] >= 128 {
        place_value(b, o, n) - pow(256, n)
    } else {
        place_value(b, o, n)
    }
}

proof fn lemma_lowest_first(b: Seq<u8>, o: int, n: nat)
    requires
        n > 0,
    ensures
        place_value(b, o, n) == b[o] + 256 * place_value(b, o + 1, (n - 1) as nat),
    decreases n,
{
    reveal(pow);
    if n == 1 {
        reveal_with_fuel(place_value, 2);
        assert(pow(256, 0) == 1);
    } else {
        let k = (n - 1) as nat;
        lemma_lowest_first(b, o, k);
        let (x, y) = (b[o + n - 1] as int, pow(256, (k - 1) as nat));
        assert(pow(256, k) == 256 * y);
        assert(o + 1 + k - 1 == o + n - 1);
        assert(x * (256 * y) == 256 * (x * y)) by (nonlinear_arith);
        let z = place_value(b, o + 1, (k - 1) as nat);
        assert(256 * (z + x * y) == 256 * z + 256 * (x * y)) by (nonlinear_arith);
    }
}

/// Numbers of any width are spelt lowest byte first, those with a sign in two's
/// complement.
pub proof fn law_numbers_by_place(b: Seq<u8>, o: int, n: nat)
    ensures
        le(b, o, n) == place_value(b, o, n),
        n > 0 ==> le_signed(b, o, n) == signed_place_value(b, o, n),
    decreases n,
{
    lemma_pow256(n);
    if n > 0 {
        law_numbers_by_place(b, o + 1, (n - 1) as nat);
        lemma_lowest_first(b, o, n);
        lemma_le_top(b, o, n);
    }
}

proof fn lemma_pow256(n: nat)
    ensures
        pow256(n) == pow(256, n),
    decreases n,
{
    reveal(pow);
    if n > 0 {
        lemma_pow256((n - 1) as nat);
    }
}

} // verus!
