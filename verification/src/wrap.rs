//! Sums kept in 64-bit two's complement, where they wrap around.

use vstd::prelude::*;

verus! {

/// The 64-bit two's complement number congruent to `x`.
#[verifier::opaque]
pub open spec fn wrap(x: int) -> int {
    let m = x % 0x1_0000_0000_0000_0000;
    if m >= 0x8000_0000_0000_0000 {
        m - 0x1_0000_0000_0000_0000
    } else {
        m
    }
}

/// Wrapping leaves a number alone that fits.
pub proof fn law_wrap_fits(x: int)
    requires
        i64::MIN <= x <= i64::MAX,
    ensures
        wrap(x) == x,
{
    reveal(wrap);
}

/// Numbers that differ by a multiple of 2^64 wrap to the same number.
pub proof fn lemma_wrap_shift(x: int, k: int)
    ensures
        wrap(x + k * 0x1_0000_0000_0000_0000) == wrap(x),
{
    reveal(wrap);
    let m = 0x1_0000_0000_0000_0000int;
    vstd::arithmetic::div_mod::lemma_mod_multiples_vanish(k, x, m);
    assert(m * k + x == x + k * m) by (nonlinear_arith);
}

/// The number that wraps to `wrap(x)` differs from it by a multiple of 2^64.
pub proof fn lemma_wrap_quotient(x: int) -> (k: int)
    ensures
        wrap(x) == x + k * 0x1_0000_0000_0000_0000,
{
    reveal(wrap);
    let m = 0x1_0000_0000_0000_0000int;
    vstd::arithmetic::div_mod::lemma_fundamental_div_mod(x, m);
    let q = x / m;
    if x % m >= 0x8000_0000_0000_0000 {
        -q - 1
    } else {
        -q
    }
}

/// Wrapping an intermediate sum or difference changes nothing of the result.
pub proof fn law_wrap_absorbs(x: int, y: int)
    ensures
        wrap(wrap(x) + y) == wrap(x + y),
        wrap(y + wrap(x)) == wrap(x + y),
        wrap(y - wrap(x)) == wrap(y - x),
        wrap(wrap(x) - y) == wrap(x - y),
{
    let k = lemma_wrap_quotient(x);
    lemma_wrap_shift(x + y, k);
    lemma_wrap_shift(y - x, -k);
    lemma_wrap_shift(x - y, k);
}

/// The wrapped sum of two numbers.
pub fn wrapping_sum(a: i64, b: i64) -> (r: i64)
    ensures
        r == wrap(a + b),
{
    proof {
        reveal(wrap);
    }
    a.wrapping_add(b)
}

/// The wrapped difference of two numbers.
pub fn wrapping_diff(a: i64, b: i64) -> (r: i64)
    ensures
        r == wrap(a - b),
{
    proof {
        reveal(wrap);
    }
    a.wrapping_sub(b)
}

/// The wrapped product of two numbers.
pub fn wrapping_product(a: i64, b: i64) -> (r: i64)
    ensures
        r == wrap(a * b),
{
    proof {
        reveal(wrap);
    }
    a.wrapping_mul(b)
}

/// An unsigned number, wrapped.
pub fn wrapped(n: u64) -> (r: i64)
    ensures
        r == wrap(n as int),
{
    proof {
        reveal(wrap);
    }
    if n <= 0x7FFF_FFFF_FFFF_FFFF {
        n as i64
    } else {
        -((0xFFFF_FFFF_FFFF_FFFF - n) as i64) - 1
    }
}

} // verus!
