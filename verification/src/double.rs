//! Double-precision numbers, held as integers: the quotients that sizes are shown
//! by, rounded the way a 53-bit binary mantissa rounds them.

use vstd::prelude::*;

verus! {

/// The positive number `m * 2^11 / 2^t`.
///
/// The mantissa `m` has 53 bits: it lies between 2^52 and 2^53.
#[derive(Copy, Clone, Debug, PartialEq, Eq, Structural)]
pub struct Double {
    pub m: u64,
    pub t: u32,
}

/// 2^52, the least mantissa.
pub const MANTISSA: u64 = 4_503_599_627_370_496;

/// Two to the power `n`.
pub open spec fn two_to(n: nat) -> nat
    decreases n,
{
    if n == 0 {
        1
    } else {
        2 * two_to((n - 1) as nat)
    }
}

/// The whole number nearest to `a / b`; halfway between two, the even one.
pub open spec fn half_even(a: int, b: int) -> int {
    let (q, r) = (a / b, a % b);
    if 2 * r < b || (2 * r == b && q % 2 == 0) {
        q
    } else {
        q + 1
    }
}

/// By how many bits `n` is wider than a mantissa.
pub open spec fn excess(n: int) -> nat
    decreases n,
{
    if n < 2 * MANTISSA {
        0
    } else {
        1 + excess(n / 2)
    }
}

/// `m` doubled until it is as wide as a mantissa, with `t` counting the doublings.
pub open spec fn widened(m: int, t: int) -> (int, int)
    decreases 2 * MANTISSA - m,
{
    if 0 < m < MANTISSA {
        widened(2 * m, t + 1)
    } else {
        (m, t)
    }
}

/// The double nearest to the whole number `n`, as mantissa and exponent.
pub open spec fn nearest(n: int) -> (int, int) {
    if n >= 2 * MANTISSA {
        (half_even(n, two_to(excess(n)) as int), 11 - excess(n))
    } else {
        widened(n, 11)
    }
}

/// The double nearest to a double divided by `b`.
pub open spec fn quotient(d: (int, int), b: int) -> (int, int) {
    if d.0 * 1024 < b * (2 * MANTISSA) {
        (half_even(d.0 * 1024, b), d.1 + 10)
    } else {
        (half_even(d.0 * 512, b), d.1 + 9)
    }
}

/// Whether a double is at least `c`.
pub open spec fn at_least(d: (int, int), c: int) -> bool {
    d.0 * 2048 >= c * two_to(d.1 as nat)
}

/// A double times `f`, rounded to a whole number; halfway between two, to the even
/// one.
pub open spec fn rounded(d: (int, int), f: int) -> int {
    half_even(d.0 * 2048 * f, two_to(d.1 as nat) as int)
}

impl Double {
    pub open spec fn pair(self) -> (int, int) {
        (self.m as int, self.t as int)
    }

    /// Whether the mantissa is a mantissa and the exponent is small.
    pub open spec fn is_normal(self) -> bool {
        MANTISSA <= self.m <= 2 * MANTISSA && self.t <= 115
    }
}

pub proof fn lemma_two_to_monotonic(a: nat, b: nat)
    requires
        a <= b,
    ensures
        1 <= two_to(a) <= two_to(b),
    decreases b,
{
    if a < b {
        lemma_two_to_monotonic(a, (b - 1) as nat);
    } else if a > 0 {
        lemma_two_to_monotonic((a - 1) as nat, (b - 1) as nat);
    }
}

proof fn lemma_two_to_table()
    ensures
        two_to(10) == 1024,
        two_to(11) == 2048,
        two_to(52) == MANTISSA,
        two_to(115) == 0x8_0000_0000_0000_0000_0000_0000_0000,
{
    reveal_with_fuel(two_to, 14);
    lemma_two_to_adds(13, 13);
    assert(two_to(26) == 8192 * 8192);
    lemma_two_to_adds(26, 26);
    assert(two_to(52) == 67_108_864 * 67_108_864);
    lemma_two_to_adds(52, 52);
    assert(two_to(104) == MANTISSA * MANTISSA);
    lemma_two_to_adds(104, 11);
}

proof fn lemma_two_to_adds(a: nat, b: nat)
    ensures
        two_to(a + b) == two_to(a) * two_to(b),
    decreases b,
{
    if b == 0 {
        assert(two_to(0) == 1);
        assert(two_to(a) * two_to(0) == two_to(a)) by (nonlinear_arith)
            requires
                two_to(0) == 1,
        ;
    } else {
        lemma_two_to_adds(a, (b - 1) as nat);
        assert((a + b - 1) as nat == a + (b - 1) as nat);
        assert(two_to(a + b) == 2 * two_to((a + b - 1) as nat));
        assert(2 * (two_to(a) * two_to((b - 1) as nat)) == two_to(a) * (2 * two_to((b - 1) as nat)))
            by (nonlinear_arith);
    }
}

/// Two to the power `n`.
fn power_of_two(n: u32) -> (r: u128)
    requires
        n <= 115,
    ensures
        r == two_to(n as nat),
        1 <= r <= 0x8_0000_0000_0000_0000_0000_0000_0000,
{
    let mut r: u128 = 1;
    let mut i: u32 = 0;
    proof {
        lemma_two_to_table();
        lemma_two_to_monotonic(n as nat, 115);
    }
    while i < n
        invariant
            i <= n <= 115,
            r == two_to(i as nat),
            two_to(115) == 0x8_0000_0000_0000_0000_0000_0000_0000,
        decreases n - i,
    {
        proof {
            lemma_two_to_monotonic((i + 1) as nat, 115);
        }
        r = r * 2;
        i += 1;
    }
    r
}

/// The whole number nearest to `a / b`; halfway between two, the even one.
fn divide_half_even(a: u128, b: u128) -> (r: u128)
    requires
        b > 0,
        a <= 0x7FFF_FFFF_FFFF_FFFF_FFFF_FFFF_FFFF_FFFF,
        b <= 0x4000_0000_0000_0000_0000_0000_0000_0000,
    ensures
        r == half_even(a as int, b as int),
{
    let q: u128 = a / b;
    let r: u128 = a % b;
    assert(q <= a) by (nonlinear_arith)
        requires
            q == a / b,
            b > 0,
    ;
    if 2 * r < b || (2 * r == b && q % 2 == 0) {
        q
    } else {
        q + 1
    }
}

/// A quotient lies between two whole numbers where its numerator does.
proof fn lemma_half_even_bounds(a: int, b: int, lo: int, hi: int)
    requires
        b > 0,
        lo * b <= a,
        a < hi * b,
    ensures
        lo <= half_even(a, b) <= hi,
{
    let (q, r) = (a / b, a % b);
    vstd::arithmetic::div_mod::lemma_fundamental_div_mod(a, b);
    assert(lo <= q && q < hi) by (nonlinear_arith)
        requires
            b > 0,
            a == b * q + r,
            0 <= r < b,
            lo * b <= a,
            a < hi * b,
    ;
}

/// The double nearest to `n`.
pub fn double_of(n: u64) -> (d: Double)
    requires
        0 < n <= 0x8000_0000_0000_0000,
    ensures
        d.pair() == nearest(n as int),
        d.is_normal(),
        d.t <= 63,
{
    if n >= 2 * MANTISSA {
        let mut e: u32 = 0;
        let mut k: u64 = n;
        let mut p: u64 = 1;
        while k >= 2 * MANTISSA
            invariant
                n <= 0x8000_0000_0000_0000,
                e + excess(k as int) == excess(n as int),
                p == two_to(e as nat),
                k * p <= n < (k + 1) * p,
                k >= MANTISSA,
                e <= 11,
                1 <= p,
                p <= 2048,
                k <= 0x8000_0000_0000_0000,
            decreases k,
        {
            proof {
                let j = k / 2;
                assert(j * (2 * p) <= n < (j + 1) * (2 * p)) by (nonlinear_arith)
                    requires
                        j == k / 2,
                        k * p <= n < (k + 1) * p,
                        p >= 1,
                ;
                assert(p <= 1024) by (nonlinear_arith)
                    requires
                        k >= 2 * MANTISSA,
                        k * p <= n <= 0x8000_0000_0000_0000,
                        p >= 0,
                ;
                lemma_two_to_table();
                if e >= 11 {
                    lemma_two_to_monotonic(11, e as nat);
                }
                lemma_two_to_monotonic((e + 1) as nat, 11);
            }
            k = k / 2;
            e = e + 1;
            p = p * 2;
        }
        proof {
            assert(excess(k as int) == 0);
            assert(MANTISSA * p <= n && n < (2 * MANTISSA) * p) by (nonlinear_arith)
                requires
                    k * p <= n < (k + 1) * p,
                    MANTISSA <= k < 2 * MANTISSA,
                    p >= 1,
            ;
            lemma_half_even_bounds(n as int, p as int, MANTISSA as int, 2 * MANTISSA);
        }
        let m: u128 = divide_half_even(n as u128, p as u128);
        Double { m: m as u64, t: 11 - e }
    } else {
        let mut m: u64 = n;
        let mut t: u32 = 11;
        proof {
            lemma_two_to_table();
            reveal_with_fuel(two_to, 1);
        }
        while m < MANTISSA
            invariant
                0 < m < 2 * MANTISSA,
                11 <= t,
                widened(m as int, t as int) == widened(n as int, 11),
                m >= two_to((t - 11) as nat),
                two_to(52) == MANTISSA,
            decreases 2 * MANTISSA - m,
        {
            proof {
                if t - 11 >= 52 {
                    lemma_two_to_monotonic(52, (t - 11) as nat);
                }
            }
            m = m * 2;
            t += 1;
        }
        proof {
            if t > 63 {
                lemma_two_to_monotonic(53, (t - 11) as nat);
                assert(two_to(53) == 2 * two_to(52));
            }
        }
        Double { m, t }
    }
}

/// A double divided by a base of about a thousand.
pub fn divided(d: Double, base: u64) -> (q: Double)
    requires
        d.is_normal(),
        d.t <= 105,
        1000 <= base <= 1024,
    ensures
        q.pair() == quotient(d.pair(), base as int),
        q.is_normal(),
        q.t <= d.t + 10,
{
    let m: u128 = d.m as u128;
    let b: u128 = base as u128;
    let top: u128 = 2 * MANTISSA as u128;
    assert(b * top <= 1024 * top) by (nonlinear_arith)
        requires
            0 <= b <= 1024,
            top >= 0,
    ;
    if m * 1024 < b * top {
        proof {
            lemma_half_even_bounds(m * 1024, b as int, MANTISSA as int, 2 * MANTISSA);
        }
        let q: u128 = divide_half_even(m * 1024, b);
        Double { m: q as u64, t: d.t + 10 }
    } else {
        proof {
            lemma_half_even_bounds(m * 512, b as int, MANTISSA as int, 2 * MANTISSA);
        }
        let q: u128 = divide_half_even(m * 512, b);
        Double { m: q as u64, t: d.t + 9 }
    }
}

/// Whether a double is at least `c`.
pub fn is_at_least(d: Double, c: u64) -> (r: bool)
    requires
        d.is_normal(),
        c <= 1024,
    ensures
        r == at_least(d.pair(), c as int),
{
    let p: u128 = power_of_two(d.t);
    assert(c * p <= 1024 * 0x8_0000_0000_0000_0000_0000_0000_0000) by (nonlinear_arith)
        requires
            0 <= c <= 1024,
            0 <= p <= 0x8_0000_0000_0000_0000_0000_0000_0000,
    ;
    d.m as u128 * 2048 >= c as u128 * p
}

/// A double times 1, 10 or 100, rounded to a whole number.
pub fn round_times(d: Double, f: u64) -> (r: u128)
    requires
        d.is_normal(),
        f <= 100,
    ensures
        r == rounded(d.pair(), f as int),
{
    let p: u128 = power_of_two(d.t);
    let a: u128 = d.m as u128 * 2048;
    assert(a * f <= 2 * MANTISSA * 2048 * 100) by (nonlinear_arith)
        requires
            0 <= a <= 2 * MANTISSA * 2048,
            0 <= f <= 100,
    ;
    divide_half_even(a * f as u128, p)
}

/// A whole number below 2^53 is its own double.
pub proof fn law_small_numbers_exact(n: int)
    requires
        0 < n < 2 * MANTISSA,
    ensures
        nearest(n).0 * 2048 == n * two_to(nearest(n).1 as nat),
{
    lemma_two_to_table();
    lemma_widened_exact(n, 11, n);
}

proof fn lemma_widened_exact(m: int, t: int, n: int)
    requires
        t >= 0,
        0 < m,
        m * 2048 == n * two_to(t as nat),
    ensures
        widened(m, t).0 * 2048 == n * two_to(widened(m, t).1 as nat),
    decreases 2 * MANTISSA - m,
{
    if m < MANTISSA {
        assert(two_to((t + 1) as nat) == 2 * two_to(t as nat));
        assert(2 * m * 2048 == n * (2 * two_to(t as nat))) by (nonlinear_arith)
            requires
                m * 2048 == n * two_to(t as nat),
        ;
        lemma_widened_exact(2 * m, t + 1, n);
    }
}

/// Rounding gives the nearest whole number: what it is off by is at most a half, and where it
/// is just a half, the number is even.
pub proof fn law_half_even_is_nearest(a: int, b: int)
    requires
        b > 0,
    ensures
        -b <= 2 * (half_even(a, b) * b - a) <= b,
        2 * (half_even(a, b) * b - a) == b || 2 * (half_even(a, b) * b - a) == -b ==> half_even(a, b)
            % 2 == 0,
{
    let (q, r) = (a / b, a % b);
    assert(a == q * b + r && 0 <= r < b) by (nonlinear_arith)
        requires
            b > 0,
            q == a / b,
            r == a % b,
    ;
    assert((q + 1) * b == q * b + b) by (nonlinear_arith);
}

} // verus!
