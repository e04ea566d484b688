//! Whole numbers in decimal notation, written and read.

use crate::text::{chars_of, code_of};
use vstd::prelude::*;

verus! {

/// The character of one decimal digit.
pub open spec fn digit(d: int) -> char {
    (48 + d) as char
}

/// The decimal digits of `n`, without leading zeros.
pub open spec fn digits(n: nat) -> Seq<char>
    decreases n,
{
    if n < 10 {
        seq![digit(n as int)]
    } else {
        digits(n / 10).push(digit((n % 10) as int))
    }
}

/// The decimal notation of a whole number, with a minus sign where it is negative.
pub open spec fn decimal(n: int) -> Seq<char> {
    if n < 0 {
        seq!['-'] + digits((-n) as nat)
    } else {
        digits(n as nat)
    }
}

/// `n` zeros.
pub open spec fn zeros(n: nat) -> Seq<char> {
    Seq::new(n, |i: int| '0')
}

/// The digits of `n`, filled up with leading zeros to at least `width`.
pub open spec fn padded(n: nat, width: nat) -> Seq<char> {
    let d = digits(n);
    if d.len() < width {
        zeros((width - d.len()) as nat) + d
    } else {
        d
    }
}

/// The character of a digit.
pub fn digit_char(d: u64) -> (c: char)
    requires
        d < 10,
    ensures
        c == digit(d as int),
{
    (48 + d as u8) as char
}

/// Appends the digits of `n`.
pub fn push_digits(out: &mut String, n: u64)
    ensures
        final(out)@ == old(out)@ + digits(n as nat),
{
    push_wide_digits(out, n as u128);
}

/// Appends the digits of `n`.
pub fn push_wide_digits(out: &mut String, n: u128)
    ensures
        final(out)@ == old(out)@ + digits(n as nat),
    decreases n,
{
    let ghost before = out@;
    if n >= 10 {
        push_wide_digits(out, n / 10);
        out.push(digit_char((n % 10) as u64));
        assert(out@ =~= before + digits(n as nat));
    } else {
        out.push(digit_char(n as u64));
        assert(out@ =~= before + digits(n as nat));
    }
}

/// Appends the decimal notation of `n`.
pub fn push_decimal(out: &mut String, n: i64)
    ensures
        final(out)@ == old(out)@ + decimal(n as int),
{
    let ghost before = out@;
    if n < 0 {
        out.push('-');
        push_digits(out, magnitude(n));
        assert(out@ =~= before + decimal(n as int));
    } else {
        push_digits(out, n as u64);
    }
}

/// The distance of `n` from zero.
pub fn magnitude(n: i64) -> (m: u64)
    ensures
        m == if n < 0 {
            -n as int
        } else {
            n as int
        },
{
    if n < 0 {
        (-(n + 1)) as u64 + 1
    } else {
        n as u64
    }
}

/// How many digits `n` has.
fn digit_count(n: u64) -> (k: usize)
    ensures
        k == digits(n as nat).len(),
        1 <= k <= 20,
{
    let mut k: usize = 1;
    let mut m: u64 = n;
    proof {
        reveal_with_fuel(pow10, 21);
        lemma_digits_len(n as nat, 20);
    }
    while m >= 10
        invariant
            k + digits(m as nat).len() == digits(n as nat).len() + 1,
            1 <= k,
            digits(n as nat).len() <= 20,
        decreases m,
    {
        m = m / 10;
        assert(digits(m as nat).len() >= 1);
        k += 1;
    }
    k
}

/// A number below ten to the `k` has at most `k` digits.
pub proof fn lemma_digits_len(n: nat, k: nat)
    requires
        k >= 1,
        k <= 20,
        n < pow10(k),
    ensures
        1 <= digits(n).len() <= k,
    decreases n,
{
    reveal_with_fuel(pow10, 2);
    if n >= 10 {
        assert(k > 1) by {
            if k == 1 {
                assert(pow10(1) == 10);
            }
        }
        assert(pow10(k) == 10 * pow10((k - 1) as nat));
        lemma_digits_len(n / 10, (k - 1) as nat);
    }
}

/// Ten to the power `k`.
pub open spec fn pow10(k: nat) -> nat
    decreases k,
{
    if k == 0 {
        1
    } else {
        10 * pow10((k - 1) as nat)
    }
}

/// Appends the digits of `n`, filled up with leading zeros to at least `width`.
pub fn push_padded(out: &mut String, n: u64, width: usize)
    ensures
        final(out)@ == old(out)@ + padded(n as nat, width as nat),
{
    let ghost before = out@;
    let k: usize = digit_count(n);
    let mut i: usize = k;
    while i < width
        invariant
            k <= i,
            i <= width || i == k,
            out@ == before + zeros((i - k) as nat),
        decreases width - i,
    {
        out.push('0');
        i += 1;
        assert(out@ =~= before + zeros((i - k) as nat));
    }
    push_digits(out, n);
    assert(out@ =~= before + padded(n as nat, width as nat));
}

// -------------------------------------------------------------------- reading

/// Whether `c` is a decimal digit.
pub open spec fn is_digit(c: char) -> bool {
    '0' <= c <= '9'
}

/// Whether all of `s` is decimal digits.
pub open spec fn all_digits(s: Seq<char>) -> bool {
    forall|i: int| 0 <= i < s.len() ==> is_digit(#[trigger] s[i])
}

/// The number that a row of digits spells.
pub open spec fn value(s: Seq<char>) -> nat
    decreases s.len(),
{
    if s.len() == 0 {
        0
    } else {
        (10 * value(s.drop_last()) + (s.last() as int - 48)) as nat
    }
}

/// The number that `s` spells, if it is digits only, at least one, and the number
/// is at most `max`.
pub open spec fn parsed_digits(s: Seq<char>, max: nat) -> Option<nat> {
    if s.len() > 0 && all_digits(s) && value(s) <= max {
        Some(value(s))
    } else {
        None
    }
}

/// The number that `s` spells with an optional sign in front, if it lies in
/// `min..=max`.
pub open spec fn parsed_int(s: Seq<char>, min: int, max: int) -> Option<int> {
    let signed = s.len() > 0 && (s[0] == '-' || s[0] == '+');
    let body = if signed {
        s.skip(1)
    } else {
        s
    };
    let v = if signed && s[0] == '-' {
        -(value(body) as int)
    } else {
        value(body) as int
    };
    if body.len() > 0 && all_digits(body) && min <= v <= max {
        Some(v)
    } else {
        None
    }
}

/// Writing a number and reading it back gives the same number.
pub proof fn law_digits_round_trip(n: nat)
    ensures
        digits(n).len() > 0,
        all_digits(digits(n)),
        value(digits(n)) == n,
    decreases n,
{
    if n < 10 {
        let d = digits(n);
        assert(d.drop_last() =~= Seq::empty());
        assert(value(d.drop_last()) == 0);
        assert(d.last() as int == 48 + n);
    } else {
        law_digits_round_trip(n / 10);
        let d = digits(n);
        assert(d.drop_last() =~= digits(n / 10));
        assert(d.last() as int == 48 + n % 10);
        assert forall|i: int| 0 <= i < d.len() implies is_digit(#[trigger] d[i]) by {
            if i < d.len() - 1 {
                assert(d[i] == digits(n / 10)[i]);
            }
        }
    }
}

/// The same for numbers with a sign.
pub proof fn law_decimal_round_trip(n: int, min: int, max: int)
    requires
        min <= n <= max,
    ensures
        parsed_int(decimal(n), min, max) == Some(n),
{
    if n < 0 {
        law_digits_round_trip((-n) as nat);
        assert(decimal(n).skip(1) =~= digits((-n) as nat));
    } else {
        law_digits_round_trip(n as nat);
        assert(is_digit(digits(n as nat)[0]));
    }
}

/// Reads `cs[from..to]` as a row of digits, up to `max`.
pub fn parse_digits(cs: &Vec<char>, from: usize, to: usize, max: u64) -> (r: Option<u64>)
    requires
        from <= to <= cs.len(),
    ensures
        r is Some <==> parsed_digits(cs@.subrange(from as int, to as int), max as nat) is Some,
        r is Some ==> r->0 == parsed_digits(cs@.subrange(from as int, to as int), max as nat)->0,
{
    let ghost all = cs@.subrange(from as int, to as int);
    if from == to {
        return None;
    }
    let mut v: u64 = 0;
    let mut i: usize = from;
    while i < to
        invariant
            from <= i <= to <= cs.len(),
            all == cs@.subrange(from as int, to as int),
            all_digits(all.take(i - from)),
            v == value(all.take(i - from)),
            v <= max,
        decreases to - i,
    {
        let c: char = cs[i];
        let ghost next = all.take(i - from + 1);
        proof {
            assert(next.drop_last() =~= all.take(i - from));
            assert(next.last() == c);
        }
        if !('0' <= c && c <= '9') {
            assert(!is_digit(all[i - from]));
            return None;
        }
        let d: u64 = (code_of(c) - 48) as u64;
        // 10 * v + d > max, without passing the end of the machine's range.
        if v > max / 10 || d > max - 10 * v {
            proof {
                assert(value(next) > max);
                lemma_value_grows(all, i - from + 1);
            }
            return None;
        }
        v = 10 * v + d;
        assert forall|k: int| 0 <= k < next.len() implies is_digit(#[trigger] next[k]) by {
            if k < next.len() - 1 {
                assert(next[k] == all.take(i - from)[k]);
            }
        }
        i += 1;
    }
    assert(all.take(to - from) =~= all);
    Some(v)
}

/// More digits never make a number smaller.
proof fn lemma_value_grows(s: Seq<char>, k: int)
    requires
        0 <= k <= s.len(),
    ensures
        all_digits(s) ==> value(s.take(k)) <= value(s),
    decreases s.len() - k,
{
    if k == s.len() {
        assert(s.take(k) =~= s);
    } else if all_digits(s) {
        lemma_value_grows(s, k + 1);
        assert(s.take(k + 1).drop_last() =~= s.take(k));
        assert(is_digit(s[k]));
        assert(s.take(k + 1).last() == s[k]);
    }
}

/// The number up to `max` that `s` spells, with or without a plus sign in front.
pub open spec fn parsed_count(s: Seq<char>, max: nat) -> Option<nat> {
    if s.len() > 0 && s[0] == '+' {
        parsed_digits(s.skip(1), max)
    } else {
        parsed_digits(s, max)
    }
}

/// Reads `s` as a whole number that is not negative.
pub fn parse_count(s: &str, max: u64) -> (r: Option<u64>)
    ensures
        r is Some <==> parsed_count(s@, max as nat) is Some,
        r is Some ==> r->0 == parsed_count(s@, max as nat)->0,
{
    let cs = chars_of(s);
    let n: usize = cs.len();
    if n > 0 && cs[0] == '+' {
        assert(cs@.subrange(1, n as int) =~= s@.skip(1));
        parse_digits(&cs, 1, n, max)
    } else {
        assert(cs@.subrange(0, n as int) =~= s@);
        parse_digits(&cs, 0, n, max)
    }
}

/// Reads `s` as a whole number with an optional sign.
pub fn parse_i64(s: &str) -> (r: Option<i64>)
    ensures
        r is Some <==> parsed_int(s@, i64::MIN as int, i64::MAX as int) is Some,
        r is Some ==> r->0 == parsed_int(s@, i64::MIN as int, i64::MAX as int)->0,
{
    let cs = chars_of(s);
    let n: usize = cs.len();
    if n > 0 && cs[0] == '-' {
        assert(cs@.subrange(1, n as int) =~= s@.skip(1));
        match parse_digits(&cs, 1, n, 0x8000_0000_0000_0000) {
            Some(v) => if v == 0 {
                Some(0)
            } else {
                Some(-((v - 1) as i64) - 1)
            },
            None => None,
        }
    } else {
        let from: usize = if n > 0 && cs[0] == '+' {
            1
        } else {
            0
        };
        assert(cs@.subrange(1, n as int) =~= s@.skip(1));
        assert(cs@.subrange(0, n as int) =~= s@);
        match parse_digits(&cs, from, n, 0x7FFF_FFFF_FFFF_FFFF) {
            Some(v) => Some(v as i64),
            None => None,
        }
    }
}

} // verus!
