//! Sizes, counts and times as they are shown.

use crate::decimal::{
    all_digits, decimal, digit, digit_char, digits, is_digit, law_digits_round_trip, magnitude, padded,
    push_decimal, push_digits, push_padded, push_wide_digits,
};
use crate::double::{
    at_least, divided, double_of, half_even, is_at_least, law_half_even_is_nearest,
    law_small_numbers_exact, lemma_two_to_monotonic, nearest, quotient, round_times, rounded, two_to,
    widened, Double, MANTISSA,
};
use vstd::prelude::*;

verus! {

/// What sizes are counted in.
#[derive(Copy, Clone, Debug, PartialEq, Eq, Structural)]
pub struct Units {
    pub binary: bool,
}

impl Default for Units {
    /// Steps of 1024.
    fn default() -> (r: Self)
        ensures
            r.binary,
    {
        Units { binary: true }
    }
}

impl Units {
    /// What one unit is of the next smaller.
    pub open spec fn step(self) -> int {
        if self.binary {
            1024
        } else {
            1000
        }
    }
}

/// Switches between steps of 1024 and steps of 1000.
pub fn set_binary_units(units: &mut Units, binary: bool)
    ensures
        final(units).binary == binary,
{
    units.binary = binary;
}

/// Whether sizes are shown in steps of 1024.
pub fn binary_units(units: &Units) -> (r: bool)
    ensures
        r == units.binary,
{
    units.binary
}

/// `d`, which is in unit `i`, divided by `base` until it is below `base` or in unit
/// `last`.
pub open spec fn scaled(d: (int, int), base: int, i: int, last: int) -> ((int, int), int)
    decreases last - i,
{
    if i < last && at_least(d, base) {
        scaled(quotient(d, base), base, i + 1, last)
    } else {
        (d, i)
    }
}

/// The name of the unit that is `base` to the power `i` bytes.
pub open spec fn unit_name(i: int) -> Seq<char> {
    if i == 0 {
        "B"@
    } else if i == 1 {
        "KB"@
    } else if i == 2 {
        "MB"@
    } else if i == 3 {
        "GB"@
    } else if i == 4 {
        "TB"@
    } else {
        "PB"@
    }
}

/// A double with `places` digits behind the point.
pub open spec fn fixed_text(d: (int, int), places: int) -> Seq<char> {
    if places == 0 {
        digits(rounded(d, 1) as nat)
    } else if places == 1 {
        let r = rounded(d, 10);
        digits((r / 10) as nat) + seq!['.', digit(r % 10)]
    } else {
        let r = rounded(d, 100);
        digits((r / 100) as nat) + seq!['.', digit((r / 10) % 10), digit(r % 10)]
    }
}

/// How many digits behind the point a size is shown with: fewer as it grows.
pub open spec fn places_for(d: (int, int)) -> int {
    if at_least(d, 100) {
        0
    } else if at_least(d, 10) {
        1
    } else {
        2
    }
}

/// A size as it is shown: in bytes below one KB, else in the largest unit up to PB
/// of which it is at least one.
pub open spec fn bytes_text(n: int, base: int) -> Seq<char> {
    if n < base {
        decimal(n) + " B"@
    } else {
        let (d, i) = scaled(quotient(nearest(n), base), base, 1, 5);
        fixed_text(d, places_for(d)) + seq![' '] + unit_name(i)
    }
}

fn name_of_unit(i: usize) -> (r: &'static str)
    ensures
        r@ == unit_name(i as int),
{
    if i == 0 {
        "B"
    } else if i == 1 {
        "KB"
    } else if i == 2 {
        "MB"
    } else if i == 3 {
        "GB"
    } else if i == 4 {
        "TB"
    } else {
        "PB"
    }
}

fn push_fixed(out: &mut String, d: Double, places: usize)
    requires
        d.is_normal(),
        places <= 2,
    ensures
        final(out)@ == old(out)@ + fixed_text(d.pair(), places as int),
{
    let ghost before = out@;
    if places == 0 {
        push_wide_digits(out, round_times(d, 1));
    } else if places == 1 {
        let r: u128 = round_times(d, 10);
        push_wide_digits(out, r / 10);
        out.push('.');
        out.push(digit_char((r % 10) as u64));
        assert(out@ =~= before + fixed_text(d.pair(), 1));
    } else {
        let r: u128 = round_times(d, 100);
        push_wide_digits(out, r / 100);
        out.push('.');
        out.push(digit_char(((r / 10) % 10) as u64));
        out.push(digit_char((r % 10) as u64));
        assert(out@ =~= before + fixed_text(d.pair(), 2));
    }
}

/// Divides `d` down to the unit it is shown in.
fn scale(d: Double, base: u64, first: usize, last: usize) -> (r: (Double, usize))
    requires
        d.is_normal(),
        first <= last <= 5,
        d.t + 10 * (last - first) <= 115,
        1000 <= base <= 1024,
    ensures
        r.0.is_normal(),
        (r.0.pair(), r.1 as int) == scaled(d.pair(), base as int, first as int, last as int),
{
    let mut v = d;
    let mut i: usize = first;
    while i < last && is_at_least(v, base)
        invariant
            first <= i <= last <= 5,
            v.is_normal(),
            v.t + 10 * (last - i) <= 115,
            1000 <= base <= 1024,
            scaled(v.pair(), base as int, i as int, last as int) == scaled(
                d.pair(),
                base as int,
                first as int,
                last as int,
            ),
        decreases last - i,
    {
        v = divided(v, base);
        i += 1;
    }
    (v, i)
}

/// A size as it is shown: bytes below one KB, then KB, MB, GB, TB and PB with two,
/// one or no digits behind the point as the number grows.
pub fn format_bytes(n: i64, units: &Units) -> (r: String)
    ensures
        r@ == bytes_text(n as int, units.step()),
{
    let base: u64 = if units.binary {
        1024
    } else {
        1000
    };
    let mut r = String::new();
    if n < base as i64 {
        push_decimal(&mut r, n);
        r.append(" B");
        assert(r@ =~= bytes_text(n as int, base as int));
        return r;
    }
    let d = divided(double_of(n as u64), base);
    let (v, i) = scale(d, base, 1, 5);
    let places: usize = if is_at_least(v, 100) {
        0
    } else if is_at_least(v, 10) {
        1
    } else {
        2
    };
    push_fixed(&mut r, v, places);
    r.push(' ');
    r.append(name_of_unit(i));
    assert(r@ =~= bytes_text(n as int, base as int));
    r
}

/// 1024 to the power `i`.
pub open spec fn kibi(i: int) -> int
    decreases i,
{
    if i <= 0 {
        1
    } else {
        1024 * kibi(i - 1)
    }
}

/// Dividing by 1024 loses nothing: a size below 2^53 in binary units is shown as
/// its exact quotient, rounded once, to the digits that are shown.
pub proof fn law_binary_sizes_exact(n: int)
    requires
        1024 <= n < 2 * MANTISSA,
    ensures
        ({
            let (d, i) = scaled(quotient(nearest(n), 1024), 1024, 1, 5);
            d.0 * 2048 * kibi(i) == n * two_to(d.1 as nat)
        }),
{
    law_small_numbers_exact(n);
    lemma_widened_mantissa(n, 11);
    let d = nearest(n);
    lemma_quotient_exact(d, n, 1);
    reveal_with_fuel(kibi, 2);
    assert(d.0 * 2048 * kibi(0) == n * two_to(d.1 as nat));
    lemma_scaled_exact(quotient(d, 1024), n, 1);
}

proof fn lemma_widened_mantissa(m: int, t: int)
    requires
        0 < m < 2 * MANTISSA,
        t >= 0,
    ensures
        MANTISSA <= widened(m, t).0 < 2 * MANTISSA,
        widened(m, t).1 >= t,
    decreases 2 * MANTISSA - m,
{
    if m < MANTISSA {
        lemma_widened_mantissa(2 * m, t + 1);
    }
}

proof fn lemma_quotient_exact(d: (int, int), n: int, i: int)
    requires
        i >= 1,
        0 < d.0 < 2 * MANTISSA,
        d.1 >= 0,
        d.0 * 2048 * kibi(i - 1) == n * two_to(d.1 as nat),
    ensures
        quotient(d, 1024) == (d.0, d.1 + 10),
        d.0 * 2048 * kibi(i) == n * two_to((d.1 + 10) as nat),
{
    assert(half_even(d.0 * 1024, 1024) == d.0);
    reveal_with_fuel(two_to, 11);
    let p = two_to(d.1 as nat);
    let k = kibi(i - 1);
    assert(two_to((d.1 + 10) as nat) == 1024 * p);
    assert(d.0 * 2048 * (1024 * k) == n * (1024 * p)) by (nonlinear_arith)
        requires
            d.0 * 2048 * k == n * p,
    ;
}

proof fn lemma_scaled_exact(d: (int, int), n: int, i: int)
    requires
        1 <= i <= 5,
        0 < d.0 < 2 * MANTISSA,
        d.1 >= 0,
        d.0 * 2048 * kibi(i) == n * two_to(d.1 as nat),
    ensures
        ({
            let (e, j) = scaled(d, 1024, i, 5);
            e.0 * 2048 * kibi(j) == n * two_to(e.1 as nat)
        }),
    decreases 5 - i,
{
    if i < 5 && at_least(d, 1024) {
        lemma_quotient_exact(d, n, i + 1);
        lemma_scaled_exact(quotient(d, 1024), n, i + 1);
    }
}

/// A size as the command line shows it: one digit behind the point, in the largest
/// unit up to TB of which it is at least one.
pub open spec fn plain_bytes_text(n: int) -> Seq<char> {
    if n == 0 {
        "0.0 B"@
    } else if n < 0 {
        seq!['-'] + fixed_text(nearest(-n), 1) + " B"@
    } else {
        let (d, i) = scaled(nearest(n), 1024, 0, 4);
        fixed_text(d, 1) + seq![' '] + unit_name(i)
    }
}

pub fn fmt_bytes(n: i64) -> (r: String)
    ensures
        r@ == plain_bytes_text(n as int),
{
    if n == 0 {
        return "0.0 B".to_owned();
    }
    let mut r = String::new();
    if n < 0 {
        r.push('-');
        push_fixed(&mut r, double_of(magnitude(n)), 1);
        r.append(" B");
        assert(r@ =~= plain_bytes_text(n as int));
        return r;
    }
    let (v, i) = scale(double_of(n as u64), 1024, 0, 4);
    push_fixed(&mut r, v, 1);
    r.push(' ');
    r.append(name_of_unit(i));
    assert(r@ =~= plain_bytes_text(n as int));
    r
}

/// Digits in groups of three, counted from the right, with commas between them.
pub open spec fn grouped(d: Seq<char>) -> Seq<char>
    decreases d.len(),
{
    if d.len() <= 3 {
        d
    } else {
        grouped(d.take(d.len() - 3)) + seq![','] + d.skip(d.len() - 3)
    }
}

/// A count as it is shown.
pub open spec fn count_text(n: int) -> Seq<char> {
    if n < 0 {
        seq!['-'] + grouped(digits((-n) as nat))
    } else {
        grouped(digits(n as nat))
    }
}

/// Appends the digits of `n` in groups of three.
fn push_grouped(out: &mut String, n: u64)
    ensures
        final(out)@ == old(out)@ + grouped(digits(n as nat)),
    decreases n,
{
    let ghost before = out@;
    proof {
        lemma_last_three(n as nat);
    }
    if n < 1000 {
        push_digits(out, n);
    } else {
        push_grouped(out, n / 1000);
        out.push(',');
        push_padded(out, n % 1000, 3);
        assert(out@ =~= before + grouped(digits(n as nat)));
    }
}

/// The digits of a number are those of its thousands and the last three.
proof fn lemma_last_three(n: nat)
    ensures
        n < 1000 ==> digits(n).len() <= 3,
        n >= 1000 ==> {
            &&& digits(n).len() > 3
            &&& digits(n).take(digits(n).len() - 3) == digits(n / 1000)
            &&& digits(n).skip(digits(n).len() - 3) == padded(n % 1000, 3)
        },
{
    reveal_with_fuel(digits, 4);
    if n >= 1000 {
        let (h, r) = (n / 1000, n % 1000);
        let (a, b, c) = (r / 100, (r % 100) / 10, r % 10);
        lemma_split_digits(n as int, h as int, a as int, b as int, c as int);
        let d = digits(n);
        let head = digits(h);
        let tail = seq![digit(a as int), digit(b as int), digit(c as int)];
        assert(n / 10 == 100 * h + 10 * a + b && (n / 10) / 10 == 10 * h + a);
        assert(digits(10 * h + a) == digits(h).push(digit(a as int)));
        assert(digits(n / 10) == digits(10 * h + a).push(digit(b as int)));
        assert(d == digits(n / 10).push(digit(c as int)));
        assert(head.len() >= 1);
        assert(d =~= head + tail);
        assert(d.take(d.len() - 3) =~= head);
        assert(d.skip(d.len() - 3) =~= tail);
        lemma_padded_three(r, a, b, c);
    }
}

proof fn lemma_split_digits(n: int, h: int, a: int, b: int, c: int)
    requires
        n >= 1000,
        h == n / 1000,
        a == (n % 1000) / 100,
        b == ((n % 1000) % 100) / 10,
        c == (n % 1000) % 10,
    ensures
        n % 1000 == 100 * a + 10 * b + c,
        0 <= a < 10,
        0 <= b < 10,
        0 <= c < 10,
        n / 10 == 100 * h + 10 * a + b,
        n % 10 == c,
        (100 * h + 10 * a + b) / 10 == 10 * h + a,
        (100 * h + 10 * a + b) % 10 == b,
        (10 * h + a) / 10 == h,
        (10 * h + a) % 10 == a,
        h >= 1,
{
    let r = n % 1000;
    vstd::arithmetic::div_mod::lemma_fundamental_div_mod(n, 1000);
    assert(r == 100 * a + 10 * b + c) by {
        vstd::arithmetic::div_mod::lemma_fundamental_div_mod(r, 100);
        vstd::arithmetic::div_mod::lemma_fundamental_div_mod(r % 100, 10);
        vstd::arithmetic::div_mod::lemma_mod_mod(r, 10, 10);
    }
    vstd::arithmetic::div_mod::lemma_fundamental_div_mod_converse(n, 10, 100 * h + 10 * a + b, c);
    vstd::arithmetic::div_mod::lemma_fundamental_div_mod_converse(
        100 * h + 10 * a + b,
        10,
        10 * h + a,
        b,
    );
    vstd::arithmetic::div_mod::lemma_fundamental_div_mod_converse(10 * h + a, 10, h, a);
}

proof fn lemma_padded_three(r: nat, a: nat, b: nat, c: nat)
    requires
        r == 100 * a + 10 * b + c,
        a < 10,
        b < 10,
        c < 10,
    ensures
        padded(r, 3) == seq![digit(a as int), digit(b as int), digit(c as int)],
{
    reveal_with_fuel(digits, 4);
    let tail = seq![digit(a as int), digit(b as int), digit(c as int)];
    if r < 10 {
        assert(a == 0 && b == 0);
        assert(digits(r) =~= seq![digit(c as int)]);
        assert(crate::decimal::zeros(2) + digits(r) =~= tail);
    } else {
        vstd::arithmetic::div_mod::lemma_fundamental_div_mod_converse(
            r as int,
            10,
            (10 * a + b) as int,
            c as int,
        );
        if r < 100 {
            assert(a == 0);
            assert(digits(r) =~= seq![digit(b as int), digit(c as int)]);
            assert(crate::decimal::zeros(1) + digits(r) =~= tail);
        } else {
            vstd::arithmetic::div_mod::lemma_fundamental_div_mod_converse(
                (10 * a + b) as int,
                10,
                a as int,
                b as int,
            );
            assert(digits(r) =~= tail);
        }
    }
}

/// A whole number with commas between groups of three digits.
pub fn format_count(n: i64) -> (r: String)
    ensures
        r@ == count_text(n as int),
{
    let mut r = String::new();
    if n < 0 {
        r.push('-');
        push_grouped(&mut r, magnitude(n));
        assert(r@ =~= count_text(n as int));
    } else {
        push_grouped(&mut r, n as u64);
        assert(r@ =~= count_text(n as int));
    }
    r
}

/// `s` without its commas.
pub open spec fn without_commas(s: Seq<char>) -> Seq<char> {
    s.filter(|c: char| c != ',')
}

/// Leaving out the commas of a count gives the number back.
pub proof fn law_commas_only_added(n: int)
    ensures
        without_commas(count_text(n)) == decimal(n),
{
    broadcast use vstd::seq_lib::group_filter_ensures;
    let f = |c: char| c != ',';
    let k: nat = if n < 0 {
        (-n) as nat
    } else {
        n as nat
    };
    crate::decimal::law_digits_round_trip(k);
    lemma_ungroup(digits(k));
    if n < 0 {
        Seq::filter_distributes_over_add(seq!['-'], grouped(digits(k)), f);
        lemma_keep_one('-');
    }
}

proof fn lemma_keep_one(c: char)
    requires
        c != ',',
    ensures
        seq![c].filter(|c: char| c != ',') == seq![c],
{
    reveal_with_fuel(Seq::filter, 2);
    assert(seq![c].drop_last() =~= Seq::empty());
    assert(seq![c].filter(|c: char| c != ',') =~= seq![c]);
}

proof fn lemma_ungroup(d: Seq<char>)
    requires
        crate::decimal::all_digits(d),
    ensures
        without_commas(grouped(d)) == d,
    decreases d.len(),
{
    let f = |c: char| c != ',';
    if d.len() <= 3 {
        lemma_keep_all(d);
    } else {
        let (head, tail) = (d.take(d.len() - 3), d.skip(d.len() - 3));
        assert forall|i: int| 0 <= i < head.len() implies crate::decimal::is_digit(
            #[trigger] head[i],
        ) by {
            assert(head[i] == d[i]);
        }
        assert forall|i: int| 0 <= i < tail.len() implies crate::decimal::is_digit(
            #[trigger] tail[i],
        ) by {
            assert(tail[i] == d[d.len() - 3 + i]);
        }
        lemma_ungroup(head);
        lemma_keep_all(tail);
        Seq::filter_distributes_over_add(grouped(head) + seq![','], tail, f);
        Seq::filter_distributes_over_add(grouped(head), seq![','], f);
        reveal_with_fuel(Seq::filter, 2);
        assert(seq![','].drop_last() =~= Seq::empty());
        assert(seq![','].filter(f) =~= Seq::empty());
        assert(head + Seq::empty() + tail =~= d);
    }
}

proof fn lemma_keep_all(d: Seq<char>)
    requires
        crate::decimal::all_digits(d),
    ensures
        d.filter(|c: char| c != ',') == d,
    decreases d.len(),
{
    reveal(Seq::filter);
    if d.len() > 0 {
        assert(crate::decimal::is_digit(d[d.len() - 1]));
        assert forall|i: int| 0 <= i < d.drop_last().len() implies crate::decimal::is_digit(
            #[trigger] d.drop_last()[i],
        ) by {
            assert(d.drop_last()[i] == d[i]);
        }
        lemma_keep_all(d.drop_last());
        assert(d.drop_last().push(d.last()) =~= d);
    }
}

/// A time as `YYYY-MM-DD HH:MM`.
pub open spec fn ymdhm_text(year: nat, month: nat, day: nat, hour: nat, minute: nat) -> Seq<char> {
    padded(year, 4) + seq!['-'] + padded(month, 2) + seq!['-'] + padded(day, 2) + seq![' '] + padded(
        hour,
        2,
    ) + seq![':'] + padded(minute, 2)
}

pub fn format_ymdhm(year: u16, month: u16, day: u16, hour: u16, minute: u16) -> (r: String)
    ensures
        r@ == ymdhm_text(year as nat, month as nat, day as nat, hour as nat, minute as nat),
{
    let mut r = String::new();
    push_padded(&mut r, year as u64, 4);
    r.push('-');
    push_padded(&mut r, month as u64, 2);
    r.push('-');
    push_padded(&mut r, day as u64, 2);
    r.push(' ');
    push_padded(&mut r, hour as u64, 2);
    r.push(':');
    push_padded(&mut r, minute as u64, 2);
    assert(r@ =~= ymdhm_text(year as nat, month as nat, day as nat, hour as nat, minute as nat));
    r
}

/// A time of modification as `local` gives it in the zone of the machine; nothing
/// where the time is not known.
pub fn format_local(ft: i64, local: Option<(u16, u16, u16, u16, u16)>) -> (r: String)
    ensures
        r@ == match local {
            Some((y, m, d, h, min)) if ft != 0 => ymdhm_text(
                y as nat,
                m as nat,
                d as nat,
                h as nat,
                min as nat,
            ),
            _ => Seq::empty(),
        },
{
    match local {
        Some((y, m, d, h, min)) if ft != 0 => format_ymdhm(y, m, d, h, min),
        _ => {
            let r = String::new();
            assert(r@ =~= Seq::empty());
            r
        },
    }
}

/// Whether `r` is the whole number nearest to `f * n / unit`; halfway between two, the even
/// one.
pub open spec fn is_nearest(r: int, f: int, n: int, unit: int) -> bool {
    let miss = r * unit - f * n;
    -unit <= 2 * miss <= unit && (2 * miss == unit || 2 * miss == -unit ==> r % 2 == 0)
}

/// Whether `s` tells the size `n` as `r` of the hundredths, tenths or whole units that it
/// shows, in units of 1024 to the power `i`.
pub open spec fn tells_size(s: Seq<char>, n: int, i: int, r: int) -> bool {
    let unit = kibi(i);
    &&& 1 <= i <= 5
    &&& unit <= n
    &&& i < 5 ==> n < 1024 * unit
    &&& if n < 10 * unit {
        is_nearest(r, 100, n, unit) && s == digits((r / 100) as nat) + seq![
            '.',
            digit(r / 10 % 10),
            digit(r % 10),
        ] + seq![' '] + unit_name(i)
    } else if n < 100 * unit {
        is_nearest(r, 10, n, unit) && s == digits((r / 10) as nat) + seq!['.', digit(r % 10)] + seq![
            ' ',
        ] + unit_name(i)
    } else {
        is_nearest(r, 1, n, unit) && s == digits(r as nat) + seq![' '] + unit_name(i)
    }
}

/// A size below 2^53 is told in the largest unit of which there is at least one, with two
/// digits behind the point below ten of them, with one below a hundred and with none from
/// there on, rounded to the nearest.
pub proof fn law_sizes_are_told(n: int)
    requires
        1024 <= n < 2 * MANTISSA,
    ensures
        exists|i: int, r: int| #[trigger] tells_size(bytes_text(n, 1024), n, i, r),
{
    law_binary_sizes_exact(n);
    law_small_numbers_exact(n);
    lemma_widened_mantissa(n, 11);
    let d = nearest(n);
    lemma_quotient_exact(d, n, 1);
    reveal_with_fuel(kibi, 2);
    lemma_scaled_exact(quotient(d, 1024), n, 1);
    lemma_scaled_unit(quotient(d, 1024), n, 1);
    let (e, i) = scaled(quotient(d, 1024), 1024, 1, 5);
    let unit = kibi(i);
    let p = two_to(e.1 as nat) as int;
    lemma_two_to_monotonic(0, e.1 as nat);
    lemma_at_least(e, n, unit, 10);
    lemma_at_least(e, n, unit, 100);
    lemma_rounded_nearest(e, n, unit, 1);
    lemma_rounded_nearest(e, n, unit, 10);
    lemma_rounded_nearest(e, n, unit, 100);
    let r = if n < 10 * unit {
        rounded(e, 100)
    } else if n < 100 * unit {
        rounded(e, 10)
    } else {
        rounded(e, 1)
    };
    assert(tells_size(bytes_text(n, 1024), n, i, r));
}

proof fn lemma_at_least(e: (int, int), n: int, unit: int, c: int)
    requires
        unit > 0,
        e.0 * 2048 * unit == n * two_to(e.1 as nat),
    ensures
        at_least(e, c) <==> n >= c * unit,
{
    let p = two_to(e.1 as nat) as int;
    lemma_two_to_monotonic(0, e.1 as nat);
    let a = e.0 * 2048;
    assert(a >= c * p <==> n >= c * unit) by (nonlinear_arith)
        requires
            a * unit == n * p,
            unit > 0,
            p > 0,
    ;
}

proof fn lemma_rounded_nearest(e: (int, int), n: int, unit: int, f: int)
    requires
        unit > 0,
        f > 0,
        e.0 * 2048 * unit == n * two_to(e.1 as nat),
    ensures
        is_nearest(rounded(e, f), f, n, unit),
{
    let p = two_to(e.1 as nat) as int;
    lemma_two_to_monotonic(0, e.1 as nat);
    let a = e.0 * 2048 * f;
    let r = rounded(e, f);
    law_half_even_is_nearest(a, p);
    let miss = r * p - a;
    let shown = r * unit - f * n;
    assert(a * unit == f * n * p) by (nonlinear_arith)
        requires
            a == e.0 * 2048 * f,
            e.0 * 2048 * unit == n * p,
    ;
    assert(miss * unit == shown * p) by (nonlinear_arith)
        requires
            miss == r * p - a,
            shown == r * unit - f * n,
            a * unit == f * n * p,
    ;
    assert(-unit <= 2 * shown <= unit) by (nonlinear_arith)
        requires
            miss * unit == shown * p,
            -p <= 2 * miss <= p,
            unit > 0,
            p > 0,
    ;
    assert(2 * shown == unit ==> 2 * miss == p) by (nonlinear_arith)
        requires
            miss * unit == shown * p,
            unit > 0,
            p > 0,
    ;
    assert(2 * shown == -unit ==> 2 * miss == -p) by (nonlinear_arith)
        requires
            miss * unit == shown * p,
            unit > 0,
            p > 0,
    ;
}

proof fn lemma_scaled_unit(d: (int, int), n: int, i: int)
    requires
        1 <= i <= 5,
        0 < d.0 < 2 * MANTISSA,
        d.1 >= 0,
        d.0 * 2048 * kibi(i) == n * two_to(d.1 as nat),
        0 < kibi(i) <= n,
    ensures
        ({
            let (e, j) = scaled(d, 1024, i, 5);
            1 <= j <= 5 && 0 < kibi(j) <= n && (j < 5 ==> n < 1024 * kibi(j))
        }),
    decreases 5 - i,
{
    lemma_at_least(d, n, kibi(i), 1024);
    if i < 5 && at_least(d, 1024) {
        lemma_quotient_exact(d, n, i + 1);
        lemma_scaled_unit(quotient(d, 1024), n, i + 1);
    }
}

/// Whether the character at `k`, counted from the end, is one that parts thousands.
pub open spec fn parts_thousands(s: Seq<char>, k: int) -> bool {
    s[s.len() - 1 - k] == ','
}

/// A comma stands in front of every three digits, and nowhere else.
pub proof fn law_commas_part_thousands(n: nat, k: int)
    requires
        0 <= k < grouped(digits(n)).len(),
    ensures
        parts_thousands(grouped(digits(n)), k) <==> k % 4 == 3,
        grouped(digits(n))[0] != ',',
{
    law_digits_round_trip(n);
    lemma_commas(digits(n), k);
}

proof fn lemma_commas(d: Seq<char>, k: int)
    requires
        d.len() > 0,
        all_digits(d),
        0 <= k < grouped(d).len(),
    ensures
        parts_thousands(grouped(d), k) <==> k % 4 == 3,
        grouped(d)[0] != ',',
    decreases d.len(),
{
    let g = grouped(d);
    if d.len() <= 3 {
        assert(is_digit(d[d.len() - 1 - k]));
        assert(is_digit(d[0]));
    } else {
        let (head, tail) = (d.take(d.len() - 3), d.skip(d.len() - 3));
        let gh = grouped(head);
        assert forall|i: int| 0 <= i < head.len() implies is_digit(#[trigger] head[i]) by {
            assert(head[i] == d[i]);
        }
        assert(gh.len() > 0) by {
            lemma_grouped_some(head);
        }
        lemma_commas(head, 0);
        assert(g[0] == gh[0]);
        if k < 3 {
            assert(g[g.len() - 1 - k] == tail[2 - k]);
            assert(tail[2 - k] == d[d.len() - 1 - k]);
            assert(is_digit(d[d.len() - 1 - k]));
        } else if k > 3 {
            lemma_commas(head, k - 4);
            assert(g[g.len() - 1 - k] == gh[gh.len() - 1 - (k - 4)]);
        }
    }
}

proof fn lemma_grouped_some(d: Seq<char>)
    requires
        d.len() > 0,
    ensures
        grouped(d).len() > 0,
{
}

} // verus!
