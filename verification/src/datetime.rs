//! Times as Windows FILETIMEs, 100-nanosecond ticks since 1601-01-01 UTC, and as
//! dates of the Gregorian calendar.

use crate::decimal::{digit, digits, padded, push_padded};
use std::time::{SystemTime, UNIX_EPOCH};
use vstd::prelude::*;

verus! {

/// Ticks between 1601-01-01 and 1970-01-01.
pub const EPOCH_DIFF_TICKS: i64 = 116_444_736_000_000_000;

/// Whole days between 1601-01-01 and 1970-01-01.
pub const EPOCH_DIFF_DAYS: i64 = 134_774;

/// Whether `y` is a leap year.
pub open spec fn is_leap(y: int) -> bool {
    y % 4 == 0 && (y % 100 != 0 || y % 400 == 0)
}

/// How many days month `m` of year `y` has.
pub open spec fn month_days(y: int, m: int) -> int {
    if m == 2 {
        if is_leap(y) {
            29
        } else {
            28
        }
    } else if m == 4 || m == 6 || m == 9 || m == 11 {
        30
    } else {
        31
    }
}

/// Whether there is such a day.
pub open spec fn is_date(y: int, m: int, d: int) -> bool {
    1 <= m <= 12 && 1 <= d <= month_days(y, m)
}

/// How many days of year `y` come before month `m`.
pub open spec fn days_before_month(y: int, m: int) -> int
    decreases m,
{
    if m <= 1 {
        0
    } else {
        days_before_month(y, m - 1) + month_days(y, m - 1)
    }
}

/// How many leap years there are from year 1 up to year `y`, counted backwards for
/// years before.
pub open spec fn leap_years_to(y: int) -> int {
    y / 4 - y / 100 + y / 400
}

/// The days from 1970-01-01 to the first day of year `y`.
pub open spec fn year_start(y: int) -> int {
    365 * y + leap_years_to(y - 1) - 719_527
}

/// The days from 1970-01-01 to a date.
pub open spec fn day_number(y: int, m: int, d: int) -> int {
    year_start(y) + days_before_month(y, m) + d - 1
}

/// Years follow one another: a leap year has 366 days, any other 365.
pub proof fn law_year_length(y: int)
    ensures
        year_start(y + 1) - year_start(y) == if is_leap(y) {
            366int
        } else {
            365
        },
        year_start(1970) == 0,
{
    lemma_multiples_step(y, 4);
    lemma_multiples_step(y, 100);
    lemma_multiples_step(y, 400);
    lemma_factor(y, 100, 4);
    lemma_factor(y, 4, 25);
}

/// A multiple of `n` is passed where there is one.
proof fn lemma_multiples_step(y: int, n: int)
    requires
        n > 0,
    ensures
        y / n - (y - 1) / n == if y % n == 0 {
            1int
        } else {
            0
        },
{
    let (q, r) = (y / n, y % n);
    vstd::arithmetic::div_mod::lemma_fundamental_div_mod(y, n);
    assert(y == q * n + r) by (nonlinear_arith)
        requires
            y == n * q + r,
    ;
    if r == 0 {
        assert(y - 1 == (q - 1) * n + (n - 1)) by (nonlinear_arith)
            requires
                y == q * n,
        ;
        vstd::arithmetic::div_mod::lemma_fundamental_div_mod_converse(y - 1, n, q - 1, n - 1);
    } else {
        vstd::arithmetic::div_mod::lemma_fundamental_div_mod_converse(y - 1, n, q, r - 1);
    }
}

/// A multiple of `a * b` is a multiple of `a`.
proof fn lemma_factor(y: int, a: int, b: int)
    requires
        a > 0,
        b > 0,
    ensures
        y % (a * b) == 0 ==> y % a == 0,
{
    if y % (a * b) == 0 {
        let q = y / (a * b);
        assert(a * b > 0) by (nonlinear_arith)
            requires
                a > 0,
                b > 0,
        ;
        vstd::arithmetic::div_mod::lemma_fundamental_div_mod(y, a * b);
        assert(y == (b * q) * a + 0) by (nonlinear_arith)
            requires
                y == (a * b) * q,
        ;
        vstd::arithmetic::div_mod::lemma_fundamental_div_mod_converse(y, a, b * q, 0);
    }
}

proof fn lemma_month_starts(y: int)
    ensures
        days_before_month(y, 1) == 0,
        days_before_month(y, 2) == 31,
        ({
            let f = 59 + if is_leap(y) {
                1int
            } else {
                0
            };
            &&& days_before_month(y, 3) == f
            &&& days_before_month(y, 4) == f + 31
            &&& days_before_month(y, 5) == f + 61
            &&& days_before_month(y, 6) == f + 92
            &&& days_before_month(y, 7) == f + 122
            &&& days_before_month(y, 8) == f + 153
            &&& days_before_month(y, 9) == f + 184
            &&& days_before_month(y, 10) == f + 214
            &&& days_before_month(y, 11) == f + 245
            &&& days_before_month(y, 12) == f + 275
            &&& days_before_month(y, 13) == f + 306
        }),
{
    reveal_with_fuel(days_before_month, 14);
}

/// The day of a 400-year cycle that begins on a first of March, as a year of the
/// cycle and a day of that year.
proof fn lemma_day_of_era(doe: int, yoe: int)
    requires
        0 <= doe < 146_097,
        yoe == (doe - doe / 1_460 + doe / 36_524 - doe / 146_096) / 365,
    ensures
        0 <= yoe < 400,
        0 <= doe - (365 * yoe + yoe / 4 - yoe / 100) <= 365,
        doe - (365 * yoe + yoe / 4 - yoe / 100) == 365 ==> (yoe + 1) % 4 == 0 && ((yoe + 1) % 100
            != 0 || yoe == 399),
{
    let x = doe as u32;
    assert(({
        let y: u32 = ((x - x / 1_460 + x / 36_524 - x / 146_096) as u32 / 365) as u32;
        let base: u32 = (365 * y + y / 4 - y / 100) as u32;
        &&& y < 400
        &&& base <= x
        &&& x - base <= 365
        &&& (x - base == 365 ==> (y + 1) % 4 == 0 && ((y + 1) % 100 != 0 || y == 399))
    })) by (bit_vector)
        requires
            x < 146_097,
    ;
}

/// Splits a day number into year, month and day.
pub fn civil_from_days(z: i64) -> (r: (i32, u32, u32))
    requires
        day_number(i32::MIN as int, 1, 1) <= z <= day_number(i32::MAX as int, 12, 31),
    ensures
        is_date(r.0 as int, r.1 as int, r.2 as int),
        day_number(r.0 as int, r.1 as int, r.2 as int) == z,
{
    proof {
        lemma_month_starts(i32::MIN as int);
        lemma_month_starts(i32::MAX as int);
    }
    // Days since 0000-03-01, so that a leap day is the last of its year.
    let z1: i64 = z + 719_468;
    let era: i64 = if z1 >= 0 {
        z1 / 146_097
    } else {
        -((146_096 - z1) / 146_097)
    };
    let doe: i64 = z1 - era * 146_097;
    assert(0 <= doe < 146_097);
    let yoe: i64 = (doe - doe / 1_460 + doe / 36_524 - doe / 146_096) / 365;
    proof {
        lemma_day_of_era(doe as int, yoe as int);
    }
    let y: i64 = yoe + era * 400;
    let doy: i64 = doe - (365 * yoe + yoe / 4 - yoe / 100);
    let mp: i64 = (5 * doy + 2) / 153;
    let d: i64 = doy - (153 * mp + 2) / 5 + 1;
    let m: i64 = if mp < 10 {
        mp + 3
    } else {
        mp - 9
    };
    let year: i64 = if m <= 2 {
        y + 1
    } else {
        y
    };
    proof {
        lemma_civil(z as int, era as int, yoe as int, doy as int, mp as int, year as int, m as int, d as int);
        lemma_year_fits(year as int, m as int, d as int);
    }
    (year as i32, m as u32, d as u32)
}

/// The parts of a March-based date make the date of the day.
proof fn lemma_civil(z: int, era: int, yoe: int, doy: int, mp: int, year: int, m: int, d: int)
    requires
        0 <= yoe < 400,
        0 <= doy <= 365,
        z + 719_468 == era * 146_097 + 365 * yoe + yoe / 4 - yoe / 100 + doy,
        doy == 365 ==> (yoe + 1) % 4 == 0 && ((yoe + 1) % 100 != 0 || yoe == 399),
        mp == (5 * doy + 2) / 153,
        d == doy - (153 * mp + 2) / 5 + 1,
        m == if mp < 10 {
            mp + 3
        } else {
            mp - 9
        },
        year == yoe + era * 400 + if m <= 2 {
            1int
        } else {
            0
        },
    ensures
        is_date(year, m, d),
        day_number(year, m, d) == z,
{
    let y = yoe + era * 400;
    lemma_month_starts(year);
    lemma_cycle(era, yoe, 4, 100);
    lemma_cycle(era, yoe, 100, 4);
    lemma_cycle(era, yoe, 400, 1);
    lemma_month_of_day(doy, mp);
    assert(leap_years_to(y) == era * 97 + yoe / 4 - yoe / 100);
    assert(z + 719_468 == 365 * y + leap_years_to(y) + doy);
    if m <= 2 {
        lemma_cycle(era, yoe + 1, 4, 100);
        lemma_cycle(era, yoe + 1, 100, 4);
        lemma_cycle(era, yoe + 1, 400, 1);
        assert(year == yoe + 1 + era * 400);
        assert(doy == 365 ==> is_leap(year));
    } else {
        law_year_length(y);
        lemma_multiples_step(y, 4);
        lemma_multiples_step(y, 100);
        lemma_multiples_step(y, 400);
        lemma_factor(y, 100, 4);
        lemma_factor(y, 4, 25);
        assert(leap_years_to(y) - leap_years_to(y - 1) == if is_leap(y) {
            1int
        } else {
            0
        });
    }
}

/// Whole cycles of 400 years do not matter for where in a shorter cycle a year is.
proof fn lemma_cycle(era: int, yoe: int, n: int, k: int)
    requires
        n > 0,
        n * k == 400,
        0 <= yoe,
    ensures
        (yoe + era * 400) / n == era * k + yoe / n,
        (yoe + era * 400) % n == yoe % n,
{
    let (q, r) = (yoe / n, yoe % n);
    vstd::arithmetic::div_mod::lemma_fundamental_div_mod(yoe, n);
    assert(yoe + era * 400 == (era * k + q) * n + r) by (nonlinear_arith)
        requires
            yoe == n * q + r,
            n * k == 400,
    ;
    vstd::arithmetic::div_mod::lemma_fundamental_div_mod_converse(
        yoe + era * 400,
        n,
        era * k + q,
        r,
    );
}

/// The month of a year that begins in March, and the day it starts on.
proof fn lemma_month_of_day(doy: int, mp: int)
    requires
        0 <= doy <= 365,
        mp == (5 * doy + 2) / 153,
    ensures
        0 <= mp <= 11,
        mp == 0 ==> 0 <= doy < 31 && (153 * mp + 2) / 5 == 0,
        mp == 1 ==> 31 <= doy < 61 && (153 * mp + 2) / 5 == 31,
        mp == 2 ==> 61 <= doy < 92 && (153 * mp + 2) / 5 == 61,
        mp == 3 ==> 92 <= doy < 122 && (153 * mp + 2) / 5 == 92,
        mp == 4 ==> 122 <= doy < 153 && (153 * mp + 2) / 5 == 122,
        mp == 5 ==> 153 <= doy < 184 && (153 * mp + 2) / 5 == 153,
        mp == 6 ==> 184 <= doy < 214 && (153 * mp + 2) / 5 == 184,
        mp == 7 ==> 214 <= doy < 245 && (153 * mp + 2) / 5 == 214,
        mp == 8 ==> 245 <= doy < 275 && (153 * mp + 2) / 5 == 245,
        mp == 9 ==> 275 <= doy < 306 && (153 * mp + 2) / 5 == 275,
        mp == 10 ==> 306 <= doy < 337 && (153 * mp + 2) / 5 == 306,
        mp == 11 ==> 337 <= doy <= 365 && (153 * mp + 2) / 5 == 337,
{
    let x = 5 * doy + 2;
    vstd::arithmetic::div_mod::lemma_fundamental_div_mod(x, 153);
    assert(153 * mp <= x < 153 * mp + 153);
}

/// Later years start later.
proof fn lemma_years_ascend(a: int, b: int)
    requires
        a < b,
    ensures
        year_start(a) + 365 <= year_start(b),
        year_start(a + 1) <= year_start(b),
    decreases b - a,
{
    law_year_length(a);
    if a + 1 < b {
        lemma_years_ascend(a + 1, b);
    }
}

/// A date lies in its year.
proof fn lemma_date_in_year(y: int, m: int, d: int)
    requires
        is_date(y, m, d),
    ensures
        year_start(y) <= day_number(y, m, d) < year_start(y + 1),
{
    lemma_month_starts(y);
    law_year_length(y);
}

proof fn lemma_year_fits(y: int, m: int, d: int)
    requires
        is_date(y, m, d),
        day_number(i32::MIN as int, 1, 1) <= day_number(y, m, d) <= day_number(
            i32::MAX as int,
            12,
            31,
        ),
    ensures
        i32::MIN <= y <= i32::MAX,
{
    lemma_date_in_year(y, m, d);
    lemma_date_in_year(i32::MIN as int, 1, 1);
    lemma_date_in_year(i32::MAX as int, 12, 31);
    lemma_month_starts(i32::MIN as int);
    if y < i32::MIN {
        lemma_years_ascend(y, i32::MIN as int);
    }
    if y > i32::MAX {
        lemma_years_ascend(i32::MAX as int, y);
    }
}

/// A day has only one date.
pub proof fn law_date_unique(y1: int, m1: int, d1: int, y2: int, m2: int, d2: int)
    requires
        is_date(y1, m1, d1),
        is_date(y2, m2, d2),
        day_number(y1, m1, d1) == day_number(y2, m2, d2),
    ensures
        y1 == y2,
        m1 == m2,
        d1 == d2,
{
    lemma_date_in_year(y1, m1, d1);
    lemma_date_in_year(y2, m2, d2);
    if y1 < y2 {
        lemma_years_ascend(y1, y2);
    }
    if y2 < y1 {
        lemma_years_ascend(y2, y1);
    }
    lemma_month_starts(y1);
    assert(m1 == 1 || m1 == 2 || m1 == 3 || m1 == 4 || m1 == 5 || m1 == 6 || m1 == 7 || m1 == 8
        || m1 == 9 || m1 == 10 || m1 == 11 || m1 == 12);
    assert(m2 == 1 || m2 == 2 || m2 == 3 || m2 == 4 || m2 == 5 || m2 == 6 || m2 == 7 || m2 == 8
        || m2 == 9 || m2 == 10 || m2 == 11 || m2 == 12);
}

// ------------------------------------------------------------------ FILETIMEs

/// Whether `r` is the UTC year, month, day, hour, minute and second of the
/// FILETIME `ft`; all zero where `ft` is not positive.
pub open spec fn is_utc_of(r: (i32, u32, u32, u32, u32, u32), ft: int) -> bool {
    if ft <= 0 {
        r == (0i32, 0u32, 0u32, 0u32, 0u32, 0u32)
    } else {
        let secs = ft / 10_000_000;
        &&& is_date(r.0 as int, r.1 as int, r.2 as int)
        &&& day_number(r.0 as int, r.1 as int, r.2 as int) == secs / 86_400 - EPOCH_DIFF_DAYS
        &&& r.3 == (secs % 86_400) / 3_600
        &&& r.4 == (secs % 3_600) / 60
        &&& r.5 == secs % 60
    }
}

/// Breaks a FILETIME into UTC year, month, day, hour, minute and second; all zero
/// for a time that is not known.
pub fn ymdhms_from_filetime(ft: i64) -> (r: (i32, u32, u32, u32, u32, u32))
    ensures
        is_utc_of(r, ft as int),
{
    if ft <= 0 {
        return (0, 0, 0, 0, 0, 0);
    }
    let secs: i64 = ft / 10_000_000;
    let days: i64 = secs / 86_400;
    let of_day: i64 = secs % 86_400;
    let hour: u32 = (of_day / 3_600) as u32;
    let min: u32 = ((of_day % 3_600) / 60) as u32;
    let sec: u32 = (of_day % 60) as u32;
    proof {
        lemma_month_starts(i32::MIN as int);
        lemma_month_starts(i32::MAX as int);
        vstd::arithmetic::div_mod::lemma_mod_mod(secs as int, 3_600, 24);
        vstd::arithmetic::div_mod::lemma_mod_mod(secs as int, 60, 1_440);
    }
    let (y, m, d) = civil_from_days(days - EPOCH_DIFF_DAYS);
    (y, m, d, hour, min, sec)
}

/// A date as `YYYY-MM-DD`.
pub open spec fn date_text(y: int, m: int, d: int) -> Seq<char> {
    padded(y as nat, 4) + seq!['-'] + padded(m as nat, 2) + seq!['-'] + padded(d as nat, 2)
}

/// Whether `s` is the date of the FILETIME `ft`: ten spaces where it is not known.
pub open spec fn is_short_date(s: Seq<char>, ft: int) -> bool {
    if ft <= 0 {
        s == Seq::new(10, |i: int| ' ')
    } else {
        exists|y: int, m: int, d: int|
            #![trigger date_text(y, m, d)]
            is_date(y, m, d) && day_number(y, m, d) == (ft / 10_000_000) / 86_400 - EPOCH_DIFF_DAYS
                && s == date_text(y, m, d)
    }
}

/// The date of a FILETIME as `YYYY-MM-DD`, or as much space for a time that is not
/// known.
pub fn short_date(ft: i64) -> (r: String)
    ensures
        is_short_date(r@, ft as int),
{
    if ft <= 0 {
        proof {
            reveal_strlit("          ");
        }
        let r = "          ".to_owned();
        assert(r@ =~= Seq::new(10, |i: int| ' '));
        return r;
    }
    let (y, m, d, _, _, _) = ymdhms_from_filetime(ft);
    proof {
        lemma_since_1601(y as int, m as int, d as int);
    }
    let mut r = String::new();
    push_padded(&mut r, y as u64, 4);
    r.push('-');
    push_padded(&mut r, m as u64, 2);
    r.push('-');
    push_padded(&mut r, d as u64, 2);
    assert(r@ =~= date_text(y as int, m as int, d as int));
    r
}

/// No FILETIME lies before the year 1601.
proof fn lemma_since_1601(y: int, m: int, d: int)
    requires
        is_date(y, m, d),
        day_number(y, m, d) >= -EPOCH_DIFF_DAYS,
    ensures
        y >= 1601,
{
    lemma_date_in_year(y, m, d);
    if y < 1601 {
        lemma_years_ascend(y, 1601);
    }
}

#[verifier::external_type_specification]
#[verifier::external_body]
pub struct ExSystemTime(SystemTime);

/// Where a `SystemTime` lies relative to 1970-01-01 UTC: whether not before it, and
/// how many seconds and nanoseconds away.
pub uninterp spec fn epoch_offset(t: SystemTime) -> (bool, u64, u32);

/// `SystemTime::duration_since` the Unix epoch: the time passed since then, or, as
/// the error, the time still to pass until then. A number of nanoseconds is always
/// less than a second.
#[verifier::external_body]
fn since_epoch(t: SystemTime) -> (r: (bool, u64, u32))
    ensures
        r == epoch_offset(t),
        r.2 < 1_000_000_000,
{
    match t.duration_since(UNIX_EPOCH) {
        Ok(d) => (true, d.as_secs(), d.subsec_nanos()),
        Err(e) => (false, e.duration().as_secs(), e.duration().subsec_nanos()),
    }
}

/// The FILETIME of an instant that far from 1970-01-01 UTC.
pub open spec fn filetime_at(after: bool, secs: int, nanos: int) -> int {
    let ticks = secs * 10_000_000 + nanos / 100;
    if after {
        EPOCH_DIFF_TICKS + ticks
    } else {
        EPOCH_DIFF_TICKS - ticks
    }
}

/// Whether that FILETIME can be held.
pub open spec fn is_filetime(ft: int) -> bool {
    i64::MIN <= ft <= i64::MAX
}

/// The FILETIME of an instant that many seconds and nanoseconds before or after
/// 1970-01-01 UTC; `None` where it is too far away to be held.
pub fn filetime_from_offset(after: bool, secs: u64, nanos: u32) -> (r: Option<i64>)
    ensures
        r is Some <==> is_filetime(filetime_at(after, secs as int, nanos as int)),
        r is Some ==> r->0 == filetime_at(after, secs as int, nanos as int),
{
    let ticks: i128 = secs as i128 * 10_000_000 + (nanos / 100) as i128;
    let ft: i128 = if after {
        EPOCH_DIFF_TICKS as i128 + ticks
    } else {
        EPOCH_DIFF_TICKS as i128 - ticks
    };
    if i64::MIN as i128 <= ft && ft <= i64::MAX as i128 {
        Some(ft as i64)
    } else {
        None
    }
}

/// The FILETIME of a `SystemTime`; `None` where it is too far away to be held.
pub fn checked_filetime(t: SystemTime) -> (r: Option<i64>)
    ensures
        ({
            let (after, secs, nanos) = epoch_offset(t);
            &&& r is Some <==> is_filetime(filetime_at(after, secs as int, nanos as int))
            &&& r is Some ==> r->0 == filetime_at(after, secs as int, nanos as int)
        }),
{
    let (after, secs, nanos) = since_epoch(t);
    filetime_from_offset(after, secs, nanos)
}

/// The FILETIME of a `SystemTime`, such as a file's time of modification.
pub fn filetime_from_system_time(t: SystemTime) -> (r: i64)
    requires
        is_filetime(
            filetime_at(epoch_offset(t).0, epoch_offset(t).1 as int, epoch_offset(t).2 as int),
        ),
    ensures
        r == filetime_at(epoch_offset(t).0, epoch_offset(t).1 as int, epoch_offset(t).2 as int),
{
    match checked_filetime(t) {
        Some(ft) => ft,
        None => 0,
    }
}

/// An instant and its FILETIME agree on the date: splitting the FILETIME of
/// `secs` seconds after 1970-01-01 gives the day that many seconds lie in.
pub proof fn law_filetime_keeps_date(r: (i32, u32, u32, u32, u32, u32), secs: int, nanos: int)
    requires
        0 <= secs,
        0 <= nanos < 1_000_000_000,
        is_utc_of(r, filetime_at(true, secs, nanos)),
    ensures
        is_date(r.0 as int, r.1 as int, r.2 as int),
        day_number(r.0 as int, r.1 as int, r.2 as int) == secs / 86_400,
        r.3 * 3_600 + r.4 * 60 + r.5 == secs % 86_400,
{
    let ft = filetime_at(true, secs, nanos);
    assert(ft / 10_000_000 == secs + 11_644_473_600);
    let s = secs + 11_644_473_600;
    assert(s % 86_400 == secs % 86_400);
    assert(s / 86_400 == secs / 86_400 + 134_774);
    let t = s % 86_400;
    assert(s % 3_600 == t % 3_600);
    assert(s % 60 == (t % 3_600) % 60);
}

/// A FILETIME shows the day it lies in: 134774 days of 864000000000 ticks each went by before
/// 1970, and any tick of a day has that day's date.
pub proof fn law_short_date_is_the_day(s: Seq<char>, y: int, m: int, d: int, tick: int)
    requires
        is_date(y, m, d),
        0 <= tick < 864_000_000_000,
        0 < (day_number(y, m, d) + 134_774) * 864_000_000_000 + tick,
    ensures
        is_short_date(s, (day_number(y, m, d) + 134_774) * 864_000_000_000 + tick) <==> s == date_text(
            y,
            m,
            d,
        ),
{
    let n = day_number(y, m, d) + 134_774;
    let ft = n * 864_000_000_000 + tick;
    assert((ft / 10_000_000) / 86_400 == n) by (nonlinear_arith)
        requires
            ft == n * 864_000_000_000 + tick,
            0 <= tick < 864_000_000_000,
    ;
    if is_short_date(s, ft) {
        let (a, b, c) = choose|a: int, b: int, c: int|
            #![trigger date_text(a, b, c)]
            is_date(a, b, c) && day_number(a, b, c) == (ft / 10_000_000) / 86_400 - EPOCH_DIFF_DAYS
                && s == date_text(a, b, c);
        law_date_unique(a, b, c, y, m, d);
    }
}

/// A date is written with four digits for the year and two each for month and day, dashes
/// between them.
pub proof fn law_dates_are_ten_wide(y: int, m: int, d: int)
    requires
        is_date(y, m, d),
        0 <= y < 10_000,
    ensures
        date_text(y, m, d) =~= seq![
            digit(y / 1000),
            digit(y / 100 % 10),
            digit(y / 10 % 10),
            digit(y % 10),
            '-',
            digit(m / 10),
            digit(m % 10),
            '-',
            digit(d / 10),
            digit(d % 10),
        ],
{
    lemma_two_digits(m);
    lemma_two_digits(d);
    lemma_four_digits(y);
}

proof fn lemma_two_digits(n: int)
    requires
        0 <= n < 100,
    ensures
        padded(n as nat, 2) =~= seq![digit(n / 10), digit(n % 10)],
{
    reveal_with_fuel(digits, 2);
}

proof fn lemma_four_digits(n: int)
    requires
        0 <= n < 10_000,
    ensures
        padded(n as nat, 4) =~= seq![
            digit(n / 1000),
            digit(n / 100 % 10),
            digit(n / 10 % 10),
            digit(n % 10),
        ],
{
    reveal_with_fuel(digits, 4);
    assert(n / 10 / 10 == n / 100 && n / 100 / 10 == n / 1000);
}

} // verus!
