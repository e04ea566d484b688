//! Progress reports: when one is due, and what it says.

use vstd::prelude::*;

verus! {

/// How far a scan has come, as an exact fraction of a hundred; `Unknown` where
/// there is nothing to measure it by.
#[derive(Copy, Clone, Debug, PartialEq, Eq, Structural)]
pub enum Percent {
    Unknown,
    /// `num / den` percent, where `den` is positive.
    Of { num: i128, den: i128 },
}

/// A snapshot of a scan under way.
#[derive(Debug)]
pub struct ScanProgress {
    pub total_size: i64,
    pub files_scanned: i64,
    pub current_path: String,
    pub percent: Percent,
}

/// The least time between two reports, in milliseconds.
pub const REPORT_EVERY_MS: i64 = 80;

/// Whether a report is due at `now`, if the last one was at `last`.
pub open spec fn is_due(now: int, last: int) -> bool {
    now - last >= REPORT_EVERY_MS
}

pub fn report_due(now_ms: i64, last_ms: i64) -> (r: bool)
    requires
        i64::MIN <= now_ms - last_ms <= i64::MAX,
    ensures
        r == is_due(now_ms as int, last_ms as int),
{
    now_ms - last_ms >= REPORT_EVERY_MS
}

/// `scale * part / whole`, held between 0 and `cap_num / cap_den`.
pub open spec fn share(part: int, whole: int, scale: int, cap_num: int, cap_den: int) -> (int, int) {
    if part <= 0 {
        (0, 1)
    } else if scale * part * cap_den >= cap_num * whole {
        (cap_num, cap_den)
    } else {
        (scale * part, whole)
    }
}

/// What a report says of `part` out of `whole`: nothing where `whole` is not known.
pub open spec fn percent_of(
    part: int,
    whole: int,
    scale: int,
    cap_num: int,
    cap_den: int,
) -> Percent {
    if whole > 0 {
        let s = share(part, whole, scale, cap_num, cap_den);
        Percent::Of { num: s.0 as i128, den: s.1 as i128 }
    } else {
        Percent::Unknown
    }
}

fn percent(part: i64, whole: i64, scale: i64, cap_num: i64, cap_den: i64) -> (r: Percent)
    requires
        0 < scale <= 1000,
        0 < cap_num <= 1000,
        0 < cap_den <= 1000,
    ensures
        r == percent_of(
            part as int,
            whole as int,
            scale as int,
            cap_num as int,
            cap_den as int,
        ),
{
    if whole <= 0 {
        return Percent::Unknown;
    }
    if part <= 0 {
        return Percent::Of { num: 0, den: 1 };
    }
    let (p, w, s): (i128, i128, i128) = (part as i128, whole as i128, scale as i128);
    let (n, d): (i128, i128) = (cap_num as i128, cap_den as i128);
    assert(0 < s * p <= 1000 * i64::MAX) by (nonlinear_arith)
        requires
            0 < s <= 1000,
            0 < p <= i64::MAX,
    ;
    let sp: i128 = s * p;
    assert(0 < sp * d <= 1_000_000 * i64::MAX) by (nonlinear_arith)
        requires
            0 < sp <= 1000 * i64::MAX,
            0 < d <= 1000,
    ;
    assert(0 < n * w <= 1000 * i64::MAX) by (nonlinear_arith)
        requires
            0 < n <= 1000,
            0 < w <= i64::MAX,
    ;
    if sp * d >= n * w {
        Percent::Of { num: n, den: d }
    } else {
        Percent::Of { num: sp, den: w }
    }
}

/// What a folder walk reports: bytes found out of the bytes expected, up to 99.5
/// percent.
pub open spec fn walk_percent(found: int, expected: int) -> Percent {
    percent_of(found, expected, 100, 199, 2)
}

pub fn percent_walked(found: i64, expected: i64) -> (r: Percent)
    ensures
        r == walk_percent(found as int, expected as int),
{
    percent(found, expected, 100, 199, 2)
}

/// What a table scan reports: bytes read out of the table's length, scaled to 95
/// percent, so that the last five are left for building the tree.
pub open spec fn table_percent(read: int, length: int) -> Percent {
    percent_of(read, length, 95, 95, 1)
}

pub fn percent_read(read: i64, length: i64) -> (r: Percent)
    ensures
        r == table_percent(read as int, length as int),
{
    percent(read, length, 95, 95, 1)
}

/// No report passes its cap or falls below zero: a walk stays at or below 99.5
/// percent, a table scan at or below 95.
pub proof fn law_percent_capped(part: int, whole: int)
    requires
        i64::MIN <= part <= i64::MAX,
        0 < whole <= i64::MAX,
    ensures
        walk_percent(part, whole) matches Percent::Of { num, den } && den > 0 && num >= 0 && 2 * num
            <= 199 * den,
        table_percent(part, whole) matches Percent::Of { num, den } && den > 0 && num >= 0 && num
            <= 95 * den,
{
}

/// Whether a report gives the fraction `num / den`.
pub open spec fn is_share(p: Percent, num: int, den: int) -> bool {
    match p {
        Percent::Of { num: a, den: b } => b > 0 && a * den == num * b,
        Percent::Unknown => false,
    }
}

/// A report says how much of the whole is done: as long as it stays below its cap, a walk
/// reports a hundred times the part over the whole, and a table scan ninety-five times. It
/// says nothing where the whole is not known, and nothing done is nothing.
pub proof fn law_percent_is_the_share(part: int, whole: int)
    requires
        i64::MIN <= part <= i64::MAX,
        i64::MIN <= whole <= i64::MAX,
    ensures
        whole <= 0 ==> walk_percent(part, whole) is Unknown && table_percent(part, whole) is Unknown,
        whole > 0 && part <= 0 ==> walk_percent(part, whole) == (Percent::Of { num: 0, den: 1 })
            && table_percent(part, whole) == (Percent::Of { num: 0, den: 1 }),
        whole > 0 && part > 0 && 200 * part < 199 * whole ==> is_share(
            walk_percent(part, whole),
            100 * part,
            whole,
        ),
        whole > 0 && part > 0 && 200 * part >= 199 * whole ==> walk_percent(part, whole) == (
        Percent::Of { num: 199, den: 2 }),
        whole > 0 && part > 0 && part < whole ==> is_share(
            table_percent(part, whole),
            95 * part,
            whole,
        ),
        whole > 0 && part >= whole ==> table_percent(part, whole) == (Percent::Of {
            num: 95,
            den: 1,
        }),
{
    assert(100 * part * 2 == 200 * part);
}

} // verus!
