use cluttercutter::datetime::{
    checked_filetime, civil_from_days, filetime_from_offset, filetime_from_system_time, short_date,
    ymdhms_from_filetime, EPOCH_DIFF_TICKS,
};
use cluttercutter::format::{
    binary_units, fmt_bytes, format_bytes, format_count, format_ymdhm, set_binary_units, Units,
};
use cluttercutter::path::{join_native, join_path, normal_root, to_long_path, find_path};
use cluttercutter::shorten::{shorten, shorten_head, truncate};
use std::time::{Duration, UNIX_EPOCH};

#[test]
fn known_filetime_maps_to_expected_utc() {
    // 2007-02-01 12:30:45 UTC. Unix 1170288000 == 2007-02-01 00:00:00Z.
    let secs = 1_170_288_000i64 + 12 * 3600 + 30 * 60 + 45;
    let ft = EPOCH_DIFF_TICKS + secs * 10_000_000;
    let (y, m, d, h, mi, s) = ymdhms_from_filetime(ft);
    assert_eq!((y, m, d, h, mi, s), (2007, 2, 1, 12, 30, 45));
}

#[test]
fn unix_epoch_roundtrips_to_1970() {
    let ft = filetime_from_system_time(UNIX_EPOCH);
    assert_eq!(ft, EPOCH_DIFF_TICKS);
    let (y, m, d, _, _, _) = ymdhms_from_filetime(ft);
    assert_eq!((y, m, d), (1970, 1, 1));
}

#[test]
fn zero_is_blank() {
    assert_eq!(short_date(0).trim(), "");
}

#[test]
fn leap_day_2028() {
    // 2028-02-29 UTC.
    let secs = 1_835_395_200i64; // 2028-02-29 00:00:00 UTC
    let ft = EPOCH_DIFF_TICKS + secs * 10_000_000;
    let (y, m, d, _, _, _) = ymdhms_from_filetime(ft);
    assert_eq!((y, m, d), (2028, 2, 29));
}

#[test]
fn times_before_and_after_the_epoch() {
    let after = UNIX_EPOCH + Duration::new(5, 1_234_567_89);
    assert_eq!(
        checked_filetime(after),
        Some(EPOCH_DIFF_TICKS + 50_000_000 + 1_234_567)
    );
    let before = UNIX_EPOCH - Duration::new(5, 1_234_567_89);
    assert_eq!(
        checked_filetime(before),
        Some(EPOCH_DIFF_TICKS - 50_000_000 - 1_234_567)
    );
    assert_eq!(filetime_from_offset(true, u64::MAX, 0), None);
    assert_eq!(filetime_from_offset(false, 11_644_473_600, 0), Some(0));
}

#[test]
fn calendar_corner_days() {
    assert_eq!(civil_from_days(0), (1970, 1, 1));
    assert_eq!(civil_from_days(-1), (1969, 12, 31));
    assert_eq!(civil_from_days(59), (1970, 3, 1));
    // 2000 is a leap year, 1900 is not.
    assert_eq!(civil_from_days(11_016), (2000, 2, 29));
    assert_eq!(civil_from_days(-25_509), (1900, 2, 28));
    assert_eq!(civil_from_days(-25_508), (1900, 3, 1));
    assert_eq!(ymdhms_from_filetime(-7), (0, 0, 0, 0, 0, 0));
    assert_eq!(ymdhms_from_filetime(1), (1601, 1, 1, 0, 0, 0));
    assert_eq!(short_date(EPOCH_DIFF_TICKS), "1970-01-01");
    assert_eq!(short_date(-1).len(), 10);
}

#[test]
fn join_path_adds_separator() {
    assert_eq!(join_path(r"C:\Users", "file.txt"), r"C:\Users\file.txt");
}

#[test]
fn join_path_respects_existing_trailing_slash() {
    assert_eq!(join_path(r"C:\", "Windows"), r"C:\Windows");
    assert_eq!(join_path(r"D:\a\", "b"), r"D:\a\b");
}

#[test]
fn native_joins_follow_std() {
    let cases = [("/home", "a.txt"), ("/", "tmp"), ("", "a"), ("/a/", "b"), ("/a", "/b"), ("/a", "")];
    for (dir, leaf) in cases {
        let expected = std::path::Path::new(dir).join(leaf).to_string_lossy().into_owned();
        assert_eq!(join_native(dir, leaf), expected, "{dir} {leaf}");
    }
}

#[test]
fn to_long_path_prefixes_local_and_unc() {
    assert_eq!(to_long_path(r"C:\a\b"), r"\\?\C:\a\b");
    assert_eq!(to_long_path(r"\\server\share\f"), r"\\?\UNC\server\share\f");
    // Already-prefixed and empty are passed through unchanged.
    assert_eq!(to_long_path(r"\\?\C:\x"), r"\\?\C:\x");
    assert_eq!(to_long_path(""), "");
}

#[test]
fn long_listings_use_the_long_form() {
    assert_eq!(find_path(r"C:\"), r"C:\*");
    assert_eq!(find_path(r"C:\a"), r"C:\a\*");
    let deep = format!(r"C:\{}", "x".repeat(240));
    assert_eq!(find_path(&deep), format!(r"\\?\{deep}\*"));
}

#[test]
fn roots_are_trimmed_but_drive_roots_kept() {
    assert_eq!(normal_root("  C:\\  "), r"C:\");
    assert_eq!(normal_root(r"C:\data\\"), r"C:\data");
    assert_eq!(normal_root(""), "");
}

#[test]
fn format_bytes_below_kib_is_raw_bytes() {
    let u = Units::default();
    assert_eq!(format_bytes(0, &u), "0 B");
    assert_eq!(format_bytes(1, &u), "1 B");
    assert_eq!(format_bytes(1023, &u), "1023 B");
}

#[test]
fn format_bytes_unit_boundaries() {
    let u = Units::default();
    assert_eq!(format_bytes(1024, &u), "1.00 KB");
    assert_eq!(format_bytes(1024 * 1024, &u), "1.00 MB");
    assert_eq!(format_bytes(1024 * 1024 * 1024, &u), "1.00 GB");
    assert_eq!(format_bytes(1024i64.pow(4), &u), "1.00 TB");
    assert_eq!(format_bytes(1024i64.pow(5), &u), "1.00 PB");
}

#[test]
fn format_bytes_decimal_tiers() {
    let u = Units::default();
    // < 10 -> 2 decimals, < 100 -> 1 decimal, >= 100 -> 0 decimals.
    assert_eq!(format_bytes(1536, &u), "1.50 KB"); // 1.5
    assert_eq!(format_bytes(1024 * 15, &u), "15.0 KB"); // 15.0
    assert_eq!(format_bytes(1024 * 500, &u), "500 KB"); // 500
}

#[test]
fn format_bytes_caps_at_petabytes() {
    let u = Units::default();
    // Even absurdly large values stay in PB (no overflow into a 6th unit).
    assert!(format_bytes(i64::MAX, &u).ends_with(" PB"));
}

fn float_bytes(n: i64, binary: bool) -> String {
    let base: f64 = if binary { 1024.0 } else { 1000.0 };
    if n < base as i64 {
        return format!("{n} B");
    }
    let mut v = n as f64 / base;
    let units = ["KB", "MB", "GB", "TB", "PB"];
    let mut i = 0;
    while v >= base && i < units.len() - 1 {
        v /= base;
        i += 1;
    }
    if v >= 100.0 {
        format!("{v:.0} {}", units[i])
    } else if v >= 10.0 {
        format!("{v:.1} {}", units[i])
    } else {
        format!("{v:.2} {}", units[i])
    }
}

fn float_plain(n: i64) -> String {
    let names = ["B", "KB", "MB", "GB", "TB"];
    let mut v = n as f64;
    let mut u = 0;
    while v >= 1024.0 && u < names.len() - 1 {
        v /= 1024.0;
        u += 1;
    }
    format!("{v:.1} {}", names[u])
}

#[test]
fn sizes_agree_with_floating_point() {
    let mut samples: Vec<i64> = vec![i64::MAX, i64::MIN, -1, -1023, -5000, 0, 1, 999, 1000, 1001];
    let mut x: u64 = 0x9E37_79B9_7F4A_7C15;
    for shift in 0..63u32 {
        let p = 1i64 << shift;
        samples.push(p);
        samples.push(p - 1);
        samples.push(p + 1);
        samples.push(-p);
        for _ in 0..40 {
            x = x.wrapping_mul(6_364_136_223_846_793_005).wrapping_add(1_442_695_040_888_963_407);
            samples.push((x >> (63 - shift)) as i64);
        }
    }
    for k in 1..2000i64 {
        samples.push(k * 1005);
        samples.push(k * 10_485); // near ties in KB
        samples.push(k * 1_000_000 - 5_000);
        samples.push(k * 512);
    }
    for n in samples {
        for binary in [true, false] {
            let u = Units { binary };
            assert_eq!(format_bytes(n, &u), float_bytes(n, binary), "{n} {binary}");
        }
        assert_eq!(fmt_bytes(n), float_plain(n), "{n}");
    }
}

#[test]
fn units_switch() {
    let mut u = Units::default();
    assert!(binary_units(&u));
    set_binary_units(&mut u, false);
    assert!(!binary_units(&u));
    assert_eq!(format_bytes(1000, &u), "1.00 KB");
    assert_eq!(format_bytes(999, &u), "999 B");
    set_binary_units(&mut u, true);
    assert_eq!(format_bytes(1000, &u), "1000 B");
}

#[test]
fn plain_sizes() {
    assert_eq!(fmt_bytes(0), "0.0 B");
    assert_eq!(fmt_bytes(512), "512.0 B");
    assert_eq!(fmt_bytes(1536), "1.5 KB");
    assert_eq!(fmt_bytes(-3), "-3.0 B");
    assert_eq!(fmt_bytes(1024i64.pow(5)), "1024.0 TB");
}

#[test]
fn format_count_groups_thousands() {
    assert_eq!(format_count(0), "0");
    assert_eq!(format_count(1), "1");
    assert_eq!(format_count(999), "999");
    assert_eq!(format_count(1000), "1,000");
    assert_eq!(format_count(12345), "12,345");
    assert_eq!(format_count(1234567), "1,234,567");
}

#[test]
fn format_count_handles_negatives() {
    assert_eq!(format_count(-5), "-5");
    assert_eq!(format_count(-1000), "-1,000");
    assert_eq!(format_count(-1234567), "-1,234,567");
}

#[test]
fn format_count_extremes() {
    assert_eq!(format_count(i64::MAX), "9,223,372,036,854,775,807");
    assert_eq!(format_count(i64::MIN), "-9,223,372,036,854,775,808");
}

#[test]
fn counts_lose_only_commas() {
    for n in [0i64, 7, 1000, 999_999, 1_000_000, -12_345_678, i64::MIN] {
        assert_eq!(format_count(n).replace(',', ""), n.to_string());
    }
}

#[test]
fn format_ymdhm_pads_fields() {
    assert_eq!(format_ymdhm(2026, 8, 4, 9, 5), "2026-08-04 09:05");
    assert_eq!(format_ymdhm(999, 12, 31, 23, 59), "0999-12-31 23:59");
}

#[test]
fn shortened_texts_fit() {
    assert_eq!(shorten("abcdef", 4), "\u{2026}def");
    assert_eq!(shorten_head("abcdef", 4), "abc\u{2026}");
    assert_eq!(truncate("abcdef", 6), "abcdef");
    assert_eq!(truncate("abcdefg", 6), "abcde\u{2026}");
    assert_eq!(shorten("", 0), "");
    assert_eq!(shorten_head("\u{e9}t\u{e9}s", 3), "\u{e9}t\u{2026}");
}
