use packmind::clock::{civil_from_days, utc_stamp};
use packmind::walk::comment_prefix;

#[test]
fn epoch_is_first_of_january_1970() {
    assert_eq!(civil_from_days(0), (1970, 1, 1));
    assert_eq!(utc_stamp(0), "1970-01-01 00:00 UTC");
}

#[test]
fn stamps_known_instants() {
    assert_eq!(utc_stamp(1_700_000_000), "2023-11-14 22:13 UTC");
    assert_eq!(utc_stamp(951_782_400), "2000-02-29 00:00 UTC");
    assert_eq!(utc_stamp(951_868_800), "2000-03-01 00:00 UTC");
    assert_eq!(utc_stamp(-1), "1969-12-31 23:59 UTC");
    assert_eq!(utc_stamp(253_402_300_799), "9999-12-31 23:59 UTC");
    assert_eq!(utc_stamp(253_402_300_800), "10000-01-01 00:00 UTC");
}

#[test]
fn century_leap_rules() {
    // 1900 is not a leap year, 2000 is.
    assert_eq!(civil_from_days(-25_508), (1900, 3, 1));
    assert_eq!(civil_from_days(-25_509), (1900, 2, 28));
    assert_eq!(civil_from_days(11_016), (2000, 2, 29));
}

#[test]
fn years_before_the_common_era_are_signed() {
    assert_eq!(civil_from_days(-719_468), (0, 3, 1));
    assert_eq!(utc_stamp(-719_468 * 86_400), "0000-03-01 00:00 UTC");
    assert_eq!(civil_from_days(-719_893), (-1, 1, 1));
    assert_eq!(utc_stamp(-719_893 * 86_400), "-001-01-01 00:00 UTC");
}

#[test]
fn consecutive_days_give_distinct_dates() {
    let mut prev = civil_from_days(-800);
    for n in -799..800 {
        let cur = civil_from_days(n);
        assert_ne!(cur, prev);
        assert!(cur > prev);
        prev = cur;
    }
}

#[test]
fn extreme_inputs_do_not_overflow() {
    let (y, m, d) = civil_from_days(i64::MAX);
    assert!(y > 0 && (1..=12).contains(&m) && (1..=31).contains(&d));
    let (y, m, d) = civil_from_days(i64::MIN);
    assert!(y < 0 && (1..=12).contains(&m) && (1..=31).contains(&d));
    assert!(utc_stamp(i64::MIN).starts_with('-'));
}

#[test]
fn comment_syntax_by_extension() {
    assert_eq!(comment_prefix("src/payments.py"), Some("#"));
    assert_eq!(comment_prefix("web/app.tsx"), Some("//"));
    assert_eq!(comment_prefix("lib/index.js"), Some("//"));
    assert_eq!(comment_prefix("Main.java"), Some("//"));
    assert_eq!(comment_prefix("README.md"), None);
    assert_eq!(comment_prefix("py"), Some("#"));
}
