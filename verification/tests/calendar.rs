use chrono::Datelike;
use downloads_history::calendar::{year_month_from_mtime, MAX_TIMESTAMP};

fn chrono_folder(secs: i64) -> String {
    let dt = chrono::DateTime::<chrono::Utc>::from(
        std::time::UNIX_EPOCH + std::time::Duration::from_secs(secs as u64),
    );
    format!("{:04}-{:02}", dt.year(), dt.month())
}

#[test]
fn epoch_is_january_1970() {
    assert_eq!(year_month_from_mtime(0), "1970-01");
    assert_eq!(year_month_from_mtime(86399), "1970-01");
    assert_eq!(year_month_from_mtime(2678399), "1970-01");
    assert_eq!(year_month_from_mtime(2678400), "1970-02");
}

#[test]
fn leap_day_boundaries() {
    assert_eq!(year_month_from_mtime(1709251199), "2024-02");
    assert_eq!(year_month_from_mtime(1709251200), "2024-03");
    assert_eq!(year_month_from_mtime(951782400), "2000-02");
    assert_eq!(year_month_from_mtime(951868799), "2000-02");
    assert_eq!(year_month_from_mtime(4107542400), "2100-03");
    assert_eq!(year_month_from_mtime(4107542399), "2100-02");
}

#[test]
fn five_digit_years_widen_the_folder() {
    assert_eq!(year_month_from_mtime(253402300799), "9999-12");
    assert_eq!(year_month_from_mtime(253402300800), "10000-01");
    assert_eq!(year_month_from_mtime(MAX_TIMESTAMP), "262142-12");
}

#[test]
fn folder_matches_chrono_over_many_times() {
    let mut secs: i64 = 0;
    while secs < 5_000_000_000 {
        assert_eq!(year_month_from_mtime(secs), chrono_folder(secs));
        secs += 1_234_567;
    }
}

#[test]
fn later_times_never_get_earlier_folders() {
    let mut prev = year_month_from_mtime(0);
    let mut secs: i64 = 0;
    while secs < 253_402_300_799 {
        let cur = year_month_from_mtime(secs);
        assert!(cur >= prev, "{} after {}", cur, prev);
        assert_eq!(cur.len(), 7);
        assert_eq!(&cur[4..5], "-");
        let month: u32 = cur[5..].parse().unwrap();
        assert!((1..=12).contains(&month));
        prev = cur;
        secs += 987_654_321;
    }
}
