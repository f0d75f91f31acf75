use keylog::date::{parse_date, Date};

fn d(year: u32, month: u32, day: u32) -> Date {
    Date { year, month, day }
}

#[test]
fn format_is_fixed_width_and_zero_padded() {
    assert_eq!(d(2024, 1, 1).format(), "2024-01-01");
    assert_eq!(d(987, 12, 31).format(), "0987-12-31");
    assert_eq!(d(1, 1, 1).format(), "0001-01-01");
    assert_eq!(d(9999, 12, 31).format(), "9999-12-31");
}

#[test]
fn parse_accepts_canonical_dates() {
    assert_eq!(parse_date("2024-01-01"), Some(d(2024, 1, 1)));
    assert_eq!(parse_date("0001-01-01"), Some(d(1, 1, 1)));
    assert_eq!(parse_date("2024-02-29"), Some(d(2024, 2, 29)));
    assert_eq!(parse_date("2000-02-29"), Some(d(2000, 2, 29)));
}

#[test]
fn parse_rejects_everything_else() {
    assert_eq!(parse_date("2023-02-29"), None);
    assert_eq!(parse_date("1900-02-29"), None);
    assert_eq!(parse_date("2024-13-01"), None);
    assert_eq!(parse_date("2024-00-10"), None);
    assert_eq!(parse_date("2024-04-31"), None);
    assert_eq!(parse_date("2024-1-01"), None);
    assert_eq!(parse_date("2024/01/01"), None);
    assert_eq!(parse_date("0000-01-01"), None);
    assert_eq!(parse_date(""), None);
    assert_eq!(parse_date("2024-01-01 "), None);
}

#[test]
fn parse_inverts_format() {
    for date in [d(2024, 2, 29), d(1999, 12, 31), d(3, 7, 9)] {
        assert_eq!(parse_date(&date.format()), Some(date));
    }
}

#[test]
fn next_day_walks_the_calendar() {
    assert_eq!(d(2024, 2, 28).next_day(), Some(d(2024, 2, 29)));
    assert_eq!(d(2023, 2, 28).next_day(), Some(d(2023, 3, 1)));
    assert_eq!(d(2024, 12, 31).next_day(), Some(d(2025, 1, 1)));
    assert_eq!(d(2024, 4, 30).next_day(), Some(d(2024, 5, 1)));
    assert_eq!(d(9999, 12, 31).next_day(), None);
}

#[test]
fn from_ymd_validates() {
    assert_eq!(Date::from_ymd(2024, 2, 29), Some(d(2024, 2, 29)));
    assert_eq!(Date::from_ymd(2023, 2, 29), None);
    assert_eq!(Date::from_ymd(0, 1, 1), None);
    assert_eq!(Date::from_ymd(10000, 1, 1), None);
    assert_eq!(Date::from_ymd(-5, 1, 1), None);
}

#[test]
fn chronological_order() {
    assert!(d(2023, 12, 31).is_lt(&d(2024, 1, 1)));
    assert!(d(2024, 1, 1).is_le(&d(2024, 1, 1)));
    assert!(!d(2024, 1, 2).is_le(&d(2024, 1, 1)));
    assert!(d(2024, 1, 31).is_lt(&d(2024, 2, 1)));
}

#[test]
fn lexicographic_order_of_rendered_dates_matches_chronology() {
    let dates = [
        d(999, 12, 31),
        d(1000, 1, 1),
        d(2024, 1, 2),
        d(2024, 1, 10),
        d(2024, 2, 1),
        d(2024, 10, 1),
    ];
    for a in &dates {
        for b in &dates {
            assert_eq!(a.format() <= b.format(), a.is_le(b));
        }
    }
}
