use chrono::{Datelike, NaiveDate, TimeDelta, Weekday};
use jelper::{month_display_name, try_week_bounds, week_bounds, week_label, week_sort_key, Date};

fn date(year: i32, month: u32, day: u32) -> Date {
    Date { year, month, day }
}

#[test]
fn week_of_a_wednesday() {
    assert_eq!(week_bounds("2026-03-04"), (date(2026, 3, 2), date(2026, 3, 8)));
    assert_eq!(week_label("2026-03-04"), "Week of Mar 02 \u{2013} Mar 08, 2026");
    assert_eq!(week_sort_key("2026-03-04"), date(2026, 3, 2));
}

#[test]
fn week_across_a_year_end() {
    assert_eq!(week_bounds("2026-01-01"), (date(2025, 12, 29), date(2026, 1, 4)));
    assert_eq!(week_label("2026-01-01"), "Week of Dec 29 \u{2013} Jan 04, 2026");
}

#[test]
fn monday_and_sunday_are_their_own_week() {
    assert_eq!(week_bounds("2026-03-02"), (date(2026, 3, 2), date(2026, 3, 8)));
    assert_eq!(week_bounds("2026-03-08"), (date(2026, 3, 2), date(2026, 3, 8)));
}

#[test]
fn unreadable_days_have_no_week() {
    assert_eq!(try_week_bounds("not a date"), None);
    assert_eq!(try_week_bounds("2026-02-30"), None);
    assert_eq!(try_week_bounds("2026-03-04"), Some((date(2026, 3, 2), date(2026, 3, 8))));
}

#[test]
fn month_names() {
    assert_eq!(month_display_name("2026-03"), "March 2026");
    assert_eq!(month_display_name("2025-12"), "December 2025");
    assert_eq!(month_display_name("2026-13"), "2026-13");
    assert_eq!(month_display_name("oops"), "oops");
}

#[test]
fn weeks_run_from_monday_to_sunday() {
    let mut d = NaiveDate::from_ymd_opt(2023, 12, 20).unwrap();
    for _ in 0..800 {
        let text = d.format("%Y-%m-%d").to_string();
        let (m, s) = week_bounds(&text);
        let monday = NaiveDate::from_ymd_opt(m.year, m.month, m.day).unwrap();
        let sunday = NaiveDate::from_ymd_opt(s.year, s.month, s.day).unwrap();
        assert_eq!(monday.weekday(), Weekday::Mon, "date = {}", text);
        assert_eq!(sunday - monday, TimeDelta::days(6));
        assert!(monday <= d && d <= sunday, "date = {}", text);
        d = d.succ_opt().unwrap();
    }
}

#[test]
fn years_outside_four_digits() {
    assert_eq!(week_label("0999-03-04"), "Week of Mar 04 \u{2013} Mar 10, 0999");
    assert_eq!(month_display_name("0999-03"), "March 0999");
}

#[test]
fn same_heading_exactly_for_the_same_monday() {
    assert_eq!(week_label("2026-04-01"), "Week of Mar 30 \u{2013} Apr 05, 2026");
    assert_eq!(week_label("2026-04-05"), week_label("2026-04-01"));
    assert_eq!(week_label("2026-03-30"), week_label("2026-04-01"));
    assert_ne!(week_label("2026-04-06"), week_label("2026-04-05"));
    assert_ne!(week_label("2025-03-31"), week_label("2026-03-30"));
}
