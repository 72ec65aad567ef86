use crawl_todo::date::{date_from_parts, days_in_month_of, Date};

fn d(year: u32, month: u32, day: u32) -> Date {
    Date { year, month, day }
}

#[test]
fn known_weekdays() {
    // the first of January of year 1 is a Monday in the proleptic
    // Gregorian calendar
    assert_eq!(d(1, 1, 1).weekday_from_monday(), 0);
    // 1970-01-01 was a Thursday
    assert_eq!(d(1970, 1, 1).weekday_from_monday(), 3);
    // 2024-01-01 was a Monday
    assert_eq!(d(2024, 1, 1).weekday_from_monday(), 0);
    // 2024-01-07 was a Sunday
    assert_eq!(d(2024, 1, 7).weekday_from_monday(), 6);
}

#[test]
fn day_numbers_are_consecutive() {
    assert_eq!(d(2023, 12, 31).day_number() + 1, d(2024, 1, 1).day_number());
    assert_eq!(d(2024, 2, 28).day_number() + 2, d(2024, 3, 1).day_number());
    assert_eq!(d(2023, 2, 28).day_number() + 1, d(2023, 3, 1).day_number());
}

#[test]
fn leap_year_handling() {
    assert_eq!(days_in_month_of(2024, 2), 29);
    assert_eq!(days_in_month_of(2023, 2), 28);
    assert_eq!(days_in_month_of(2000, 2), 29);
    assert_eq!(days_in_month_of(1900, 2), 28);
    assert_eq!(days_in_month_of(2024, 4), 30);
    assert_eq!(days_in_month_of(2024, 1), 31);
}

#[test]
fn date_from_parts_validates() {
    assert!(date_from_parts(2024, 2, 29).is_some());
    assert!(date_from_parts(2023, 2, 29).is_none());
    assert!(date_from_parts(2024, 0, 1).is_none());
    assert!(date_from_parts(2024, 13, 1).is_none());
    assert!(date_from_parts(2024, 4, 31).is_none());
    assert!(date_from_parts(0, 1, 1).is_none());
    assert!(date_from_parts(10000, 1, 1).is_none());
    let x = date_from_parts(2026, 10, 12).unwrap();
    assert_eq!(x, d(2026, 10, 12));
}

#[test]
fn week_window_is_monday_aligned() {
    let monday = d(2024, 1, 8);
    // the week of Monday 2024-01-08 holds only that day so far
    assert!(monday.in_week_of(&monday));
    assert!(!d(2024, 1, 7).in_week_of(&monday));
    assert!(!d(2024, 1, 1).in_week_of(&monday));
    // later days are not in the window either
    assert!(!d(2024, 1, 9).in_week_of(&monday));
    // mid-week: Wednesday 2024-01-10 covers Monday through Wednesday
    let wednesday = d(2024, 1, 10);
    assert!(monday.in_week_of(&wednesday));
    assert!(d(2024, 1, 9).in_week_of(&wednesday));
    assert!(!d(2024, 1, 7).in_week_of(&wednesday));
}

#[test]
fn month_window() {
    let cur = d(2024, 1, 8);
    assert!(d(2024, 1, 1).in_month_of(&cur));
    assert!(d(2024, 1, 31).in_month_of(&cur));
    assert!(!d(2023, 12, 31).in_month_of(&cur));
    assert!(!d(2023, 1, 8).in_month_of(&cur));
}
