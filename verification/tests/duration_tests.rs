use crawl_todo::time_of_day::{
    elapsed_minutes, signed_minutes_between, split_hours_minutes, split_hours_minutes_signed,
};
use crawl_todo::TimeOfDay;

fn t(hour: u32, minute: u32, second: u32) -> TimeOfDay {
    TimeOfDay { hour, minute, second }
}

#[test]
fn elapsed_simple_interval() {
    assert_eq!(elapsed_minutes(t(9, 0, 0), t(10, 30, 0)), Some(90));
}

#[test]
fn elapsed_zero_interval() {
    assert_eq!(elapsed_minutes(t(14, 15, 0), t(14, 15, 0)), Some(0));
}

#[test]
fn elapsed_truncates_to_whole_minutes() {
    // 30 minutes and 30 seconds truncate down to 30 minutes
    assert_eq!(elapsed_minutes(t(9, 0, 0), t(9, 30, 30)), Some(30));
    assert_eq!(elapsed_minutes(t(9, 0, 30), t(9, 1, 0)), Some(0));
}

#[test]
fn elapsed_rejects_end_before_start() {
    assert_eq!(elapsed_minutes(t(10, 0, 0), t(9, 59, 0)), None);
    assert_eq!(elapsed_minutes(t(23, 59, 59), t(0, 0, 0)), None);
}

#[test]
fn elapsed_full_day_span() {
    assert_eq!(elapsed_minutes(t(0, 0, 0), t(23, 59, 0)), Some(1439));
}

#[test]
fn signed_minutes_can_be_negative() {
    assert_eq!(signed_minutes_between(t(9, 0, 0), t(10, 30, 0)), 90);
    assert_eq!(signed_minutes_between(t(10, 30, 0), t(9, 0, 0)), -90);
}

#[test]
fn split_unsigned_hours_minutes() {
    assert_eq!(split_hours_minutes(135), (2, 15));
    assert_eq!(split_hours_minutes(59), (0, 59));
}

#[test]
fn split_signed_keeps_sign_of_remainder() {
    assert_eq!(split_hours_minutes_signed(-90), (-1, -30));
    assert_eq!(split_hours_minutes_signed(90), (1, 30));
    assert_eq!(split_hours_minutes_signed(-30), (0, -30));
}

#[test]
fn time_from_parts_validates() {
    assert!(TimeOfDay::from_parts(23, 59, 59).is_some());
    assert!(TimeOfDay::from_parts(24, 0, 0).is_none());
    assert!(TimeOfDay::from_parts(10, 60, 0).is_none());
    assert!(TimeOfDay::from_parts(10, 0, 60).is_none());
}
