use crawl_todo::{BucketKind, Date, TimeOfDay, TodaysTasks, UserSettings};

fn d(year: u32, month: u32, day: u32) -> Date {
    Date { year, month, day }
}

fn t(hour: u32, minute: u32) -> TimeOfDay {
    TimeOfDay { hour, minute, second: 0 }
}

fn minutes_of(list: &crawl_todo::TaskList, name: &str) -> u64 {
    let mut total: u64 = 0;
    let mut i = 0;
    while i < list.len() {
        let (n, m) = list.entry_at(i);
        if n == name {
            total += m;
        }
        i += 1;
    }
    total
}

#[test]
fn repeated_recording_accumulates() {
    let mut day = TodaysTasks::new(d(2024, 1, 1), Some(t(9, 0)));
    let coding = String::from("Coding");
    day.record(BucketKind::Productive, &coding, 30);
    day.record(BucketKind::Productive, &coding, 45);
    day.record(BucketKind::Productive, &coding, 15);
    assert_eq!(minutes_of(&day.todays_tasks, "Coding"), 90);
    assert_eq!(day.total_minutes_spent(), 90);
    // three recordings into one name keep a single entry
    assert_eq!(day.todays_tasks.len(), 1);
}

#[test]
fn recording_does_not_cross_contaminate() {
    let mut day = TodaysTasks::new(d(2024, 1, 1), None);
    let coding = String::from("Coding");
    let reading = String::from("Reading");
    day.record(BucketKind::Productive, &coding, 60);
    day.record(BucketKind::Productive, &reading, 25);
    day.record(BucketKind::Productive, &coding, 10);
    assert_eq!(minutes_of(&day.todays_tasks, "Coding"), 70);
    assert_eq!(minutes_of(&day.todays_tasks, "Reading"), 25);
    assert_eq!(day.total_minutes_spent(), 95);
}

#[test]
fn productive_total_excludes_chores_and_entertainment() {
    let mut day = TodaysTasks::new(d(2024, 1, 1), None);
    day.record(BucketKind::Productive, &String::from("Coding"), 60);
    day.record(BucketKind::Chores, &String::from("Chores"), 30);
    day.record(BucketKind::Entertainment, &String::from("Entertainment"), 45);
    assert_eq!(day.total_productive_minutes(), 60);
    assert_eq!(day.total_minutes_spent(), 135);
}

#[test]
fn rollover_archives_exactly_once() {
    let mut s = UserSettings::new(d(2024, 1, 1));
    s.record_task(BucketKind::Productive, &String::from("Coding"), 120);
    let rolled = s.rollover(d(2024, 1, 2), t(0, 5));
    assert!(rolled);
    assert_eq!(s.past_tasks.len(), 1);
    assert_eq!(s.past_tasks[0].date, d(2024, 1, 1));
    // the archived ledger keeps its totals
    assert_eq!(s.past_tasks[0].total_minutes_spent(), 120);
    // the fresh ledger carries the current date, the rollover moment,
    // and no entries
    assert_eq!(s.today.date, d(2024, 1, 2));
    assert_eq!(s.today.start_time, Some(t(0, 5)));
    assert_eq!(s.today.total_minutes_spent(), 0);
}

#[test]
fn rollover_is_idempotent_per_day() {
    let mut s = UserSettings::new(d(2024, 1, 1));
    s.record_task(BucketKind::Productive, &String::from("Coding"), 10);
    assert!(s.rollover(d(2024, 1, 2), t(8, 0)));
    let len_after_first = s.past_tasks.len();
    // a second check on the same date changes nothing
    assert!(!s.rollover(d(2024, 1, 2), t(9, 30)));
    assert_eq!(s.past_tasks.len(), len_after_first);
    assert_eq!(s.today.date, d(2024, 1, 2));
    assert_eq!(s.today.start_time, Some(t(8, 0)));
}

#[test]
fn rollover_skips_gap_days_silently() {
    let mut s = UserSettings::new(d(2024, 1, 1));
    assert!(s.rollover(d(2024, 1, 5), t(12, 0)));
    // only the one stale ledger was archived; no placeholders for the
    // days in between
    assert_eq!(s.past_tasks.len(), 1);
    assert_eq!(s.today.date, d(2024, 1, 5));
}

#[test]
fn same_day_rollover_is_a_no_op() {
    let mut s = UserSettings::new(d(2024, 1, 1));
    s.record_task(BucketKind::Chores, &String::from("Chores"), 20);
    assert!(!s.rollover(d(2024, 1, 1), t(10, 0)));
    assert_eq!(s.past_tasks.len(), 0);
    assert_eq!(s.today.total_minutes_spent(), 20);
}

#[test]
fn start_time_is_fixed_once_set() {
    let mut s = UserSettings::new(d(2024, 1, 1));
    let first = s.resolve_start_time(t(8, 30));
    assert_eq!(first, t(8, 30));
    // a later answer does not overwrite the stored start
    let second = s.resolve_start_time(t(11, 45));
    assert_eq!(second, t(8, 30));
    assert_eq!(s.today.start_time, Some(t(8, 30)));
}

#[test]
fn end_time_is_configured_once() {
    let mut s = UserSettings::new(d(2024, 1, 1));
    let first = s.resolve_end_time(t(23, 0));
    assert_eq!(first, t(23, 0));
    let second = s.resolve_end_time(t(22, 0));
    assert_eq!(second, t(23, 0));
    assert_eq!(s.end_time, Some(t(23, 0)));
}

#[test]
fn grand_total_spans_history_and_today() {
    let mut s = UserSettings::new(d(2024, 1, 1));
    s.record_task(BucketKind::Productive, &String::from("Coding"), 100);
    s.rollover(d(2024, 1, 2), t(0, 0));
    s.record_task(BucketKind::Entertainment, &String::from("Entertainment"), 50);
    assert_eq!(s.grand_total_minutes(), 150);
    assert!(s.has_history_date(&d(2024, 1, 1)));
    assert!(!s.has_history_date(&d(2024, 1, 2)));
}
