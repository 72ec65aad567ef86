use crawl_todo::{
    monthly_summary, update_task_summary, weekly_summary, BucketKind, Date, TaskList, TimeOfDay,
    TodaysTasks, UserSettings,
};

fn d(year: u32, month: u32, day: u32) -> Date {
    Date { year, month, day }
}

fn t(hour: u32, minute: u32) -> TimeOfDay {
    TimeOfDay { hour, minute, second: 0 }
}

fn summary_minutes(list: &TaskList, name: &str) -> Option<u64> {
    let mut i = 0;
    while i < list.len() {
        let (n, m) = list.entry_at(i);
        if n == name {
            return Some(m);
        }
        i += 1;
    }
    None
}

#[test]
fn update_task_summary_merges_all_buckets() {
    let mut day = TodaysTasks::new(d(2024, 1, 1), None);
    day.record(BucketKind::Productive, &String::from("Coding"), 60);
    day.record(BucketKind::Productive, &String::from("Reading"), 20);
    day.record(BucketKind::Chores, &String::from("Chores"), 30);
    day.record(BucketKind::Entertainment, &String::from("Entertainment"), 45);
    let mut summary = TaskList { entries: Vec::new() };
    update_task_summary(&mut summary, &day);
    assert_eq!(summary_minutes(&summary, "Coding"), Some(60));
    assert_eq!(summary_minutes(&summary, "Reading"), Some(20));
    assert_eq!(summary_minutes(&summary, "Chores"), Some(30));
    assert_eq!(summary_minutes(&summary, "Entertainment"), Some(45));
    // merging a second day accumulates by name
    update_task_summary(&mut summary, &day);
    assert_eq!(summary_minutes(&summary, "Coding"), Some(120));
}

/// A full week of sixty-minute days, then thirty minutes on the next
/// Monday: the weekly view sees only the new week, the monthly view
/// the whole month.
#[test]
fn weekly_window_excludes_previous_week() {
    // 2024-01-01 is a Monday
    let mut s = UserSettings::new(d(2024, 1, 1));
    let coding = String::from("Coding");
    for day in 1..=7u32 {
        s.record_task(BucketKind::Productive, &coding, 60);
        s.rollover(d(2024, 1, day + 1), t(0, 0));
    }
    // now on Monday 2024-01-08 with a week of history behind us
    s.record_task(BucketKind::Productive, &coding, 30);
    assert_eq!(s.past_tasks.len(), 7);

    let (weekly_total, weekly) = weekly_summary(&s);
    assert_eq!(weekly_total, 30);
    assert_eq!(summary_minutes(&weekly, "Coding"), Some(30));

    let (monthly_total, monthly) = monthly_summary(&s);
    assert_eq!(monthly_total, 450);
    assert_eq!(summary_minutes(&monthly, "Coding"), Some(450));
}

#[test]
fn weekly_window_includes_current_week_days() {
    // Wednesday 2024-01-10; Monday and Tuesday are in the window
    let mut s = UserSettings::new(d(2024, 1, 8));
    let coding = String::from("Coding");
    s.record_task(BucketKind::Productive, &coding, 10);
    s.rollover(d(2024, 1, 9), t(0, 0));
    s.record_task(BucketKind::Productive, &coding, 20);
    s.rollover(d(2024, 1, 10), t(0, 0));
    s.record_task(BucketKind::Productive, &coding, 40);
    let (weekly_total, weekly) = weekly_summary(&s);
    assert_eq!(weekly_total, 70);
    assert_eq!(summary_minutes(&weekly, "Coding"), Some(70));
}

#[test]
fn monthly_window_excludes_other_months() {
    let mut s = UserSettings::new(d(2023, 12, 31));
    let coding = String::from("Coding");
    s.record_task(BucketKind::Productive, &coding, 99);
    s.rollover(d(2024, 1, 1), t(0, 0));
    s.record_task(BucketKind::Productive, &coding, 11);
    let (monthly_total, monthly) = monthly_summary(&s);
    assert_eq!(monthly_total, 11);
    assert_eq!(summary_minutes(&monthly, "Coding"), Some(11));
    // December's ledger is out of January's window entirely
    assert_eq!(summary_minutes(&monthly, "Chores"), None);
}

#[test]
fn summaries_cover_multiple_categories() {
    let mut s = UserSettings::new(d(2024, 3, 4));
    s.record_task(BucketKind::Productive, &String::from("Writing"), 25);
    s.record_task(BucketKind::Chores, &String::from("Chores"), 35);
    s.rollover(d(2024, 3, 5), t(7, 0));
    s.record_task(BucketKind::Productive, &String::from("Writing"), 5);
    let (weekly_total, weekly) = weekly_summary(&s);
    assert_eq!(weekly_total, 65);
    assert_eq!(summary_minutes(&weekly, "Writing"), Some(30));
    assert_eq!(summary_minutes(&weekly, "Chores"), Some(35));
}
