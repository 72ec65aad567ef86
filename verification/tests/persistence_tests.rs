use crawl_todo::{
    decode_settings, encode_settings, BucketKind, Date, TaskList, TimeOfDay, UserSettings,
};

fn d(year: u32, month: u32, day: u32) -> Date {
    Date { year, month, day }
}

fn t(hour: u32, minute: u32) -> TimeOfDay {
    TimeOfDay { hour, minute, second: 0 }
}

fn minutes_of(list: &TaskList, name: &str) -> Option<u64> {
    let mut i = 0;
    while i < list.len() {
        let (n, m) = list.entry_at(i);
        if n == name {
            return Some(m);
        }
        i += 1;
    }
    None
}

fn sample_state() -> UserSettings {
    let mut s = UserSettings::new(d(2024, 1, 1));
    s.resolve_start_time(t(8, 15));
    s.resolve_end_time(t(23, 0));
    s.record_task(BucketKind::Productive, &String::from("Coding"), 90);
    s.record_task(BucketKind::Productive, &String::from("Reading"), 30);
    s.record_task(BucketKind::Chores, &String::from("Chores"), 20);
    s.rollover(d(2024, 1, 2), t(0, 10));
    s.record_task(BucketKind::Entertainment, &String::from("Entertainment"), 45);
    s
}

#[test]
fn round_trip_reproduces_totals_and_configuration() {
    let s = sample_state();
    let bytes = encode_settings(&s);
    let back = decode_settings(&bytes).expect("a written state reads back");
    assert_eq!(back.end_time, Some(t(23, 0)));
    assert_eq!(back.today.date, d(2024, 1, 2));
    assert_eq!(back.today.start_time, Some(t(0, 10)));
    assert_eq!(back.past_tasks.len(), 1);
    assert_eq!(back.past_tasks[0].date, d(2024, 1, 1));
    assert_eq!(back.past_tasks[0].start_time, Some(t(8, 15)));
    assert_eq!(minutes_of(&back.past_tasks[0].todays_tasks, "Coding"), Some(90));
    assert_eq!(minutes_of(&back.past_tasks[0].todays_tasks, "Reading"), Some(30));
    assert_eq!(minutes_of(&back.past_tasks[0].todays_chores, "Chores"), Some(20));
    assert_eq!(minutes_of(&back.today.todays_entertainment, "Entertainment"), Some(45));
    assert_eq!(back.grand_total_minutes(), s.grand_total_minutes());
}

#[test]
fn round_trip_of_fresh_state() {
    let s = UserSettings::new(d(2026, 10, 12));
    let bytes = encode_settings(&s);
    let back = decode_settings(&bytes).expect("a fresh state reads back");
    assert_eq!(back.end_time, None);
    assert_eq!(back.today.date, d(2026, 10, 12));
    assert_eq!(back.today.start_time, None);
    assert_eq!(back.past_tasks.len(), 0);
    assert_eq!(back.grand_total_minutes(), 0);
}

#[test]
fn reencoding_a_decoded_state_gives_the_same_bytes() {
    let s = sample_state();
    let bytes = encode_settings(&s);
    let back = decode_settings(&bytes).unwrap();
    assert_eq!(encode_settings(&back), bytes);
}

#[test]
fn truncated_data_is_rejected() {
    let s = sample_state();
    let mut bytes = encode_settings(&s);
    bytes.pop();
    assert!(decode_settings(&bytes).is_none());
}

#[test]
fn trailing_garbage_is_rejected() {
    let s = sample_state();
    let mut bytes = encode_settings(&s);
    bytes.push(0);
    assert!(decode_settings(&bytes).is_none());
}

#[test]
fn empty_data_is_rejected() {
    assert!(decode_settings(&Vec::new()).is_none());
}

#[test]
fn corrupt_field_is_rejected() {
    let s = sample_state();
    let mut bytes = encode_settings(&s);
    // the first field is the end-time tag; values beyond one are not
    // a valid encoding
    bytes[0] = 7;
    assert!(decode_settings(&bytes).is_none());
}
