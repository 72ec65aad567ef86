use crawl_todo::{parse_task_code, parse_time_input, BucketKind, CodeAction, TimeInput, TimeOfDay};

fn t(hour: u32, minute: u32) -> TimeOfDay {
    TimeOfDay { hour, minute, second: 0 }
}

#[test]
fn now_word_in_any_case() {
    assert_eq!(parse_time_input("now"), TimeInput::Now);
    assert_eq!(parse_time_input("NOW"), TimeInput::Now);
    assert_eq!(parse_time_input("Now"), TimeInput::Now);
    assert_eq!(parse_time_input(""), TimeInput::Now);
}

#[test]
fn colon_form_times() {
    assert_eq!(parse_time_input("09:30"), TimeInput::Time(t(9, 30)));
    assert_eq!(parse_time_input("9:30"), TimeInput::Time(t(9, 30)));
    assert_eq!(parse_time_input("9:5"), TimeInput::Time(t(9, 5)));
    assert_eq!(parse_time_input("23:59"), TimeInput::Time(t(23, 59)));
    assert_eq!(parse_time_input("0:00"), TimeInput::Time(t(0, 0)));
}

#[test]
fn bare_four_digit_times() {
    assert_eq!(parse_time_input("0930"), TimeInput::Time(t(9, 30)));
    assert_eq!(parse_time_input("2359"), TimeInput::Time(t(23, 59)));
    assert_eq!(parse_time_input("0000"), TimeInput::Time(t(0, 0)));
}

#[test]
fn out_of_range_times_are_invalid() {
    assert_eq!(parse_time_input("24:00"), TimeInput::Invalid);
    assert_eq!(parse_time_input("12:60"), TimeInput::Invalid);
    assert_eq!(parse_time_input("2400"), TimeInput::Invalid);
    assert_eq!(parse_time_input("9999"), TimeInput::Invalid);
}

#[test]
fn malformed_times_are_invalid() {
    assert_eq!(parse_time_input("abc"), TimeInput::Invalid);
    assert_eq!(parse_time_input("123"), TimeInput::Invalid);
    assert_eq!(parse_time_input("12345"), TimeInput::Invalid);
    assert_eq!(parse_time_input("12:3a"), TimeInput::Invalid);
    assert_eq!(parse_time_input("1:2:3"), TimeInput::Invalid);
    assert_eq!(parse_time_input("nope"), TimeInput::Invalid);
}

fn expect_task(code: &str, bucket: BucketKind, name: &str) {
    match parse_task_code(code) {
        CodeAction::Task(b, n) => {
            assert_eq!(b, bucket);
            assert_eq!(n, name);
        },
        _ => panic!("code {} should name a task", code),
    }
}

#[test]
fn category_codes() {
    expect_task("c", BucketKind::Productive, "Coding");
    expect_task("r", BucketKind::Productive, "Reading");
    expect_task("a", BucketKind::Productive, "Action");
    expect_task("w", BucketKind::Productive, "Writing");
    expect_task("l", BucketKind::Productive, "Learning");
    expect_task("ch", BucketKind::Chores, "Chores");
    expect_task("e", BucketKind::Entertainment, "Entertainment");
}

#[test]
fn exit_sentinel() {
    assert!(matches!(parse_task_code("x"), CodeAction::Exit));
}

#[test]
fn unrecognized_codes() {
    assert!(matches!(parse_task_code("q"), CodeAction::Unrecognized));
    assert!(matches!(parse_task_code("cc"), CodeAction::Unrecognized));
    assert!(matches!(parse_task_code(""), CodeAction::Unrecognized));
    assert!(matches!(parse_task_code("coding"), CodeAction::Unrecognized));
}
