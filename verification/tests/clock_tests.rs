use crawl_todo::clock::current_moment;

#[test]
fn clock_reading_is_a_valid_moment() {
    let (date, time) = current_moment().expect("the clock reads a real date");
    assert!(1 <= date.month && date.month <= 12);
    assert!(1 <= date.day && date.day <= 31);
    assert!(2020 <= date.year && date.year <= 9999);
    assert!(time.hour < 24);
    assert!(time.minute < 60);
    assert!(time.second < 60);
}
