use aips_records::calendar::CalendarDate;

#[test]
fn a_date_is_written_three_ways() {
    let day = CalendarDate::new(2024, 3, 5).unwrap();
    assert_eq!(day.iso(), "2024-03-05");
    assert_eq!(day.compact(), "20240305");
    assert_eq!(day.dotted(), "05.03.2024");
    assert_eq!(day.fields(), (2024, 3, 5));
}

#[test]
fn small_years_are_padded() {
    let day = CalendarDate::new(7, 12, 31).unwrap();
    assert_eq!(day.iso(), "0007-12-31");
    assert_eq!(day.compact(), "00071231");
    assert_eq!(day.dotted(), "31.12.0007");
    assert_eq!(CalendarDate::new(0, 1, 1).unwrap().iso(), "0000-01-01");
    assert_eq!(CalendarDate::new(9999, 12, 31).unwrap().iso(), "9999-12-31");
}

#[test]
fn numbers_out_of_range_are_no_date() {
    assert_eq!(CalendarDate::new(-1, 1, 1), None);
    assert_eq!(CalendarDate::new(10000, 1, 1), None);
    assert_eq!(CalendarDate::new(2024, 0, 1), None);
    assert_eq!(CalendarDate::new(2024, 13, 1), None);
    assert_eq!(CalendarDate::new(2024, 1, 0), None);
    assert_eq!(CalendarDate::new(2024, 1, 32), None);
}

#[test]
fn the_clock_gives_a_date() {
    let before = chrono::Local::now().format("%Y-%m-%d").to_string();
    let today = CalendarDate::today().unwrap();
    let after = chrono::Local::now().format("%Y-%m-%d").to_string();
    let (year, month, day) = today.fields();
    assert!(year >= 2024);
    assert!((1..=12).contains(&month));
    assert!((1..=31).contains(&day));
    assert_eq!(today.iso().len(), 10);
    assert!(today.iso() == before || today.iso() == after);
}
