use dadi::date::{days_in_month, encode, iso_date, long_date, CalendarDate};
use dadi::datefs::extract_date;

#[test]
fn encode_is_canonical_name() {
    let d = CalendarDate::new(2019, 1, 1).unwrap();
    assert_eq!("2019-01-01.md", encode(&d));
    let d = CalendarDate::new(7, 3, 5).unwrap();
    assert_eq!("0007-03-05.md", encode(&d));
    assert_eq!("0007-03-05", iso_date(&d));
}

#[test]
fn encode_then_decode_is_identity() {
    for (y, m, d) in [(2019, 1, 1), (2020, 2, 29), (0, 1, 1), (9999, 12, 31), (1987, 10, 9)] {
        let date = CalendarDate::new(y, m, d).unwrap();
        assert_eq!(date, extract_date(&encode(&date)).unwrap());
    }
}

#[test]
fn new_checks_calendar() {
    assert!(CalendarDate::new(2019, 2, 29).is_none());
    assert!(CalendarDate::new(2020, 2, 29).is_some());
    assert!(CalendarDate::new(2100, 2, 29).is_none());
    assert!(CalendarDate::new(2000, 2, 29).is_some());
    assert!(CalendarDate::new(2019, 4, 31).is_none());
    assert!(CalendarDate::new(2019, 13, 1).is_none());
    assert!(CalendarDate::new(2019, 0, 1).is_none());
    assert!(CalendarDate::new(2019, 1, 0).is_none());
    assert!(CalendarDate::new(-1, 1, 1).is_none());
    assert!(CalendarDate::new(10000, 1, 1).is_none());
}

#[test]
fn month_lengths() {
    assert_eq!(29, days_in_month(2024, 2));
    assert_eq!(28, days_in_month(2023, 2));
    assert_eq!(28, days_in_month(1900, 2));
    assert_eq!(29, days_in_month(2000, 2));
    assert_eq!(30, days_in_month(2023, 11));
    assert_eq!(31, days_in_month(2023, 12));
}

#[test]
fn ordering_and_previous_day() {
    let a = CalendarDate::new(2018, 12, 31).unwrap();
    let b = CalendarDate::new(2019, 1, 1).unwrap();
    assert!(a.is_before(&b));
    assert!(!b.is_before(&a));
    assert!(!a.is_before(&a));
    assert_eq!(Some(a), b.previous_day());
    let m = CalendarDate::new(2020, 3, 1).unwrap();
    assert_eq!(CalendarDate::new(2020, 2, 29), m.previous_day());
    let m = CalendarDate::new(2019, 5, 1).unwrap();
    assert_eq!(CalendarDate::new(2019, 4, 30), m.previous_day());
    let first = CalendarDate::new(0, 1, 1).unwrap();
    assert_eq!(None, first.previous_day());
}

#[test]
fn long_date_is_readable() {
    assert_eq!("January 1, 2019", long_date(&CalendarDate::new(2019, 1, 1).unwrap()));
    assert_eq!("September 30, 1999", long_date(&CalendarDate::new(1999, 9, 30).unwrap()));
    assert_eq!("December 31, 9999", long_date(&CalendarDate::new(9999, 12, 31).unwrap()));
}
