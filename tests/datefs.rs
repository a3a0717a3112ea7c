use dadi::date::CalendarDate;
use dadi::datefs::{construct_path, extract_date, previous_before, DateFSError};

fn date(year: i32, month: u8, day: u8) -> CalendarDate {
    CalendarDate::new(year, month, day).unwrap()
}

const BASE_PATH: &str = "./test-dirs/";

fn listing(names: &[&str]) -> Vec<String> {
    names.iter().map(|n| n.to_string()).collect()
}

fn previous_listing() -> Vec<String> {
    listing(&["2018-04-29.md", "2019-01-01.md", "2018-03-29.md", "2018-04-30.md"])
}

fn date_exists(names: &[String], base_path: &str, date: CalendarDate) -> bool {
    let path = construct_path(base_path, &date);
    names.iter().any(|n| construct_path(base_path, &extract_date(n).unwrap()) == path)
}

#[test]
fn test_previous() {
    let names = previous_listing();
    assert_eq!(None, previous_before(&names, &date(2017, 1, 1)).unwrap());
    assert_eq!(None, previous_before(&names, &date(2018, 1, 1)).unwrap());
    assert_eq!(None, previous_before(&names, &date(2018, 3, 28)).unwrap());
    assert_eq!(None, previous_before(&names, &date(2018, 3, 29)).unwrap());
    assert_eq!(Some(date(2018, 3, 29)), previous_before(&names, &date(2018, 3, 30)).unwrap());
    assert_eq!(Some(date(2018, 3, 29)), previous_before(&names, &date(2018, 4, 1)).unwrap());
    assert_eq!(Some(date(2018, 3, 29)), previous_before(&names, &date(2018, 4, 28)).unwrap());
    assert_eq!(Some(date(2018, 3, 29)), previous_before(&names, &date(2018, 4, 29)).unwrap());
    assert_eq!(Some(date(2018, 4, 29)), previous_before(&names, &date(2018, 4, 30)).unwrap());
    assert_eq!(Some(date(2018, 4, 30)), previous_before(&names, &date(2018, 5, 1)).unwrap());
    assert_eq!(Some(date(2018, 4, 30)), previous_before(&names, &date(2018, 5, 2)).unwrap());
    assert_eq!(Some(date(2018, 4, 30)), previous_before(&names, &date(2018, 6, 2)).unwrap());
    assert_eq!(Some(date(2018, 4, 30)), previous_before(&names, &date(2018, 12, 31)).unwrap());
    assert_eq!(Some(date(2018, 4, 30)), previous_before(&names, &date(2019, 1, 1)).unwrap());
    assert_eq!(Some(date(2019, 1, 1)), previous_before(&names, &date(2019, 1, 2)).unwrap());
    assert_eq!(Some(date(2019, 1, 1)), previous_before(&names, &date(2019, 1, 3)).unwrap());
    assert_eq!(Some(date(2019, 1, 1)), previous_before(&names, &date(3019, 1, 3)).unwrap());
}

#[test]
fn test_exists() {
    let names = previous_listing();
    let base_path = format!("{}test_previous", BASE_PATH);

    assert!(!date_exists(&names, &base_path, date(2018, 3, 28)));
    assert!(date_exists(&names, &base_path, date(2018, 3, 29)));
    assert!(!date_exists(&names, &base_path, date(2018, 3, 30)));

    assert!(!date_exists(&names, &base_path, date(2018, 4, 28)));
    assert!(date_exists(&names, &base_path, date(2018, 4, 29)));
    assert!(date_exists(&names, &base_path, date(2018, 4, 30)));
    assert!(!date_exists(&names, &base_path, date(2018, 5, 1)));

    assert!(!date_exists(&names, &base_path, date(2018, 12, 31)));
    assert!(date_exists(&names, &base_path, date(2019, 1, 1)));
    assert!(!date_exists(&names, &base_path, date(2019, 1, 2)));
}

#[test]
fn test_missing_md() {
    let names = listing(&["2018-03-19.md", "2018-03-20"]);
    assert!(previous_before(&names, &date(2018, 3, 20)).is_err());
    assert!(previous_before(&names, &date(2019, 3, 20)).is_err());
}

#[test]
fn test_invalid_format() {
    let names = listing(&["2038-03-19.md", "2038-3-19.md"]);
    println!("{:?}", previous_before(&names, &date(2038, 3, 20)));
    assert!(previous_before(&names, &date(2038, 3, 20)).is_err());
}

#[test]
fn previous_before_empty_listing_is_none() {
    let names: Vec<String> = Vec::new();
    assert_eq!(None, previous_before(&names, &date(2020, 6, 1)).unwrap());
}

#[test]
fn previous_before_across_year_and_month_boundaries() {
    let names = listing(&["2018-03-29.md", "2018-04-29.md", "2018-04-30.md"]);
    assert_eq!(Some(date(2018, 4, 29)), previous_before(&names, &date(2018, 4, 30)).unwrap());
    assert_eq!(Some(date(2018, 4, 30)), previous_before(&names, &date(2018, 5, 1)).unwrap());
    assert_eq!(None, previous_before(&names, &date(2018, 1, 1)).unwrap());
}

#[test]
fn one_bad_name_fails_the_whole_listing() {
    let names = listing(&["2018-03-29.md", "notes.txt", "2018-04-30.md"]);
    match previous_before(&names, &date(2019, 1, 1)) {
        Err(DateFSError::InvalidFile(name)) => assert_eq!("notes.txt", name),
        other => panic!("unexpected {:?}", other),
    }
    let names = listing(&["2018-03-29.md", "2018-0A-01.md"]);
    match previous_before(&names, &date(2019, 1, 1)) {
        Err(DateFSError::InvalidFile(name)) => assert_eq!("2018-0A-01.md", name),
        other => panic!("unexpected {:?}", other),
    }
}

#[test]
fn first_bad_name_is_reported() {
    let names = listing(&["2018-02-30.md", "x.md"]);
    assert!(matches!(
        previous_before(&names, &date(2019, 1, 1)),
        Err(DateFSError::InvalidDate(2018, 2, 30))
    ));
}

#[test]
fn extract_date_accepts_canonical_names() {
    assert_eq!(date(2019, 1, 1), extract_date("2019-01-01.md").unwrap());
    assert_eq!(date(2020, 2, 29), extract_date("2020-02-29.md").unwrap());
    assert_eq!(date(2000, 2, 29), extract_date("2000-02-29.md").unwrap());
    assert_eq!(date(7, 12, 31), extract_date("0007-12-31.md").unwrap());
}

#[test]
fn extract_date_rejects_bad_names() {
    for name in ["2019-01-01", "2019-01-01.txt", "2019-01-01.MD", "19-01-01.md", "2019-1-01.md", "2019/01/01.md", "20190101.md", ""] {
        match extract_date(name) {
            Err(DateFSError::InvalidFile(f)) => assert_eq!(name, f),
            other => panic!("unexpected {:?} for {}", other, name),
        }
    }
}

#[test]
fn extract_date_rejects_unreal_dates() {
    assert!(matches!(extract_date("2019-02-29.md"), Err(DateFSError::InvalidDate(2019, 2, 29))));
    assert!(matches!(extract_date("1900-02-29.md"), Err(DateFSError::InvalidDate(1900, 2, 29))));
    assert!(matches!(extract_date("2018-13-01.md"), Err(DateFSError::InvalidDate(2018, 13, 1))));
    assert!(matches!(extract_date("2018-04-31.md"), Err(DateFSError::InvalidDate(2018, 4, 31))));
    assert!(matches!(extract_date("2018-01-00.md"), Err(DateFSError::InvalidDate(2018, 1, 0))));
    assert!(matches!(extract_date("2018-00-10.md"), Err(DateFSError::InvalidDate(2018, 0, 10))));
}

#[test]
fn construct_path_joins_with_one_separator() {
    assert_eq!("/j/2019-01-01.md", construct_path("/j", &date(2019, 1, 1)));
    assert_eq!("/j/2019-01-01.md", construct_path("/j/", &date(2019, 1, 1)));
    assert_eq!("2019-01-01.md", construct_path("", &date(2019, 1, 1)));
}

#[test]
fn malformed_stem_fails_with_invalid_file_beside_valid_names() {
    for bad in ["notes.md", "2018-3-20.md", "2018-03-20.txt"] {
        let names = listing(&["2018-03-29.md", bad, "2018-04-30.md"]);
        match previous_before(&names, &date(2018, 4, 1)) {
            Err(DateFSError::InvalidFile(name)) => assert_eq!(bad, name),
            other => panic!("unexpected {:?} for {}", other, bad),
        }
        let alone = listing(&[bad]);
        assert!(matches!(previous_before(&alone, &date(2018, 4, 1)), Err(DateFSError::InvalidFile(_))));
    }
}
