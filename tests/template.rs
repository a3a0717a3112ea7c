use dadi::collate::{collate_text, days_before};
use dadi::config::SectionConfig;
use dadi::date::CalendarDate;
use dadi::template::{entry_contents, parse_template, retrieve_section, SectionMap};

fn date(year: i32, month: u8, day: u8) -> CalendarDate {
    CalendarDate::new(year, month, day).unwrap()
}

fn pairs(m: &SectionMap) -> Vec<(&str, &str)> {
    m.sections.iter().map(|(t, b)| (t.as_str(), b.as_str())).collect()
}

#[test]
fn parse_splits_sections() {
    let text = "# 2019-01-01\n\n## todo\nbuy milk\n\ncall mom\n## notes\nnothing\n";
    let m = parse_template(text);
    assert_eq!(vec![("todo", "buy milk\n\ncall mom"), ("notes", "nothing")], pairs(&m));
    assert_eq!("buy milk\n\ncall mom", retrieve_section(&m, "todo"));
    assert_eq!("nothing", retrieve_section(&m, "notes"));
    assert_eq!("\n", retrieve_section(&m, "missing"));
    assert_eq!("\n", retrieve_section(&m, "## todo"));
}

#[test]
fn parse_without_headings_is_empty() {
    assert!(parse_template("").sections.is_empty());
    assert!(parse_template("# title\n\nsome text\n#not a heading\n##nor this\n").sections.is_empty());
}

#[test]
fn parse_keeps_blank_lines_and_last_section_without_terminator() {
    let m = parse_template("## a\n\nx\n\n## b\ny");
    assert_eq!(vec![("a", "\nx\n"), ("b", "y")], pairs(&m));
    let m = parse_template("## a\n## b\n\n");
    assert_eq!(vec![("a", ""), ("b", "")], pairs(&m));
}

#[test]
fn parse_later_duplicate_heading_wins() {
    let m = parse_template("## a\nfirst\n## b\nmid\n## a\nsecond\n");
    assert_eq!("second", retrieve_section(&m, "a"));
    assert_eq!("mid", retrieve_section(&m, "b"));
}

fn specs() -> Vec<SectionConfig> {
    vec![
        SectionConfig::new("todo", true, true),
        SectionConfig::new("log", false, true),
        SectionConfig::new("ideas", true, false),
    ]
}

#[test]
fn first_entry_has_blank_sections() {
    let text = entry_contents(&date(2019, 1, 1), &specs(), &None);
    assert_eq!("# January 1, 2019\n\n## todo\n\n## log\n\n## ideas\n\n", text);
}

#[test]
fn persisted_sections_carry_over() {
    let prev = parse_template("# 2018-12-31\n\n## log\nbusy day\n## todo\nbuy milk\n  - eggs\n");
    let text = entry_contents(&date(2019, 1, 1), &specs(), &Some(prev));
    assert_eq!("# January 1, 2019\n\n## todo\nbuy milk\n  - eggs\n## log\n\n## ideas\n\n", text);
}

#[test]
fn unpersisted_section_is_blank_whatever_came_before() {
    let prev = parse_template("## log\nsecret\n## todo\nt\n");
    let text = entry_contents(&date(2019, 1, 2), &specs(), &Some(prev));
    let m = parse_template(&text);
    assert_eq!("", retrieve_section(&m, "log"));
    assert_eq!("t", retrieve_section(&m, "todo"));
}

#[test]
fn written_entry_parses_back_to_its_bodies() {
    let prev = parse_template("## todo\na\n\nb\n\n## ideas\n\n\nz\n");
    let text = entry_contents(&date(2020, 2, 29), &specs(), &Some(prev));
    let m = parse_template(&text);
    assert_eq!(vec![("todo", "a\n\nb\n"), ("log", ""), ("ideas", "\n\nz")], pairs(&m));
}

#[test]
fn days_before_counts_back() {
    let days = days_before(&date(2019, 1, 2), 3);
    assert_eq!(vec![date(2019, 1, 1), date(2018, 12, 31), date(2018, 12, 30)], days);
    assert!(days_before(&date(2019, 1, 2), 0).is_empty());
    assert_eq!(vec![date(0, 1, 1)], days_before(&date(0, 1, 2), 5));
}

#[test]
fn collate_shows_collated_sections_oldest_first() {
    let d1 = parse_template("## todo\nt1\n## log\nl1\n## ideas\ni1\n");
    let d2 = parse_template("## todo\nt2\n## ideas\ni2\n");
    let entries = vec![(date(2019, 1, 2), d2), (date(2019, 1, 1), d1)];
    let text = collate_text(&entries, &specs());
    assert_eq!(
        "# January 1, 2019\n\n## todo\nt1## log\nl1# January 2, 2019\n\n## todo\nt2## log\n",
        text
    );
    assert_eq!("", collate_text(&Vec::new(), &specs()));
}

#[test]
fn entry_after_parsed_entry_has_exactly_the_configured_titles() {
    let prev = parse_template("# December 31, 2018\n\n## todo\nkeep\n## log\nold log\n## extra\nx\n");
    let text = entry_contents(&date(2019, 1, 1), &specs(), &Some(prev));
    let m = parse_template(&text);
    let titles: Vec<&str> = m.sections.iter().map(|(t, _)| t.as_str()).collect();
    assert_eq!(vec!["todo", "log", "ideas"], titles);
    assert_eq!("keep", retrieve_section(&m, "todo"));
    assert_eq!("", retrieve_section(&m, "log"));
    assert_eq!("", retrieve_section(&m, "ideas"));
    assert_eq!("\n", retrieve_section(&m, "extra"));
}
