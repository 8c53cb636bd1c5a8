use synac_client::render::{
    format_timestamp, markdown, push_nat, push_timestamp, LocalTime, MAX_TIMESTAMP, MIN_TIMESTAMP,
};

fn at(days_from_ce: i32, hour: u32, minute: u32) -> LocalTime {
    LocalTime { days_from_ce, year: 2018, month: 3, day: 7, hour, minute }
}

fn text(today: i32, t: LocalTime) -> String {
    let mut s = String::new();
    push_timestamp(&mut s, today, t);
    s
}

#[test]
fn markdown_renders_html() {
    assert_eq!(markdown("*hi*"), "<p><em>hi</em></p>\n");
    assert_eq!(markdown(""), "");
}

#[test]
fn recent_days_are_named() {
    assert_eq!(text(100, at(100, 0, 5)), "Today at 12:05 AM");
    assert_eq!(text(100, at(99, 13, 30)), "Yesterday at 1:30 PM");
    assert_eq!(text(100, at(98, 12, 0)), "Two days ago at 12:00 PM");
    assert_eq!(text(100, at(97, 9, 9)), "Three days ago at 9:09 AM");
    assert_eq!(text(100, at(95, 23, 59)), "A few days ago at 11:59 PM");
    assert_eq!(text(100, at(93, 11, 0)), "A week ago at 11:00 AM");
}

#[test]
fn older_days_show_the_date() {
    assert_eq!(text(100, at(80, 10, 7)), "2018-3-7 at 10:07 AM");
}

#[test]
fn numbers_in_decimal() {
    let mut s = String::from("n=");
    push_nat(&mut s, 0);
    push_nat(&mut s, 1234567890);
    assert_eq!(s, "n=01234567890");
}

#[test]
fn format_timestamp_appends() {
    let mut s = String::from("x ");
    format_timestamp(&mut s, 0);
    assert!(s.starts_with("x "));
    assert!(s.contains(" at "));
    assert!(s.ends_with("AM") || s.ends_with("PM"));
}

#[test]
fn format_timestamp_outside_range_appends_nothing() {
    let mut s = String::from("x");
    format_timestamp(&mut s, MAX_TIMESTAMP + 1);
    format_timestamp(&mut s, MIN_TIMESTAMP - 1);
    format_timestamp(&mut s, i64::MAX);
    assert_eq!(s, "x");
}

#[test]
fn format_timestamp_at_range_ends_appends() {
    let mut s = String::new();
    format_timestamp(&mut s, MAX_TIMESTAMP - 86_400);
    assert!(s.contains(" at "));
    let mut s = String::new();
    format_timestamp(&mut s, MIN_TIMESTAMP + 86_400);
    assert!(s.contains(" at "));
}
