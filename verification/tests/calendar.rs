use cykel::calendar::Date;

#[test]
fn day_numbers_count_from_the_first_of_january_of_year_one() {
    assert_eq!(Date::from_ymd(1, 1, 1), Some(Date { days: 1 }));
    assert_eq!(Date::from_ymd(1970, 1, 1), Some(Date { days: 719_163 }));
    assert_eq!(Date::from_ymd(0, 12, 31), Some(Date { days: 0 }));
}

#[test]
fn dates_that_the_calendar_lacks_are_refused() {
    assert_eq!(Date::from_ymd(2015, 2, 29), None);
    assert_eq!(Date::from_ymd(2015, 0, 14), None);
    assert_eq!(Date::from_ymd(2015, 13, 1), None);
    assert_eq!(Date::from_ymd(400_000, 1, 1), None);
}

#[test]
fn parse_reads_year_month_and_day() {
    assert_eq!(Date::parse("1970-01-01"), Some(Date { days: 719_163 }));
    assert_eq!(Date::parse("2026-02-26"), Date::from_ymd(2026, 2, 26));
}

#[test]
fn parse_refuses_what_is_no_date() {
    assert_eq!(Date::parse("not a date"), None);
    assert_eq!(Date::parse("2026-02-30"), None);
    assert_eq!(Date::parse("2026/02/26"), None);
    assert_eq!(Date::parse(""), None);
}

#[test]
fn days_since_is_the_difference_of_day_numbers() {
    let a = Date::from_ymd(2026, 1, 29).unwrap();
    let b = Date::from_ymd(2026, 1, 1).unwrap();
    assert_eq!(a.days_since(b), 28);
    assert_eq!(b.days_since(a), -28);
    assert_eq!(a.days_since(a), 0);
    assert_eq!(Date { days: i32::MAX }.days_since(Date { days: i32::MIN }), 4_294_967_295);
}

#[test]
fn plus_days_moves_by_whole_days() {
    let start = Date::from_ymd(2026, 1, 29).unwrap();
    assert_eq!(start.plus_days(28), Date::from_ymd(2026, 2, 26));
    assert_eq!(start.plus_days(-28), Date::from_ymd(2026, 1, 1));
    assert_eq!(start.plus_days(0), Some(start));
}

#[test]
fn plus_days_has_no_date_beyond_the_day_numbers() {
    assert_eq!(Date { days: i32::MAX }.plus_days(1), None);
    assert_eq!(Date { days: i32::MIN }.plus_days(-1), None);
    assert_eq!(Date { days: i32::MAX }.plus_days(i64::MAX), None);
    assert_eq!(Date { days: i32::MAX - 1 }.plus_days(1), Some(Date { days: i32::MAX }));
}

#[test]
fn today_is_a_day_of_this_century() {
    let today = Date::today();
    assert!(today > Date::from_ymd(2020, 1, 1).unwrap());
    assert!(today < Date::from_ymd(2100, 1, 1).unwrap());
}

#[test]
fn read_gives_the_date_or_the_reason() {
    assert_eq!(Date::read("2026-02-26"), Ok(Date::from_ymd(2026, 2, 26).unwrap()));
    assert_eq!(Date::read("2026-02-30"), Err("input is out of range".to_string()));
    assert_eq!(Date::read("not a date"), Err("input contains invalid characters".to_string()));
    assert_eq!(Date::read(""), Err("premature end of input".to_string()));
}
