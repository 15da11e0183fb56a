use tracker::date::Date;
use tracker::text::{decimal_string, parse_u16};

#[test]
fn parsing() {
    // Can be parsed
    assert_eq!(Date::new_from_string("2012-11-21"),
                Ok(Date::new_from_ints(2012, 11, 21).unwrap()));
    // Can't be parsed because of separators
    assert_eq!(Date::new_from_string("2030-1"),
                Err("Date parse error: incorrect number of seperators"));
    assert_eq!(Date::new_from_string("20"),
                Err("Date parse error: incorrect number of seperators"));
    assert_eq!(Date::new_from_string("2030-1-3-4"),
                Err("Date parse error: incorrect number of seperators"));
    // Can't be parsed because of non-integers
    assert_eq!(Date::new_from_string("e-1-4"),
                Err("Date parse error: cannot parse year"));
    assert_eq!(Date::new_from_string("2021-e-4"),
                Err("Date parse error: cannot parse month"));
    assert_eq!(Date::new_from_string("2021-1-e"),
                Err("Date parse error: cannot parse day"));
}

#[test]
fn representing() {
    let date1 = Date::new();
    let date2 = Date::new_from_ints(2023, 5, 27).unwrap();
    // Representing as string
    assert_eq!(date1.to_string(), String::from("2000-1-1"));
    assert_eq!(date2.to_string(), String::from("2023-5-27"));
    // Representing as tuple
    assert_eq!(date1.to_tuple(), (2000, 1, 1));
    assert_eq!(date2.to_tuple(), (2023, 5, 27));
}

#[test]
fn setting() {
    let mut date = Date::new();
    // Setting month
    assert_eq!(date.set_from_ints(2000, 1, 15), Ok(()));
    assert_eq!(date.set_from_ints(2000, 0, 15), Err("Set date error: month too small"));
    assert_eq!(date.set_from_ints(2000, 12, 15), Ok(()));
    assert_eq!(date.set_from_ints(2000, 13, 15), Err("Set date error: month too large"));
    // Setting day in January (31 days)
    assert_eq!(date.set_from_ints(2000, 1, 1), Ok(()));
    assert_eq!(date.set_from_ints(2000, 1, 0), Err("Set date error: day too small"));
    assert_eq!(date.set_from_ints(2000, 1, 31), Ok(()));
    assert_eq!(date.set_from_ints(2000, 1, 32), Err("Set date error: day too large"));
    // Setting day in April (30 days)
    assert_eq!(date.set_from_ints(2000, 4, 1), Ok(()));
    assert_eq!(date.set_from_ints(2000, 4, 0), Err("Set date error: day too small"));
    assert_eq!(date.set_from_ints(2000, 4, 30), Ok(()));
    assert_eq!(date.set_from_ints(2000, 4, 31), Err("Set date error: day too large"));
    // Setting day in February (normal: 28 days, leap year: 29 days)
    assert_eq!(date.set_from_ints(2000, 2, 1), Ok(()));
    assert_eq!(date.set_from_ints(2000, 2, 0), Err("Set date error: day too small"));
    assert_eq!(date.set_from_ints(2000, 2, 29), Ok(()));
    assert_eq!(date.set_from_ints(2000, 2, 30), Err("Set date error: day too large"));
    assert_eq!(date.set_from_ints(2001, 2, 28), Ok(()));
    assert_eq!(date.set_from_ints(2001, 2, 29), Err("Set date error: day too large"));
    assert_eq!(date.set_from_ints(2004, 2, 29), Ok(()));
    assert_eq!(date.set_from_ints(2004, 2, 30), Err("Set date error: day too large"));
    assert_eq!(date.set_from_ints(2100, 2, 28), Ok(()));
    assert_eq!(date.set_from_ints(2100, 2, 29), Err("Set date error: day too large"));
}

#[test]
fn add_sub_days() {
    let mut date = Date::new();
    assert_eq!(date.to_tuple(), (2000, 1, 1));
    date = date.add_days(1).unwrap();
    assert_eq!(date.to_tuple(), (2000, 1, 2));
    date = date.sub_days(1).unwrap();
    assert_eq!(date.to_tuple(), (2000, 1, 1));
    date = date.add_days(31).unwrap();
    assert_eq!(date.to_tuple(), (2000, 2, 1));
    date = date.sub_days(32).unwrap();
    assert_eq!(date.to_tuple(), (1999, 12, 31));
    date = date.add_days(100).unwrap();
    assert_eq!(date.to_tuple(), (2000, 4, 9));
    date.set_from_ints(std::u16::MAX, 12, 31).unwrap();
    assert_eq!(date.add_days(1), Err("Add days error: year went above max (65535)"));
    date.set_from_ints(0, 1, 1).unwrap();
    assert_eq!(date.sub_days(1), Err("Subtract days error: year went below min (0)"));
}

#[test]
fn text_round_trip_of_valid_dates() {
    let cases: [(u16, u16, u16); 6] =
        [(2000, 2, 29), (0, 1, 1), (65535, 12, 31), (2023, 11, 30), (7, 7, 7), (1999, 10, 10)];
    for (y, m, d) in cases {
        let date = Date::new_from_ints(y, m, d).unwrap();
        let back = Date::new_from_string(&date.to_string()).unwrap();
        assert_eq!(back, date);
        assert_eq!(back.to_tuple(), (y, m, d));
    }
}

#[test]
fn add_then_sub_returns_to_start() {
    let start = Date::new_from_ints(2000, 1, 1).unwrap();
    for n in [0u16, 1, 59, 60, 365, 366, 1000, 40000, 65535] {
        let later = start.add_days(n).unwrap();
        assert_eq!(later.sub_days(n), Ok(start));
    }
    let leap = Date::new_from_ints(2004, 2, 29).unwrap();
    assert_eq!(leap.add_days(365).unwrap().to_tuple(), (2005, 2, 28));
    assert_eq!(leap.add_days(365).unwrap().sub_days(365), Ok(leap));
}

#[test]
fn whole_month_steps_match_single_days() {
    for (y, m, d) in [(1999u16, 12u16, 31u16), (2000, 2, 28), (2100, 2, 1), (2023, 1, 31)] {
        let start = Date::new_from_ints(y, m, d).unwrap();
        let mut walked = start;
        for n in 1..=1500u16 {
            walked = walked.add_days(1).unwrap();
            assert_eq!(start.add_days(n), Ok(walked));
        }
        let mut back = start;
        for n in 1..=1500u16 {
            back = back.sub_days(1).unwrap();
            assert_eq!(start.sub_days(n), Ok(back));
        }
    }
}

#[test]
fn multi_year_offsets() {
    let date = Date::new_from_ints(2000, 1, 1).unwrap();
    // 2000 through 2003 hold 366 + 365 + 365 + 365 days.
    assert_eq!(date.add_days(1461).unwrap().to_tuple(), (2004, 1, 1));
    assert_eq!(date.sub_days(366).unwrap().to_tuple(), (1998, 12, 31));
    assert_eq!(date.add_days(36525).unwrap().to_tuple(), (2100, 1, 1));
}

#[test]
fn leap_years() {
    let leap = |y: u16| Date::new_from_ints(y, 1, 1).unwrap().is_leap_year();
    assert!(leap(2000));
    assert!(leap(2004));
    assert!(!leap(2100));
    assert!(!leap(2001));
    assert!(Date::new_from_ints(2000, 2, 29).is_ok());
    assert!(Date::new_from_ints(2004, 2, 29).is_ok());
    assert_eq!(Date::new_from_ints(2001, 2, 29), Err("Set date error: day too large"));
    assert_eq!(Date::new_from_ints(2100, 2, 29), Err("Set date error: day too large"));
}

#[test]
fn year_bounds_in_day_arithmetic() {
    let last = Date::new_from_ints(65535, 12, 31).unwrap();
    assert_eq!(last.add_days(0), Ok(last));
    assert_eq!(last.sub_days(365).unwrap().to_tuple(), (65534, 12, 31));
    let near_end = Date::new_from_ints(65535, 12, 1).unwrap();
    assert_eq!(near_end.add_days(30), Ok(last));
    assert_eq!(near_end.add_days(31), Err("Add days error: year went above max (65535)"));
    let first = Date::new_from_ints(0, 1, 1).unwrap();
    assert_eq!(first.sub_days(0), Ok(first));
    let early = Date::new_from_ints(0, 1, 5).unwrap();
    assert_eq!(early.sub_days(4), Ok(first));
    assert_eq!(early.sub_days(5), Err("Subtract days error: year went below min (0)"));
    // Year zero is a leap year.
    assert_eq!(first.add_days(59).unwrap().to_tuple(), (0, 2, 29));
}

#[test]
fn parsing_edge_cases() {
    assert_eq!(Date::new_from_string("+2012-1-1").unwrap().to_tuple(), (2012, 1, 1));
    assert_eq!(Date::new_from_string("0002012-01-09").unwrap().to_tuple(), (2012, 1, 9));
    assert_eq!(Date::new_from_string("2012--1"), Err("Date parse error: cannot parse month"));
    assert_eq!(Date::new_from_string(""), Err("Date parse error: incorrect number of seperators"));
    assert_eq!(Date::new_from_string("--"), Err("Date parse error: cannot parse year"));
    assert_eq!(Date::new_from_string("65536-1-1"), Err("Date parse error: cannot parse year"));
    assert_eq!(Date::new_from_string("2012-13-1"), Err("Set date error: month too large"));
    assert_eq!(Date::new_from_string("2012-0-1"), Err("Set date error: month too small"));
    assert_eq!(Date::new_from_string("2012-2-0"), Err("Set date error: day too small"));
    assert_eq!(Date::new_from_string("2013-2-29"), Err("Set date error: day too large"));
    assert_eq!(Date::new_from_string("2012-1-1 "), Err("Date parse error: cannot parse day"));
}

#[test]
fn setting_from_text_keeps_date_on_error() {
    let mut date = Date::new_from_ints(2020, 6, 15).unwrap();
    assert_eq!(date.set_from_string("2021-13-1"), Err("Set date error: month too large"));
    assert_eq!(date.to_tuple(), (2020, 6, 15));
    assert_eq!(date.set_from_ints(2021, 2, 29), Err("Set date error: day too large"));
    assert_eq!(date.to_tuple(), (2020, 6, 15));
    assert_eq!(date.set_from_string("2024-2-29"), Ok(()));
    assert_eq!(date.to_tuple(), (2024, 2, 29));
}

#[test]
fn ordering_of_dates() {
    let a = Date::new_from_ints(2023, 2, 1).unwrap();
    let b = Date::new_from_ints(2023, 3, 1).unwrap();
    let c = Date::new_from_ints(2024, 1, 1).unwrap();
    assert!(a.is_before(&b));
    assert!(b.is_before(&c));
    assert!(!b.is_before(&a));
    assert!(!a.is_before(&a));
    assert!(a < b && b < c);
}

#[test]
fn calendar_parts() {
    assert_eq!(Date::new_from_calendar(2024, 2, 29).unwrap().to_tuple(), (2024, 2, 29));
    assert_eq!(Date::new_from_calendar(-1, 1, 1), Err("Date error: year out of range (0 to 65535)"));
    assert_eq!(Date::new_from_calendar(65536, 1, 1), Err("Date error: year out of range (0 to 65535)"));
    assert_eq!(Date::new_from_calendar(2023, 70000, 1), Err("Set date error: month too large"));
    assert_eq!(Date::new_from_calendar(2023, 0, 70000), Err("Set date error: month too small"));
    assert_eq!(Date::new_from_calendar(2023, 4, 70000), Err("Set date error: day too large"));
    assert_eq!(Date::new_from_calendar(2023, 4, 31), Err("Set date error: day too large"));
}

#[test]
fn today_is_a_date() {
    let today = Date::new_from_today().unwrap();
    let (y, m, d) = today.to_tuple();
    assert!(y >= 2000);
    assert!((1..=12).contains(&m));
    assert!((1..=31).contains(&d));
}

#[test]
fn decimal_numbers() {
    assert_eq!(decimal_string(0), "0");
    assert_eq!(decimal_string(7), "7");
    assert_eq!(decimal_string(1440), "1440");
    assert_eq!(decimal_string(18446744073709551615), "18446744073709551615");
    assert_eq!(parse_u16("65535"), Some(65535));
    assert_eq!(parse_u16("65536"), None);
    assert_eq!(parse_u16("007"), Some(7));
    assert_eq!(parse_u16("+12"), Some(12));
    assert_eq!(parse_u16("+"), None);
    assert_eq!(parse_u16(""), None);
    assert_eq!(parse_u16("-0"), None);
    assert_eq!(parse_u16("1a"), None);
    assert_eq!(parse_u16("99999999999"), None);
}
