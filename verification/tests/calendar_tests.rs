use calckit::calendar::time_info;
use calckit::dates::Date;

#[test]
fn test_time_info_ordinary_date() {
    // 1995-10-15 was a Sunday, the 288th day of 1995, with 77 days left;
    // the date predates the lunar table, and the next trading day is Monday.
    assert_eq!(time_info("1995-10-15"), "41,6,288,77,Unsupported date,1");
}

#[test]
fn test_time_info_leap_day() {
    // 2000-02-29 was a Tuesday, day 60 of a leap year, itself a trading day.
    assert_eq!(time_info("2000-2-29"), "9,1,60,306,Unsupported date,0");
}

#[test]
fn test_time_info_invalid_date() {
    assert_eq!(time_info("2024-02-30"), "Invalid date");
    assert_eq!(time_info("not-a-date"), "Invalid date");
    assert_eq!(time_info("2024-13-01"), "Invalid date");
    assert_eq!(time_info("2024-02"), "Invalid date");
    assert_eq!(time_info("2023-2-29"), "Invalid date");
}

#[test]
fn test_time_info_lunar_and_holiday_walk() {
    // 2025-01-24 is a Friday inside the spring holiday window: the walk
    // skips the weekend and the last holiday, reaching Tuesday the 28th;
    // lunar new year 2025-01-29 lies 5 days ahead.
    assert_eq!(time_info("2025-01-24"), "4,4,24,341,5,4");
}

#[test]
fn test_time_info_trading_monday() {
    // 2025-01-20 is an ordinary trading Monday, 9 days before lunar new year.
    assert_eq!(time_info("2025-01-20"), "4,0,20,345,9,0");
}

#[test]
fn test_date_validation() {
    assert!(Date::new(2024, 2, 29).is_some());
    assert!(Date::new(2023, 2, 29).is_none());
    assert!(Date::new(2024, 0, 1).is_none());
    assert!(Date::new(2024, 13, 1).is_none());
    assert!(Date::new(2024, 4, 31).is_none());
    assert!(Date::from_str("2000-2-29").is_some());
    assert!(Date::from_str("2000--2-29").is_none());
    assert!(Date::from_str("").is_none());
}

#[test]
fn test_day_of_week_known_dates() {
    // Monday = 0 ... Sunday = 6.
    let sat = Date::from_str("2000-01-01").unwrap();
    assert_eq!(sat.day_of_week(), 5);
    let mon = Date::from_str("2024-01-01").unwrap();
    assert_eq!(mon.day_of_week(), 0);
    let sun = Date::from_str("1995-10-15").unwrap();
    assert_eq!(sun.day_of_week(), 6);
}

#[test]
fn test_trading_day_rules() {
    // 2025-10-01 (a Wednesday) is a national holiday; the walk crosses the
    // whole holiday week.
    let d = Date::from_str("2025-10-01").unwrap();
    assert!(!d.is_trading_day());
    // 2025-09-30 is a trading Tuesday.
    let d2 = Date::from_str("2025-09-30").unwrap();
    assert!(d2.is_trading_day());
    // From 2025-09-30 the next trading day is 2025-10-08: 1..7 are
    // holidays, and then the walk stops on Wednesday the 8th.
    assert_eq!(d2.days_until_next_trading_day(), 8);
}
