use exercises::calendar::{
    day_difference, day_of_week, day_of_year, days_in_month, days_left_in_year,
    days_since_epoch, first_monday_of_year, is_leap_year, week_of_year, Date, DateError,
};
use exercises::lunar::LunarCalendar;
use exercises::metrics::{calculate_time, parse_date, time_info};
use exercises::trading::{days_to_next_a_share_opening, default_holidays};

#[test]
fn test_calc_time() {
    let cases = [("2025-01-01", "1,3,1,364,28,0"), ("2025-01-18", "3,6,18,347,11,1")];
    for (input, expected) in cases {
        let result = time_info(input).unwrap();
        assert_eq!(result, expected, "input {}", input);
    }
}

#[test]
fn leap_year_spot_values() {
    assert!(is_leap_year(2000));
    assert!(!is_leap_year(1900));
    assert!(is_leap_year(2024));
    assert!(!is_leap_year(2023));
    assert!(is_leap_year(-4));
    assert!(!is_leap_year(-100));
}

#[test]
fn month_lengths_and_bad_month() {
    assert_eq!(days_in_month(2024, 2), Ok(29));
    assert_eq!(days_in_month(2023, 2), Ok(28));
    assert_eq!(days_in_month(2023, 4), Ok(30));
    assert_eq!(days_in_month(2023, 12), Ok(31));
    assert_eq!(days_in_month(2023, 13), Err(DateError::InvalidCalendarDate));
    assert_eq!(days_in_month(2023, 0), Err(DateError::InvalidCalendarDate));
}

#[test]
fn ordinals_of_month_starts_and_year_ends() {
    assert_eq!(day_of_year(2023, 1, 1), 1);
    assert_eq!(day_of_year(2023, 3, 1), 60);
    assert_eq!(day_of_year(2024, 3, 1), 61);
    assert_eq!(day_of_year(2023, 12, 31), 365);
    assert_eq!(day_of_year(2024, 12, 31), 366);
    assert_eq!(days_left_in_year(2024, 12, 31), 0);
    assert_eq!(days_left_in_year(2025, 1, 1), 364);
}

#[test]
fn weekdays_and_day_numbers() {
    assert_eq!(days_since_epoch(1, 1, 1), 1);
    assert_eq!(day_of_week(1, 1, 1), 1);
    assert_eq!(day_of_week(2025, 1, 1), 3);
    assert_eq!(day_of_week(2025, 1, 18), 6);
    assert_eq!(day_of_week(2000, 1, 1), 6);
    assert_eq!(day_of_week(2024, 12, 29), 7);
    assert_eq!(days_since_epoch(2025, 1, 2) - days_since_epoch(2025, 1, 1), 1);
}

#[test]
fn day_difference_is_symmetric() {
    assert_eq!(day_difference(2024, 12, 30, 2025, 1, 18), 19);
    assert_eq!(day_difference(2025, 1, 18, 2024, 12, 30), 19);
    assert_eq!(day_difference(2000, 2, 28, 2000, 3, 1), 2);
    assert_eq!(day_difference(2000, 3, 1, 2000, 2, 28), 2);
}

#[test]
fn iso_week_boundaries() {
    assert_eq!(week_of_year(2025, 1, 1), 1);
    assert_eq!(week_of_year(2025, 12, 29), 1);
    assert_eq!(week_of_year(2025, 12, 28), 52);
    assert_eq!(week_of_year(2021, 1, 1), 53);
    assert_eq!(week_of_year(2022, 1, 1), 52);
    assert_eq!(week_of_year(2023, 1, 1), 52);
    assert_eq!(week_of_year(2020, 12, 31), 53);
    assert_eq!(week_of_year(2026, 1, 5), 2);
    assert_eq!(first_monday_of_year(2025), days_since_epoch(2024, 12, 30));
    assert_eq!(first_monday_of_year(2021), days_since_epoch(2021, 1, 4));
}

#[test]
fn lunar_new_year_offsets() {
    let cal = LunarCalendar::new();
    let d = |y, m, dd| Date::new(y, m, dd).unwrap();
    assert_eq!(cal.find_lunar_new_year(2025), Ok(d(2025, 1, 29)));
    assert_eq!(cal.days_until_lunar_new_year(&d(2025, 1, 1)), Ok(28));
    assert_eq!(cal.days_until_lunar_new_year(&d(2025, 1, 28)), Ok(1));
    // On the new year's day itself the count runs to 2026-02-17.
    assert_eq!(cal.days_until_lunar_new_year(&d(2025, 1, 29)), Ok(384));
    assert_eq!(cal.days_until_lunar_new_year(&d(2025, 12, 31)), Ok(48));
}

#[test]
fn lunar_lookup_out_of_range() {
    let cal = LunarCalendar::new();
    assert_eq!(cal.find_lunar_new_year(1799), Err(DateError::OutOfRange));
    assert_eq!(cal.find_lunar_new_year(2101), Err(DateError::OutOfRange));
    assert_eq!(cal.find_lunar_new_year(1800), Ok(Date::new(1800, 1, 25).unwrap()));
    assert_eq!(cal.find_lunar_new_year(2100), Ok(Date::new(2100, 2, 9).unwrap()));
    let late = Date::new(2100, 3, 1).unwrap();
    assert_eq!(cal.days_until_lunar_new_year(&late), Err(DateError::OutOfRange));
    let early = Date::new(1799, 1, 1).unwrap();
    assert_eq!(cal.days_until_lunar_new_year(&early), Err(DateError::OutOfRange));
    assert_eq!(time_info("2101-01-01"), Err(DateError::OutOfRange));
}

#[test]
fn trading_day_offsets() {
    let hol = default_holidays();
    let d = |y, m, dd| Date::new(y, m, dd).unwrap();
    // Saturday: Sunday is closed, Monday opens.
    assert_eq!(days_to_next_a_share_opening(&d(2025, 1, 18), &hol), 1);
    // Friday: two weekend days.
    assert_eq!(days_to_next_a_share_opening(&d(2025, 1, 17), &hol), 2);
    // Wednesday before a Thursday that opens.
    assert_eq!(days_to_next_a_share_opening(&d(2025, 1, 1), &hol), 0);
    // Monday before the spring festival closure of Jan 28 to Feb 4.
    assert_eq!(days_to_next_a_share_opening(&d(2025, 1, 27), &hol), 8);
    // Without holidays only the weekend counts.
    assert_eq!(days_to_next_a_share_opening(&d(2025, 1, 27), &Vec::new()), 0);
    assert_eq!(days_to_next_a_share_opening(&d(2025, 9, 30), &hol), 8);
}

#[test]
fn parse_errors() {
    assert_eq!(parse_date("2025-13-01"), Err(DateError::InvalidCalendarDate));
    assert_eq!(parse_date("2025/01/01"), Err(DateError::ParseError));
    assert_eq!(parse_date("2025-02-29"), Err(DateError::InvalidCalendarDate));
    assert_eq!(parse_date("0000-01-01"), Err(DateError::OutOfRange));
    assert_eq!(time_info("0000-01-01"), Err(DateError::OutOfRange));
    assert_eq!(parse_date("0000-02-30"), Err(DateError::InvalidCalendarDate));
    assert_eq!(parse_date("2025-1-01"), Err(DateError::ParseError));
    assert_eq!(parse_date("2024-02-29"), Ok(Date { year: 2024, month: 2, day: 29 }));
    assert_eq!(time_info("2025-13-01"), Err(DateError::InvalidCalendarDate));
    assert_eq!(time_info("2025/01/01"), Err(DateError::ParseError));
}

#[test]
fn calculate_time_fields() {
    let cal = LunarCalendar::new();
    let hol = default_holidays();
    let info = calculate_time(&Date::new(2025, 1, 18).unwrap(), &cal, &hol).unwrap();
    assert_eq!(info.week, 3);
    assert_eq!(info.weekday, 6);
    assert_eq!(info.day_of_year, 18);
    assert_eq!(info.days_left, 347);
    assert_eq!(info.days_to_lunar_new_year, 11);
    assert_eq!(info.days_to_trading, 1);
}
