use vstd::prelude::*;
use vstd::arithmetic::div_mod::lemma_mod_multiples_vanish;

verus! {

/// Why a date computation could not produce a value.
#[derive(Clone, Copy, Debug, PartialEq, Eq, Structural)]
pub enum DateError {
    /// The text is not of the form `YYYY-MM-DD`.
    ParseError,
    /// The month is outside 1..=12, or the day is 0 or exceeds the month's length.
    InvalidCalendarDate,
    /// The year lies outside the range of the lunar new year table (year 0 among them).
    OutOfRange,
}

/// A calendar day of the proleptic Gregorian calendar.
#[derive(Clone, Copy, Debug, PartialEq, Eq, Structural)]
pub struct Date {
    pub year: i32,
    pub month: i32,
    pub day: i32,
}

/// Largest year a date may carry.
pub const MAX_YEAR: i32 = 9999;

/// Gregorian leap-year rule.
pub open spec fn is_leap(year: int) -> bool {
    (year % 4 == 0 && year % 100 != 0) || year % 400 == 0
}

pub open spec fn year_len(year: int) -> int {
    if is_leap(year) {
        366
    } else {
        365
    }
}

pub open spec fn month_len(year: int, month: int) -> int {
    if month == 2 {
        if is_leap(year) {
            29
        } else {
            28
        }
    } else if month == 4 || month == 6 || month == 9 || month == 11 {
        30
    } else {
        31
    }
}

/// Days of the year that lie in the months before `month`.
pub open spec fn days_before_month(year: int, month: int) -> int
    decreases month,
{
    if month <= 1 {
        0
    } else {
        days_before_month(year, month - 1) + month_len(year, month - 1)
    }
}

/// Days of all the years before `year`, counting from year 1.
pub open spec fn days_before_year(year: int) -> int
    decreases year,
{
    if year <= 1 {
        0
    } else {
        days_before_year(year - 1) + year_len(year - 1)
    }
}

/// Ordinal of a day within its year, January 1 being 1.
pub open spec fn ordinal(year: int, month: int, day: int) -> int {
    days_before_month(year, month) + day
}

/// Day number counted from 0001-01-01, which is day 1.
pub open spec fn epoch_day(year: int, month: int, day: int) -> int {
    days_before_year(year) + ordinal(year, month, day)
}

/// Weekday of a day number, 1 = Monday .. 7 = Sunday (0001-01-01 was a Monday).
pub open spec fn weekday_of(e: int) -> int {
    (e - 1) % 7 + 1
}

/// Absolute difference of two day numbers.
pub open spec fn distance(a: int, b: int) -> int {
    if a >= b {
        a - b
    } else {
        b - a
    }
}

pub open spec fn valid_date(year: int, month: int, day: int) -> bool {
    1 <= year <= MAX_YEAR && 1 <= month <= 12 && 1 <= day <= month_len(year, month)
}

/// Day number of the Monday that starts ISO week 1 of `year` (the week holding January 4).
pub open spec fn week1_monday(year: int) -> int {
    epoch_day(year, 1, 4) - (weekday_of(epoch_day(year, 1, 4)) - 1)
}

/// ISO-8601 week number of a day.
pub open spec fn iso_week(year: int, month: int, day: int) -> int {
    let e = epoch_day(year, month, day);
    if e >= week1_monday(year + 1) {
        1
    } else if e < week1_monday(year) {
        (e - week1_monday(year - 1)) / 7 + 1
    } else {
        (e - week1_monday(year)) / 7 + 1
    }
}

impl Date {
    pub open spec fn valid(self) -> bool {
        valid_date(self.year as int, self.month as int, self.day as int)
    }

    pub open spec fn epoch(self) -> int {
        epoch_day(self.year as int, self.month as int, self.day as int)
    }

    /// Builds a date, or `None` where the fields do not name a day.
    pub fn new(year: i32, month: i32, day: i32) -> (r: Option<Date>)
        ensures
            r is Some <==> valid_date(year as int, month as int, day as int),
            r is Some ==> r->0 == (Date { year, month, day }),
    {
        if year < 1 || year > MAX_YEAR || month < 1 || month > 12 || day < 1 {
            return None;
        }
        if day > month_length(year, month) {
            None
        } else {
            Some(Date { year, month, day })
        }
    }
}

pub proof fn lemma_days_before_month_bounds(year: int, month: int)
    requires
        1 <= month <= 13,
    ensures
        0 <= days_before_month(year, month) <= 31 * (month - 1),
        month == 13 ==> days_before_month(year, month) == year_len(year),
    decreases month,
{
    if month > 1 {
        lemma_days_before_month_bounds(year, month - 1);
    }
    if month == 13 {
        reveal_with_fuel(days_before_month, 13);
    }
}

pub proof fn lemma_days_before_year_bounds(year: int)
    requires
        1 <= year,
    ensures
        365 * (year - 1) <= days_before_year(year) <= 366 * (year - 1),
    decreases year,
{
    if year > 1 {
        lemma_days_before_year_bounds(year - 1);
    }
}

/// A valid day's ordinal does not exceed the length of its year.
pub proof fn lemma_ordinal_within_year(year: int, month: int, day: int)
    requires
        1 <= month <= 12,
        1 <= day <= month_len(year, month),
    ensures
        1 <= ordinal(year, month, day) <= year_len(year),
    decreases 13 - month,
{
    lemma_days_before_month_bounds(year, month);
    if month == 12 {
        lemma_days_before_month_bounds(year, 13);
    } else {
        lemma_ordinal_within_year(year, month + 1, 1);
    }
}

/// Tests whether `k` divides `year`, for positive `k` and any sign of `year`.
fn divides(year: i32, k: i32) -> (r: bool)
    requires
        k > 0,
    ensures
        r == (year as int % k as int == 0),
{
    match year.checked_rem_euclid(k) {
        Some(m) => m == 0,
        None => false,
    }
}

/// Gregorian leap-year test: divisible by 4 and not by 100, or divisible by 400.
pub fn is_leap_year(year: i32) -> (r: bool)
    ensures
        r == is_leap(year as int),
{
    (divides(year, 4) && !divides(year, 100)) || divides(year, 400)
}

fn month_length(year: i32, month: i32) -> (r: i32)
    requires
        1 <= month <= 12,
    ensures
        r == month_len(year as int, month as int),
        28 <= r <= 31,
{
    if month == 2 {
        if is_leap_year(year) {
            29
        } else {
            28
        }
    } else if month == 4 || month == 6 || month == 9 || month == 11 {
        30
    } else {
        31
    }
}

/// Number of days in a month; a month outside 1..=12 is rejected.
pub fn days_in_month(year: i32, month: i32) -> (r: Result<i32, DateError>)
    ensures
        1 <= month <= 12 ==> r == Ok::<i32, DateError>(month_len(year as int, month as int) as i32),
        !(1 <= month <= 12) ==> r == Err::<i32, DateError>(DateError::InvalidCalendarDate),
{
    if month < 1 || month > 12 {
        Err(DateError::InvalidCalendarDate)
    } else {
        Ok(month_length(year, month))
    }
}

/// Ordinal of the day within its year: the days of the earlier months plus `day`.
pub fn day_of_year(year: i32, month: i32, day: i32) -> (r: i32)
    requires
        1 <= month <= 12,
        1 <= day <= 31,
    ensures
        r == ordinal(year as int, month as int, day as int),
        1 <= r <= 372,
{
    let mut days: i32 = 0;
    let mut m: i32 = 1;
    while m < month
        invariant
            1 <= m <= month <= 12,
            days == days_before_month(year as int, m as int),
            0 <= days <= 31 * (m - 1),
        decreases month - m,
    {
        days = days + month_length(year, m);
        m = m + 1;
    }
    days + day
}

/// Days of the year that remain after the given day.
pub fn days_left_in_year(year: i32, month: i32, day: i32) -> (r: i32)
    requires
        1 <= month <= 12,
        1 <= day <= 31,
    ensures
        r == year_len(year as int) - ordinal(year as int, month as int, day as int),
        day <= month_len(year as int, month as int) ==> r >= 0,
{
    proof {
        if day <= month_len(year as int, month as int) {
            lemma_ordinal_within_year(year as int, month as int, day as int);
        }
    }
    let total: i32 = if is_leap_year(year) { 366 } else { 365 };
    total - day_of_year(year, month, day)
}

/// Day number of a date, 0001-01-01 being day 1.
pub fn days_since_epoch(year: i32, month: i32, day: i32) -> (r: i32)
    requires
        1 <= year <= MAX_YEAR + 1,
        1 <= month <= 12,
        1 <= day <= 31,
    ensures
        r == epoch_day(year as int, month as int, day as int),
        r >= 1,
{
    let mut days: i32 = 0;
    let mut y: i32 = 1;
    while y < year
        invariant
            1 <= y <= year <= MAX_YEAR + 1,
            days == days_before_year(y as int),
        decreases year - y,
    {
        proof {
            lemma_days_before_year_bounds(y as int);
        }
        days = days + if is_leap_year(y) { 366 } else { 365 };
        y = y + 1;
    }
    proof {
        lemma_days_before_year_bounds(year as int);
        lemma_days_before_month_bounds(year as int, month as int);
    }
    days + day_of_year(year, month, day)
}

/// Days of the years `0..year` counted as 365 each plus the Gregorian leap days.
pub open spec fn leap_adjusted(year: int) -> int {
    year + year / 4 - year / 100 + year / 400
}

/// Closed form of the days before a year.
pub proof fn lemma_days_before_year_closed(year: int)
    requires
        0 <= year,
    ensures
        days_before_year(year + 1) == 364 * year + leap_adjusted(year),
    decreases year,
{
    if year > 0 {
        lemma_days_before_year_closed(year - 1);
        assert(days_before_year(year + 1) == days_before_year(year) + year_len(year));
    }
}

/// Days before `month` in a common year, and the month term of Zeller's congruence.
proof fn lemma_month_terms(year: int, month: int)
    requires
        1 <= month <= 12,
    ensures
        month >= 3 ==> days_before_month(year, month) == days_before_month(1, month)
            + (if is_leap(year) { 1int } else { 0int }),
        month >= 3 ==> (days_before_month(1, month) - 26 * (month + 1) / 10) % 7 == 0,
        month == 1 ==> days_before_month(year, month) == 0 && 26 * (month + 13) / 10 == 36,
        month == 2 ==> days_before_month(year, month) == 31 && 26 * (month + 13) / 10 == 39,
{
    reveal_with_fuel(days_before_month, 13);
}

/// Zeller's sum for a date, with January and February counted as months 13 and 14 of the
/// previous year; it agrees with the day number modulo 7.
proof fn lemma_zeller_agrees(year: int, month: int, day: int, zy: int, zm: int)
    requires
        1 <= year,
        1 <= month <= 12,
        zy == (if month < 3 { year - 1 } else { year }),
        zm == (if month < 3 { month + 12 } else { month }),
    ensures
        (zy % 100 + (zy % 100) / 4 + (zy / 100) / 4 + 5 * (zy / 100) + 26 * (zm + 1) / 10 + day - 1) % 7
            == epoch_day(year, month, day) % 7,
{
    let c = zy / 100;
    let yy = zy % 100;
    let t = 26 * (zm + 1) / 10;
    let z = yy + yy / 4 + c / 4 + 5 * c + t + day - 1;
    assert(zy == 100 * c + yy && 0 <= yy < 100);
    assert(zy / 4 == 25 * c + yy / 4);
    assert(zy / 100 == c);
    assert(zy / 400 == c / 4);
    assert(leap_adjusted(zy) == 124 * c + yy + yy / 4 + c / 4);
    lemma_month_terms(year, month);
    let e = epoch_day(year, month, day);
    if month < 3 {
        lemma_days_before_year_closed(year - 1);
        assert(e == 364 * zy + leap_adjusted(zy) + days_before_month(year, month) + day);
        let k = 52 * zy + 17 * c + (days_before_month(year, month) - t + 1) / 7;
        assert(e == 7 * k + z);
        lemma_mod_multiples_vanish(k, z, 7);
    } else {
        lemma_days_before_year_closed(year);
        assert(days_before_year(year + 1) == days_before_year(year) + year_len(year));
        let dm = days_before_month(1, month);
        assert(e == 364 * zy - 365 + leap_adjusted(zy) + dm + day);
        let k = 52 * zy - 52 + 17 * c + (dm - t) / 7;
        assert(e == 7 * k + z);
        lemma_mod_multiples_vanish(k, z, 7);
    }
}

/// Weekday of a date, 1 = Monday .. 7 = Sunday, by Zeller's congruence.
pub fn day_of_week(year: i32, month: i32, day: i32) -> (r: i32)
    requires
        1 <= year <= MAX_YEAR + 1,
        1 <= month <= 12,
        1 <= day <= 31,
    ensures
        r == weekday_of(epoch_day(year as int, month as int, day as int)),
        1 <= r <= 7,
{
    let mut y = year;
    let mut m = month;
    if m < 3 {
        m = m + 12;
        y = y - 1;
    }
    let c = y / 100;
    let yy = y % 100;
    // Zeller's `- 2c` is written `+ 5c`, the same modulo 7, so that the sum stays non-negative.
    let w = (yy + yy / 4 + c / 4 + 5 * c + 26 * (m + 1) / 10 + day - 1) % 7;
    proof {
        lemma_zeller_agrees(year as int, month as int, day as int, y as int, m as int);
    }
    if w == 0 {
        7
    } else {
        w
    }
}

/// Number of days between two dates, whichever comes first.
pub fn day_difference(year1: i32, month1: i32, day1: i32, year2: i32, month2: i32, day2: i32) -> (r: i32)
    requires
        1 <= year1 <= MAX_YEAR + 1,
        1 <= month1 <= 12,
        1 <= day1 <= 31,
        1 <= year2 <= MAX_YEAR + 1,
        1 <= month2 <= 12,
        1 <= day2 <= 31,
    ensures
        r == distance(
            epoch_day(year1 as int, month1 as int, day1 as int),
            epoch_day(year2 as int, month2 as int, day2 as int),
        ),
{
    let days1 = days_since_epoch(year1, month1, day1);
    let days2 = days_since_epoch(year2, month2, day2);
    if days2 >= days1 {
        days2 - days1
    } else {
        days1 - days2
    }
}

/// The number of days between two dates does not depend on which is named first.
pub proof fn lemma_day_difference_symmetric(a: Date, b: Date)
    ensures
        distance(a.epoch(), b.epoch()) == distance(b.epoch(), a.epoch()),
{
}

/// January 1 has ordinal 1 plus nothing before it; the first of each month follows the
/// months before it; December 31 closes the year at 365 or 366.
pub proof fn lemma_ordinal_of_month_starts_and_year_end(year: int, month: int)
    requires
        1 <= month <= 12,
    ensures
        ordinal(year, month, 1) == days_before_month(year, month) + 1,
        ordinal(year, 12, 31) == year_len(year),
        ordinal(year, 12, 31) == (if is_leap(year) { 366int } else { 365int }),
{
    lemma_days_before_month_bounds(year, 13);
}

/// Day number of the Monday that opens ISO week 1 of `year`: the Monday on or before
/// January 4, which is the week holding the year's first Thursday.
pub fn first_monday_of_year(year: i32) -> (r: i32)
    requires
        1 <= year <= MAX_YEAR + 1,
    ensures
        r == week1_monday(year as int),
        r >= epoch_day(year as int, 1, 4) - 6,
        r <= epoch_day(year as int, 1, 4),
{
    let jan4 = days_since_epoch(year, 1, 4);
    let wd = day_of_week(year, 1, 4);
    jan4 - (wd - 1)
}

/// Day number of the Monday that opens ISO week 2 of `year`.
pub fn second_monday_of_year(year: i32) -> (r: i32)
    requires
        1 <= year <= MAX_YEAR + 1,
    ensures
        r == week1_monday(year as int) + 7,
{
    proof {
        lemma_days_before_year_bounds(year as int);
    }
    first_monday_of_year(year) + 7
}

/// ISO-8601 week number of a date. Late-December days on or after the next year's first
/// Monday are in week 1; early-January days before this year's first Monday count in the
/// previous year's last week.
pub fn week_of_year(year: i32, month: i32, day: i32) -> (r: i32)
    requires
        valid_date(year as int, month as int, day as int),
    ensures
        r == iso_week(year as int, month as int, day as int),
        1 <= r <= 53,
{
    let e = days_since_epoch(year, month, day);
    let this_monday = first_monday_of_year(year);
    let next_monday = first_monday_of_year(year + 1);
    proof {
        lemma_days_before_year_bounds(year as int);
        lemma_days_before_year_bounds(year as int + 1);
        lemma_days_before_month_bounds(year as int, month as int);
        lemma_days_before_month_bounds(year as int, 13);
    }
    if e >= next_monday {
        1
    } else if e < this_monday {
        if year == 1 {
            proof {
                assert(epoch_day(1, 1, 4) == 4);
                assert(e >= 1);
            }
            1
        } else {
            let prev_monday = first_monday_of_year(year - 1);
            proof {
                lemma_days_before_year_bounds(year as int - 1);
                lemma_days_before_month_bounds(year as int - 1, 13);
                assert(days_before_year(year as int) == days_before_year(year as int - 1) + year_len(year as int - 1));
            }
            (e - prev_monday) / 7 + 1
        }
    } else {
        (e - this_monday) / 7 + 1
    }
}

} // verus!
