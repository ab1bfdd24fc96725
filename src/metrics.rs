use vstd::prelude::*;
use vstd::string::StringSliceAdditionalSpecFns;
use crate::calendar::{
    Date, DateError, day_of_week, days_in_month, month_len, day_of_year, days_left_in_year, iso_week, ordinal,
    valid_date, week_of_year, weekday_of, year_len,
};
use crate::lunar::{LUNAR_NEW_YEAR_DATES, LunarCalendar, days_until_new_year, table_wf};
use crate::text::{decimal, push_char, push_decimal};
use crate::trading::{
    DEFAULT_HOLIDAYS, all_valid, dates_of, days_to_next_a_share_opening, default_holidays,
    is_trading_day,
};

verus! {

/// The six figures reported for a date.
#[derive(Clone, Copy, Debug, PartialEq, Eq, Structural)]
pub struct TimeInfo {
    pub week: i32,
    pub weekday: i32,
    pub day_of_year: i32,
    pub days_left: i32,
    pub days_to_lunar_new_year: i32,
    pub days_to_trading: i32,
}

pub open spec fn is_ascii_digit(b: u8) -> bool {
    48 <= b <= 57
}

/// `YYYY-MM-DD`: ten bytes, dashes at 4 and 7, digits elsewhere.
pub open spec fn well_formed(b: Seq<u8>) -> bool {
    &&& b.len() == 10
    &&& b[4] == 45u8 && b[7] == 45u8
    &&& forall|i: int| 0 <= i < 10 && i != 4 && i != 7 ==> is_ascii_digit(#[trigger] b[i])
}

pub open spec fn digit_at(b: Seq<u8>, i: int) -> int {
    b[i] as int - 48
}

pub open spec fn year_field(b: Seq<u8>) -> int {
    digit_at(b, 0) * 1000 + digit_at(b, 1) * 100 + digit_at(b, 2) * 10 + digit_at(b, 3)
}

pub open spec fn month_field(b: Seq<u8>) -> int {
    digit_at(b, 5) * 10 + digit_at(b, 6)
}

pub open spec fn day_field(b: Seq<u8>) -> int {
    digit_at(b, 8) * 10 + digit_at(b, 9)
}

/// What the text `YYYY-MM-DD` denotes.
pub open spec fn parsed_date(b: Seq<u8>) -> Result<Date, DateError> {
    if !well_formed(b) {
        Err(DateError::ParseError)
    } else if !(1 <= month_field(b) <= 12 && 1 <= day_field(b) <= month_len(year_field(b), month_field(b))) {
        Err(DateError::InvalidCalendarDate)
    } else if year_field(b) == 0 {
        Err(DateError::OutOfRange)
    } else {
        Ok(Date { year: year_field(b) as i32, month: month_field(b) as i32, day: day_field(b) as i32 })
    }
}

/// The figures of `info` are those of `date`, with the lunar table `t` and the closures `h`.
pub open spec fn describes(info: TimeInfo, date: Date, t: Seq<(u8, u8)>, h: Seq<Date>) -> bool {
    let (y, m, d) = (date.year as int, date.month as int, date.day as int);
    &&& info.week == iso_week(y, m, d)
    &&& info.weekday == weekday_of(date.epoch())
    &&& info.day_of_year == ordinal(y, m, d)
    &&& info.days_left == year_len(y) - ordinal(y, m, d)
    &&& days_until_new_year(t, date) == Ok::<int, DateError>(info.days_to_lunar_new_year as int)
    &&& info.days_to_trading >= 0
    &&& forall|k: int|
        date.epoch() < k <= date.epoch() + info.days_to_trading ==> !#[trigger] is_trading_day(h, k)
    &&& is_trading_day(h, date.epoch() + info.days_to_trading + 1)
}

pub open spec fn nonnegative(info: TimeInfo) -> bool {
    &&& info.week >= 0
    &&& info.weekday >= 0
    &&& info.day_of_year >= 0
    &&& info.days_left >= 0
    &&& info.days_to_lunar_new_year >= 0
    &&& info.days_to_trading >= 0
}

/// The figures joined by commas, in the order week, weekday, day of year, days left,
/// days to the lunar new year, days to the next trading day.
pub open spec fn rendered(info: TimeInfo) -> Seq<char> {
    decimal(info.week as nat) + seq![','] + decimal(info.weekday as nat) + seq![',']
        + decimal(info.day_of_year as nat) + seq![','] + decimal(info.days_left as nat) + seq![',']
        + decimal(info.days_to_lunar_new_year as nat) + seq![',']
        + decimal(info.days_to_trading as nat)
}

fn digit(b: &[u8], i: usize) -> (r: i32)
    requires
        i < b@.len(),
        is_ascii_digit(b@[i as int]),
    ensures
        r == digit_at(b@, i as int),
        0 <= r <= 9,
{
    (b[i] - 48) as i32
}

/// Reads a date written `YYYY-MM-DD`, zero-padded. Year 0 has no lunar new year in the
/// table and no place in the calendar, so it is out of range.
pub fn parse_date(text: &str) -> (r: Result<Date, DateError>)
    ensures
        r == parsed_date(text.spec_bytes()),
{
    let b = text.as_bytes();
    if b.len() != 10 || b[4] != 45u8 || b[7] != 45u8 {
        return Err(DateError::ParseError);
    }
    let mut i: usize = 0;
    while i < 10
        invariant
            b@ == text.spec_bytes(),
            b@.len() == 10,
            i <= 10,
            forall|j: int| 0 <= j < i && j != 4 && j != 7 ==> is_ascii_digit(#[trigger] b@[j]),
        decreases 10 - i,
    {
        if i != 4 && i != 7 && (b[i] < 48 || b[i] > 57) {
            return Err(DateError::ParseError);
        }
        i = i + 1;
    }
    let year = digit(b, 0) * 1000 + digit(b, 1) * 100 + digit(b, 2) * 10 + digit(b, 3);
    let month = digit(b, 5) * 10 + digit(b, 6);
    let day = digit(b, 8) * 10 + digit(b, 9);
    if month < 1 || month > 12 {
        return Err(DateError::InvalidCalendarDate);
    }
    match days_in_month(year, month) {
        Ok(n) => {
            if day < 1 || day > n {
                return Err(DateError::InvalidCalendarDate);
            }
        },
        Err(e) => return Err(e),
    }
    if year == 0 {
        return Err(DateError::OutOfRange);
    }
    Ok(Date { year, month, day })
}

/// Computes the six figures of a date; fails only where the lunar table does not reach.
pub fn calculate_time(date: &Date, calendar: &LunarCalendar, holidays: &Vec<Date>) -> (r: Result<TimeInfo, DateError>)
    requires
        date.valid(),
        table_wf(calendar@),
        all_valid(holidays@),
    ensures
        r is Err <==> days_until_new_year(calendar@, *date) is Err,
        r is Err ==> r == Err::<TimeInfo, DateError>(DateError::OutOfRange),
        r is Ok ==> describes(r->Ok_0, *date, calendar@, holidays@),
        r is Ok ==> nonnegative(r->Ok_0),
{
    proof {
        crate::lunar::lemma_days_until_positive(calendar@, *date);
    }
    let (y, m, d) = (date.year, date.month, date.day);
    let lunar = match calendar.days_until_lunar_new_year(date) {
        Ok(v) => v,
        Err(e) => return Err(e),
    };
    Ok(TimeInfo {
        week: week_of_year(y, m, d),
        weekday: day_of_week(y, m, d),
        day_of_year: day_of_year(y, m, d),
        days_left: days_left_in_year(y, m, d),
        days_to_lunar_new_year: lunar,
        days_to_trading: days_to_next_a_share_opening(date, holidays),
    })
}

/// The six figures as text, joined by commas.
pub fn render(info: &TimeInfo) -> (r: String)
    requires
        nonnegative(*info),
    ensures
        r@ == rendered(*info),
{
    let mut s = String::new();
    push_decimal(&mut s, info.week as u32);
    push_char(&mut s, ',');
    push_decimal(&mut s, info.weekday as u32);
    push_char(&mut s, ',');
    push_decimal(&mut s, info.day_of_year as u32);
    push_char(&mut s, ',');
    push_decimal(&mut s, info.days_left as u32);
    push_char(&mut s, ',');
    push_decimal(&mut s, info.days_to_lunar_new_year as u32);
    push_char(&mut s, ',');
    push_decimal(&mut s, info.days_to_trading as u32);
    assert(s@ =~= rendered(*info));
    s
}

/// Reads `YYYY-MM-DD` and reports its week, weekday, day of year, days left in the year,
/// days to the next lunar new year and days to the next trading day, with the built-in
/// lunar table and exchange closures.
pub fn time_info(time: &str) -> (r: Result<String, DateError>)
    ensures
        match parsed_date(time.spec_bytes()) {
            Err(e) => r == Err::<String, DateError>(e),
            Ok(date) => match days_until_new_year(LUNAR_NEW_YEAR_DATES@, date) {
                Err(e) => r == Err::<String, DateError>(e),
                Ok(_) => r is Ok && exists|info: TimeInfo|
                    describes(info, date, LUNAR_NEW_YEAR_DATES@, dates_of(DEFAULT_HOLIDAYS@))
                        && r->Ok_0@ == rendered(info),
            },
        },
{
    let date = match parse_date(time) {
        Ok(d) => d,
        Err(e) => return Err(e),
    };
    let calendar = LunarCalendar::new();
    let holidays = default_holidays();
    match calculate_time(&date, &calendar, &holidays) {
        Ok(info) => {
            Ok(render(&info))
        },
        Err(e) => Err(e),
    }
}

} // verus!
