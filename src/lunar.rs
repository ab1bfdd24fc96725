use vstd::prelude::*;
use vstd::slice::slice_to_vec;
use crate::calendar::{
    Date, DateError, day_of_year, days_left_in_year, days_before_year, year_len,
    lemma_days_before_month_bounds, lemma_ordinal_within_year,
};

verus! {

/// First year covered by the lunar new year table.
pub const FIRST_TABLE_YEAR: i32 = 1800;

/// Year just past the end of the lunar new year table.
pub const END_TABLE_YEAR: i32 = 2101;

pub open spec fn in_table_range(year: int) -> bool {
    FIRST_TABLE_YEAR <= year < END_TABLE_YEAR
}

/// A lunar new year always falls in January or in February before the 29th.
pub open spec fn entry_ok(e: (u8, u8)) -> bool {
    (e.0 == 1 && 1 <= e.1 <= 31) || (e.0 == 2 && 1 <= e.1 <= 28)
}

pub open spec fn table_wf(t: Seq<(u8, u8)>) -> bool {
    &&& t.len() == END_TABLE_YEAR - FIRST_TABLE_YEAR
    &&& forall|i: int| 0 <= i < t.len() ==> entry_ok(#[trigger] t[i])
}

/// The lunar new year of a covered year, as the table gives it.
pub open spec fn new_year_date(t: Seq<(u8, u8)>, year: int) -> Date {
    let e = t[year - FIRST_TABLE_YEAR];
    Date { year: year as i32, month: e.0 as i32, day: e.1 as i32 }
}

pub open spec fn new_year_epoch(t: Seq<(u8, u8)>, year: int) -> int {
    new_year_date(t, year).epoch()
}

/// Days from `date` to the first lunar new year strictly after it. On the new year's day
/// itself the count runs to the following year's new year.
pub open spec fn days_until_new_year(t: Seq<(u8, u8)>, date: Date) -> Result<int, DateError> {
    let y = date.year as int;
    if !in_table_range(y) {
        Err(DateError::OutOfRange)
    } else if date.epoch() < new_year_epoch(t, y) {
        Ok(new_year_epoch(t, y) - date.epoch())
    } else if !in_table_range(y + 1) {
        Err(DateError::OutOfRange)
    } else {
        Ok(new_year_epoch(t, y + 1) - date.epoch())
    }
}

/// Month and day of the lunar new year for each Gregorian year from 1800 through 2100.
/// The lunar calendar has no closed form in Gregorian terms, so the dates are tabulated.
pub const LUNAR_NEW_YEAR_DATES: [(u8, u8); 301] = [
    (1, 25), (2, 13), (2, 3), (1, 23), (2, 11), (1, 31), (2, 18), (2, 7), (1, 28), (2, 14), // 1800
    (2, 4), (1, 25), (2, 13), (2, 1), (1, 21), (2, 9), (1, 29), (2, 16), (2, 5), (1, 26), // 1810
    (2, 14), (2, 3), (1, 23), (2, 11), (1, 31), (2, 18), (2, 7), (1, 27), (2, 15), (2, 4), // 1820
    (1, 25), (2, 13), (2, 2), (2, 20), (2, 9), (1, 29), (2, 17), (2, 5), (1, 26), (2, 14), // 1830
    (2, 3), (1, 23), (2, 10), (1, 30), (2, 18), (2, 7), (1, 27), (2, 15), (2, 5), (1, 24), // 1840
    (2, 12), (2, 1), (2, 20), (2, 8), (1, 29), (2, 17), (2, 6), (1, 26), (2, 14), (2, 3), // 1850
    (1, 23), (2, 10), (1, 30), (2, 18), (2, 8), (1, 27), (2, 15), (2, 5), (1, 25), (2, 11), // 1860
    (1, 31), (2, 19), (2, 9), (1, 29), (2, 17), (2, 6), (1, 26), (2, 13), (2, 2), (1, 22), // 1870
    (2, 10), (1, 30), (2, 18), (2, 8), (1, 28), (2, 15), (2, 4), (1, 24), (2, 12), (1, 31), // 1880
    (1, 21), (2, 9), (1, 30), (2, 17), (2, 6), (1, 26), (2, 14), (2, 2), (1, 22), (2, 10), // 1890
    (1, 31), (2, 19), (2, 8), (1, 29), (2, 16), (2, 4), (1, 25), (2, 13), (2, 2), (1, 22), // 1900
    (2, 10), (1, 30), (2, 18), (2, 6), (1, 26), (2, 14), (2, 3), (1, 23), (2, 11), (2, 1), // 1910
    (2, 20), (2, 8), (1, 28), (2, 16), (2, 5), (1, 24), (2, 13), (2, 2), (1, 23), (2, 10), // 1920
    (1, 30), (2, 17), (2, 6), (1, 26), (2, 14), (2, 4), (1, 24), (2, 11), (1, 31), (2, 19), // 1930
    (2, 8), (1, 27), (2, 15), (2, 5), (1, 25), (2, 13), (2, 2), (1, 22), (2, 10), (1, 29), // 1940
    (2, 17), (2, 6), (1, 27), (2, 14), (2, 3), (1, 24), (2, 12), (1, 31), (2, 18), (2, 8), // 1950
    (1, 28), (2, 15), (2, 4), (1, 25), (2, 13), (2, 2), (1, 21), (2, 9), (1, 30), (2, 17), // 1960
    (2, 6), (1, 27), (2, 15), (2, 3), (1, 23), (2, 11), (1, 31), (2, 18), (2, 7), (1, 28), // 1970
    (2, 16), (2, 5), (1, 25), (2, 13), (2, 2), (2, 20), (2, 9), (1, 29), (2, 17), (2, 6), // 1980
    (1, 27), (2, 15), (2, 4), (1, 23), (2, 10), (1, 31), (2, 19), (2, 7), (1, 28), (2, 16), // 1990
    (2, 5), (1, 24), (2, 12), (2, 1), (1, 22), (2, 9), (1, 29), (2, 18), (2, 7), (1, 26), // 2000
    (2, 14), (2, 3), (1, 23), (2, 10), (1, 31), (2, 19), (2, 8), (1, 28), (2, 16), (2, 5), // 2010
    (1, 25), (2, 12), (2, 1), (1, 22), (2, 10), (1, 29), (2, 17), (2, 6), (1, 26), (2, 13), // 2020
    (2, 3), (1, 23), (2, 11), (1, 31), (2, 19), (2, 8), (1, 28), (2, 15), (2, 4), (1, 24), // 2030
    (2, 12), (2, 1), (1, 22), (2, 10), (1, 30), (2, 17), (2, 6), (1, 26), (2, 14), (2, 2), // 2040
    (1, 23), (2, 11), (2, 1), (2, 19), (2, 8), (1, 28), (2, 15), (2, 4), (1, 24), (2, 12), // 2050
    (2, 2), (1, 21), (2, 9), (1, 29), (2, 17), (2, 5), (1, 26), (2, 14), (2, 3), (1, 23), // 2060
    (2, 11), (1, 31), (2, 19), (2, 7), (1, 27), (2, 15), (2, 5), (1, 24), (2, 12), (2, 2), // 2070
    (1, 22), (2, 9), (1, 29), (2, 17), (2, 6), (1, 26), (2, 14), (2, 3), (1, 24), (2, 10), // 2080
    (1, 30), (2, 18), (2, 7), (1, 27), (2, 15), (2, 5), (1, 25), (2, 12), (2, 1), (1, 21), // 2090
    (2, 9), // 2100
];

pub proof fn lemma_table_wf()
    ensures
        table_wf(LUNAR_NEW_YEAR_DATES@),
{
}

/// Lunar new year dates for the Gregorian years 1800 through 2100.
pub struct LunarCalendar {
    lunar_dates: Vec<(u8, u8)>,
}

impl View for LunarCalendar {
    type V = Seq<(u8, u8)>;

    closed spec fn view(&self) -> Seq<(u8, u8)> {
        self.lunar_dates@
    }
}

impl LunarCalendar {
    pub fn new() -> (r: LunarCalendar)
        ensures
            r@ == LUNAR_NEW_YEAR_DATES@,
            table_wf(r@),
    {
        proof {
            lemma_table_wf();
        }
        LunarCalendar { lunar_dates: slice_to_vec(&LUNAR_NEW_YEAR_DATES) }
    }

    /// The lunar new year of `year`, or `OutOfRange` outside the table's years.
    pub fn find_lunar_new_year(&self, year: i32) -> (r: Result<Date, DateError>)
        requires
            table_wf(self@),
        ensures
            in_table_range(year as int) ==> r == Ok::<Date, DateError>(new_year_date(self@, year as int)),
            !in_table_range(year as int) ==> r == Err::<Date, DateError>(DateError::OutOfRange),
            r is Ok ==> r->Ok_0.valid(),
    {
        if year < FIRST_TABLE_YEAR || year >= END_TABLE_YEAR {
            return Err(DateError::OutOfRange);
        }
        let index = (year - FIRST_TABLE_YEAR) as usize;
        let (month, day) = self.lunar_dates[index];
        proof {
            assert(entry_ok(self@[index as int]));
        }
        Ok(Date { year, month: month as i32, day: day as i32 })
    }

    /// Days from `date` to the next lunar new year; see `days_until_new_year`.
    pub fn days_until_lunar_new_year(&self, date: &Date) -> (r: Result<i32, DateError>)
        requires
            table_wf(self@),
            date.valid(),
        ensures
            match r {
                Ok(v) => days_until_new_year(self@, *date) == Ok::<int, DateError>(v as int),
                Err(e) => days_until_new_year(self@, *date) == Err::<int, DateError>(e),
            },
    {
        let current = match self.find_lunar_new_year(date.year) {
            Ok(d) => d,
            Err(e) => return Err(e),
        };
        let today = day_of_year(date.year, date.month, date.day);
        let new_year = day_of_year(current.year, current.month, current.day);
        if today < new_year {
            return Ok(new_year - today);
        }
        let next = match self.find_lunar_new_year(date.year + 1) {
            Ok(d) => d,
            Err(e) => return Err(e),
        };
        let left = days_left_in_year(date.year, date.month, date.day);
        let into_next = day_of_year(next.year, next.month, next.day);
        proof {
            assert(days_before_year(date.year + 1) == days_before_year(date.year as int) + year_len(date.year as int));
            lemma_days_before_month_bounds(date.year as int, 13);
        }
        Ok(left + into_next)
    }
}

/// On a lunar new year's day the count is not zero: it runs to the next year's new year,
/// which is a positive number of days away.
pub proof fn lemma_new_year_day_rolls_over(t: Seq<(u8, u8)>, year: int)
    requires
        table_wf(t),
        in_table_range(year),
        in_table_range(year + 1),
    ensures
        days_until_new_year(t, new_year_date(t, year))
            == Ok::<int, DateError>(new_year_epoch(t, year + 1) - new_year_epoch(t, year)),
        new_year_epoch(t, year + 1) - new_year_epoch(t, year) > 0,
{
    let a = t[year - FIRST_TABLE_YEAR];
    let b = t[year + 1 - FIRST_TABLE_YEAR];
    assert(entry_ok(a));
    assert(entry_ok(b));
    lemma_days_before_month_bounds(year, a.0 as int);
    lemma_days_before_month_bounds(year + 1, b.0 as int);
    assert(days_before_year(year + 1) == days_before_year(year) + year_len(year));
}

/// Whenever the count exists it is positive.
pub proof fn lemma_days_until_positive(t: Seq<(u8, u8)>, date: Date)
    requires
        table_wf(t),
        date.valid(),
    ensures
        days_until_new_year(t, date) is Ok ==> days_until_new_year(t, date)->Ok_0 > 0,
{
    let y = date.year as int;
    if in_table_range(y + 1) && date.epoch() >= new_year_epoch(t, y) {
        let b = t[y + 1 - FIRST_TABLE_YEAR];
        assert(entry_ok(b));
        lemma_ordinal_within_year(y, date.month as int, date.day as int);
        lemma_days_before_month_bounds(y + 1, b.0 as int);
        assert(days_before_year(y + 1) == days_before_year(y) + year_len(y));
    }
}

} // verus!
