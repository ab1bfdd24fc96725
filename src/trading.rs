use vstd::prelude::*;
use crate::calendar::{
    Date, days_since_epoch, weekday_of,
    lemma_days_before_month_bounds, lemma_days_before_year_bounds,
};

verus! {

/// No valid date has a larger day number: 366 days for each of the years 1..=9999.
pub const MAX_EPOCH_DAY: i32 = 3_659_634;

pub open spec fn is_holiday(holidays: Seq<Date>, e: int) -> bool {
    exists|i: int| 0 <= i < holidays.len() && (#[trigger] holidays[i]).epoch() == e
}

/// A market opens on weekdays that are not listed as holidays.
pub open spec fn is_trading_day(holidays: Seq<Date>, e: int) -> bool {
    weekday_of(e) <= 5 && !is_holiday(holidays, e)
}

pub open spec fn all_valid(dates: Seq<Date>) -> bool {
    forall|i: int| 0 <= i < dates.len() ==> (#[trigger] dates[i]).valid()
}

pub proof fn lemma_epoch_bounds(d: Date)
    requires
        d.valid(),
    ensures
        1 <= d.epoch() <= MAX_EPOCH_DAY,
{
    lemma_days_before_year_bounds(d.year as int);
    lemma_days_before_month_bounds(d.year as int, d.month as int);
    lemma_days_before_month_bounds(d.year as int, 13);
    lemma_days_before_month_bounds(d.year as int, d.month as int + 1);
}

/// Among three consecutive days at least one is a weekday.
proof fn lemma_no_three_day_weekend(e: int)
    ensures
        weekday_of(e) <= 5 || weekday_of(e + 1) <= 5 || weekday_of(e + 2) <= 5,
{
}

/// Closures of the Shanghai and Shenzhen exchanges in 2025, as (year, month, day).
pub const DEFAULT_HOLIDAYS: [(i32, i32, i32); 28] = [
    (2025, 1, 1), (2025, 1, 28), (2025, 1, 29), (2025, 1, 30), (2025, 1, 31), (2025, 2, 1),
    (2025, 2, 2), (2025, 2, 3), (2025, 2, 4), (2025, 4, 4), (2025, 4, 5), (2025, 4, 6),
    (2025, 5, 1), (2025, 5, 2), (2025, 5, 3), (2025, 5, 4), (2025, 5, 5), (2025, 5, 31),
    (2025, 6, 1), (2025, 6, 2), (2025, 10, 1), (2025, 10, 2), (2025, 10, 3), (2025, 10, 4),
    (2025, 10, 5), (2025, 10, 6), (2025, 10, 7), (2025, 10, 8),
];

pub open spec fn to_date(t: (i32, i32, i32)) -> Date {
    Date { year: t.0, month: t.1, day: t.2 }
}

/// The dates of a table of (year, month, day) triples.
pub open spec fn dates_of(s: Seq<(i32, i32, i32)>) -> Seq<Date> {
    s.map_values(|t: (i32, i32, i32)| to_date(t))
}

/// The built-in closures as dates.
pub fn default_holidays() -> (r: Vec<Date>)
    ensures
        r@ == dates_of(DEFAULT_HOLIDAYS@),
        all_valid(r@),
{
    let mut r: Vec<Date> = Vec::new();
    let mut i: usize = 0;
    while i < DEFAULT_HOLIDAYS.len()
        invariant
            i <= 28,
            r@ =~= dates_of(DEFAULT_HOLIDAYS@).subrange(0, i as int),
            all_valid(dates_of(DEFAULT_HOLIDAYS@)),
        decreases 28 - i,
    {
        let (year, month, day) = DEFAULT_HOLIDAYS[i];
        r.push(Date { year, month, day });
        i = i + 1;
    }
    assert(r@ =~= dates_of(DEFAULT_HOLIDAYS@));
    r
}

fn holiday_day_numbers(holidays: &Vec<Date>) -> (r: Vec<i32>)
    requires
        all_valid(holidays@),
    ensures
        r@.len() == holidays@.len(),
        forall|i: int| 0 <= i < r@.len() ==> r@[i] == holidays@[i].epoch(),
{
    let mut r: Vec<i32> = Vec::new();
    let mut i: usize = 0;
    while i < holidays.len()
        invariant
            all_valid(holidays@),
            i <= holidays@.len(),
            r@.len() == i,
            forall|j: int| 0 <= j < i ==> r@[j] == holidays@[j].epoch(),
        decreases holidays@.len() - i,
    {
        let h = holidays[i];
        assert(holidays@[i as int].valid());
        r.push(days_since_epoch(h.year, h.month, h.day));
        i = i + 1;
    }
    r
}

fn contains_day(days: &Vec<i32>, e: i32) -> (r: bool)
    ensures
        r == exists|i: int| 0 <= i < days@.len() && days@[i] == e,
{
    let mut i: usize = 0;
    while i < days.len()
        invariant
            i <= days@.len(),
            forall|j: int| 0 <= j < i ==> days@[j] != e,
        decreases days@.len() - i,
    {
        if days[i] == e {
            return true;
        }
        i = i + 1;
    }
    false
}

fn is_open(closed: &Vec<i32>, holidays: &Vec<Date>, e: i32) -> (r: bool)
    requires
        e >= 1,
        closed@.len() == holidays@.len(),
        forall|i: int| 0 <= i < closed@.len() ==> closed@[i] == holidays@[i].epoch(),
    ensures
        r == is_trading_day(holidays@, e as int),
{
    let hit = contains_day(closed, e);
    proof {
        if hit != is_holiday(holidays@, e as int) {
            if hit {
                let i = choose|i: int| 0 <= i < closed@.len() && closed@[i] == e;
                assert(holidays@[i].epoch() == e);
            } else {
                let i = choose|i: int|
                    0 <= i < holidays@.len() && (#[trigger] holidays@[i]).epoch() == e;
                assert(closed@[i] == e);
            }
        }
    }
    let weekday = ((e - 1) as u32 % 7) as i32 + 1;
    weekday <= 5 && !hit
}

/// Number of days after `date` on which the market stays closed before it next opens.
pub fn days_to_next_a_share_opening(date: &Date, holidays: &Vec<Date>) -> (r: i32)
    requires
        date.valid(),
        all_valid(holidays@),
    ensures
        r >= 0,
        forall|k: int|
            date.epoch() < k <= date.epoch() + r ==> !#[trigger] is_trading_day(holidays@, k),
        is_trading_day(holidays@, date.epoch() + r + 1),
{
    let closed = holiday_day_numbers(holidays);
    let start = days_since_epoch(date.year, date.month, date.day);
    proof {
        lemma_epoch_bounds(*date);
    }
    let mut e: i32 = start + 1;
    let mut open = is_open(&closed, holidays, e);
    while !open
        invariant
            start == date.epoch(),
            1 <= start <= MAX_EPOCH_DAY,
            start < e <= MAX_EPOCH_DAY + 3,
            closed@.len() == holidays@.len(),
            forall|i: int| 0 <= i < closed@.len() ==> closed@[i] == holidays@[i].epoch(),
            all_valid(holidays@),
            forall|k: int| start < k < e ==> !#[trigger] is_trading_day(holidays@, k),
            open == is_trading_day(holidays@, e as int),
        decreases MAX_EPOCH_DAY + 3 - e,
    {
        proof {
            if e == MAX_EPOCH_DAY + 3 {
                assert forall|k: int| MAX_EPOCH_DAY < k <= e implies !is_holiday(holidays@, k) by {
                    if is_holiday(holidays@, k) {
                        let i = choose|i: int|
                            0 <= i < holidays@.len() && (#[trigger] holidays@[i]).epoch() == k;
                        lemma_epoch_bounds(holidays@[i]);
                    }
                }
                assert(!is_trading_day(holidays@, e - 2));
                assert(!is_trading_day(holidays@, e - 1));
                lemma_no_three_day_weekend(e - 2);
                assert(false);
            }
        }
        e = e + 1;
        open = is_open(&closed, holidays, e);
    }
    e - start - 1
}

} // verus!
