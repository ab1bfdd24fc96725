use vstd::prelude::*;
use vstd::string::StringSliceAdditionalSpecFns;
use chrono::Datelike;
use std::str::FromStr;

verus! {

/// Staff categories of the retirement-age reform.
#[derive(Clone, Copy, Debug, PartialEq, Eq, Structural)]
pub enum RetirementCategory {
    /// Men, formerly retiring at 60.
    Male,
    /// Women formerly retiring at 55.
    FemaleManagerial,
    /// Women formerly retiring at 50.
    FemaleOrdinary,
}

/// Parameters of a category: former retirement age in years, the largest delay in months,
/// and how many months of later birth add one month of delay.
#[derive(Clone, Copy, Debug, PartialEq, Eq, Structural)]
pub struct RetirementPolicy {
    pub original_age: i32,
    pub max_delay: i32,
    pub delay_interval: i32,
}

/// When someone retires: the month (year and month), the age in months, and the delay.
#[derive(Clone, Copy, Debug, PartialEq, Eq, Structural)]
pub struct RetirementResult {
    pub year: i32,
    pub month: i32,
    pub age_months: i32,
    pub delay_months: i32,
}

/// The reform applies from January 2025, counted as a month index `year * 12 + month - 1`.
pub const POLICY_START_INDEX: i32 = 2025 * 12;

/// Smallest and largest year that chrono's `NaiveDate` holds.
pub const MIN_BIRTH_YEAR: i32 = -262143;
pub const MAX_BIRTH_YEAR: i32 = 262142;

pub open spec fn policy_of(c: RetirementCategory) -> RetirementPolicy {
    match c {
        RetirementCategory::Male => RetirementPolicy { original_age: 60, max_delay: 36, delay_interval: 4 },
        RetirementCategory::FemaleManagerial => RetirementPolicy { original_age: 55, max_delay: 36, delay_interval: 4 },
        RetirementCategory::FemaleOrdinary => RetirementPolicy { original_age: 50, max_delay: 60, delay_interval: 2 },
    }
}

/// Months of delay for a former retirement month `after` months past the start: one month
/// per started interval, capped.
pub open spec fn delay_for(after: int, p: RetirementPolicy) -> int {
    let d = (after + p.delay_interval - 1) / (p.delay_interval as int);
    if d < p.max_delay { d } else { p.max_delay as int }
}

/// The retirement of someone born in `birth_month` of `birth_year`.
pub open spec fn retirement_of(birth_year: int, birth_month: int, c: RetirementCategory) -> RetirementResult {
    let p = policy_of(c);
    let orig = (birth_year + p.original_age) * 12 + birth_month - 1;
    if orig < POLICY_START_INDEX {
        RetirementResult {
            year: (birth_year + p.original_age) as i32,
            month: birth_month as i32,
            age_months: (p.original_age * 12) as i32,
            delay_months: 0,
        }
    } else if orig == POLICY_START_INDEX {
        RetirementResult { year: 2025, month: 2, age_months: (p.original_age * 12 + 1) as i32, delay_months: 1 }
    } else {
        let delay = delay_for(orig - POLICY_START_INDEX, p);
        let index = orig + delay;
        RetirementResult {
            year: (index / 12) as i32,
            month: (index % 12 + 1) as i32,
            age_months: (p.original_age * 12 + delay) as i32,
            delay_months: delay as i32,
        }
    }
}

impl RetirementCategory {
    pub fn get_policy(&self) -> (r: RetirementPolicy)
        ensures
            r == policy_of(*self),
    {
        match self {
            RetirementCategory::Male => RetirementPolicy { original_age: 60, max_delay: 36, delay_interval: 4 },
            RetirementCategory::FemaleManagerial => RetirementPolicy { original_age: 55, max_delay: 36, delay_interval: 4 },
            RetirementCategory::FemaleOrdinary => RetirementPolicy { original_age: 50, max_delay: 60, delay_interval: 2 },
        }
    }
}

fn bytes_equal(a: &[u8], b: &[u8]) -> (r: bool)
    ensures
        r == (a@ == b@),
{
    if a.len() != b.len() {
        return false;
    }
    let mut i: usize = 0;
    while i < a.len()
        invariant
            a@.len() == b@.len(),
            i <= a@.len(),
            forall|k: int| 0 <= k < i ==> a@[k] == b@[k],
        decreases a@.len() - i,
    {
        if a[i] != b[i] {
            return false;
        }
        i = i + 1;
    }
    assert(a@ =~= b@);
    true
}

pub open spec fn category_of_label(tp: Seq<u8>) -> Option<RetirementCategory> {
    if tp == "男职工".spec_bytes() {
        Some(RetirementCategory::Male)
    } else if tp == "原法定退休年龄50周岁女职工".spec_bytes() {
        Some(RetirementCategory::FemaleOrdinary)
    } else if tp == "原法定退休年龄55周岁女职工".spec_bytes() {
        Some(RetirementCategory::FemaleManagerial)
    } else {
        None
    }
}

/// The category a label names, if any.
pub fn category_from_label(tp: &str) -> (r: Option<RetirementCategory>)
    ensures
        r == category_of_label(tp.spec_bytes()),
{
    let b = tp.as_bytes();
    if bytes_equal(b, "男职工".as_bytes()) {
        Some(RetirementCategory::Male)
    } else if bytes_equal(b, "原法定退休年龄50周岁女职工".as_bytes()) {
        Some(RetirementCategory::FemaleOrdinary)
    } else if bytes_equal(b, "原法定退休年龄55周岁女职工".as_bytes()) {
        Some(RetirementCategory::FemaleManagerial)
    } else {
        None
    }
}

/// Retirement month, age and delay of someone born in `birth_month` of `birth_year`.
pub fn retirement_for(birth_year: i32, birth_month: i32, category: RetirementCategory) -> (r: RetirementResult)
    requires
        MIN_BIRTH_YEAR <= birth_year <= MAX_BIRTH_YEAR,
        1 <= birth_month <= 12,
    ensures
        r == retirement_of(birth_year as int, birth_month as int, category),
{
    let policy = category.get_policy();
    let orig_year = birth_year + policy.original_age;
    let orig = orig_year * 12 + birth_month - 1;
    if orig < POLICY_START_INDEX {
        RetirementResult { year: orig_year, month: birth_month, age_months: policy.original_age * 12, delay_months: 0 }
    } else if orig == POLICY_START_INDEX {
        RetirementResult { year: 2025, month: 2, age_months: policy.original_age * 12 + 1, delay_months: 1 }
    } else {
        let after = orig - POLICY_START_INDEX;
        let started = (after + policy.delay_interval - 1) / policy.delay_interval;
        let delay = if started < policy.max_delay { started } else { policy.max_delay };
        let index = orig + delay;
        RetirementResult {
            year: index / 12,
            month: index % 12 + 1,
            age_months: policy.original_age * 12 + delay,
            delay_months: delay,
        }
    }
}

/// The year and month chrono reads from `<time>-01`, if it reads a date.
pub uninterp spec fn chrono_birth_month(time: Seq<char>) -> Option<(int, int)>;

/// Relies on chrono's `NaiveDate::from_str` (format `%Y-%m-%d`) applied to `<time>-01`,
/// and on `Datelike::year` and `Datelike::month` of the parsed date: a `NaiveDate` has a
/// month in 1..=12 and a year between chrono's MIN_YEAR and MAX_YEAR.
#[verifier::external_body]
fn parse_birth_month(time: &str) -> (r: Option<(i32, i32)>)
    ensures
        match r {
            Some(ym) => chrono_birth_month(time@) == Some((ym.0 as int, ym.1 as int))
                && MIN_BIRTH_YEAR <= ym.0 <= MAX_BIRTH_YEAR && 1 <= ym.1 <= 12,
            None => chrono_birth_month(time@) is None,
        },
{
    match chrono::NaiveDate::from_str(&format!("{}-01", time)) {
        Ok(d) => Some((d.year(), d.month() as i32)),
        Err(_) => None,
    }
}

/// Retirement of someone born in the month `time` (`YYYY-MM`) in the category labelled `tp`;
/// `None` for an unknown label or a month chrono does not read.
pub fn retirement_plan(time: &str, tp: &str) -> (r: Option<RetirementResult>)
    ensures
        category_of_label(tp.spec_bytes()) is None ==> r is None,
        category_of_label(tp.spec_bytes()) is Some ==> match chrono_birth_month(time@) {
            None => r is None,
            Some(ym) => r == Some(retirement_of(ym.0, ym.1, category_of_label(tp.spec_bytes())->0)),
        },
{
    let category = match category_from_label(tp) {
        Some(c) => c,
        None => return None,
    };
    match parse_birth_month(time) {
        Some((year, month)) => Some(retirement_for(year, month, category)),
        None => None,
    }
}

} // verus!
