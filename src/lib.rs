/// Gregorian calendar arithmetic: leap years, ordinals, day numbers, weekdays, ISO weeks.
pub mod calendar;
/// The tabulated lunar new year dates and the days remaining until the next one.
pub mod lunar;
/// Days until the stock exchanges next open, given their holiday closures.
pub mod trading;
/// Decimal text of numbers.
pub mod text;
/// Reading `YYYY-MM-DD` and reporting the six figures of a date.
pub mod metrics;
/// In-place partition-exchange sorting.
pub mod sort;
/// Fewest coins that make up an amount.
pub mod coin_change;
/// Rewriting a number from one base into another.
pub mod converter;
/// Odd composite numbers that are not a prime plus twice a square.
pub mod conjecture;
/// Connected groups of cities.
pub mod district;
/// Distinct comma-separated fields of a text.
pub mod count_distinct;
/// Retirement month and age under the 2025 retirement-age reform.
pub mod retirement;
