//! Calendar dates of the proleptic Gregorian calendar, modelled by a day number.
use chrono::{Datelike, Days, NaiveDate};
use crate::text::date_text;
use vstd::prelude::*;

verus! {

/// The earliest year a date can hold.
pub const MIN_YEAR: i32 = -262143;

/// The latest year a date can hold.
pub const MAX_YEAR: i32 = 262142;

/// A calendar date.
#[derive(Clone, Copy, Debug, PartialEq, Eq, Hash, Structural)]
pub struct Date {
    pub year: i32,
    pub month: u32,
    pub day: u32,
}

pub open spec fn is_leap(y: int) -> bool {
    y % 4 == 0 && (y % 100 != 0 || y % 400 == 0)
}

pub open spec fn leap_days(y: int) -> int {
    if is_leap(y) {
        1
    } else {
        0
    }
}

pub open spec fn month_len(y: int, m: int) -> int {
    if m == 2 {
        28 + leap_days(y)
    } else if m == 4 || m == 6 || m == 9 || m == 11 {
        30
    } else {
        31
    }
}

/// Days of the year `y` before the first day of month `m`.
pub open spec fn days_before_month(y: int, m: int) -> int {
    let common: int = if m <= 1 {
        0
    } else if m == 2 {
        31
    } else if m == 3 {
        59
    } else if m == 4 {
        90
    } else if m == 5 {
        120
    } else if m == 6 {
        151
    } else if m == 7 {
        181
    } else if m == 8 {
        212
    } else if m == 9 {
        243
    } else if m == 10 {
        273
    } else if m == 11 {
        304
    } else {
        334
    };
    if m > 2 {
        common + leap_days(y)
    } else {
        common
    }
}

/// Days from 0001-01-01 to the first day of year `y` (negative before it).
pub open spec fn days_before_year(y: int) -> int {
    365 * (y - 1) + (y - 1) / 4 - (y - 1) / 100 + (y - 1) / 400
}

/// A valid date within the supported range.
pub open spec fn valid_ymd(y: int, m: int, d: int) -> bool {
    &&& MIN_YEAR <= y <= MAX_YEAR
    &&& 1 <= m <= 12
    &&& 1 <= d <= month_len(y, m)
}

/// The number of days from 0001-01-01 to the date; consecutive days have consecutive numbers.
pub open spec fn day_number(d: Date) -> int {
    days_before_year(d.year as int) + days_before_month(d.year as int, d.month as int) + d.day - 1
}

/// The last date that can be represented.
pub open spec fn last_date() -> Date {
    Date { year: MAX_YEAR, month: 12, day: 31 }
}

/// The date holding day number `n`, where one exists.
pub open spec fn date_at(n: int) -> Date {
    choose|x: Date| x.wf() && day_number(x) == n
}

/// The date `k` years after `start`: the same month and day, except that 29 February rolls
/// forward to 1 March in a year without it. Nothing where the year is out of range.
pub open spec fn anniversary(start: Date, k: int) -> Option<Date> {
    let y = start.year + k;
    if !(MIN_YEAR <= y <= MAX_YEAR) {
        None
    } else if valid_ymd(y, start.month as int, start.day as int) {
        Some(Date { year: y as i32, month: start.month, day: start.day })
    } else {
        Some(Date { year: y as i32, month: 3, day: 1 })
    }
}


proof fn lemma_div_step(y: int)
    ensures
        y / 4 - (y - 1) / 4 == (if y % 4 == 0 { 1int } else { 0 }),
        y / 100 - (y - 1) / 100 == (if y % 100 == 0 { 1int } else { 0 }),
        y / 400 - (y - 1) / 400 == (if y % 400 == 0 { 1int } else { 0 }),
        y % 400 == 0 ==> y % 100 == 0,
        y % 100 == 0 ==> y % 4 == 0,
{
}

/// A year has 365 days, and one more in a leap year.
pub proof fn lemma_year_step(y: int)
    ensures
        days_before_year(y + 1) == days_before_year(y) + 365 + leap_days(y),
{
    lemma_div_step(y);
}

/// Years further apart begin further apart.
pub proof fn lemma_years_ordered(a: int, b: int)
    requires
        a <= b,
    ensures
        days_before_year(a) + 365 * (b - a) <= days_before_year(b),
    decreases b - a,
{
    if a < b {
        lemma_year_step(a);
        lemma_years_ordered(a + 1, b);
    }
}

/// A valid date falls within its own year.
pub proof fn lemma_within_year(d: Date)
    requires
        d.wf(),
    ensures
        days_before_year(d.year as int) <= day_number(d) < days_before_year(d.year + 1),
        day_number(d) - days_before_year(d.year as int) == days_before_month(d.year as int, d.month as int) + d.day - 1,
{
    lemma_year_step(d.year as int);
}

/// No valid date lies past the last representable one.
pub proof fn lemma_before_last(d: Date)
    requires
        d.wf(),
    ensures
        day_number(d) <= day_number(last_date()),
{
    lemma_within_year(d);
    lemma_within_year(last_date());
    lemma_years_ordered(d.year + 1, MAX_YEAR + 1);
    lemma_year_step(MAX_YEAR as int);
}

/// Distinct valid dates have distinct day numbers.
pub proof fn lemma_day_number_injective(x: Date, y: Date)
    requires
        x.wf(),
        y.wf(),
        day_number(x) == day_number(y),
    ensures
        x == y,
{
    lemma_within_year(x);
    lemma_within_year(y);
    if x.year < y.year {
        lemma_years_ordered(x.year + 1, y.year as int);
    } else if y.year < x.year {
        lemma_years_ordered(y.year + 1, x.year as int);
    }
    assert(x.year == y.year);
    assert(x.month == y.month);
}

/// The date holding the day number of a valid date is that date.
pub proof fn lemma_date_at(d: Date)
    requires
        d.wf(),
    ensures
        date_at(day_number(d)) == d,
{
    let x = date_at(day_number(d));
    lemma_day_number_injective(x, d);
}

/// Consecutive anniversaries are 365 or 366 days apart.
pub proof fn lemma_anniversary_gap(start: Date, k: int)
    requires
        start.wf(),
        anniversary(start, k) is Some,
        anniversary(start, k + 1) is Some,
    ensures
        365 <= day_number(anniversary(start, k + 1)->0) - day_number(anniversary(start, k)->0) <= 366,
{
    lemma_year_step(start.year + k);
}

/// The anniversary of `start` in `year` (see `anniversary`).
pub fn anniversary_of(start: Date, year: i32) -> (r: Option<Date>)
    requires
        start.wf(),
    ensures
        r == anniversary(start, year - start.year),
        r matches Some(d) ==> d.wf(),
{
    match with_year(start, year) {
        Some(d) => Some(d),
        None => {
            if year < MIN_YEAR || year > MAX_YEAR {
                None
            } else {
                Some(Date { year, month: 3, day: 1 })
            }
        },
    }
}

impl Date {
    pub open spec fn wf(self) -> bool {
        valid_ymd(self.year as int, self.month as int, self.day as int)
    }

    /// The date with the given year, month and day, if it exists and is in range.
    pub fn new(year: i32, month: u32, day: u32) -> (r: Option<Date>)
        ensures
            r == (if valid_ymd(year as int, month as int, day as int) {
                Some(Date { year, month, day })
            } else {
                None
            }),
    {
        if year < MIN_YEAR || year > MAX_YEAR || month < 1 || month > 12 || day < 1 {
            return None;
        }
        let leap = year % 4 == 0 && (year % 100 != 0 || year % 400 == 0);
        let len: u32 = if month == 2 {
            if leap {
                29
            } else {
                28
            }
        } else if month == 4 || month == 6 || month == 9 || month == 11 {
            30
        } else {
            31
        };
        if day > len {
            None
        } else {
            Some(Date { year, month, day })
        }
    }
}

/// Relies on chrono's `NaiveDate::with_year`: the same month and day in another year,
/// or nothing where that date does not exist or is out of range.
#[verifier::external_body]
pub(crate) fn with_year(d: Date, year: i32) -> (r: Option<Date>)
    requires
        d.wf(),
    ensures
        r == (if valid_ymd(year as int, d.month as int, d.day as int) {
            Some(Date { year, month: d.month, day: d.day })
        } else {
            None
        }),
{
    let date = NaiveDate::from_ymd_opt(d.year, d.month, d.day).unwrap();
    match date.with_year(year) {
        Some(n) => Some(Date { year: n.year(), month: n.month(), day: n.day() }),
        None => None,
    }
}

/// Relies on chrono's `NaiveDate::signed_duration_since` and `TimeDelta::num_days`:
/// the number of days from `a` to `b`.
#[verifier::external_body]
pub(crate) fn days_between(a: Date, b: Date) -> (r: i64)
    requires
        a.wf(),
        b.wf(),
    ensures
        r == day_number(b) - day_number(a),
{
    let a = NaiveDate::from_ymd_opt(a.year, a.month, a.day).unwrap();
    let b = NaiveDate::from_ymd_opt(b.year, b.month, b.day).unwrap();
    b.signed_duration_since(a).num_days()
}

/// Relies on chrono's `NaiveDate::checked_add_days`: the date `n` days later, which
/// exists exactly when it is not past the last representable date.
#[verifier::external_body]
pub(crate) fn add_days(d: Date, n: u64) -> (r: Option<Date>)
    requires
        d.wf(),
    ensures
        r.is_some() <==> day_number(d) + n <= day_number(last_date()),
        r matches Some(x) ==> x.wf() && day_number(x) == day_number(d) + n,
{
    let date = NaiveDate::from_ymd_opt(d.year, d.month, d.day).unwrap();
    match date.checked_add_days(Days::new(n)) {
        Some(x) => Some(Date { year: x.year(), month: x.month(), day: x.day() }),
        None => None,
    }
}

/// Relies on chrono's `NaiveDate::format` with `%Y-%m-%d`: the year in at least four
/// digits (signed outside 0..=9999), then month and day in two digits each.
#[verifier::external_body]
pub(crate) fn iso_text(d: Date) -> (r: String)
    requires
        d.wf(),
    ensures
        r@ == date_text(d),
{
    let date = NaiveDate::from_ymd_opt(d.year, d.month, d.day).unwrap();
    date.format("%Y-%m-%d").to_string()
}

} // verus!
