//! Calendar dates, held as plain numbers.
//!
//! Parsing and the difference between two dates are jiff's; the library keeps
//! only the year, month and day that it reads.

use vstd::prelude::*;

verus! {

/// A proleptic Gregorian calendar date, as `jiff::civil::Date` holds one.
#[derive(Clone, Copy, Debug, PartialEq, Eq, Structural)]
pub struct CivilDate {
    pub year: i16,
    pub month: i8,
    pub day: i8,
}

pub open spec fn is_leap_year(y: int) -> bool {
    (y % 4 == 0 && y % 100 != 0) || y % 400 == 0
}

pub open spec fn days_in_month(y: int, m: int) -> int {
    if m == 2 {
        if is_leap_year(y) {
            29
        } else {
            28
        }
    } else if m == 4 || m == 6 || m == 9 || m == 11 {
        30
    } else {
        31
    }
}

/// A date that jiff can represent: years -9999 through 9999, and a day that
/// exists in its month.
pub open spec fn is_valid_date(d: CivilDate) -> bool {
    &&& -9999 <= d.year <= 9999
    &&& 1 <= d.month <= 12
    &&& 1 <= d.day <= days_in_month(d.year as int, d.month as int)
}

/// Days in the months of year `y` before month `m`.
pub open spec fn days_before_month(y: int, m: int) -> int
    decreases m,
{
    if m <= 1 {
        0
    } else {
        days_before_month(y, m - 1) + days_in_month(y, m - 1)
    }
}

/// The number of the day `d`, counting 0001-01-01 as day 1: consecutive
/// dates have consecutive numbers.
pub open spec fn day_number(d: CivilDate) -> int {
    let y = d.year - 1;
    365 * y + y / 4 - y / 100 + y / 400 + days_before_month(d.year as int, d.month as int)
        + d.day
}

impl CivilDate {
    /// The date with these parts, if it is one.
    pub fn new(year: i16, month: i8, day: i8) -> (r: Option<CivilDate>)
        ensures
            ({
                let d = CivilDate { year, month, day };
                r == if is_valid_date(d) {
                    Some(d)
                } else {
                    None::<CivilDate>
                }
            }),
    {
        if year < -9999 || year > 9999 || month < 1 || month > 12 || day < 1 {
            return None;
        }
        let leap = (year % 4 == 0 && year % 100 != 0) || year % 400 == 0;
        let last: i8 = if month == 2 {
            if leap {
                29
            } else {
                28
            }
        } else if month == 4 || month == 6 || month == 9 || month == 11 {
            30
        } else {
            31
        };
        if day > last {
            None
        } else {
            Some(CivilDate { year, month, day })
        }
    }
}

/// What `<jiff::civil::Date as FromStr>::from_str` accepts, and the date it
/// reads.
pub uninterp spec fn iso_date(text: Seq<char>) -> Option<CivilDate>;

/// Parses `text` with `<jiff::civil::Date as FromStr>::from_str` and keeps its
/// year, month and day. Claimed: the result is `iso_date` of the text, and a
/// date jiff returns is one it can represent. Which texts jiff accepts is not
/// stated.
#[verifier::external_body]
pub(crate) fn parse_date(text: &str) -> (r: Option<CivilDate>)
    ensures
        r == iso_date(text@),
        r matches Some(d) ==> is_valid_date(d),
{
    match text.parse::<jiff::civil::Date>() {
        Ok(d) => Some(CivilDate { year: d.year(), month: d.month(), day: d.day() }),
        Err(_) => None,
    }
}

/// `jiff::civil::Date::since` with the default configuration, read back with
/// `Span::get_days`. Claimed, as jiff documents it: the span is counted in days
/// and is always produced, so the result is the number of days from `then` to
/// `today`.
#[verifier::external_body]
pub(crate) fn days_since(today: CivilDate, then: CivilDate) -> (r: Option<i32>)
    requires
        is_valid_date(today),
        is_valid_date(then),
    ensures
        r == Some((day_number(today) - day_number(then)) as i32),
{
    let a = jiff::civil::date(today.year, today.month, today.day);
    let b = jiff::civil::date(then.year, then.month, then.day);
    match a.since(b) {
        Ok(span) => Some(span.get_days()),
        Err(_) => None,
    }
}

} // verus!
