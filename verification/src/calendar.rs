//! Calendar dates of the proleptic Gregorian calendar.
//!
//! A date is a year, a month and a day as plain numbers. Which triples are
//! dates, the day before a date, the weekday of a date and its ISO text are
//! taken from `chrono`; the contracts here say what is relied on.

use chrono::Datelike;
use chrono::Duration;
use chrono::NaiveDate;
use vstd::prelude::*;

verus! {

/// The first year that a date can have.
pub const MIN_YEAR: i32 = -262143;

/// The last year that a date can have.
pub const MAX_YEAR: i32 = 262142;

/// Whether `year` has a 29th of February.
pub open spec fn is_leap_year(year: int) -> bool {
    year % 4 == 0 && (year % 100 != 0 || year % 400 == 0)
}

/// The number of days of a month.
pub open spec fn month_length(year: int, month: int) -> int {
    if month == 2 {
        if is_leap_year(year) {
            29
        } else {
            28
        }
    } else if month == 4 || month == 6 || month == 9 || month == 11 {
        30
    } else {
        31
    }
}

/// Whether the triple names a day of the calendar.
pub open spec fn is_calendar_date(year: int, month: int, day: int) -> bool {
    &&& MIN_YEAR <= year <= MAX_YEAR
    &&& 1 <= month <= 12
    &&& 1 <= day <= month_length(year, month)
}

/// The number of days in the years before `year`, counted from the year 1.
pub open spec fn days_before_year(year: int) -> int {
    let y = year - 1;
    365 * y + y / 4 - y / 100 + y / 400
}

/// The number of days of `year` that lie in the months before `month`.
pub open spec fn days_before_month_of_year(year: int, month: int) -> int
    decreases month,
{
    if month <= 1 {
        0
    } else {
        days_before_month_of_year(year, month - 1) + month_length(year, month - 1)
    }
}

/// The running number of a day; the first of January of the year 1 has the
/// number 1.
pub open spec fn day_number(year: int, month: int, day: int) -> int {
    days_before_year(year) + days_before_month_of_year(year, month) + day
}

/// The weekday of a day, counted from Sunday = 0 to Saturday = 6.
pub open spec fn weekday_index(year: int, month: int, day: int) -> int {
    day_number(year, month, day) % 7
}

/// A calendar date.
#[derive(Clone, Copy, Debug, PartialEq, Eq, Structural)]
pub struct Date {
    /// The year; 0 is the year before the year 1.
    pub year: i32,
    /// The month, from 1.
    pub month: u32,
    /// The day of the month, from 1.
    pub day: u32,
}

/// The day before `date`.
pub open spec fn previous_day(date: Date) -> Date {
    if date.day > 1 {
        Date { year: date.year, month: date.month, day: (date.day - 1) as u32 }
    } else if date.month > 1 {
        Date {
            year: date.year,
            month: (date.month - 1) as u32,
            day: month_length(date.year as int, date.month - 1) as u32,
        }
    } else {
        Date { year: (date.year - 1) as i32, month: 12, day: 31 }
    }
}

/// The two digits that show `n`, for `n < 100`.
pub open spec fn two_digits(n: int) -> Seq<char> {
    seq![((n / 10) + 48) as char, ((n % 10) + 48) as char]
}

/// The digits of `n`, filled up with zeros on the left to four.
pub open spec fn four_or_more_digits(n: nat) -> Seq<char> {
    crate::text::padded(crate::integer::decimal_digits(n), 4)
}

/// The year as an ISO date shows it: four digits for the years 0 to 9999,
/// else a sign and four digits or more.
pub open spec fn iso_year_text(year: int) -> Seq<char> {
    if 0 <= year <= 9999 {
        two_digits(year / 100) + two_digits(year % 100)
    } else if year < 0 {
        seq!['-'] + four_or_more_digits((-year) as nat)
    } else {
        seq!['+'] + four_or_more_digits(year as nat)
    }
}

/// The ISO text of a date: year, month and day, joined by `'-'`.
pub open spec fn iso_date_text(date: Date) -> Seq<char> {
    iso_year_text(date.year as int) + seq!['-'] + two_digits(date.month as int) + seq!['-']
        + two_digits(date.day as int)
}

/// Asks `chrono` whether the triple is a date.
///
/// Trusted: `chrono::NaiveDate::from_ymd_opt`, which gives a date exactly
/// where the year lies in the range of `NaiveDate`, the month in 1 to 12, and
/// the day exists in that month of that year; the date it gives has the
/// year, month and day asked for.
#[verifier::external_body]
fn naive_from_ymd(year: i32, month: u32, day: u32) -> (r: Option<(i32, u32, u32)>)
    ensures
        r == if is_calendar_date(year as int, month as int, day as int) {
            Some((year, month, day))
        } else {
            None
        },
{
    match NaiveDate::from_ymd_opt(year, month, day) {
        Some(date) => Some((date.year(), date.month(), date.day())),
        None => None,
    }
}

/// Asks `chrono` for the weekday of a date.
///
/// Trusted: `chrono::Datelike::weekday` on a `NaiveDate`, followed by
/// `chrono::Weekday::num_days_from_sunday`: the day of the week of the date in
/// the proleptic Gregorian calendar, as a number from Sunday = 0.
#[verifier::external_body]
pub(crate) fn naive_weekday_from_sunday(date: Date) -> (r: u32)
    requires
        date.is_valid(),
    ensures
        r == weekday_index(date.year as int, date.month as int, date.day as int),
{
    NaiveDate::from_ymd_opt(date.year, date.month, date.day).unwrap().weekday().num_days_from_sunday()
}

/// Asks `chrono` for the day before a date.
///
/// Trusted: the subtraction of `chrono::Duration::days(1)` from a
/// `NaiveDate`, which gives the previous day of the calendar. It fails on the
/// first day that `NaiveDate` can hold, which is left out.
#[verifier::external_body]
pub(crate) fn naive_previous_day(date: Date) -> (r: Date)
    requires
        date.is_valid(),
        !(date.year == MIN_YEAR && date.month == 1 && date.day == 1),
    ensures
        r == previous_day(date),
{
    let d = NaiveDate::from_ymd_opt(date.year, date.month, date.day).unwrap() - Duration::days(1);
    Date { year: d.year(), month: d.month(), day: d.day() }
}

/// Asks `chrono` for the text of a date.
///
/// Trusted: the `Display` form of `chrono::NaiveDate`, which writes the year
/// with four digits where it lies in 0 to 9999 and else with a sign and at
/// least four digits, then `'-'`, the month with two digits, `'-'`, and the
/// day with two digits.
#[verifier::external_body]
pub(crate) fn naive_date_text(date: Date) -> (r: String)
    requires
        date.is_valid(),
    ensures
        r@ == iso_date_text(date),
{
    NaiveDate::from_ymd_opt(date.year, date.month, date.day).unwrap().to_string()
}

impl Date {
    /// Whether the three numbers name a day of the calendar.
    pub open spec fn is_valid(self) -> bool {
        is_calendar_date(self.year as int, self.month as int, self.day as int)
    }

    /// Whether `self` is `other` or an earlier day.
    pub open spec fn at_or_before(self, other: Date) -> bool {
        self.year < other.year || (self.year == other.year && (self.month < other.month || (
        self.month == other.month && self.day <= other.day)))
    }

    /// Whether `self` is an earlier day than `other`.
    pub open spec fn before(self, other: Date) -> bool {
        self.at_or_before(other) && self != other
    }

    /// The first day of the month of `self`.
    pub open spec fn first_of_month(self) -> Date {
        Date { year: self.year, month: self.month, day: 1 }
    }

    /// The date with this year, month and day, if there is one.
    pub fn from_ymd_opt(year: i32, month: u32, day: u32) -> (r: Option<Date>)
        ensures
            r == if is_calendar_date(year as int, month as int, day as int) {
                Some(Date { year, month, day })
            } else {
                None
            },
    {
        match naive_from_ymd(year, month, day) {
            Some((y, m, d)) => Some(Date { year: y, month: m, day: d }),
            None => None,
        }
    }

    /// The same month and year with another day, if that day exists.
    pub fn with_day(self, day: u32) -> (r: Option<Date>)
        ensures
            r == if is_calendar_date(self.year as int, self.month as int, day as int) {
                Some(Date { year: self.year, month: self.month, day })
            } else {
                None
            },
    {
        Date::from_ymd_opt(self.year, self.month, day)
    }

    /// Whether `self` is `other` or an earlier day.
    pub fn le(self, other: Date) -> (r: bool)
        ensures
            r == self.at_or_before(other),
    {
        self.year < other.year || (self.year == other.year && (self.month < other.month || (
        self.month == other.month && self.day <= other.day)))
    }

    /// Whether `self` is an earlier day than `other`.
    pub fn lt(self, other: Date) -> (r: bool)
        ensures
            r == self.before(other),
    {
        self.le(other) && !(self.year == other.year && self.month == other.month && self.day
            == other.day)
    }
}

} // verus!
