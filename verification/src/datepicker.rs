//! The date field: three texts for year, month and day, the date they name,
//! and the month that the calendar shows.

use crate::calendar::is_calendar_date;
use crate::calendar::iso_date_text;
use crate::calendar::month_length;
use crate::calendar::naive_date_text;
use crate::calendar::naive_previous_day;
use crate::calendar::naive_weekday_from_sunday;
use crate::calendar::previous_day;
use crate::calendar::weekday_index;
use crate::calendar::Date;
use crate::calendar::MAX_YEAR;
use crate::calendar::MIN_YEAR;
use crate::integer::integer_text;
use crate::integer::integer_text_value;
use crate::integer::lemma_decimal_digits_len;
use crate::integer::all_digits;
use crate::integer::fixed_digit_chars;
use crate::integer::fixed_digits;
use crate::integer::lemma_fixed_digits;
use crate::integer::lemma_fixed_digits_value;
use crate::integer::parse_signed;
use crate::integer::parse_unsigned;
use crate::integer::signed_chars;
use crate::text::chars_of;
use crate::text::text_of;
use chrono::Datelike;
use chrono::Local;
use vstd::prelude::*;

verus! {

/// Why three field texts name no date that the field accepts.
#[derive(Clone, Copy, Debug, PartialEq, Eq, Structural)]
pub enum DateError {
    /// The year text is no integer.
    InvalidYear,
    /// The month text is no integer.
    InvalidMonth,
    /// The day text is no integer.
    InvalidDay,
    /// The three numbers name no day of the calendar.
    InvalidDate,
    /// The date lies before the first or after the second date.
    OutOfRange(Date, Date),
}

/// The text of a year field: four digits, the year filled up with zeros.
/// The field holds the years 0 to 9999; of any other year it shows the last
/// four digits of the number, without a sign.
pub open spec fn year_text(year: int) -> Seq<char> {
    fixed_digits(
        if year < 0 {
            (-year) as nat
        } else {
            year as nat
        },
        4,
    )
}

/// The text of a month or day field: two digits, the number filled up with
/// zeros; of a number above 99 its last two digits.
pub open spec fn short_text(number: nat) -> Seq<char> {
    fixed_digits(number, 2)
}

/// Whether `text` is `width` digits.
pub open spec fn is_digit_field(text: Seq<char>, width: nat) -> bool {
    text.len() == width && all_digits(text)
}

/// Whether the year field can show `year` as it is.
pub open spec fn is_field_year(year: int) -> bool {
    0 <= year <= 9999
}

/// The year that a text names, if it names one.
pub open spec fn year_of_text(text: Seq<char>) -> Option<int> {
    match integer_text_value(text, true) {
        Some(v) => if i32::MIN <= v <= i32::MAX {
            Some(v)
        } else {
            None
        },
        None => None,
    }
}

/// The month or day that a text names, if it names one.
pub open spec fn count_of_text(text: Seq<char>) -> Option<int> {
    match integer_text_value(text, false) {
        Some(v) => if v <= u32::MAX {
            Some(v)
        } else {
            None
        },
        None => None,
    }
}

/// The year text after `typed` arrives in a year field that showed `current`:
/// the zero year for an empty text, the last four digits of the year typed,
/// or `current` where `typed` names no year from 0 on.
pub open spec fn year_text_after_edit(current: Seq<char>, typed: Seq<char>) -> Seq<char> {
    if typed.len() == 0 {
        year_text(0)
    } else {
        match year_of_text(typed) {
            Some(year) => if year >= 0 {
                year_text(year)
            } else {
                current
            },
            None => current,
        }
    }
}

/// The same for a month or day field, which holds two digits.
pub open spec fn short_text_after_edit(current: Seq<char>, typed: Seq<char>) -> Seq<char> {
    if typed.len() == 0 {
        short_text(0)
    } else {
        match count_of_text(typed) {
            Some(number) => short_text(number as nat),
            None => current,
        }
    }
}

/// The date that three field texts name, or the first reason why they name
/// none.
pub open spec fn date_of_texts(year: Seq<char>, month: Seq<char>, day: Seq<char>) -> Result<
    Date,
    DateError,
> {
    match year_of_text(year) {
        None => Err(DateError::InvalidYear),
        Some(y) => match count_of_text(month) {
            None => Err(DateError::InvalidMonth),
            Some(m) => match count_of_text(day) {
                None => Err(DateError::InvalidDay),
                Some(d) => if is_calendar_date(y, m, d) {
                    Ok(Date { year: y as i32, month: m as u32, day: d as u32 })
                } else {
                    Err(DateError::InvalidDate)
                },
            },
        },
    }
}

/// Whether `date` lies in `min..=max`.
pub open spec fn in_range(date: Date, min: Date, max: Date) -> bool {
    min.at_or_before(date) && date.at_or_before(max)
}

/// The date that three field texts commit: the date they name, where it lies
/// in `min..=max`.
pub open spec fn checked_date(
    year: Seq<char>,
    month: Seq<char>,
    day: Seq<char>,
    min: Date,
    max: Date,
) -> Result<Date, DateError> {
    match date_of_texts(year, month, day) {
        Ok(date) => if in_range(date, min, max) {
            Ok(date)
        } else {
            Err(DateError::OutOfRange(min, max))
        },
        Err(e) => Err(e),
    }
}

/// The message that the field shows for an error.
pub open spec fn error_text(error: DateError) -> Seq<char> {
    match error {
        DateError::InvalidYear => "Invalid year"@,
        DateError::InvalidMonth => "Invalid month"@,
        DateError::InvalidDay => "Invalid day"@,
        DateError::InvalidDate => "Invalid date"@,
        DateError::OutOfRange(min, max) => "Date must be between "@ + iso_date_text(min)
            + " and "@ + iso_date_text(max),
    }
}

/// The English name of a month.
pub open spec fn month_name_text(month: int) -> Seq<char> {
    if month == 1 {
        "January"@
    } else if month == 2 {
        "February"@
    } else if month == 3 {
        "March"@
    } else if month == 4 {
        "April"@
    } else if month == 5 {
        "May"@
    } else if month == 6 {
        "June"@
    } else if month == 7 {
        "July"@
    } else if month == 8 {
        "August"@
    } else if month == 9 {
        "September"@
    } else if month == 10 {
        "October"@
    } else if month == 11 {
        "November"@
    } else {
        "December"@
    }
}

/// The first day of the month before that of `date`.
pub open spec fn previous_month_of(date: Date) -> Date {
    if date.month == 1 {
        Date { year: (date.year - 1) as i32, month: 12, day: 1 }
    } else {
        Date { year: date.year, month: (date.month - 1) as u32, day: 1 }
    }
}

/// The first day of the month after that of `date`.
pub open spec fn next_month_of(date: Date) -> Date {
    if date.month == 12 {
        Date { year: (date.year + 1) as i32, month: 1, day: 1 }
    } else {
        Date { year: date.year, month: (date.month + 1) as u32, day: 1 }
    }
}

/// Whether the month of `date` is the first that the calendar holds.
pub open spec fn is_first_month(date: Date) -> bool {
    date.year == MIN_YEAR && date.month == 1
}

/// Whether the month of `date` is the last that the calendar holds.
pub open spec fn is_last_month(date: Date) -> bool {
    date.year == MAX_YEAR && date.month == 12
}

impl DateError {
    /// The message that the field shows for the error.
    pub fn message(self) -> (r: String)
        requires
            self matches DateError::OutOfRange(min, max) ==> min.is_valid() && max.is_valid(),
        ensures
            r@ == error_text(self),
    {
        match self {
            DateError::InvalidYear => String::from_str("Invalid year"),
            DateError::InvalidMonth => String::from_str("Invalid month"),
            DateError::InvalidDay => String::from_str("Invalid day"),
            DateError::InvalidDate => String::from_str("Invalid date"),
            DateError::OutOfRange(min, max) => {
                let mut text = String::from_str("Date must be between ");
                text.append(naive_date_text(min).as_str());
                text.append(" and ");
                text.append(naive_date_text(max).as_str());
                text
            },
        }
    }
}

/// The text of a year field that holds `year`.
pub fn year_to_string(year: i32) -> (r: String)
    ensures
        r@ == year_text(year as int),
        is_digit_field(r@, 4),
{
    proof {
        lemma_field_texts_are_digits(year as int, 0);
    }
    let magnitude: u128 = if year < 0 {
        (-(year as i128)) as u128
    } else {
        year as u128
    };
    text_of(&fixed_digit_chars(magnitude, 4))
}

/// The text of a month field that holds `month`.
pub fn month_to_string(month: u32) -> (r: String)
    ensures
        r@ == short_text(month as nat),
        is_digit_field(r@, 2),
{
    proof {
        lemma_field_texts_are_digits(0, month as nat);
    }
    text_of(&fixed_digit_chars(month as u128, 2))
}

/// The text of a day field that holds `day`.
pub fn day_to_string(day: u32) -> (r: String)
    ensures
        r@ == short_text(day as nat),
        is_digit_field(r@, 2),
{
    proof {
        lemma_field_texts_are_digits(0, day as nat);
    }
    text_of(&fixed_digit_chars(day as u128, 2))
}

/// The text of a year field after `new_year` was typed into it.
pub fn new_year_value(old_year: &str, new_year: &str) -> (r: String)
    ensures
        r@ == year_text_after_edit(old_year@, new_year@),
        is_digit_field(old_year@, 4) ==> is_digit_field(r@, 4),
{
    proof {
        lemma_field_edit_keeps_digits(old_year@, new_year@);
    }
    let typed = chars_of(new_year);
    if typed.len() == 0 {
        return year_to_string(0);
    }
    match parse_signed(&typed, i32::MIN as i128, i32::MAX as i128) {
        Some(parsed_year) => {
            if parsed_year >= 0 {
                year_to_string(parsed_year as i32)
            } else {
                String::from_str(old_year)
            }
        },
        None => String::from_str(old_year),
    }
}

fn new_short_value(old_text: &str, new_text: &str) -> (r: String)
    ensures
        r@ == short_text_after_edit(old_text@, new_text@),
        is_digit_field(old_text@, 2) ==> is_digit_field(r@, 2),
{
    proof {
        lemma_field_edit_keeps_digits(old_text@, new_text@);
    }
    let typed = chars_of(new_text);
    if typed.len() == 0 {
        return month_to_string(0);
    }
    match parse_unsigned(&typed, u32::MAX as u128) {
        Some(parsed) => month_to_string(parsed as u32),
        None => String::from_str(old_text),
    }
}

/// The text of a month field after `new_month` was typed into it.
pub fn new_month_value(old_month: &str, new_month: &str) -> (r: String)
    ensures
        r@ == short_text_after_edit(old_month@, new_month@),
        is_digit_field(old_month@, 2) ==> is_digit_field(r@, 2),
{
    new_short_value(old_month, new_month)
}

/// The text of a day field after `new_day` was typed into it.
pub fn new_day_value(old_day: &str, new_day: &str) -> (r: String)
    ensures
        r@ == short_text_after_edit(old_day@, new_day@),
        is_digit_field(old_day@, 2) ==> is_digit_field(r@, 2),
{
    new_short_value(old_day, new_day)
}

/// Reads three field texts as a date.
pub fn parse_date(year_str: &str, month_str: &str, day_str: &str) -> (r: Result<Date, DateError>)
    ensures
        r == date_of_texts(year_str@, month_str@, day_str@),
{
    let year = match parse_signed(&chars_of(year_str), i32::MIN as i128, i32::MAX as i128) {
        Some(v) => v as i32,
        None => {
            return Err(DateError::InvalidYear);
        },
    };
    let month = match parse_unsigned(&chars_of(month_str), u32::MAX as u128) {
        Some(v) => v as u32,
        None => {
            return Err(DateError::InvalidMonth);
        },
    };
    let day = match parse_unsigned(&chars_of(day_str), u32::MAX as u128) {
        Some(v) => v as u32,
        None => {
            return Err(DateError::InvalidDay);
        },
    };
    match Date::from_ymd_opt(year, month, day) {
        Some(date) => Ok(date),
        None => Err(DateError::InvalidDate),
    }
}

/// Whether `date` lies in `min..=max`.
pub fn date_within_range(date: &Date, min: &Date, max: &Date) -> (r: bool)
    ensures
        r == in_range(*date, *min, *max),
{
    min.le(*date) && date.le(*max)
}

/// Reads three field texts as a date within `min..=max`.
pub fn check_date(year_str: &str, month_str: &str, day_str: &str, min: &Date, max: &Date) -> (r:
    Result<Date, DateError>)
    ensures
        r == checked_date(year_str@, month_str@, day_str@, *min, *max),
{
    match parse_date(year_str, month_str, day_str) {
        Ok(date) => {
            if date_within_range(&date, min, max) {
                Ok(date)
            } else {
                Err(DateError::OutOfRange(*min, *max))
            }
        },
        Err(e) => Err(e),
    }
}

/// Reads three field texts as a date within `min..=max`, or gives the
/// message to show.
pub fn check_state(year_str: &str, month_str: &str, day_str: &str, min: &Date, max: &Date) -> (r:
    Result<Date, String>)
    requires
        min.is_valid(),
        max.is_valid(),
    ensures
        match checked_date(year_str@, month_str@, day_str@, *min, *max) {
            Ok(date) => r == Ok::<Date, String>(date),
            Err(e) => r is Err && r->Err_0@ == error_text(e),
        },
{
    match check_date(year_str, month_str, day_str, min, max) {
        Ok(date) => Ok(date),
        Err(e) => Err(e.message()),
    }
}

/// The English name of the month of `date`.
pub fn month_name(date: &Date) -> (r: String)
    requires
        date.is_valid(),
    ensures
        r@ == month_name_text(date.month as int),
{
    let name = if date.month == 1 {
        "January"
    } else if date.month == 2 {
        "February"
    } else if date.month == 3 {
        "March"
    } else if date.month == 4 {
        "April"
    } else if date.month == 5 {
        "May"
    } else if date.month == 6 {
        "June"
    } else if date.month == 7 {
        "July"
    } else if date.month == 8 {
        "August"
    } else if date.month == 9 {
        "September"
    } else if date.month == 10 {
        "October"
    } else if date.month == 11 {
        "November"
    } else {
        "December"
    };
    String::from_str(name)
}

/// The first day of the month before that of `date`.
pub fn prev_month(date: &Date) -> (r: Date)
    requires
        date.is_valid(),
        !is_first_month(*date),
    ensures
        r == previous_month_of(*date),
        r.is_valid(),
{
    let made = if date.month == 1 {
        Date::from_ymd_opt(date.year - 1, 12, 1)
    } else {
        Date::from_ymd_opt(date.year, date.month - 1, 1)
    };
    made.unwrap()
}

/// The first day of the month after that of `date`.
pub fn next_month(date: &Date) -> (r: Date)
    requires
        date.is_valid(),
        !is_last_month(*date),
    ensures
        r == next_month_of(*date),
        r.is_valid(),
{
    let made = if date.month == 12 {
        Date::from_ymd_opt(date.year + 1, 1, 1)
    } else {
        Date::from_ymd_opt(date.year, date.month + 1, 1)
    };
    made.unwrap()
}

/// Whether the calendar may go back from `viewing_month`: the month of `min`
/// lies before it.
pub fn prev_month_viewable(viewing_month: &Date, min: &Date) -> (r: bool)
    ensures
        r == min.first_of_month().before(viewing_month.first_of_month()),
{
    min.year < viewing_month.year || (min.year == viewing_month.year && min.month
        < viewing_month.month)
}

/// Whether the calendar may go on from `viewing_month`: the month of `max`
/// lies after it.
pub fn next_month_viewable(viewing_month: &Date, max: &Date) -> (r: bool)
    ensures
        r == viewing_month.first_of_month().before(max.first_of_month()),
{
    viewing_month.year < max.year || (viewing_month.year == max.year && viewing_month.month
        < max.month)
}

/// The number of empty cells before the first day of the month: the weekday
/// of that day, counted from Sunday.
pub fn days_before_month(viewing_month: &Date) -> (r: u32)
    requires
        viewing_month.is_valid(),
    ensures
        r == weekday_index(viewing_month.year as int, viewing_month.month as int, 1),
        r <= 6,
{
    let first_of_month = viewing_month.with_day(1).unwrap();
    naive_weekday_from_sunday(first_of_month)
}

/// The number of days of the month: the day before the first of the next
/// month.
pub fn days_in_month(viewing_month: &Date) -> (r: u32)
    requires
        viewing_month.is_valid(),
        !is_last_month(*viewing_month),
    ensures
        r == month_length(viewing_month.year as int, viewing_month.month as int),
        28 <= r <= 31,
{
    let last_of_month = naive_previous_day(next_month(viewing_month));
    last_of_month.day
}

/// The number of empty cells after the last day of the month, in a calendar
/// of six weeks.
pub fn days_after_month(viewing_month: &Date) -> (r: u32)
    requires
        viewing_month.is_valid(),
        !is_last_month(*viewing_month),
    ensures
        weekday_index(viewing_month.year as int, viewing_month.month as int, 1) + month_length(
            viewing_month.year as int,
            viewing_month.month as int,
        ) + r == 42,
{
    let calendar_space: u32 = 42;
    let num_days_before_month = days_before_month(viewing_month);
    let num_days_in_month = days_in_month(viewing_month);
    calendar_space - num_days_in_month - num_days_before_month
}

/// The day `day` of the month shown, if the month has it.
pub fn calendar_day(viewing_month: &Date, day: u32) -> (r: Option<Date>)
    ensures
        r == if is_calendar_date(viewing_month.year as int, viewing_month.month as int, day as int) {
            Some(Date { year: viewing_month.year, month: viewing_month.month, day })
        } else {
            None
        },
{
    viewing_month.with_day(day)
}

/// The local date of today.
///
/// Trusted: `chrono::Local::now`, of which nothing is claimed but that its
/// date is a date of the calendar.
#[verifier::external_body]
pub fn date_picker_today() -> (r: Date)
    ensures
        r.is_valid(),
{
    let today = Local::now().naive_local().date();
    Date { year: today.year(), month: today.month(), day: today.day() }
}

/// Taking the same text twice leaves a field as taking it once.
pub proof fn lemma_field_edit_is_idempotent(current: Seq<char>, typed: Seq<char>)
    ensures
        year_text_after_edit(year_text_after_edit(current, typed), typed) == year_text_after_edit(
            current,
            typed,
        ),
        short_text_after_edit(short_text_after_edit(current, typed), typed)
            == short_text_after_edit(current, typed),
{
}

/// Going on one month and back one month, in either order, ends on the first
/// day of the month one started in.
pub proof fn lemma_month_navigation_round_trip(date: Date)
    requires
        date.is_valid(),
        !is_first_month(date),
        !is_last_month(date),
    ensures
        previous_month_of(next_month_of(date)) == date.first_of_month(),
        next_month_of(previous_month_of(date)) == date.first_of_month(),
{
}

/// The field texts of a date name that date again, where the year field can
/// show its year: the years 0 to 9999.
pub proof fn lemma_field_texts_round_trip(date: Date, min: Date, max: Date)
    requires
        date.is_valid(),
        is_field_year(date.year as int),
    ensures
        date_of_texts(
            year_text(date.year as int),
            short_text(date.month as nat),
            short_text(date.day as nat),
        ) == Ok::<Date, DateError>(date),
        in_range(date, min, max) ==> checked_date(
            year_text(date.year as int),
            short_text(date.month as nat),
            short_text(date.day as nat),
            min,
            max,
        ) == Ok::<Date, DateError>(date),
{
    lemma_decimal_digits_len(date.year as nat);
    lemma_decimal_digits_len(date.month as nat);
    lemma_decimal_digits_len(date.day as nat);
    lemma_fixed_digits_value(date.year as nat, 4, true);
    lemma_fixed_digits_value(date.month as nat, 2, false);
    lemma_fixed_digits_value(date.day as nat, 2, false);
}

/// The text of a year is four digits, that of a month or day two.
pub proof fn lemma_field_texts_are_digits(year: int, number: nat)
    ensures
        is_digit_field(year_text(year), 4),
        is_digit_field(short_text(number), 2),
{
    lemma_fixed_digits(
        if year < 0 {
            (-year) as nat
        } else {
            year as nat
        },
        4,
    );
    lemma_fixed_digits(number, 2);
}

/// A year field of four digits holds four digits after any text typed into
/// it, and a month or day field of two digits holds two.
pub proof fn lemma_field_edit_keeps_digits(current: Seq<char>, typed: Seq<char>)
    ensures
        is_digit_field(current, 4) ==> is_digit_field(year_text_after_edit(current, typed), 4),
        is_digit_field(current, 2) ==> is_digit_field(short_text_after_edit(current, typed), 2),
{
    lemma_field_texts_are_digits(0, 0);
    match year_of_text(typed) {
        Some(year) => {
            lemma_field_texts_are_digits(year, 0);
        },
        None => {},
    }
    match count_of_text(typed) {
        Some(number) => {
            lemma_field_texts_are_digits(0, number as nat);
        },
        None => {},
    }
}

/// Whether the field can take `date`: it is a day of the calendar, the year
/// field can show its year, and it lies in `min..=max`.
pub open spec fn is_selectable(date: Date, min: Date, max: Date) -> bool {
    date.is_valid() && is_field_year(date.year as int) && in_range(date, min, max)
}

/// Whether the field can take `date`: see [`is_selectable`].
pub fn date_selectable(date: &Date, min: &Date, max: &Date) -> (r: bool)
    ensures
        r == is_selectable(*date, *min, *max),
{
    Date::from_ymd_opt(date.year, date.month, date.day).is_some() && 0 <= date.year && date.year
        <= 9999 && date_within_range(date, min, max)
}

/// A part of the date field.
#[derive(Clone, Copy, Debug, PartialEq, Eq, Structural)]
pub enum DatePart {
    /// The year field.
    Year,
    /// The month field.
    Month,
    /// The day field.
    Day,
}

/// A step of the calendar.
#[derive(Clone, Copy, Debug, PartialEq, Eq, Structural)]
pub enum MonthStep {
    /// To the month before.
    Previous,
    /// To the month after.
    Next,
}

/// A cell of the calendar.
#[derive(Clone, Copy, Debug, PartialEq, Eq, Structural)]
pub enum CalendarCell {
    /// An empty cell before the first or after the last day.
    Blank,
    /// A day of the month.
    Day {
        /// The day of the month, from 1.
        day: u32,
        /// Whether the day is the committed date.
        selected: bool,
        /// Whether the day is today.
        today: bool,
        /// Whether the field cannot take the day.
        disabled: bool,
    },
}

/// The cell at `index` of the calendar of six weeks: empty cells up to the
/// weekday of the first, then the days of the month, then empty cells.
pub open spec fn cell_at(
    index: int,
    viewing_month: Date,
    selected: Option<Date>,
    today: Date,
    min: Date,
    max: Date,
) -> CalendarCell {
    let lead = weekday_index(viewing_month.year as int, viewing_month.month as int, 1);
    let length = month_length(viewing_month.year as int, viewing_month.month as int);
    if lead <= index < lead + length {
        let date = Date {
            year: viewing_month.year,
            month: viewing_month.month,
            day: (index - lead + 1) as u32,
        };
        CalendarCell::Day {
            day: date.day,
            selected: selected == Some(date),
            today: date == today,
            disabled: !is_selectable(date, min, max),
        }
    } else {
        CalendarCell::Blank
    }
}

/// The 42 cells of the calendar for `viewing_month`.
pub fn calendar_cells(
    viewing_month: &Date,
    selected: Option<Date>,
    today: &Date,
    min: &Date,
    max: &Date,
) -> (cells: Vec<CalendarCell>)
    requires
        viewing_month.is_valid(),
        !is_last_month(*viewing_month),
    ensures
        cells.len() == 42,
        forall|i: int|
            0 <= i < 42 ==> cells[i] == cell_at(i, *viewing_month, selected, *today, *min, *max),
{
    let lead = days_before_month(viewing_month);
    let length = days_in_month(viewing_month);
    let trail = days_after_month(viewing_month);
    let mut cells: Vec<CalendarCell> = Vec::new();
    let mut i: u32 = 0;
    while i < lead
        invariant
            i <= lead,
            cells.len() == i,
            lead == weekday_index(viewing_month.year as int, viewing_month.month as int, 1),
            forall|k: int|
                0 <= k < i ==> cells[k] == cell_at(k, *viewing_month, selected, *today, *min, *max),
        decreases lead - i,
    {
        cells.push(CalendarCell::Blank);
        i += 1;
    }
    let mut day: u32 = 1;
    while day <= length
        invariant
            1 <= day <= length + 1,
            lead <= 6,
            28 <= length <= 31,
            cells.len() == lead + day - 1,
            lead == weekday_index(viewing_month.year as int, viewing_month.month as int, 1),
            length == month_length(viewing_month.year as int, viewing_month.month as int),
            forall|k: int|
                0 <= k < lead + day - 1 ==> cells[k] == cell_at(
                    k,
                    *viewing_month,
                    selected,
                    *today,
                    *min,
                    *max,
                ),
        decreases length + 1 - day,
    {
        let this_day = Date { year: viewing_month.year, month: viewing_month.month, day };
        let day_selected = match selected {
            Some(s) => s == this_day,
            None => false,
        };
        let day_today = this_day == *today;
        let day_disabled = !date_selectable(&this_day, min, max);
        cells.push(
            CalendarCell::Day {
                day,
                selected: day_selected,
                today: day_today,
                disabled: day_disabled,
            },
        );
        day += 1;
    }
    let mut j: u32 = 0;
    while j < trail
        invariant
            j <= trail,
            lead + length + trail == 42,
            cells.len() == lead + length + j,
            lead == weekday_index(viewing_month.year as int, viewing_month.month as int, 1),
            length == month_length(viewing_month.year as int, viewing_month.month as int),
            forall|k: int|
                0 <= k < lead + length + j ==> cells[k] == cell_at(
                    k,
                    *viewing_month,
                    selected,
                    *today,
                    *min,
                    *max,
                ),
        decreases trail - j,
    {
        cells.push(CalendarCell::Blank);
        j += 1;
    }
    cells
}

/// What the field commits for three texts: the date they name where it lies
/// in the range, else nothing.
pub open spec fn committed_for(
    year: Seq<char>,
    month: Seq<char>,
    day: Seq<char>,
    min: Date,
    max: Date,
) -> Option<Date> {
    match checked_date(year, month, day, min, max) {
        Ok(date) => Some(date),
        Err(_) => None,
    }
}

/// The name of the month shown and its year, as the head of the calendar.
pub open spec fn month_label_text(viewing_month: Date) -> Seq<char> {
    month_name_text(viewing_month.month as int) + " "@ + integer_text(viewing_month.year as int)
}

/// The state of a date field: the three texts, the date committed, the month
/// that the calendar shows, the range allowed, and whether the calendar is
/// open.
#[derive(Clone, Debug)]
pub struct DateField {
    /// The text of the year field.
    pub year: String,
    /// The text of the month field.
    pub month: String,
    /// The text of the day field.
    pub day: String,
    /// The date that the field stands for, if the texts name one in range.
    pub committed: Option<Date>,
    /// The first day of the month that the calendar shows.
    pub viewing_month: Date,
    /// The first date allowed.
    pub min: Date,
    /// The last date allowed.
    pub max: Date,
    /// Whether the calendar is open.
    pub calendar_open: bool,
}

impl DateField {
    /// The range and the month shown are dates, and the month shown is given
    /// by its first day.
    pub open spec fn wf(&self) -> bool {
        &&& self.min.is_valid()
        &&& self.max.is_valid()
        &&& self.viewing_month.is_valid()
        &&& self.viewing_month.day == 1
    }

    /// The date committed is the one that the three texts name.
    pub open spec fn is_settled(&self) -> bool {
        self.committed == committed_for(self.year@, self.month@, self.day@, self.min, self.max)
    }

    /// The year text is four digits, the month and day texts two each.
    pub open spec fn has_digit_texts(&self) -> bool {
        &&& is_digit_field(self.year@, 4)
        &&& is_digit_field(self.month@, 2)
        &&& is_digit_field(self.day@, 2)
    }

    /// A field that shows `initial`, or `today` where there is none, with the
    /// calendar closed on the month of `today`. The date committed is
    /// `initial`.
    pub fn new(initial: Option<Date>, today: Date, min: Date, max: Date) -> (r: Self)
        requires
            today.is_valid(),
            min.is_valid(),
            max.is_valid(),
        ensures
            r.wf(),
            r.committed == initial,
            r.min == min,
            r.max == max,
            !r.calendar_open,
            r.viewing_month == today.first_of_month(),
            r.year@ == year_text(initial.unwrap_or(today).year as int),
            r.month@ == short_text(initial.unwrap_or(today).month as nat),
            r.day@ == short_text(initial.unwrap_or(today).day as nat),
            r.has_digit_texts(),
            initial matches Some(date) && is_selectable(date, min, max) ==> r.is_settled(),
    {
        let shown = match initial {
            Some(date) => date,
            None => today,
        };
        proof {
            lemma_field_texts_are_digits(shown.year as int, shown.month as nat);
            lemma_field_texts_are_digits(shown.year as int, shown.day as nat);
            if shown.is_valid() && is_field_year(shown.year as int) {
                lemma_field_texts_round_trip(shown, min, max);
            }
        }
        DateField {
            year: year_to_string(shown.year),
            month: month_to_string(shown.month),
            day: day_to_string(shown.day),
            committed: initial,
            viewing_month: today.with_day(1).unwrap(),
            min,
            max,
            calendar_open: false,
        }
    }

    /// Takes the text typed into one of the three fields: that field gets its
    /// new text, the others keep theirs, and the date committed is the one
    /// that the three texts now name.
    pub fn on_field_edit(&mut self, part: DatePart, raw_text: &str)
        ensures
            final(self).year@ == if part == DatePart::Year {
                year_text_after_edit(old(self).year@, raw_text@)
            } else {
                old(self).year@
            },
            final(self).month@ == if part == DatePart::Month {
                short_text_after_edit(old(self).month@, raw_text@)
            } else {
                old(self).month@
            },
            final(self).day@ == if part == DatePart::Day {
                short_text_after_edit(old(self).day@, raw_text@)
            } else {
                old(self).day@
            },
            final(self).is_settled(),
            old(self).has_digit_texts() ==> final(self).has_digit_texts(),
            final(self).viewing_month == old(self).viewing_month,
            final(self).min == old(self).min,
            final(self).max == old(self).max,
            final(self).calendar_open == old(self).calendar_open,
    {
        proof {
            lemma_field_edit_keeps_digits(self.year@, raw_text@);
            lemma_field_edit_keeps_digits(self.month@, raw_text@);
            lemma_field_edit_keeps_digits(self.day@, raw_text@);
        }
        match part {
            DatePart::Year => {
                self.year = new_year_value(self.year.as_str(), raw_text);
            },
            DatePart::Month => {
                self.month = new_month_value(self.month.as_str(), raw_text);
            },
            DatePart::Day => {
                self.day = new_day_value(self.day.as_str(), raw_text);
            },
        }
        self.committed = match check_date(
            self.year.as_str(),
            self.month.as_str(),
            self.day.as_str(),
            &self.min,
            &self.max,
        ) {
            Ok(date) => Some(date),
            Err(_) => None,
        };
    }

    /// Takes a click on a day of the calendar. Where the field can take the
    /// day, the three texts show it, it is committed, and the calendar
    /// closes, all at once. A day that the field cannot take is shown
    /// disabled, and a click on it changes nothing.
    pub fn on_calendar_day_select(&mut self, date: Date)
        ensures
            if is_selectable(date, old(self).min, old(self).max) {
                &&& final(self).year@ == year_text(date.year as int)
                &&& final(self).month@ == short_text(date.month as nat)
                &&& final(self).day@ == short_text(date.day as nat)
                &&& final(self).committed == Some(date)
                &&& !final(self).calendar_open
                &&& final(self).viewing_month == old(self).viewing_month
                &&& final(self).min == old(self).min
                &&& final(self).max == old(self).max
                &&& final(self).is_settled()
                &&& final(self).has_digit_texts()
            } else {
                *final(self) == *old(self)
            },
    {
        if date_selectable(&date, &self.min, &self.max) {
            self.year = year_to_string(date.year);
            self.month = month_to_string(date.month);
            self.day = day_to_string(date.day);
            self.committed = Some(date);
            self.calendar_open = false;
            proof {
                lemma_field_texts_round_trip(date, self.min, self.max);
                lemma_field_texts_are_digits(date.year as int, date.month as nat);
                lemma_field_texts_are_digits(date.year as int, date.day as nat);
            }
        }
    }

    /// Whether the calendar may go one month in the direction of `step`.
    pub fn can_navigate(&self, step: MonthStep) -> (r: bool)
        ensures
            r == match step {
                MonthStep::Previous => self.min.first_of_month().before(
                    self.viewing_month.first_of_month(),
                ),
                MonthStep::Next => self.viewing_month.first_of_month().before(
                    self.max.first_of_month(),
                ),
            },
    {
        match step {
            MonthStep::Previous => prev_month_viewable(&self.viewing_month, &self.min),
            MonthStep::Next => next_month_viewable(&self.viewing_month, &self.max),
        }
    }

    /// Moves the calendar one month where it may go there, and leaves it
    /// where it may not.
    pub fn on_navigate(&mut self, step: MonthStep)
        requires
            old(self).wf(),
        ensures
            final(self).wf(),
            final(self).viewing_month == match step {
                MonthStep::Previous => if old(self).min.first_of_month().before(
                    old(self).viewing_month.first_of_month(),
                ) {
                    previous_month_of(old(self).viewing_month)
                } else {
                    old(self).viewing_month
                },
                MonthStep::Next => if old(self).viewing_month.first_of_month().before(
                    old(self).max.first_of_month(),
                ) {
                    next_month_of(old(self).viewing_month)
                } else {
                    old(self).viewing_month
                },
            },
            final(self).year == old(self).year,
            final(self).month == old(self).month,
            final(self).day == old(self).day,
            final(self).committed == old(self).committed,
            final(self).min == old(self).min,
            final(self).max == old(self).max,
            final(self).calendar_open == old(self).calendar_open,
    {
        if self.can_navigate(step) {
            match step {
                MonthStep::Previous => {
                    self.viewing_month = prev_month(&self.viewing_month);
                },
                MonthStep::Next => {
                    self.viewing_month = next_month(&self.viewing_month);
                },
            }
        }
    }

    /// Opens the calendar.
    pub fn open_calendar(&mut self)
        ensures
            final(self).calendar_open,
            final(self).year == old(self).year,
            final(self).month == old(self).month,
            final(self).day == old(self).day,
            final(self).committed == old(self).committed,
            final(self).viewing_month == old(self).viewing_month,
            final(self).min == old(self).min,
            final(self).max == old(self).max,
    {
        self.calendar_open = true;
    }

    /// Closes the calendar.
    pub fn close_calendar(&mut self)
        ensures
            !final(self).calendar_open,
            final(self).year == old(self).year,
            final(self).month == old(self).month,
            final(self).day == old(self).day,
            final(self).committed == old(self).committed,
            final(self).viewing_month == old(self).viewing_month,
            final(self).min == old(self).min,
            final(self).max == old(self).max,
    {
        self.calendar_open = false;
    }

    /// The message to show under the field: the reason why the three texts
    /// commit no date, or, where they commit one, the message that the caller
    /// supplies.
    pub fn error_message(&self, supplied: Option<String>) -> (r: Option<String>)
        requires
            self.wf(),
        ensures
            match checked_date(self.year@, self.month@, self.day@, self.min, self.max) {
                Ok(_) => r == supplied,
                Err(e) => r is Some && r->0@ == error_text(e),
            },
    {
        match check_state(
            self.year.as_str(),
            self.month.as_str(),
            self.day.as_str(),
            &self.min,
            &self.max,
        ) {
            Ok(_) => supplied,
            Err(message) => Some(message),
        }
    }

    /// The head of the calendar: the name of the month shown and its year.
    pub fn month_label(&self) -> (r: String)
        requires
            self.wf(),
        ensures
            r@ == month_label_text(self.viewing_month),
    {
        let mut label = month_name(&self.viewing_month);
        label.append(" ");
        label.append(text_of(&signed_chars(self.viewing_month.year as i128)).as_str());
        label
    }

    /// The 42 cells of the calendar: see [`cell_at`].
    pub fn cells(&self, today: &Date) -> (cells: Vec<CalendarCell>)
        requires
            self.wf(),
            !is_last_month(self.viewing_month),
        ensures
            cells.len() == 42,
            forall|i: int|
                0 <= i < 42 ==> cells[i] == cell_at(
                    i,
                    self.viewing_month,
                    self.committed,
                    *today,
                    self.min,
                    self.max,
                ),
    {
        calendar_cells(&self.viewing_month, self.committed, today, &self.min, &self.max)
    }
}

} // verus!
