use form_widgets::calendar::Date;
use form_widgets::calendar::MAX_YEAR;
use form_widgets::calendar::MIN_YEAR;
use form_widgets::datepicker::calendar_cells;
use form_widgets::datepicker::calendar_day;
use form_widgets::datepicker::check_date;
use form_widgets::datepicker::check_state;
use form_widgets::datepicker::date_picker_today;
use form_widgets::datepicker::date_selectable;
use form_widgets::datepicker::date_within_range;
use form_widgets::datepicker::day_to_string;
use form_widgets::datepicker::days_after_month;
use form_widgets::datepicker::days_before_month;
use form_widgets::datepicker::days_in_month;
use form_widgets::datepicker::month_name;
use form_widgets::datepicker::month_to_string;
use form_widgets::datepicker::new_day_value;
use form_widgets::datepicker::new_month_value;
use form_widgets::datepicker::new_year_value;
use form_widgets::datepicker::next_month;
use form_widgets::datepicker::next_month_viewable;
use form_widgets::datepicker::parse_date;
use form_widgets::datepicker::prev_month;
use form_widgets::datepicker::prev_month_viewable;
use form_widgets::datepicker::year_to_string;
use form_widgets::datepicker::CalendarCell;
use form_widgets::datepicker::DateError;
use form_widgets::datepicker::DateField;
use form_widgets::datepicker::DatePart;
use form_widgets::datepicker::MonthStep;

fn date(year: i32, month: u32, day: u32) -> Date {
    Date::from_ymd_opt(year, month, day).unwrap()
}

fn default_min() -> Date {
    date(0, 1, 1)
}

fn default_max() -> Date {
    date(9999, 12, 31)
}

fn is_leap(year: i64) -> bool {
    year % 4 == 0 && (year % 100 != 0 || year % 400 == 0)
}

fn length_of(year: i64, month: u32) -> u32 {
    match month {
        2 => {
            if is_leap(year) {
                29
            } else {
                28
            }
        }
        4 | 6 | 9 | 11 => 30,
        _ => 31,
    }
}

fn weekday_of_first(year: i64, month: u32) -> u32 {
    let y = year - 1;
    let mut days = 365 * y + y.div_euclid(4) - y.div_euclid(100) + y.div_euclid(400);
    for m in 1..month {
        days += length_of(year, m) as i64;
    }
    (days + 1).rem_euclid(7) as u32
}

#[test]
fn from_ymd_opt_accepts_calendar_dates_only() {
    assert_eq!(Date::from_ymd_opt(2015, 3, 14), Some(Date { year: 2015, month: 3, day: 14 }));
    assert_eq!(Date::from_ymd_opt(2015, 0, 14), None);
    assert_eq!(Date::from_ymd_opt(2015, 13, 14), None);
    assert_eq!(Date::from_ymd_opt(2015, 2, 29), None);
    assert_eq!(Date::from_ymd_opt(2016, 2, 29), Some(Date { year: 2016, month: 2, day: 29 }));
    assert_eq!(Date::from_ymd_opt(1900, 2, 29), None);
    assert_eq!(Date::from_ymd_opt(2000, 2, 29), Some(Date { year: 2000, month: 2, day: 29 }));
    assert_eq!(Date::from_ymd_opt(-4, 2, 29), Some(Date { year: -4, month: 2, day: 29 }));
    assert_eq!(Date::from_ymd_opt(2023, 4, 31), None);
    assert_eq!(Date::from_ymd_opt(2023, 4, 0), None);
    assert_eq!(Date::from_ymd_opt(400000, 1, 1), None);
    assert_eq!(Date::from_ymd_opt(-400000, 1, 1), None);
}

#[test]
fn from_ymd_opt_knows_the_range_of_years() {
    assert!(Date::from_ymd_opt(MIN_YEAR, 1, 1).is_some());
    assert!(Date::from_ymd_opt(MIN_YEAR - 1, 12, 31).is_none());
    assert!(Date::from_ymd_opt(MAX_YEAR, 12, 31).is_some());
    assert!(Date::from_ymd_opt(MAX_YEAR + 1, 1, 1).is_none());
}

#[test]
fn with_day_keeps_month_and_year() {
    assert_eq!(date(2025, 2, 10).with_day(28), Some(date(2025, 2, 28)));
    assert_eq!(date(2025, 2, 10).with_day(29), None);
    assert_eq!(date(2025, 2, 10).with_day(0), None);
}

#[test]
fn dates_are_ordered_by_year_month_day() {
    assert!(date(2025, 3, 15).le(date(2025, 3, 15)));
    assert!(!date(2025, 3, 15).lt(date(2025, 3, 15)));
    assert!(date(2025, 3, 14).lt(date(2025, 3, 15)));
    assert!(date(2025, 2, 28).lt(date(2025, 3, 1)));
    assert!(date(2024, 12, 31).lt(date(2025, 1, 1)));
    assert!(!date(2025, 1, 1).le(date(2024, 12, 31)));
    assert!(date(-1, 12, 31).lt(date(0, 1, 1)));
}

#[test]
fn field_texts_are_zero_padded() {
    assert_eq!(year_to_string(2025), "2025");
    assert_eq!(year_to_string(0), "0000");
    assert_eq!(year_to_string(7), "0007");
    assert_eq!(year_to_string(9999), "9999");
    assert_eq!(year_to_string(12345), "2345");
    assert_eq!(year_to_string(-5), "0005");
    assert_eq!(year_to_string(i32::MIN), "3648");
    assert_eq!(month_to_string(3), "03");
    assert_eq!(month_to_string(12), "12");
    assert_eq!(month_to_string(0), "00");
    assert_eq!(day_to_string(1), "01");
    assert_eq!(day_to_string(31), "31");
    assert_eq!(day_to_string(123), "23");
}

#[test]
fn typing_a_year_keeps_the_last_four_digits() {
    let mut year = "0000".to_string();
    for digit in ["2", "0", "2", "5"] {
        let typed = format!("{year}{digit}");
        year = new_year_value(&year, &typed);
    }
    assert_eq!(year, "2025");
    assert_eq!(new_year_value("2025", "20256"), "0256");
    assert_eq!(new_year_value("2025", "7"), "0007");
}

#[test]
fn an_empty_field_reverts_to_zero() {
    assert_eq!(new_year_value("2025", ""), "0000");
    assert_eq!(new_month_value("03", ""), "00");
    assert_eq!(new_day_value("15", ""), "00");
}

#[test]
fn an_unreadable_field_text_keeps_the_old_one() {
    assert_eq!(new_year_value("2025", "20x5"), "2025");
    assert_eq!(new_year_value("2025", "-5"), "2025");
    assert_eq!(new_year_value("2025", "-2024"), "2025");
    assert_eq!(new_year_value("2025", "-0"), "0000");
    assert_eq!(new_year_value("2025", "+7"), "0007");
    assert_eq!(new_year_value("2025", "99999999999"), "2025");
    assert_eq!(new_month_value("03", "-1"), "03");
    assert_eq!(new_month_value("03", "1a"), "03");
    assert_eq!(new_day_value("15", "4294967296"), "15");
}

#[test]
fn typing_a_month_or_day_keeps_the_last_two_digits() {
    assert_eq!(new_month_value("01", "012"), "12");
    assert_eq!(new_month_value("12", "123"), "23");
    assert_eq!(new_month_value("12", "5"), "05");
    assert_eq!(new_day_value("01", "32"), "32");
    assert_eq!(new_day_value("31", "315"), "15");
    assert_eq!(new_day_value("31", "+7"), "07");
}

#[test]
fn parse_date_reads_three_texts() {
    assert_eq!(parse_date("2025", "03", "15"), Ok(date(2025, 3, 15)));
    assert_eq!(parse_date("0000", "01", "01"), Ok(date(0, 1, 1)));
    assert_eq!(parse_date("-0004", "2", "29"), Ok(date(-4, 2, 29)));
}

#[test]
fn parse_date_names_the_first_field_at_fault() {
    assert_eq!(parse_date("20x5", "xx", "xx"), Err(DateError::InvalidYear));
    assert_eq!(parse_date("", "03", "15"), Err(DateError::InvalidYear));
    assert_eq!(parse_date("2025", "-3", "xx"), Err(DateError::InvalidMonth));
    assert_eq!(parse_date("2025", "03", "1.5"), Err(DateError::InvalidDay));
    assert_eq!(parse_date("2025", "02", "30"), Err(DateError::InvalidDate));
    assert_eq!(parse_date("2025", "13", "01"), Err(DateError::InvalidDate));
    assert_eq!(parse_date("2025", "00", "01"), Err(DateError::InvalidDate));
    assert_eq!(parse_date("999999", "01", "01"), Err(DateError::InvalidDate));
}

#[test]
fn field_texts_of_a_date_read_back() {
    for d in [date(0, 1, 1), date(7, 8, 9), date(2025, 3, 15), date(9999, 12, 31)] {
        let read = parse_date(&year_to_string(d.year), &month_to_string(d.month), &day_to_string(d.day));
        assert_eq!(read, Ok(d));
    }
}

#[test]
fn field_texts_of_a_year_beyond_the_field_name_another_date() {
    let d = date(-5, 1, 1);
    let read = parse_date(&year_to_string(d.year), &month_to_string(d.month), &day_to_string(d.day));
    assert_eq!(read, Ok(date(5, 1, 1)));
    let d = date(12345, 6, 7);
    let read = parse_date(&year_to_string(d.year), &month_to_string(d.month), &day_to_string(d.day));
    assert_eq!(read, Ok(date(2345, 6, 7)));
}

#[test]
fn field_texts_are_always_digits() {
    for year in [i32::MIN, -262143, -100, -5, 0, 5, 9999, 10000, 262142, i32::MAX] {
        let text = year_to_string(year);
        assert_eq!(text.len(), 4, "{year}");
        assert!(text.chars().all(|c| c.is_ascii_digit()), "{year}");
    }
    for typed in ["", "-5", "+5", "5", "20256", "x", "99999999999", "-", "2 0", "-99999999999"] {
        let text = new_year_value("2025", typed);
        assert_eq!(text.len(), 4, "{typed}");
        assert!(text.chars().all(|c| c.is_ascii_digit()), "{typed}");
        let text = new_month_value("03", typed);
        assert_eq!(text.len(), 2, "{typed}");
        assert!(text.chars().all(|c| c.is_ascii_digit()), "{typed}");
    }
}

#[test]
fn a_click_on_a_day_that_the_field_cannot_take_changes_nothing() {
    let mut field = DateField::new(Some(date(5, 1, 1)), date(5, 1, 9), date(-10, 1, 1), date(20000, 12, 31));
    field.open_calendar();
    field.on_calendar_day_select(date(-5, 1, 1));
    assert_eq!((field.year.as_str(), field.month.as_str(), field.day.as_str()), ("0005", "01", "01"));
    assert_eq!(field.committed, Some(date(5, 1, 1)));
    assert!(field.calendar_open);
    field.on_calendar_day_select(date(12345, 1, 1));
    assert_eq!(field.committed, Some(date(5, 1, 1)));
    assert!(field.calendar_open);
    field.on_calendar_day_select(Date { year: 2025, month: 2, day: 30 });
    assert_eq!(field.committed, Some(date(5, 1, 1)));
    assert!(field.calendar_open);
    let mut field = DateField::new(None, date(2025, 3, 16), date(2025, 3, 10), date(2025, 3, 20));
    field.on_calendar_day_select(date(2025, 3, 21));
    assert_eq!(field.committed, None);
    assert_eq!(field.day, "16");
    field.on_calendar_day_select(date(2025, 3, 20));
    assert_eq!(field.committed, Some(date(2025, 3, 20)));
    assert_eq!(field.day, "20");
}

#[test]
fn days_of_a_year_beyond_the_field_are_disabled() {
    let month = date(10000, 1, 1);
    let cells = calendar_cells(&month, None, &date(2025, 1, 1), &date(0, 1, 1), &date(20000, 1, 1));
    for cell in &cells {
        if let CalendarCell::Day { disabled, .. } = cell {
            assert!(*disabled);
        }
    }
    assert!(!date_selectable(&date(10000, 1, 1), &date(0, 1, 1), &date(20000, 1, 1)));
    assert!(date_selectable(&date(9999, 12, 31), &date(0, 1, 1), &date(20000, 1, 1)));
    assert!(!date_selectable(&date(-1, 12, 31), &date(-10, 1, 1), &date(20000, 1, 1)));
    assert!(!date_selectable(&date(2025, 1, 1), &date(2025, 1, 2), &date(2025, 1, 3)));
    assert!(!date_selectable(&Date { year: 2025, month: 2, day: 29 }, &date(0, 1, 1), &date(9999, 1, 1)));
}

#[test]
fn date_within_range_is_inclusive() {
    let min = date(2025, 3, 10);
    let max = date(2025, 3, 20);
    assert!(date_within_range(&date(2025, 3, 10), &min, &max));
    assert!(date_within_range(&date(2025, 3, 20), &min, &max));
    assert!(date_within_range(&date(2025, 3, 15), &min, &max));
    assert!(!date_within_range(&date(2025, 3, 9), &min, &max));
    assert!(!date_within_range(&date(2025, 3, 21), &min, &max));
}

#[test]
fn check_date_reports_the_range() {
    let min = date(2025, 3, 10);
    let max = date(2025, 3, 20);
    assert_eq!(check_date("2025", "03", "15", &min, &max), Ok(date(2025, 3, 15)));
    assert_eq!(check_date("2025", "03", "21", &min, &max), Err(DateError::OutOfRange(min, max)));
    assert_eq!(check_date("2025", "02", "30", &min, &max), Err(DateError::InvalidDate));
}

#[test]
fn check_state_gives_the_message() {
    let min = default_min();
    let max = default_max();
    assert_eq!(check_state("2025", "03", "15", &min, &max), Ok(date(2025, 3, 15)));
    assert_eq!(check_state("x", "03", "15", &min, &max), Err("Invalid year".to_string()));
    assert_eq!(check_state("2025", "x", "15", &min, &max), Err("Invalid month".to_string()));
    assert_eq!(check_state("2025", "03", "x", &min, &max), Err("Invalid day".to_string()));
    assert_eq!(check_state("2025", "02", "30", &min, &max), Err("Invalid date".to_string()));
    assert_eq!(
        check_state("10000", "01", "01", &min, &max),
        Err("Date must be between 0000-01-01 and 9999-12-31".to_string())
    );
    assert_eq!(
        check_state("2025", "01", "01", &date(2025, 3, 10), &date(2025, 11, 5)),
        Err("Date must be between 2025-03-10 and 2025-11-05".to_string())
    );
}

#[test]
fn the_range_message_writes_years_beyond_four_digits_with_a_sign() {
    assert_eq!(
        DateError::OutOfRange(date(-5, 1, 2), date(12345, 10, 20)).message(),
        "Date must be between -0005-01-02 and +12345-10-20"
    );
    assert_eq!(
        DateError::OutOfRange(date(-12345, 1, 2), date(10000, 1, 1)).message(),
        "Date must be between -12345-01-02 and +10000-01-01"
    );
    assert_eq!(
        DateError::OutOfRange(date(7, 1, 2), date(987, 1, 1)).message(),
        "Date must be between 0007-01-02 and 0987-01-01"
    );
}

#[test]
fn month_name_is_english() {
    let names = [
        "January", "February", "March", "April", "May", "June", "July", "August", "September",
        "October", "November", "December",
    ];
    for month in 1..=12u32 {
        assert_eq!(month_name(&date(2025, month, 1)), names[month as usize - 1]);
    }
}

#[test]
fn prev_month_goes_to_the_first_of_the_month_before() {
    assert_eq!(prev_month(&date(2025, 3, 1)), date(2025, 2, 1));
    assert_eq!(prev_month(&date(2025, 3, 31)), date(2025, 2, 1));
    assert_eq!(prev_month(&date(2025, 1, 15)), date(2024, 12, 1));
    assert_eq!(prev_month(&date(0, 1, 1)), date(-1, 12, 1));
}

#[test]
fn next_month_goes_to_the_first_of_the_month_after() {
    assert_eq!(next_month(&date(2025, 3, 1)), date(2025, 4, 1));
    assert_eq!(next_month(&date(2025, 1, 31)), date(2025, 2, 1));
    assert_eq!(next_month(&date(2025, 12, 15)), date(2026, 1, 1));
    assert_eq!(next_month(&date(-1, 12, 31)), date(0, 1, 1));
}

#[test]
fn back_and_forth_ends_on_the_first_of_the_month() {
    for d in [date(2025, 1, 31), date(2025, 12, 31), date(2024, 2, 29), date(2025, 6, 15)] {
        let first = d.with_day(1).unwrap();
        assert_eq!(prev_month(&next_month(&d)), first);
        assert_eq!(next_month(&prev_month(&d)), first);
    }
}

#[test]
fn month_steps_are_allowed_within_the_range() {
    let min = date(2025, 3, 10);
    let max = date(2025, 5, 20);
    assert!(!prev_month_viewable(&date(2025, 3, 1), &min));
    assert!(prev_month_viewable(&date(2025, 4, 1), &min));
    assert!(prev_month_viewable(&date(2026, 1, 1), &min));
    assert!(!prev_month_viewable(&date(2024, 12, 1), &min));
    assert!(next_month_viewable(&date(2025, 4, 1), &max));
    assert!(!next_month_viewable(&date(2025, 5, 1), &max));
    assert!(!next_month_viewable(&date(2025, 6, 1), &max));
    assert!(next_month_viewable(&date(2024, 12, 1), &max));
}

#[test]
fn days_before_month_is_the_weekday_of_the_first() {
    assert_eq!(days_before_month(&date(2025, 3, 1)), 6);
    assert_eq!(days_before_month(&date(2025, 3, 15)), 6);
    assert_eq!(days_before_month(&date(2025, 6, 1)), 0);
    assert_eq!(days_before_month(&date(2024, 2, 1)), 4);
    assert_eq!(days_before_month(&date(2015, 9, 8)), 2);
    assert_eq!(days_before_month(&date(1, 1, 1)), 1);
    assert_eq!(days_before_month(&date(1970, 1, 1)), 4);
}

#[test]
fn days_before_month_follows_the_day_count() {
    for year in [MIN_YEAR, -262000, -4001, -401, -400, -399, -101, -100, -5, -4, -1, 0, 1, 4, 100, 400, 1582, 1899, 1900, 1970, 1999, 2000, 2001, 2024, 2025, 2100, 9999, 10000, 262000, MAX_YEAR] {
        for month in 1..=12u32 {
            assert_eq!(
                days_before_month(&date(year, month, 1)),
                weekday_of_first(year as i64, month),
                "{year}-{month}"
            );
        }
    }
    for year in -450..2450 {
        for month in [1u32, 3, 12] {
            assert_eq!(
                days_before_month(&date(year, month, 1)),
                weekday_of_first(year as i64, month),
                "{year}-{month}"
            );
        }
    }
}

#[test]
fn days_in_month_is_the_length_of_the_month() {
    assert_eq!(days_in_month(&date(2025, 1, 1)), 31);
    assert_eq!(days_in_month(&date(2025, 2, 1)), 28);
    assert_eq!(days_in_month(&date(2024, 2, 10)), 29);
    assert_eq!(days_in_month(&date(1900, 2, 1)), 28);
    assert_eq!(days_in_month(&date(2000, 2, 1)), 29);
    assert_eq!(days_in_month(&date(2025, 4, 30)), 30);
    assert_eq!(days_in_month(&date(2025, 12, 1)), 31);
    assert_eq!(days_in_month(&date(MIN_YEAR, 1, 1)), 31);
    assert_eq!(days_in_month(&date(MAX_YEAR, 11, 1)), 30);
    for year in [-400, -100, -4, -1, 0, 1, 1900, 2000, 2023, 2024] {
        for month in 1..=12u32 {
            let days = days_in_month(&date(year, month, 1));
            assert_eq!(days, length_of(year as i64, month), "{year}-{month}");
            assert!((28..=31).contains(&days));
        }
    }
}

#[test]
fn the_calendar_has_42_cells() {
    for year in [1999, 2024, 2025] {
        for month in 1..=12u32 {
            let m = date(year, month, 1);
            assert_eq!(days_before_month(&m) + days_in_month(&m) + days_after_month(&m), 42);
        }
    }
    assert_eq!(days_after_month(&date(2025, 3, 1)), 5);
    assert_eq!(days_after_month(&date(2026, 2, 1)), 14);
}

#[test]
fn calendar_day_is_a_day_of_the_month_shown() {
    assert_eq!(calendar_day(&date(2025, 2, 1), 28), Some(date(2025, 2, 28)));
    assert_eq!(calendar_day(&date(2025, 2, 1), 29), None);
}

#[test]
fn calendar_cells_lays_out_the_month() {
    let month = date(2025, 3, 1);
    let today = date(2025, 3, 16);
    let min = date(2025, 3, 10);
    let max = date(2025, 3, 20);
    let cells = calendar_cells(&month, Some(date(2025, 3, 15)), &today, &min, &max);
    assert_eq!(cells.len(), 42);
    for cell in &cells[..6] {
        assert_eq!(*cell, CalendarCell::Blank);
    }
    for day in 1..=31u32 {
        let expected = CalendarCell::Day {
            day,
            selected: day == 15,
            today: day == 16,
            disabled: !(10..=20).contains(&day),
        };
        assert_eq!(cells[5 + day as usize], expected);
    }
    for cell in &cells[37..] {
        assert_eq!(*cell, CalendarCell::Blank);
    }
}

#[test]
fn today_is_a_calendar_date() {
    let today = date_picker_today();
    assert_eq!(Date::from_ymd_opt(today.year, today.month, today.day), Some(today));
    assert!(today.year >= 2024);
}

#[test]
fn a_new_field_shows_the_date_given_or_today() {
    let today = date(2025, 3, 16);
    let field = DateField::new(Some(date(2024, 2, 29)), today, default_min(), default_max());
    assert_eq!((field.year.as_str(), field.month.as_str(), field.day.as_str()), ("2024", "02", "29"));
    assert_eq!(field.committed, Some(date(2024, 2, 29)));
    assert_eq!(field.viewing_month, date(2025, 3, 1));
    assert!(!field.calendar_open);
    let field = DateField::new(None, today, default_min(), default_max());
    assert_eq!((field.year.as_str(), field.month.as_str(), field.day.as_str()), ("2025", "03", "16"));
    assert_eq!(field.committed, None);
}

#[test]
fn typing_day_32_shows_invalid_date() {
    let mut field = DateField::new(None, date(0, 1, 1), default_min(), default_max());
    assert_eq!((field.year.as_str(), field.month.as_str(), field.day.as_str()), ("0000", "01", "01"));
    assert_eq!(field.committed, None);
    field.on_field_edit(DatePart::Day, "32");
    assert_eq!((field.year.as_str(), field.month.as_str(), field.day.as_str()), ("0000", "01", "32"));
    assert_eq!(parse_date(&field.year, &field.month, &field.day), Err(DateError::InvalidDate));
    assert_eq!(field.committed, None);
    assert_eq!(field.error_message(None), Some("Invalid date".to_string()));
    assert_eq!(field.error_message(Some("Required".to_string())), Some("Invalid date".to_string()));
}

#[test]
fn an_edit_commits_the_date_that_the_texts_name() {
    let mut field = DateField::new(None, date(2025, 3, 16), date(2025, 1, 1), date(2025, 12, 31));
    field.on_field_edit(DatePart::Day, "1620");
    assert_eq!(field.day, "20");
    assert_eq!(field.committed, Some(date(2025, 3, 20)));
    assert_eq!(field.error_message(None), None);
    assert_eq!(field.error_message(Some("Required".to_string())), Some("Required".to_string()));
    field.on_field_edit(DatePart::Month, "0302");
    assert_eq!(field.month, "02");
    assert_eq!(field.committed, Some(date(2025, 2, 20)));
    field.on_field_edit(DatePart::Year, "20254");
    assert_eq!(field.year, "0254");
    assert_eq!(field.committed, None);
    assert_eq!(
        field.error_message(None),
        Some("Date must be between 2025-01-01 and 2025-12-31".to_string())
    );
    field.on_field_edit(DatePart::Year, "x");
    assert_eq!(field.year, "0254");
    field.on_field_edit(DatePart::Year, "");
    assert_eq!(field.year, "0000");
}

#[test]
fn clicking_a_calendar_day_sets_all_three_fields() {
    let mut field = DateField::new(None, date(2024, 1, 9), default_min(), default_max());
    field.open_calendar();
    assert!(field.calendar_open);
    field.on_calendar_day_select(date(2025, 3, 15));
    assert_eq!((field.year.as_str(), field.month.as_str(), field.day.as_str()), ("2025", "03", "15"));
    assert_eq!(field.committed, Some(date(2025, 3, 15)));
    assert!(!field.calendar_open);
    assert_eq!(field.error_message(None), None);
}

#[test]
fn the_calendar_opens_and_closes() {
    let mut field = DateField::new(None, date(2024, 1, 9), default_min(), default_max());
    field.open_calendar();
    assert!(field.calendar_open);
    field.close_calendar();
    assert!(!field.calendar_open);
}

#[test]
fn navigation_stops_at_the_range() {
    let mut field = DateField::new(None, date(2025, 3, 16), date(2025, 2, 10), date(2025, 4, 20));
    assert_eq!(field.month_label(), "March 2025");
    assert!(field.can_navigate(MonthStep::Previous));
    field.on_navigate(MonthStep::Previous);
    assert_eq!(field.viewing_month, date(2025, 2, 1));
    assert_eq!(field.month_label(), "February 2025");
    assert!(!field.can_navigate(MonthStep::Previous));
    field.on_navigate(MonthStep::Previous);
    assert_eq!(field.viewing_month, date(2025, 2, 1));
    field.on_navigate(MonthStep::Next);
    field.on_navigate(MonthStep::Next);
    assert_eq!(field.viewing_month, date(2025, 4, 1));
    assert!(!field.can_navigate(MonthStep::Next));
    field.on_navigate(MonthStep::Next);
    assert_eq!(field.viewing_month, date(2025, 4, 1));
}

#[test]
fn navigation_rolls_over_the_year() {
    let mut field = DateField::new(None, date(2025, 12, 16), default_min(), default_max());
    field.on_navigate(MonthStep::Next);
    assert_eq!(field.viewing_month, date(2026, 1, 1));
    assert_eq!(field.month_label(), "January 2026");
    field.on_navigate(MonthStep::Previous);
    assert_eq!(field.viewing_month, date(2025, 12, 1));
}

#[test]
fn the_field_gives_its_cells() {
    let mut field = DateField::new(Some(date(2025, 3, 15)), date(2025, 3, 16), default_min(), default_max());
    let cells = field.cells(&date(2025, 3, 16));
    assert_eq!(cells.len(), 42);
    assert_eq!(cells[5], CalendarCell::Blank);
    assert_eq!(cells[6], CalendarCell::Day { day: 1, selected: false, today: false, disabled: false });
    assert_eq!(cells[20], CalendarCell::Day { day: 15, selected: true, today: false, disabled: false });
    assert_eq!(cells[21], CalendarCell::Day { day: 16, selected: false, today: true, disabled: false });
    assert_eq!(cells[36], CalendarCell::Day { day: 31, selected: false, today: false, disabled: false });
    assert_eq!(cells[37], CalendarCell::Blank);
    field.on_navigate(MonthStep::Next);
    let cells = field.cells(&date(2025, 3, 16));
    assert_eq!(cells[1], CalendarCell::Blank);
    assert_eq!(cells[2], CalendarCell::Day { day: 1, selected: false, today: false, disabled: false });
    assert_eq!(cells[31], CalendarCell::Day { day: 30, selected: false, today: false, disabled: false });
    assert_eq!(cells[32], CalendarCell::Blank);
}
