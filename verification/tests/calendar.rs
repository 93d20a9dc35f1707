use exercises::calendar::Date;
use exercises::time_report::{report, time_info, ParseDateError};

#[test]
fn test_days_in_month() {
    let date1 = Date::new(2024, 2, 3);
    let date2 = Date::new(2025, 2, 1);
    let date3 = Date::new(2025, 5, 5);
    assert_eq!(date1.days_in_month(), 29);
    assert_eq!(date2.days_in_month(), 28);
    assert_eq!(date3.days_in_month(), 31);
}

#[test]
fn test_days_to_next_month() {
    let date1 = Date::new(2024, 2, 3);
    let date2 = Date::new(2025, 2, 1);
    let date3 = Date::new(2025, 5, 5);
    assert_eq!(date1.days_to_next_month(), 27);
    assert_eq!(date2.days_to_next_month(), 28);
    assert_eq!(date3.days_to_next_month(), 27);
}

#[test]
fn test_days_of_year() {
    let date1 = Date::new(2024, 3, 3);
    let date2 = Date::new(2025, 1, 15);
    let date3 = Date::new(2025, 5, 5);
    let date4 = Date::new(2025, 12, 31);
    assert_eq!(date1.day_of_year(), 63);
    assert_eq!(date2.day_of_year(), 15);
    assert_eq!(date3.day_of_year(), 125);
    assert_eq!(date4.day_of_year(), 365);
}

#[test]
fn test_weekday() {
    let date1 = Date::new(2025, 1, 1);
    let date2 = Date::new(2025, 1, 18);
    let date3 = Date::new(2025, 12, 31);
    let date4 = Date::new(2025, 11, 1);
    let date5 = Date::new(2025, 2, 28);
    assert_eq!(date1.weekday(), 3);
    assert_eq!(date2.weekday(), 6);
    assert_eq!(date3.weekday(), 3);
    assert_eq!(date4.weekday(), 6);
    assert_eq!(date5.weekday(), 5);
}

#[test]
fn test_iso_week() {
    let date1 = Date::new(2025, 1, 1);
    let date2 = Date::new(2025, 1, 18);
    let date3 = Date::new(2025, 12, 31);
    let date4 = Date::new(2025, 11, 1);
    let date5 = Date::new(2025, 2, 28);
    assert_eq!(date1.iso_week(), 1);
    assert_eq!(date2.iso_week(), 3);
    assert_eq!(date3.iso_week(), 1);
    assert_eq!(date4.iso_week(), 44);
    assert_eq!(date5.iso_week(), 9);
}

#[test]
fn test_days_to_chinese_new_year() {
    let date1 = Date::new(2025, 1, 1);
    let date2 = Date::new(2025, 1, 18);
    let date3 = Date::new(2025, 12, 31);
    let date4 = Date::new(2025, 11, 1);
    let date5 = Date::new(2025, 2, 28);
    assert_eq!(date1.days_to_chinese_new_year(), 28);
    assert_eq!(date2.days_to_chinese_new_year(), 11);
    assert_eq!(date3.days_to_chinese_new_year(), 48);
    assert_eq!(date4.days_to_chinese_new_year(), 108);
    assert_eq!(date5.days_to_chinese_new_year(), 354);
}

#[test]
fn test_days_to_exchange_open() {
    let date1 = Date::new(2025, 1, 1);
    let date2 = Date::new(2025, 1, 18);
    let date3 = Date::new(2025, 12, 31);
    let date4 = Date::new(2025, 11, 1);
    let date5 = Date::new(2025, 2, 28);
    assert_eq!(date1.days_to_exchange_open(), 0);
    assert_eq!(date2.days_to_exchange_open(), 1);
    assert_eq!(date3.days_to_exchange_open(), 1);
    assert_eq!(date4.days_to_exchange_open(), 1);
    assert_eq!(date5.days_to_exchange_open(), 2);
}

#[test]
fn test_date_after_days() {
    let date1 = Date::new(2024, 3, 3);
    let date2 = Date::new(2025, 1, 15);
    let date3 = Date::new(2025, 5, 5);
    let date4 = Date::new(2025, 12, 31);
    assert_eq!(date1.date_after_days(10), Date::new(2024, 3, 13));
    assert_eq!(date2.date_after_days(365), Date::new(2026, 1, 15));
    assert_eq!(date3.date_after_days(33), Date::new(2025, 6, 7));
    assert_eq!(date4.date_after_days(10), Date::new(2026, 1, 10));
}

#[test]
fn test_date_before_days() {
    let date1 = Date::new(2024, 3, 13);
    let date2 = Date::new(2026, 1, 15);
    let date3 = Date::new(2025, 6, 7);
    let date4 = Date::new(2026, 1, 10);
    assert_eq!(date1.date_before_days(10), Date::new(2024, 3, 3));
    assert_eq!(date2.date_before_days(365), Date::new(2025, 1, 15));
    assert_eq!(date3.date_before_days(33), Date::new(2025, 5, 5));
    assert_eq!(date4.date_before_days(10), Date::new(2025, 12, 31));
}

#[test]
fn test_leap_years() {
    assert!(Date::new(2024, 1, 1).is_leap_year());
    assert!(Date::new(2000, 1, 1).is_leap_year());
    assert!(!Date::new(1900, 1, 1).is_leap_year());
    assert!(!Date::new(2025, 1, 1).is_leap_year());
    assert_eq!(Date::new(2024, 1, 1).days_in_year(), 366);
    assert_eq!(Date::new(2025, 1, 1).days_in_year(), 365);
}

#[test]
fn test_days_in_month_of_no_month() {
    assert_eq!(Date::new(2025, 0, 1).days_in_month(), 0);
    assert_eq!(Date::new(2025, 13, 1).days_in_month(), 0);
    assert_eq!(Date::new(2025, 4, 1).days_in_month(), 30);
}

#[test]
fn test_is_valid() {
    assert!(Date::new(2024, 2, 29).is_valid());
    assert!(!Date::new(2025, 2, 29).is_valid());
    assert!(!Date::new(2025, 0, 1).is_valid());
    assert!(!Date::new(2025, 13, 1).is_valid());
    assert!(!Date::new(2025, 1, 0).is_valid());
}

#[test]
fn test_days_between_date_in_both_directions() {
    let a = Date::new(2024, 12, 25);
    let b = Date::new(2026, 1, 5);
    assert_eq!(a.days_between_date(&b), 376);
    assert_eq!(b.days_between_date(&a), 376);
    assert_eq!(a.days_between_date(&a), 0);
    assert_eq!(Date::new(2024, 2, 28).days_between_date(&Date::new(2024, 3, 1)), 2);
}

#[test]
fn test_date_after_days_on_a_whole_month_gives_the_day_after_its_last() {
    // 59 days after the 1st of January 2025 is the 1st of March, which comes
    // out as "the 29th of February".
    let date = Date::new(2025, 1, 1).date_after_days(59);
    assert_eq!(date, Date::new(2025, 2, 29));
    assert_eq!(date.day_of_year(), Date::new(2025, 3, 1).day_of_year());
    assert_eq!(Date::new(2025, 1, 1).date_after_days(31), Date::new(2025, 2, 1));
    assert_eq!(Date::new(2025, 1, 1).date_after_days(0), Date::new(2025, 1, 1));
}

#[test]
fn test_date_before_days_on_a_whole_month_gives_day_zero() {
    // 29 days before the 1st of March 2025 is the 31st of January, which
    // comes out as "the 0th of February".
    let date = Date::new(2025, 3, 1).date_before_days(29);
    assert_eq!(date, Date::new(2025, 2, 0));
    assert_eq!(date.day_of_year(), Date::new(2025, 1, 31).day_of_year());
    assert_eq!(Date::new(2025, 3, 1).date_before_days(1), Date::new(2025, 2, 28));
    assert_eq!(Date::new(2025, 1, 1).date_before_days(1), Date::new(2024, 12, 31));
}

#[test]
fn test_shift_and_back_by_day_count() {
    let start = Date::new(2024, 1, 31);
    for days in [0u32, 1, 29, 59, 60, 366, 400] {
        let there = start.date_after_days(days);
        if there.is_valid() {
            assert_eq!(start.days_between_date(&there), days);
        }
    }
}

#[test]
fn test_dates_are_ordered_by_year_month_day() {
    assert!(Date::new(2024, 12, 31) < Date::new(2025, 1, 1));
    assert!(Date::new(2025, 1, 31) < Date::new(2025, 2, 1));
    assert!(Date::new(2025, 2, 1) < Date::new(2025, 2, 2));
    assert!(Date::new(2025, 2, 2) >= Date::new(2025, 2, 2));
    assert!(!(Date::new(2025, 2, 2) < Date::new(2025, 2, 2)));
}

#[test]
fn test_chinese_new_year_table() {
    assert_eq!(Date::query_chinese_new_year(2024), Date::new(2024, 2, 10));
    assert_eq!(Date::query_chinese_new_year(2025), Date::new(2025, 1, 29));
    assert_eq!(Date::query_chinese_new_year(2026), Date::new(2026, 2, 17));
    assert!(Date::new(2026, 2, 16).knows_chinese_new_year());
    assert!(!Date::new(2026, 2, 17).knows_chinese_new_year());
    assert!(!Date::new(2023, 12, 31).knows_chinese_new_year());
}

#[test]
fn test_exchange_closures_table() {
    let ranges = Date::query_exchange_close_date();
    assert_eq!(ranges.len(), 7);
    assert_eq!(ranges[1], (Date::new(2025, 1, 28), Date::new(2025, 2, 4)));
    // The day before a holiday waits for its whole length.
    assert_eq!(Date::new(2025, 9, 30).days_to_exchange_open(), 8);
    // Friday: the exchange is closed on Saturday and Sunday.
    assert_eq!(Date::new(2025, 3, 7).days_to_exchange_open(), 2);
}

#[test]
fn test_from_str() {
    assert_eq!(Date::from_str("2025-01-18"), Ok(Date::new(2025, 1, 18)));
    assert_eq!(Date::from_str("+2025-1-+8"), Ok(Date::new(2025, 1, 8)));
    assert_eq!(Date::from_str("2025-13-40"), Ok(Date::new(2025, 13, 40)));
}

#[test]
fn test_from_str_errors() {
    assert_eq!(Date::from_str("2025-01"), Err(ParseDateError::Format));
    assert_eq!(Date::from_str("2025-01-18-1"), Err(ParseDateError::Format));
    assert_eq!(Date::from_str(""), Err(ParseDateError::Format));
    assert_eq!(Date::from_str("x-01-18"), Err(ParseDateError::Year));
    assert_eq!(Date::from_str("-01-18"), Err(ParseDateError::Year));
    assert_eq!(Date::from_str("4294967296-01-18"), Err(ParseDateError::Year));
    assert_eq!(Date::from_str("2025-1a-18"), Err(ParseDateError::Month));
    assert_eq!(Date::from_str("2025-01-"), Err(ParseDateError::Day));
    assert_eq!(Date::from_str("2025-01- 8"), Err(ParseDateError::Day));
}

#[test]
fn test_parse_error_messages() {
    assert_eq!(ParseDateError::Format.message(), "Invalid date format");
    assert_eq!(ParseDateError::Year.message(), "Invalid year");
    assert_eq!(ParseDateError::Month.message(), "Invalid month");
    assert_eq!(ParseDateError::Day.message(), "Invalid day");
}

#[test]
fn test_time_info() {
    assert_eq!(time_info("2025-01-01"), "1,3,1,364,28,0");
    assert_eq!(time_info("2025-01-18"), "3,6,18,347,11,1");
    assert_eq!(time_info("2025-12-31"), "1,3,365,0,48,1");
    assert_eq!(time_info("2025-11-01"), "44,6,305,60,108,1");
    assert_eq!(time_info("2025-02-28"), "9,5,59,306,354,2");
}

#[test]
fn test_report_is_reportable() {
    assert!(Date::new(2024, 2, 29).is_reportable());
    assert!(!Date::new(2025, 2, 29).is_reportable());
    assert!(!Date::new(2027, 1, 1).is_reportable());
    assert_eq!(report(&Date::new(2024, 2, 29)), "9,4,60,306,335,0");
}
