use tasktrack::date::{Date, FormatDateError, format_date};
use tasktrack::parse::{PartialDate, PartialDateError};

fn test_date() -> Date {
    Date { year: 2025, month: 9, day: 20 }
}

fn assert_fmt(input: &str, expected: &str) {
    assert_eq!(Ok(expected.to_string()), format_date(input, &test_date()));
}

#[test]
fn test_partial_date() {
    // sanity
    assert_eq!(
        PartialDate::build("2024-02-12").unwrap(),
        PartialDate::YearMonthDay {
            year: 2024,
            month: 2,
            day: 12,
        }
    );

    // trim
    assert_eq!(
        PartialDate::build("    2024-02-12   \n ").unwrap(),
        PartialDate::YearMonthDay {
            year: 2024,
            month: 2,
            day: 12,
        }
    );

    // replacement
    assert_eq!(
        PartialDate::build("2024/02/12").unwrap(),
        PartialDate::YearMonthDay {
            year: 2024,
            month: 2,
            day: 12,
        }
    );

    // 0 parts
    assert_eq!(
        PartialDate::build("   "),
        Err(PartialDateError::DayError("".to_string())),
    );

    // 1 part
    assert_eq!(
        PartialDate::build("22").unwrap(),
        PartialDate::Day { day: 22 }
    );

    // 2 thing
    assert_eq!(
        PartialDate::build("02-22").unwrap(),
        PartialDate::MonthDay { month: 2, day: 22 }
    );

    // 3 thing
    assert_eq!(
        PartialDate::build("2024-02-22").unwrap(),
        PartialDate::YearMonthDay {
            year: 2024,
            month: 2,
            day: 22
        }
    );

    // 4 thing
    assert_eq!(
        PartialDate::build("20-20-20-20"),
        Err(PartialDateError::PartError("20-20-20-20".to_string())),
    );

    // test invalid part
    assert_eq!(
        PartialDate::build("20-20-hello"),
        Err(PartialDateError::DayError("hello".to_string())),
    );
}

#[test]
fn test_format_date_identity() {
    assert_fmt("2025-09-20", "2025-09-20")
}

#[test]
fn test_format_date_trim() {
    assert_fmt("\t  2025-09-20 \n ", "2025-09-20")
}

#[test]
fn test_format_date_delimeter() {
    assert_fmt("2025/09/20", "2025-09-20")
}

#[test]
fn idempotent_on_own_output() {
    let today = Date { year: 2025, month: 9, day: 11 };
    for input in ["2025-09-20", "9-20", "20", "0050-02-01", "12-25"] {
        let once = format_date(input, &today).unwrap();
        let twice = format_date(&once, &today).unwrap();
        assert_eq!(once, twice);
    }
}

#[test]
fn two_digit_year_becomes_two_thousands() {
    let today = Date { year: 2025, month: 9, day: 11 };
    assert_eq!(format_date("50-02-01", &today), Ok("2050-02-01".to_string()));
    assert_eq!(format_date("0-1-1", &today), Ok("2000-01-01".to_string()));
    assert_eq!(format_date("99-12-31", &today), Ok("2099-12-31".to_string()));
    assert_eq!(format_date("100-01-01", &today), Ok("0100-01-01".to_string()));
}

#[test]
fn separator_equivalence() {
    let today = Date { year: 2025, month: 9, day: 11 };
    assert_eq!(
        format_date("2025/09/20", &today),
        format_date("2025-09-20", &today)
    );
    assert_eq!(format_date("9/20", &today), format_date("9-20", &today));
}

#[test]
fn whitespace_insensitivity() {
    let today = Date { year: 2025, month: 9, day: 11 };
    assert_eq!(
        format_date(" \t\n 2025-09-20 \r ", &today),
        format_date("2025-09-20", &today)
    );
    assert_eq!(format_date("  15  ", &today), format_date("15", &today));
}

#[test]
fn month_day_rolls_forward() {
    let today = Date { year: 2025, month: 9, day: 11 };
    assert_eq!(format_date("09-15", &today), Ok("2025-09-15".to_string()));
    assert_eq!(format_date("09-01", &today), Ok("2026-09-01".to_string()));
    assert_eq!(format_date("12-25", &today), Ok("2025-12-25".to_string()));
}

#[test]
fn day_only_rolls_forward() {
    let today = Date { year: 2025, month: 9, day: 11 };
    assert_eq!(format_date("15", &today), Ok("2025-09-15".to_string()));
    assert_eq!(format_date("01", &today), Ok("2025-10-01".to_string()));
    assert_eq!(format_date("11", &today), Ok("2025-09-11".to_string()));
    let new_years_eve = Date { year: 2025, month: 12, day: 31 };
    assert_eq!(format_date("01", &new_years_eve), Ok("2026-01-01".to_string()));
}

#[test]
fn rejections_carry_the_field_or_part() {
    let today = Date { year: 2025, month: 9, day: 11 };
    assert_eq!(
        format_date("2025-13-01", &today),
        Err(FormatDateError::InvalidDate { year: 2025, month: 13, day: 1 })
    );
    assert_eq!(
        format_date("2025-02-30", &today),
        Err(FormatDateError::InvalidDate { year: 2025, month: 2, day: 30 })
    );
    assert_eq!(
        format_date("abcd", &today),
        Err(FormatDateError::Parse(PartialDateError::DayError("abcd".to_string())))
    );
    assert_eq!(
        format_date("", &today),
        Err(FormatDateError::Parse(PartialDateError::DayError("".to_string())))
    );
    assert_eq!(
        format_date("20-20-20-20", &today),
        Err(FormatDateError::Parse(PartialDateError::PartError("20-20-20-20".to_string())))
    );
    assert_eq!(
        format_date("hi-09-20", &today),
        Err(FormatDateError::Parse(PartialDateError::YearError("hi".to_string())))
    );
    assert_eq!(
        format_date("x-20", &today),
        Err(FormatDateError::Parse(PartialDateError::MonthError("x".to_string())))
    );
}

#[test]
fn leap_years_counted() {
    let today = Date { year: 2025, month: 9, day: 11 };
    assert_eq!(format_date("2024-02-29", &today), Ok("2024-02-29".to_string()));
    assert_eq!(
        format_date("2025-02-29", &today),
        Err(FormatDateError::InvalidDate { year: 2025, month: 2, day: 29 })
    );
    assert_eq!(format_date("2000-02-29", &today), Ok("2000-02-29".to_string()));
    assert_eq!(
        format_date("1900-02-29", &today),
        Err(FormatDateError::InvalidDate { year: 1900, month: 2, day: 29 })
    );
}

#[test]
fn five_digit_years_are_rejected() {
    let today = Date { year: 2025, month: 9, day: 11 };
    assert_eq!(
        format_date("10000-01-01", &today),
        Err(FormatDateError::InvalidDate { year: 10000, month: 1, day: 1 })
    );
}

#[test]
fn date_validity_check() {
    assert!(Date { year: 2025, month: 9, day: 11 }.is_valid());
    assert!(!Date { year: 2025, month: 13, day: 1 }.is_valid());
    assert!(!Date { year: 2025, month: 2, day: 29 }.is_valid());
    assert!(!Date { year: 10000, month: 1, day: 1 }.is_valid());
}
