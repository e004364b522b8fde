use invoicer::date::{
    days_in_month_exec, format_yyyymmdd, month_dir_name, month_name, month_window_start,
    parse_date, weekday_name, Date,
};
use invoicer::errors::InternalError;

fn d(year: i32, month: u32, day: u32) -> Date {
    Date { year, month, day }
}

#[test]
fn window_current_month_first_day() {
    let r = month_window_start(false, d(2024, 3, 1));
    assert_eq!(r, d(2024, 3, 1));
}

#[test]
fn window_current_month_mid_month() {
    let r = month_window_start(false, d(2024, 3, 15));
    assert_eq!(r, d(2024, 3, 1));
}

#[test]
fn window_current_month_last_days() {
    assert_eq!(month_window_start(false, d(2024, 2, 29)), d(2024, 2, 1));
    assert_eq!(month_window_start(false, d(2023, 2, 28)), d(2023, 2, 1));
    assert_eq!(month_window_start(false, d(2024, 4, 30)), d(2024, 4, 1));
    assert_eq!(month_window_start(false, d(2024, 5, 31)), d(2024, 5, 1));
}

#[test]
fn window_previous_month() {
    assert_eq!(month_window_start(true, d(2024, 3, 15)), d(2024, 2, 1));
    assert_eq!(month_window_start(true, d(2024, 3, 1)), d(2024, 2, 1));
    assert_eq!(month_window_start(true, d(2024, 3, 31)), d(2024, 2, 1));
}

#[test]
fn window_previous_month_across_year_boundary() {
    assert_eq!(month_window_start(true, d(2024, 1, 7)), d(2023, 12, 1));
    assert_eq!(month_window_start(true, d(2024, 1, 1)), d(2023, 12, 1));
}

#[test]
fn parse_date_takes_part_before_t() {
    let r = parse_date("2024-03-05T00:00:00Z").unwrap();
    assert_eq!(r, d(2024, 3, 5));
}

#[test]
fn parse_date_plain() {
    assert_eq!(parse_date("2024-12-31").unwrap(), d(2024, 12, 31));
    assert_eq!(parse_date("2024-02-29").unwrap(), d(2024, 2, 29));
}

#[test]
fn parse_date_rejects_bad_shapes() {
    assert!(parse_date("").is_err());
    assert!(parse_date("2024-3-5").is_err());
    assert!(parse_date("20240305").is_err());
    assert!(parse_date("2024-03-05x").is_err());
    assert!(matches!(parse_date("not a date"), Err(InternalError::DateParsing(_))));
}

#[test]
fn parse_date_rejects_impossible_dates() {
    assert!(parse_date("2023-02-29").is_err());
    assert!(parse_date("2024-13-01").is_err());
    assert!(parse_date("2024-00-10").is_err());
    assert!(parse_date("2024-04-31").is_err());
    assert!(parse_date("2024-04-00").is_err());
}

#[test]
fn days_in_month_values() {
    assert_eq!(days_in_month_exec(2024, 2), 29);
    assert_eq!(days_in_month_exec(2023, 2), 28);
    assert_eq!(days_in_month_exec(1900, 2), 28);
    assert_eq!(days_in_month_exec(2000, 2), 29);
    assert_eq!(days_in_month_exec(2024, 4), 30);
    assert_eq!(days_in_month_exec(2024, 1), 31);
}

#[test]
fn yyyymmdd_formatting() {
    assert_eq!(format_yyyymmdd(d(2024, 3, 5)), "20240305");
    assert_eq!(format_yyyymmdd(d(987, 12, 31)), "09871231");
}

#[test]
fn month_dir_name_formatting() {
    assert_eq!(month_dir_name(d(2024, 3, 1)), "2024-March");
    assert_eq!(month_dir_name(d(2023, 12, 1)), "2023-December");
}

#[test]
fn month_names() {
    assert_eq!(month_name(1), "January");
    assert_eq!(month_name(6), "June");
    assert_eq!(month_name(12), "December");
}

#[test]
fn weekday_names_of_known_dates() {
    assert_eq!(weekday_name(d(2024, 3, 5)), "Tuesday");
    assert_eq!(weekday_name(d(2000, 1, 1)), "Saturday");
    assert_eq!(weekday_name(d(1970, 1, 1)), "Thursday");
    assert_eq!(weekday_name(d(2024, 2, 29)), "Thursday");
}
