use imgname::codec::CalendarTimestamp;
use imgname::resolver::{
    apply_offset, calendar_from_fields, get_filedatetime, get_filename_datetime,
    parse_datetime_string, DateError,
};

fn ts(year: u16, month: u8, day: u8, hour: u8, minute: u8, second: u8) -> CalendarTimestamp {
    CalendarTimestamp { year, month, day, hour, minute, second }
}

#[test]
fn filename_pattern_reads_fixed_offsets() {
    let r = get_filename_datetime("PXL_20240611_063230527.mp4");
    assert_eq!(r, Ok(ts(2024, 6, 11, 6, 32, 30)));
}

#[test]
fn filename_pattern_rejects_short_names() {
    assert_eq!(get_filename_datetime("PXL_2024.mp4"), Err(DateError::PatternMismatch));
    assert_eq!(get_filename_datetime(""), Err(DateError::PatternMismatch));
}

#[test]
fn filename_pattern_rejects_non_numeric_runs() {
    assert_eq!(get_filename_datetime("PXL_2024x611_063230527.mp4"), Err(DateError::PatternMismatch));
}

#[test]
fn filename_pattern_rejects_out_of_calendar_fields() {
    assert_eq!(get_filename_datetime("PXL_20249911_063230527.mp4"), Err(DateError::PatternMismatch));
    assert_eq!(get_filename_datetime("PXL_20240611_253230527.mp4"), Err(DateError::PatternMismatch));
}

#[test]
fn datetime_layout_parses_exact_form() {
    assert_eq!(parse_datetime_string("2016:05:04 03:02:01"), Some(ts(2016, 5, 4, 3, 2, 1)));
    // Trailing characters past the layout are ignored.
    assert_eq!(parse_datetime_string("2016:05:04 03:02:01.123"), Some(ts(2016, 5, 4, 3, 2, 1)));
}

#[test]
fn datetime_layout_rejects_wrong_delimiters_or_digits() {
    assert_eq!(parse_datetime_string("2016-05-04 03:02:01"), None);
    assert_eq!(parse_datetime_string("2016:05:04T03:02:01"), None);
    assert_eq!(parse_datetime_string("2016:0a:04 03:02:01"), None);
    assert_eq!(parse_datetime_string("2016:05:04 03:02"), None);
}

#[test]
fn offset_negative_rolls_back_a_day() {
    let r = apply_offset(ts(2024, 6, 11, 5, 10, 20), -10);
    assert_eq!(r, ts(2024, 6, 10, 19, 10, 20));
}

#[test]
fn offset_positive_rolls_forward_a_day() {
    let r = apply_offset(ts(2024, 6, 11, 10, 10, 20), 20);
    assert_eq!(r, ts(2024, 6, 12, 6, 10, 20));
}

#[test]
fn offset_inside_the_day_changes_only_the_hour() {
    let r = apply_offset(ts(2024, 6, 11, 10, 10, 20), 5);
    assert_eq!(r, ts(2024, 6, 11, 15, 10, 20));
    let r = apply_offset(ts(2024, 6, 11, 10, 10, 20), 0);
    assert_eq!(r, ts(2024, 6, 11, 10, 10, 20));
}

#[test]
fn offset_at_month_edge_leaves_the_raw_day() {
    // The rollover never recomputes month or year: the first of a month
    // steps to day zero.
    let r = apply_offset(ts(2024, 6, 1, 2, 0, 0), -10);
    assert_eq!(r, ts(2024, 6, 0, 16, 0, 0));
    let r = apply_offset(ts(2024, 6, 30, 20, 0, 0), 10);
    assert_eq!(r, ts(2024, 6, 31, 6, 0, 0));
}

#[test]
fn filetime_resolves_to_local_calendar_time() {
    // One day past the epoch lies in 1970 in every time zone.
    let r = get_filedatetime(86400).expect("in range");
    assert_eq!(r.year, 1970);
    assert_eq!(r.month, 1);
    assert!(r.day == 1 || r.day == 2 || r.day == 3);
}

#[test]
fn fields_in_range_build_a_timestamp() {
    assert_eq!(calendar_from_fields(2024, 6, 11, 6, 32, 30), Some(ts(2024, 6, 11, 6, 32, 30)));
}

#[test]
fn fields_out_of_range_build_nothing() {
    assert_eq!(calendar_from_fields(2024, 0, 11, 6, 32, 30), None);
    assert_eq!(calendar_from_fields(2024, 13, 11, 6, 32, 30), None);
    assert_eq!(calendar_from_fields(2024, 6, 0, 6, 32, 30), None);
    assert_eq!(calendar_from_fields(2024, 6, 32, 6, 32, 30), None);
    assert_eq!(calendar_from_fields(2024, 6, 11, 24, 32, 30), None);
    assert_eq!(calendar_from_fields(2024, 6, 11, 6, 60, 30), None);
    assert_eq!(calendar_from_fields(2024, 6, 11, 6, 32, 60), None);
    assert_eq!(calendar_from_fields(10000, 6, 11, 6, 32, 30), None);
}
