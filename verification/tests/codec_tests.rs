use imgname::codec::{
    char_to_u8, date_to_directory, date_to_name, date_to_name_helper, name_to_date,
    name_to_date_helper, timestamp_display, u8_to_char, CalendarTimestamp,
};

fn ts(year: u16, month: u8, day: u8, hour: u8, minute: u8, second: u8) -> CalendarTimestamp {
    CalendarTimestamp { year, month, day, hour, minute, second }
}

#[test]
fn letter_of_number() {
    assert_eq!(u8_to_char(1, true), 'A');
    assert_eq!(u8_to_char(26, true), 'Z');
    assert_eq!(u8_to_char(1, false), 'a');
    assert_eq!(u8_to_char(12, true), 'L');
}

#[test]
fn number_of_letter() {
    assert_eq!(char_to_u8('A'), Some(1));
    assert_eq!(char_to_u8('Z'), Some(26));
    assert_eq!(char_to_u8('a'), Some(1));
    assert_eq!(char_to_u8('z'), Some(26));
    assert_eq!(char_to_u8('@'), None);
    assert_eq!(char_to_u8('{'), None);
    assert_eq!(char_to_u8('5'), None);
}

#[test]
fn encode_late_day_uses_letter() {
    // 2024-06-11 06:32:30: year letter Y, month letter F, day 11 is B,
    // seconds of day 23550.
    let t = ts(2024, 6, 11, 6, 32, 30);
    assert_eq!(date_to_name(t), "YFB23550");
}

#[test]
fn encode_early_day_uses_digit() {
    // 2016-05-04 03:02:01: year letter Q, month letter E, day 4 literal.
    let t = ts(2016, 5, 4, 3, 2, 1);
    assert_eq!(date_to_name(t), "QE410921");
}

#[test]
fn encode_pads_seconds_to_five_digits() {
    let t = ts(2000, 1, 1, 0, 0, 0);
    assert_eq!(date_to_name(t), "AA100000");
    let t = ts(2000, 1, 1, 0, 0, 7);
    assert_eq!(date_to_name(t), "AA100007");
}

#[test]
fn round_trip_examples() {
    for t in [
        ts(2024, 6, 11, 6, 32, 30),
        ts(2016, 5, 4, 3, 2, 1),
        ts(2000, 1, 1, 0, 0, 0),
        ts(2025, 12, 31, 23, 59, 59),
        ts(2009, 2, 28, 12, 0, 0),
    ] {
        let token = date_to_name(t);
        assert_eq!(name_to_date(&token), Some(t));
    }
}

#[test]
fn decode_accepts_unpadded_legacy_run() {
    // A short digit run decodes as if zero padded.
    assert_eq!(name_to_date("AA1500"), Some(ts(2000, 1, 1, 0, 8, 20)));
    assert_eq!(name_to_date("AA19"), Some(ts(2000, 1, 1, 0, 0, 9)));
}

#[test]
fn decode_rejects_malformed_tokens() {
    // Too short for three characters and a digit.
    assert_eq!(name_to_date(""), None);
    assert_eq!(name_to_date("AA1"), None);
    // First character not a letter.
    assert_eq!(name_to_date("9A100000"), None);
    // Non-digit inside the seconds run.
    assert_eq!(name_to_date("AA1x2345"), None);
    // Seconds of day out of range.
    assert_eq!(name_to_date("AA186400"), None);
    assert_eq!(name_to_date("AA199999"), None);
}

#[test]
fn tokens_of_one_day_sort_chronologically() {
    let a = date_to_name(ts(2024, 6, 11, 6, 32, 30));
    let b = date_to_name(ts(2024, 6, 11, 6, 32, 31));
    let c = date_to_name(ts(2024, 6, 11, 23, 59, 59));
    assert!(a < b);
    assert!(b < c);
}

#[test]
fn directory_token_is_padded_date() {
    assert_eq!(date_to_directory(ts(2024, 6, 11, 6, 32, 30)), "2024-06-11");
    assert_eq!(date_to_directory(ts(2000, 12, 1, 0, 0, 0)), "2000-12-01");
}

#[test]
fn get_date_strips_prefix_and_truncates() {
    let expected = ts(2024, 6, 11, 6, 32, 30);
    assert_eq!(name_to_date_helper("YFB23550"), Some(expected));
    assert_eq!(name_to_date_helper("VID_YFB23550"), Some(expected));
    // Characters past the eight structural ones are ignored.
    assert_eq!(name_to_date_helper("YFB23550extra"), Some(expected));
}

#[test]
fn get_date_rejects_short_or_malformed_stems() {
    assert_eq!(name_to_date_helper("YFB2355"), None);
    assert_eq!(name_to_date_helper("VID_"), None);
    assert_eq!(name_to_date_helper("99999999"), None);
}

#[test]
fn get_name_encodes_textual_timestamp() {
    let r = date_to_name_helper("2016:05:04 03:02:01");
    let (t, token) = r.expect("layout should parse");
    assert_eq!(t, ts(2016, 5, 4, 3, 2, 1));
    assert_eq!(token, "QE410921");
}

#[test]
fn get_name_rejects_bad_layout_or_range() {
    assert_eq!(date_to_name_helper("2016-05-04 03:02:01"), None);
    assert_eq!(date_to_name_helper("2016:05:04"), None);
    // A year before the token alphabet starts.
    assert_eq!(date_to_name_helper("1990:05:04 03:02:01"), None);
    // A month without a letter.
    assert_eq!(date_to_name_helper("2016:13:04 03:02:01"), None);
}

#[test]
fn display_renders_padded_fields() {
    assert_eq!(timestamp_display(ts(2016, 5, 4, 3, 2, 1)), "2016-05-04 03:02:01");
}
