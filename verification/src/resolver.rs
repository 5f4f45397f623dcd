//! The date source resolver: strategies that produce a calendar timestamp
//! for a file, and the signed hour offset with day rollover.

use vstd::prelude::*;
use chrono::Datelike;
use chrono::Timelike;

verus! {

use crate::codec::CalendarTimestamp;
use crate::codec::digit_val;
use crate::codec::is_digit;
use crate::codec::valid_timestamp;

/// Why a date could not be resolved for a file.
#[derive(Clone, Copy, Debug, PartialEq, Eq, Structural)]
pub enum DateError {
    /// The capture metadata has no original-date field.
    NoCaptureDate,
    /// The capture metadata's date field is empty or malformed, or the
    /// resolved fields fall outside the calendar ranges.
    UnreadableDate,
    /// The filename does not carry the fixed-offset timestamp layout.
    PatternMismatch,
}

/// The strategy by which a file's timestamp is found.  Exactly one is active
/// per run; the caller constructs it once and threads it through.
#[derive(Clone, Copy, Debug, PartialEq, Eq, Structural)]
pub enum DateSource {
    /// Read the capture date embedded in the media container.
    CaptureMetadata,
    /// Read the filesystem's modification time.
    FileTime,
    /// Read the fixed-offset digit runs of the filename itself.
    FilenamePattern,
}

/// The two-digit number at position `i`, if both characters are digits.
pub open spec fn field2_val(s: Seq<char>, i: int) -> Option<int> {
    if is_digit(s[i]) && is_digit(s[i + 1]) {
        Some(digit_val(s[i]) * 10 + digit_val(s[i + 1]))
    } else {
        None
    }
}

/// The four-digit number at position `i`, if all four characters are digits.
pub open spec fn field4_val(s: Seq<char>, i: int) -> Option<int> {
    if is_digit(s[i]) && is_digit(s[i + 1]) && is_digit(s[i + 2]) && is_digit(s[i + 3]) {
        Some(
            digit_val(s[i]) * 1000 + digit_val(s[i + 1]) * 100 + digit_val(s[i + 2]) * 10
                + digit_val(s[i + 3]),
        )
    } else {
        None
    }
}

/// Reads the two-digit field at `i`.
fn parse_field2(s: &str, i: usize) -> (r: Option<u8>)
    requires
        i + 2 <= s@.len(),
        s@.len() <= usize::MAX,
    ensures
        match field2_val(s@, i as int) {
            Some(v) => r == Some(v as u8),
            None => r is None,
        },
{
    let c0 = s.get_char(i);
    let c1 = s.get_char(i + 1);
    let v0 = c0 as u32;
    let v1 = c1 as u32;
    if 48 <= v0 && v0 <= 57 && 48 <= v1 && v1 <= 57 {
        Some(((v0 - 48) * 10 + (v1 - 48)) as u8)
    } else {
        None
    }
}

/// Reads the four-digit field at `i`.
fn parse_field4(s: &str, i: usize) -> (r: Option<u16>)
    requires
        i + 4 <= s@.len(),
        s@.len() <= usize::MAX,
    ensures
        match field4_val(s@, i as int) {
            Some(v) => r == Some(v as u16),
            None => r is None,
        },
{
    let c0 = s.get_char(i);
    let c1 = s.get_char(i + 1);
    let c2 = s.get_char(i + 2);
    let c3 = s.get_char(i + 3);
    let v0 = c0 as u32;
    let v1 = c1 as u32;
    let v2 = c2 as u32;
    let v3 = c3 as u32;
    if 48 <= v0 && v0 <= 57 && 48 <= v1 && v1 <= 57 && 48 <= v2 && v2 <= 57 && 48 <= v3 && v3
        <= 57 {
        Some(((v0 - 48) * 1000 + (v1 - 48) * 100 + (v2 - 48) * 10 + (v3 - 48)) as u16)
    } else {
        None
    }
}

/// What the filename-pattern strategy reads out of a name laid out as
/// `PREFIX_YYYYMMDD_HHMMSS…`: the digit runs at fixed character offsets
/// 4 to 19, accepted only when they form a timestamp in calendar range.
pub open spec fn filename_pattern_spec(s: Seq<char>) -> Option<CalendarTimestamp> {
    if s.len() < 19 {
        None
    } else {
        match (field4_val(s, 4), field2_val(s, 8), field2_val(s, 10), field2_val(s, 13), field2_val(
            s,
            15,
        ), field2_val(s, 17)) {
            (Some(y), Some(mo), Some(d), Some(h), Some(mi), Some(sec)) => {
                let ts = CalendarTimestamp {
                    year: y as u16,
                    month: mo as u8,
                    day: d as u8,
                    hour: h as u8,
                    minute: mi as u8,
                    second: sec as u8,
                };
                if valid_timestamp(ts) {
                    Some(ts)
                } else {
                    None
                }
            },
            _ => None,
        }
    }
}

/// Resolves a timestamp from the filename itself (the fixed
/// `PREFIX_YYYYMMDD_HHMMSS…` layout).
pub fn get_filename_datetime(name: &str) -> (r: Result<CalendarTimestamp, DateError>)
    ensures
        match filename_pattern_spec(name@) {
            Some(ts) => r == Ok::<CalendarTimestamp, DateError>(ts),
            None => r == Err::<CalendarTimestamp, DateError>(DateError::PatternMismatch),
        },
{
    if name.unicode_len() < 19 {
        return Err(DateError::PatternMismatch);
    }
    let y = parse_field4(name, 4);
    let mo = parse_field2(name, 8);
    let d = parse_field2(name, 10);
    let h = parse_field2(name, 13);
    let mi = parse_field2(name, 15);
    let sec = parse_field2(name, 17);
    match (y, mo, d, h, mi, sec) {
        (Some(y), Some(mo), Some(d), Some(h), Some(mi), Some(sec)) => {
            let ts = CalendarTimestamp { year: y, month: mo, day: d, hour: h, minute: mi, second: sec };
            if 1 <= ts.month && ts.month <= 12 && 1 <= ts.day && ts.day <= 31 && ts.hour <= 23
                && ts.minute <= 59 && ts.second <= 59 {
                Ok(ts)
            } else {
                Err(DateError::PatternMismatch)
            }
        },
        _ => Err(DateError::PatternMismatch),
    }
}

/// What parsing the textual `"YYYY:MM:DD HH:MM:SS"` layout yields: the six
/// numeric fields, when the five delimiters sit at their fixed offsets and
/// every field is numeric.  Characters past offset 19 are ignored; the
/// number ranges are not checked here.
pub open spec fn datetime_layout_spec(s: Seq<char>) -> Option<CalendarTimestamp> {
    if s.len() < 19 {
        None
    } else if s[4] == ':' && s[7] == ':' && s[10] == ' ' && s[13] == ':' && s[16] == ':' {
        match (field4_val(s, 0), field2_val(s, 5), field2_val(s, 8), field2_val(s, 11), field2_val(
            s,
            14,
        ), field2_val(s, 17)) {
            (Some(y), Some(mo), Some(d), Some(h), Some(mi), Some(sec)) => Some(
                CalendarTimestamp {
                    year: y as u16,
                    month: mo as u8,
                    day: d as u8,
                    hour: h as u8,
                    minute: mi as u8,
                    second: sec as u8,
                },
            ),
            _ => None,
        }
    } else {
        None
    }
}

/// Parses the textual `"YYYY:MM:DD HH:MM:SS"` timestamp layout.
pub fn parse_datetime_string(s: &str) -> (r: Option<CalendarTimestamp>)
    ensures
        r == datetime_layout_spec(s@),
{
    if s.unicode_len() < 19 {
        return None;
    }
    if !(s.get_char(4) == ':' && s.get_char(7) == ':' && s.get_char(10) == ' ' && s.get_char(13)
        == ':' && s.get_char(16) == ':') {
        return None;
    }
    let y = parse_field4(s, 0);
    let mo = parse_field2(s, 5);
    let d = parse_field2(s, 8);
    let h = parse_field2(s, 11);
    let mi = parse_field2(s, 14);
    let sec = parse_field2(s, 17);
    match (y, mo, d, h, mi, sec) {
        (Some(y), Some(mo), Some(d), Some(h), Some(mi), Some(sec)) => Some(
            CalendarTimestamp { year: y, month: mo, day: d, hour: h, minute: mi, second: sec },
        ),
        _ => None,
    }
}

/// Builds a timestamp from raw fields: `Some` exactly when the fields lie in
/// the calendar ranges.
pub fn calendar_from_fields(year: u16, month: u8, day: u8, hour: u8, minute: u8, second: u8) -> (r:
    Option<CalendarTimestamp>)
    ensures
        ({
            let ts = CalendarTimestamp { year, month, day, hour, minute, second };
            if valid_timestamp(ts) {
                r == Some(ts)
            } else {
                r is None
            }
        }),
{
    let ts = CalendarTimestamp { year, month, day, hour, minute, second };
    if year <= 9999 && 1 <= month && month <= 12 && 1 <= day && day <= 31 && hour <= 23 && minute
        <= 59 && second <= 59 {
        Some(ts)
    } else {
        None
    }
}

/// Relies on chrono: `DateTime<Local>::from` converts a system time to the
/// machine's local calendar time, and the `Datelike`/`Timelike` accessors
/// promise month 1 to 12, day 1 to 31, hour 0 to 23, minute and second 0 to
/// 59.  The year depends on the clock value and the machine's time zone and
/// is left open.  The admitted range of `secs` stays far inside what chrono's
/// calendar can hold.
#[verifier::external_body]
fn local_calendar_of_unix(secs: i64) -> (r: (i32, u32, u32, u32, u32, u32))
    requires
        0 <= secs <= 253402300799,
    ensures
        1 <= r.1 <= 12,
        1 <= r.2 <= 31,
        r.3 <= 23,
        r.4 <= 59,
        r.5 <= 59,
{
    let t = std::time::UNIX_EPOCH + std::time::Duration::from_secs(secs as u64);
    let dt = chrono::DateTime::<chrono::Local>::from(t);
    (dt.year(), dt.month(), dt.day(), dt.hour(), dt.minute(), dt.second())
}

/// Resolves a timestamp from a file's modification time, read as the
/// machine's local calendar time.  Whatever the clock and time zone yield,
/// an `Ok` timestamp is in calendar range; the one possible failure — a
/// local year outside the four digits a date directory can render — reports
/// the date as unreadable, and no other error ever comes back.
pub fn get_filedatetime(unix_secs: i64) -> (r: Result<CalendarTimestamp, DateError>)
    requires
        0 <= unix_secs <= 253402300799,
    ensures
        r matches Ok(ts) ==> valid_timestamp(ts),
        r matches Err(e) ==> e == DateError::UnreadableDate,
{
    let (y, mo, d, h, mi, s) = local_calendar_of_unix(unix_secs);
    if y < 0 || y > 9999 {
        return Err(DateError::UnreadableDate);
    }
    match calendar_from_fields(y as u16, mo as u8, d as u8, h as u8, mi as u8, s as u8) {
        Some(ts) => Ok(ts),
        None => {
            proof {
                assert(false);
            }
            Err(DateError::UnreadableDate)
        },
    }
}

/// The result of shifting a timestamp's hour by a signed offset, with day
/// rollover: an hour pushed past midnight steps the raw day field one up or
/// down, leaving month and year untouched even at a month's edge (the
/// encoder tolerates the out-of-calendar day this can produce).
pub open spec fn offset_applied(ts: CalendarTimestamp, off: int) -> CalendarTimestamp {
    let h = ts.hour + off;
    if h < 0 {
        CalendarTimestamp { hour: (h + 24) as u8, day: (ts.day - 1) as u8, ..ts }
    } else if h >= 24 {
        CalendarTimestamp { hour: (h - 24) as u8, day: (ts.day + 1) as u8, ..ts }
    } else {
        CalendarTimestamp { hour: h as u8, ..ts }
    }
}

/// Applies the signed hour offset to a resolved timestamp.
pub fn apply_offset(ts: CalendarTimestamp, off: i8) -> (r: CalendarTimestamp)
    requires
        -23 <= off <= 23,
        ts.hour <= 23,
        1 <= ts.day <= 31,
    ensures
        r == offset_applied(ts, off as int),
{
    let h: i16 = ts.hour as i16 + off as i16;
    if h < 0 {
        CalendarTimestamp { hour: (h + 24) as u8, day: ts.day - 1, ..ts }
    } else if h >= 24 {
        CalendarTimestamp { hour: (h - 24) as u8, day: ts.day + 1, ..ts }
    } else {
        CalendarTimestamp { hour: h as u8, ..ts }
    }
}

} // verus!
