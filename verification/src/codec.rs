//! The timestamp codec: a calendar timestamp is encoded as a compact token
//! (one letter for the year, one for the month, a digit or letter for the
//! day, and the zero-padded seconds of the day), and decoded back.

use vstd::prelude::*;

verus! {

use vstd::arithmetic::power::pow;

/// A calendar timestamp, year/month/day hour:minute:second.
#[derive(Clone, Copy, Debug, PartialEq, Eq, Structural)]
pub struct CalendarTimestamp {
    pub year: u16,
    pub month: u8,
    pub day: u8,
    pub hour: u8,
    pub minute: u8,
    pub second: u8,
}

/// The fields lie in the calendar ranges the rest of the library expects:
/// such a timestamp can always name a `YYYY-MM-DD` directory.
pub open spec fn valid_timestamp(ts: CalendarTimestamp) -> bool {
    &&& ts.year <= 9999
    &&& 1 <= ts.month <= 12
    &&& 1 <= ts.day <= 31
    &&& ts.hour <= 23
    &&& ts.minute <= 59
    &&& ts.second <= 59
}

/// The uppercase letter standing for `n` (1 is `A`, 26 is `Z`).
pub open spec fn upper_char(n: int) -> char {
    ((64 + n) as u8) as char
}

/// The lowercase letter standing for `n` (1 is `a`, 26 is `z`).
pub open spec fn lower_char(n: int) -> char {
    ((96 + n) as u8) as char
}

/// The decimal digit character for `d` (0 is `0`, 9 is `9`).
pub open spec fn digit_char(d: int) -> char {
    ((48 + d) as u8) as char
}

/// The number a letter stands for, uppercase or lowercase (`A` and `a` are 1,
/// `Z` and `z` are 26); any other character stands for nothing.
pub open spec fn letter_index(c: char) -> Option<u8> {
    let v = c as u32;
    if 65 <= v <= 90 {
        Some((v - 64) as u8)
    } else if 97 <= v <= 122 {
        Some((v - 96) as u8)
    } else {
        None
    }
}

/// Whether `c` is a decimal digit.
pub open spec fn is_digit(c: char) -> bool {
    48 <= c as u32 <= 57
}

/// The value of a digit character.
pub open spec fn digit_val(c: char) -> int {
    c as u32 - 48
}

/// The timestamp's second of the day.
pub open spec fn sec_of_day(ts: CalendarTimestamp) -> int {
    ts.hour * 3600 + ts.minute * 60 + ts.second
}

/// The character encoding a day: days up to 9 are literal digits, later days
/// are letters (`A` is 10, `V` is 31).
pub open spec fn day_char(day: int) -> char {
    if day <= 9 {
        digit_char(day)
    } else {
        upper_char(day - 9)
    }
}

/// The three leading characters of a token: year letter, month letter, day
/// character.
pub open spec fn date_prefix(ts: CalendarTimestamp) -> Seq<char> {
    seq![upper_char(ts.year - 1999), upper_char(ts.month as int), day_char(ts.day as int)]
}

/// The five-digit zero-padded decimal rendering of `n` (for `n` under
/// 100000).
pub open spec fn digits5(n: int) -> Seq<char> {
    seq![
        digit_char(n / 10000 % 10),
        digit_char(n / 1000 % 10),
        digit_char(n / 100 % 10),
        digit_char(n / 10 % 10),
        digit_char(n % 10),
    ]
}

/// The name token of a timestamp: date prefix plus zero-padded seconds of
/// the day.
pub open spec fn name_of(ts: CalendarTimestamp) -> Seq<char> {
    date_prefix(ts) + digits5(sec_of_day(ts))
}

/// A timestamp the encoder accepts: the year has a letter (2000 is `A`),
/// the month has a letter, the day fits a digit or a letter, and the time of
/// day stays under five digits.  Collision escalation can push the day one
/// step outside the calendar, so days 0 and up to 35 are admitted here.
pub open spec fn encodable(ts: CalendarTimestamp) -> bool {
    &&& 2000 <= ts.year <= 2025
    &&& 1 <= ts.month <= 12
    &&& ts.day <= 35
    &&& ts.hour <= 23
    &&& ts.minute <= 59
    &&& ts.second <= 59
}

/// Relies on `String::push`: appends the given character to the end of the
/// string.
#[verifier::external_body]
pub(crate) fn push_char(s: &mut String, c: char)
    ensures
        final(s)@ == old(s)@.push(c),
{
    s.push(c);
}

/// The letter standing for `num`, uppercase or lowercase.
pub fn u8_to_char(num: u8, uppercase: bool) -> (c: char)
    requires
        1 <= num <= 26,
    ensures
        c == if uppercase {
            upper_char(num as int)
        } else {
            lower_char(num as int)
        },
{
    if uppercase {
        (num + 64) as char
    } else {
        (num + 96) as char
    }
}

/// The two-digit zero-padded decimal rendering of `n` (for `n` under 100).
pub open spec fn digits2(n: int) -> Seq<char> {
    seq![digit_char(n / 10 % 10), digit_char(n % 10)]
}

/// The four-digit zero-padded decimal rendering of `n` (for `n` under
/// 10000).
pub open spec fn digits4(n: int) -> Seq<char> {
    seq![
        digit_char(n / 1000 % 10),
        digit_char(n / 100 % 10),
        digit_char(n / 10 % 10),
        digit_char(n % 10),
    ]
}

/// The `YYYY-MM-DD` directory name of a timestamp's date.
pub open spec fn dir_token_of(ts: CalendarTimestamp) -> Seq<char> {
    digits4(ts.year as int) + seq!['-'] + digits2(ts.month as int) + seq!['-'] + digits2(
        ts.day as int,
    )
}

/// Appends the five-digit zero-padded rendering of `n`.
fn push_digits5(s: &mut String, n: u32)
    requires
        n < 100000,
    ensures
        final(s)@ == old(s)@ + digits5(n as int),
{
    push_char(s, (48 + (n / 10000 % 10) as u8) as char);
    push_char(s, (48 + (n / 1000 % 10) as u8) as char);
    push_char(s, (48 + (n / 100 % 10) as u8) as char);
    push_char(s, (48 + (n / 10 % 10) as u8) as char);
    push_char(s, (48 + (n % 10) as u8) as char);
    assert(final(s)@ =~= old(s)@ + digits5(n as int));
}

/// Appends the two-digit zero-padded rendering of `n`.
fn push_digits2(s: &mut String, n: u8)
    requires
        n < 100,
    ensures
        final(s)@ == old(s)@ + digits2(n as int),
{
    push_char(s, (48 + n / 10 % 10) as char);
    push_char(s, (48 + n % 10) as char);
    assert(final(s)@ =~= old(s)@ + digits2(n as int));
}

/// The token whose date characters come from `ts` and whose trailing run
/// renders `secs`: the form every relocation candidate in rename mode takes.
pub open spec fn token_with_secs(ts: CalendarTimestamp, secs: int) -> Seq<char> {
    date_prefix(ts) + digits5(secs)
}

/// Builds the token for `ts`'s date with an explicit seconds run.  The
/// collision search re-encodes with ever later seconds, so the run is a
/// separate argument.
pub fn date_to_name_with_secs(ts: CalendarTimestamp, secs: u32) -> (r: String)
    requires
        2000 <= ts.year <= 2025,
        1 <= ts.month <= 12,
        ts.day <= 35,
        secs < 100000,
    ensures
        r@ == token_with_secs(ts, secs as int),
{
    let mut name = String::new();
    push_char(&mut name, u8_to_char((ts.year - 1999) as u8, true));
    push_char(&mut name, u8_to_char(ts.month, true));
    if ts.day <= 9 {
        push_char(&mut name, (48 + ts.day) as char);
    } else {
        push_char(&mut name, u8_to_char(ts.day - 9, true));
    }
    push_digits5(&mut name, secs);
    assert(name@ =~= token_with_secs(ts, secs as int));
    name
}

/// Encodes a timestamp as its name token.
pub fn date_to_name(ts: CalendarTimestamp) -> (r: String)
    requires
        encodable(ts),
    ensures
        r@ == name_of(ts),
{
    let secs: u32 = ts.hour as u32 * 3600 + ts.minute as u32 * 60 + ts.second as u32;
    date_to_name_with_secs(ts, secs)
}

/// Formats a timestamp's date as its `YYYY-MM-DD` directory name.
pub fn date_to_directory(ts: CalendarTimestamp) -> (r: String)
    requires
        ts.year <= 9999,
        ts.month <= 99,
        ts.day <= 99,
    ensures
        r@ == dir_token_of(ts),
{
    let mut name = String::new();
    push_char(&mut name, (48 + (ts.year / 1000 % 10) as u8) as char);
    push_char(&mut name, (48 + (ts.year / 100 % 10) as u8) as char);
    push_char(&mut name, (48 + (ts.year / 10 % 10) as u8) as char);
    push_char(&mut name, (48 + (ts.year % 10) as u8) as char);
    push_char(&mut name, '-');
    push_digits2(&mut name, ts.month);
    push_char(&mut name, '-');
    push_digits2(&mut name, ts.day);
    assert(name@ =~= dir_token_of(ts));
    name
}

/// The number a letter stands for, or `None` if `letter` is not a letter.
pub fn char_to_u8(letter: char) -> (r: Option<u8>)
    ensures
        r == letter_index(letter),
{
    let v = letter as u32;
    if 65 <= v && v <= 90 {
        Some((v - 64) as u8)
    } else if 97 <= v && v <= 122 {
        Some((v - 96) as u8)
    } else {
        None
    }
}

/// Whether every character of `s` is a decimal digit.
pub open spec fn is_digit_seq(s: Seq<char>) -> bool {
    forall|i: int| 0 <= i < s.len() ==> is_digit(#[trigger] s[i])
}

/// The number a digit sequence denotes (most significant digit first).
pub open spec fn digits_val(s: Seq<char>) -> int
    decreases s.len(),
{
    if s.len() == 0 {
        0
    } else {
        digits_val(s.drop_last()) * 10 + digit_val(s.last())
    }
}

/// The day a token's third character denotes: a digit literally, a letter
/// with 9 added (`A` is 10).
pub open spec fn day_of_char(c: char) -> Option<u8> {
    if is_digit(c) {
        Some(digit_val(c) as u8)
    } else {
        match letter_index(c) {
            Some(n) => Some((n + 9) as u8),
            None => None,
        }
    }
}

/// What decoding a token yields: `None` unless the token has its two
/// letters, a day character and a digit run denoting a time of day under
/// 86400 seconds.  The run may carry any amount of zero padding.
pub open spec fn parse_name(s: Seq<char>) -> Option<CalendarTimestamp> {
    if s.len() < 4 {
        None
    } else {
        match (letter_index(s[0]), letter_index(s[1]), day_of_char(s[2])) {
            (Some(y), Some(m), Some(d)) => {
                if is_digit_seq(s.skip(3)) && digits_val(s.skip(3)) < 86400 {
                    let t = digits_val(s.skip(3));
                    Some(
                        CalendarTimestamp {
                            year: (1999 + y) as u16,
                            month: m,
                            day: d,
                            hour: (t / 3600) as u8,
                            minute: (t % 3600 / 60) as u8,
                            second: (t % 60) as u8,
                        },
                    )
                } else {
                    None
                }
            }
            _ => None,
        }
    }
}

proof fn lemma_digits_val_nonneg(s: Seq<char>)
    requires
        is_digit_seq(s),
    ensures
        digits_val(s) >= 0,
    decreases s.len(),
{
    if s.len() > 0 {
        assert forall|i: int| 0 <= i < s.drop_last().len() implies is_digit(
            #[trigger] s.drop_last()[i],
        ) by {
            assert(s.drop_last()[i] == s[i]);
        }
        lemma_digits_val_nonneg(s.drop_last());
    }
}

/// A digit run denotes at least what any of its prefixes denotes.
proof fn lemma_digits_val_take(s: Seq<char>, k: int)
    requires
        is_digit_seq(s),
        0 <= k <= s.len(),
    ensures
        digits_val(s.take(k)) <= digits_val(s),
    decreases s.len() - k,
{
    if k < s.len() {
        assert forall|i: int| 0 <= i < s.drop_last().len() implies is_digit(
            #[trigger] s.drop_last()[i],
        ) by {
            assert(s.drop_last()[i] == s[i]);
        }
        lemma_digits_val_nonneg(s.drop_last());
        assert(digits_val(s) == digits_val(s.drop_last()) * 10 + digit_val(s.last()));
        assert(digits_val(s.drop_last()) <= digits_val(s.drop_last()) * 10) by {
            lemma_digits_val_nonneg(s.drop_last());
        }
        assert(s.drop_last().take(k) =~= s.take(k));
        lemma_digits_val_take(s.drop_last(), k);
    } else {
        assert(s.take(k) =~= s);
    }
}

/// A five-digit zero-padded run denotes exactly the number it renders.
pub(crate) proof fn lemma_digits5_val(n: int)
    requires
        0 <= n < 100000,
    ensures
        digits5(n).len() == 5,
        is_digit_seq(digits5(n)),
        digits_val(digits5(n)) == n,
{
    let s = digits5(n);
    let s4 = seq![
        digit_char(n / 10000 % 10),
        digit_char(n / 1000 % 10),
        digit_char(n / 100 % 10),
        digit_char(n / 10 % 10),
    ];
    let s3 = seq![digit_char(n / 10000 % 10), digit_char(n / 1000 % 10), digit_char(n / 100 % 10)];
    let s2 = seq![digit_char(n / 10000 % 10), digit_char(n / 1000 % 10)];
    let s1 = seq![digit_char(n / 10000 % 10)];
    assert(s.drop_last() =~= s4);
    assert(s4.drop_last() =~= s3);
    assert(s3.drop_last() =~= s2);
    assert(s2.drop_last() =~= s1);
    assert(s1.drop_last() =~= Seq::<char>::empty());
    vstd::arithmetic::div_mod::lemma_div_denominator(n, 10, 10);
    vstd::arithmetic::div_mod::lemma_div_denominator(n, 100, 10);
    vstd::arithmetic::div_mod::lemma_div_denominator(n, 1000, 10);
    vstd::arithmetic::div_mod::lemma_fundamental_div_mod(n, 10);
    vstd::arithmetic::div_mod::lemma_fundamental_div_mod(n / 10, 10);
    vstd::arithmetic::div_mod::lemma_fundamental_div_mod(n / 100, 10);
    vstd::arithmetic::div_mod::lemma_fundamental_div_mod(n / 1000, 10);
    assert(n / 10000 % 10 == n / 10000);
    assert((n / 1000) * 10 + n / 100 % 10 == n / 100) by {
        vstd::arithmetic::div_mod::lemma_div_denominator(n, 100, 10);
        vstd::arithmetic::div_mod::lemma_fundamental_div_mod(n / 100, 10);
    }
    assert(digit_val(digit_char(n / 10000 % 10)) == n / 10000 % 10);
    assert(digit_val(digit_char(n / 1000 % 10)) == n / 1000 % 10);
    assert(digit_val(digit_char(n / 100 % 10)) == n / 100 % 10);
    assert(digit_val(digit_char(n / 10 % 10)) == n / 10 % 10);
    assert(digit_val(digit_char(n % 10)) == n % 10);
    assert(digits_val(Seq::<char>::empty()) == 0);
    assert(digits_val(s1) == digits_val(s1.drop_last()) * 10 + digit_val(s1.last()));
    assert(digits_val(s1) == n / 10000);
    assert(digits_val(s2) == digits_val(s1) * 10 + digit_val(s2.last()));
    assert(digits_val(s2) == n / 1000);
    assert(digits_val(s3) == digits_val(s2) * 10 + digit_val(s3.last()));
    assert(digits_val(s3) == n / 100);
    assert(digits_val(s4) == digits_val(s3) * 10 + digit_val(s4.last()));
    assert(digits_val(s4) == n / 10);
    assert(digits_val(s) == digits_val(s4) * 10 + digit_val(s.last()));
}

/// The round-trip law: decoding inverts encoding.  For every calendar
/// timestamp in the codec's range, parsing the encoded token yields the
/// timestamp back.
pub proof fn lemma_round_trip(ts: CalendarTimestamp)
    requires
        2000 <= ts.year <= 2025,
        1 <= ts.month <= 12,
        1 <= ts.day <= 31,
        ts.hour <= 23,
        ts.minute <= 59,
        ts.second <= 59,
    ensures
        parse_name(name_of(ts)) == Some(ts),
{
    let s = name_of(ts);
    let t = sec_of_day(ts);
    assert(0 <= t < 86400);
    lemma_digits5_val(t);
    assert(s.len() == 8);
    assert(s[0] == upper_char(ts.year - 1999));
    assert(s[1] == upper_char(ts.month as int));
    assert(s[2] == day_char(ts.day as int));
    assert(s.skip(3) =~= digits5(t));
    assert(letter_index(s[0]) == Some((ts.year - 1999) as u8));
    assert(letter_index(s[1]) == Some(ts.month));
    assert(day_of_char(s[2]) == Some(ts.day));
    assert(t / 3600 == ts.hour) by {
        vstd::arithmetic::div_mod::lemma_fundamental_div_mod_converse_div(
            t,
            3600,
            ts.hour as int,
            ts.minute * 60 + ts.second,
        );
    }
    assert(t % 3600 == ts.minute * 60 + ts.second) by {
        vstd::arithmetic::div_mod::lemma_fundamental_div_mod_converse_mod(
            t,
            3600,
            ts.hour as int,
            ts.minute * 60 + ts.second,
        );
    }
    assert(t % 3600 / 60 == ts.minute) by {
        vstd::arithmetic::div_mod::lemma_fundamental_div_mod_converse_div(
            ts.minute * 60 + ts.second,
            60,
            ts.minute as int,
            ts.second as int,
        );
    }
    assert(t % 60 == ts.second) by {
        vstd::arithmetic::div_mod::lemma_fundamental_div_mod_converse_mod(
            t,
            60,
            ts.hour * 60 + ts.minute,
            ts.second as int,
        );
    }
}

/// Strict lexicographic order on character sequences, by code point.  On the
/// ASCII tokens the codec produces this agrees with the byte order `str`
/// comparison uses.
pub open spec fn lex_lt(a: Seq<char>, b: Seq<char>) -> bool
    decreases a.len(),
{
    if b.len() == 0 {
        false
    } else if a.len() == 0 {
        true
    } else if (a[0] as u32) < (b[0] as u32) {
        true
    } else if a[0] == b[0] {
        lex_lt(a.skip(1), b.skip(1))
    } else {
        false
    }
}

/// A digit run read from the front: leading digit times a power of ten plus
/// the rest.
proof fn lemma_digits_val_front(s: Seq<char>)
    requires
        is_digit_seq(s),
        s.len() > 0,
    ensures
        digits_val(s) == digit_val(s[0]) * pow(10, (s.len() - 1) as nat)
            + digits_val(s.skip(1)),
    decreases s.len(),
{
    if s.len() == 1 {
        assert(s.drop_last() =~= Seq::<char>::empty());
        assert(s.skip(1) =~= Seq::<char>::empty());
        assert(digits_val(Seq::<char>::empty()) == 0);
        vstd::arithmetic::power::lemma_pow0(10);
        assert(digits_val(s) == digit_val(s[0]));
    } else {
        let d = s.drop_last();
        assert forall|i: int| 0 <= i < d.len() implies is_digit(#[trigger] d[i]) by {
            assert(d[i] == s[i]);
        }
        lemma_digits_val_front(d);
        let k = (s.len() - 2) as nat;
        assert(digits_val(s) == digits_val(d) * 10 + digit_val(s.last()));
        assert(d[0] == s[0]);
        assert(digits_val(d) == digit_val(s[0]) * pow(10, k) + digits_val(d.skip(1)));
        assert(d.skip(1) =~= s.skip(1).drop_last());
        assert(s.skip(1).last() == s.last());
        assert(s.skip(1).len() > 0);
        assert(digits_val(s.skip(1)) == digits_val(s.skip(1).drop_last()) * 10 + digit_val(
            s.last(),
        ));
        assert(pow(10, (s.len() - 1) as nat) == 10 * pow(10, k)) by {
            vstd::arithmetic::power::lemma_pow_adds(10, 1, k);
            vstd::arithmetic::power::lemma_pow1(10);
        }
        assert((digit_val(s[0]) * pow(10, k) + digits_val(d.skip(1))) * 10 == digit_val(s[0]) * (10
            * pow(10, k)) + digits_val(d.skip(1)) * 10) by (nonlinear_arith);
    }
}

/// A digit run denotes less than the power of ten of its length.
proof fn lemma_digits_val_bound(s: Seq<char>)
    requires
        is_digit_seq(s),
    ensures
        0 <= digits_val(s) < pow(10, s.len()),
    decreases s.len(),
{
    if s.len() == 0 {
        vstd::arithmetic::power::lemma_pow0(10);
    } else {
        let d = s.drop_last();
        assert forall|i: int| 0 <= i < d.len() implies is_digit(#[trigger] d[i]) by {
            assert(d[i] == s[i]);
        }
        lemma_digits_val_bound(d);
        assert(digits_val(s) == digits_val(d) * 10 + digit_val(s.last()));
        assert(pow(10, s.len()) == 10 * pow(10, d.len())) by {
            vstd::arithmetic::power::lemma_pow_adds(10, 1, d.len());
            vstd::arithmetic::power::lemma_pow1(10);
        }
        assert(digits_val(d) * 10 <= (pow(10, d.len()) - 1) * 10) by {
            vstd::arithmetic::mul::lemma_mul_inequality(digits_val(d), pow(10, d.len()) - 1, 10);
        }
    }
}

/// Among equal-length digit runs, numeric order is lexicographic order.
proof fn lemma_digit_seq_lex(a: Seq<char>, b: Seq<char>)
    requires
        is_digit_seq(a),
        is_digit_seq(b),
        a.len() == b.len(),
        digits_val(a) < digits_val(b),
    ensures
        lex_lt(a, b),
    decreases a.len(),
{
    let p = pow(10, (a.len() - 1) as nat);
    lemma_digits_val_front(a);
    lemma_digits_val_front(b);
    assert forall|i: int| 0 <= i < a.skip(1).len() implies is_digit(#[trigger] a.skip(1)[i]) by {
        assert(a.skip(1)[i] == a[i + 1]);
    }
    assert forall|i: int| 0 <= i < b.skip(1).len() implies is_digit(#[trigger] b.skip(1)[i]) by {
        assert(b.skip(1)[i] == b[i + 1]);
    }
    lemma_digits_val_bound(a.skip(1));
    lemma_digits_val_bound(b.skip(1));
    vstd::arithmetic::power::lemma_pow_positive(10, (a.len() - 1) as nat);
    if digit_val(a[0]) == digit_val(b[0]) {
        assert(a[0] == b[0]) by {
            vstd::utf8::char_u32_cast(a[0], a[0] as u32);
            vstd::utf8::char_u32_cast(b[0], b[0] as u32);
        }
        assert(digits_val(a.skip(1)) < digits_val(b.skip(1)));
        lemma_digit_seq_lex(a.skip(1), b.skip(1));
    } else if digit_val(a[0]) < digit_val(b[0]) {
        assert((a[0] as u32) < (b[0] as u32));
    } else {
        assert(digit_val(b[0]) + 1 <= digit_val(a[0]));
        assert((digit_val(b[0]) + 1) * p <= digit_val(a[0]) * p) by {
            vstd::arithmetic::mul::lemma_mul_inequality(
                digit_val(b[0]) + 1,
                digit_val(a[0]),
                p,
            );
        }
        assert((digit_val(b[0]) + 1) * p == digit_val(b[0]) * p + p) by (nonlinear_arith);
        assert(digits_val(b) < digits_val(a));
    }
}

/// The ordering law: tokens sort by time.  Two timestamps
/// of the same day encode to tokens whose lexicographic order is their
/// chronological order, because the seconds run is zero-padded.
pub proof fn lemma_lexicographic_order(t1: CalendarTimestamp, t2: CalendarTimestamp)
    requires
        encodable(t1),
        encodable(t2),
        t1.year == t2.year,
        t1.month == t2.month,
        t1.day == t2.day,
        sec_of_day(t1) < sec_of_day(t2),
    ensures
        lex_lt(name_of(t1), name_of(t2)),
{
    let a = name_of(t1);
    let b = name_of(t2);
    let m = sec_of_day(t1);
    let n = sec_of_day(t2);
    lemma_digits5_val(m);
    lemma_digits5_val(n);
    lemma_digit_seq_lex(digits5(m), digits5(n));
    assert(a.skip(3) =~= digits5(m));
    assert(b.skip(3) =~= digits5(n));
    assert(a.skip(1).skip(1).skip(1) =~= a.skip(3));
    assert(b.skip(1).skip(1).skip(1) =~= b.skip(3));
    assert(a[0] == b[0] && a[1] == b[1] && a[2] == b[2]);
    assert(a.skip(1)[0] == a[1] && a.skip(1).skip(1)[0] == a[2]);
    assert(b.skip(1)[0] == b[1] && b.skip(1).skip(1)[0] == b[2]);
    assert(lex_lt(a.skip(1).skip(1).skip(1), b.skip(1).skip(1).skip(1)));
    assert(lex_lt(a.skip(1).skip(1), b.skip(1).skip(1)));
    assert(lex_lt(a.skip(1), b.skip(1)));
}

/// Decodes a name token.  Lenient about zero padding; yields `None` on any
/// malformed input.
pub fn name_to_date(name: &str) -> (r: Option<CalendarTimestamp>)
    ensures
        r == parse_name(name@),
{
    let len = name.unicode_len();
    if len < 4 {
        return None;
    }
    let y = match char_to_u8(name.get_char(0)) {
        Some(v) => v,
        None => {
            return None;
        },
    };
    let m = match char_to_u8(name.get_char(1)) {
        Some(v) => v,
        None => {
            return None;
        },
    };
    let dc = name.get_char(2);
    let dcv = dc as u32;
    let d: u8 = if 48 <= dcv && dcv <= 57 {
        (dcv - 48) as u8
    } else {
        match char_to_u8(dc) {
            Some(v) => v + 9,
            None => {
                return None;
            },
        }
    };
    let mut i: usize = 3;
    let mut acc: u32 = 0;
    while i < len
        invariant
            3 <= i <= len,
            len == name@.len(),
            acc < 86400,
            is_digit_seq(name@.subrange(3, i as int)),
            acc == digits_val(name@.subrange(3, i as int)),
        decreases len - i,
    {
        let c = name.get_char(i);
        let v = c as u32;
        if v < 48 || v > 57 {
            assert(name@.skip(3)[i - 3] == name@[i as int]);
            assert(!is_digit_seq(name@.skip(3)));
            return None;
        }
        let newacc = acc * 10 + (v - 48);
        proof {
            assert(name@.subrange(3, i + 1).drop_last() =~= name@.subrange(3, i as int));
            assert(name@.subrange(3, i + 1).last() == name@[i as int]);
        }
        if newacc >= 86400 {
            proof {
                if is_digit_seq(name@.skip(3)) {
                    assert(name@.skip(3) =~= name@.subrange(3, len as int));
                    assert(name@.subrange(3, len as int).take(i + 1 - 3) =~= name@.subrange(
                        3,
                        i + 1,
                    ));
                    lemma_digits_val_take(name@.subrange(3, len as int), i + 1 - 3);
                    assert(digits_val(name@.skip(3)) >= newacc);
                }
            }
            return None;
        }
        acc = newacc;
        i += 1;
    }
    proof {
        assert(name@.skip(3) =~= name@.subrange(3, len as int));
    }
    Some(
        CalendarTimestamp {
            year: 1999 + y as u16,
            month: m,
            day: d,
            hour: (acc / 3600) as u8,
            minute: (acc % 3600 / 60) as u8,
            second: (acc % 60) as u8,
        },
    )
}

/// The stem after stripping a literal `VID_` prefix.
pub open spec fn strip_vid(s: Seq<char>) -> Seq<char> {
    if s.len() >= 4 && s.take(4) == seq!['V', 'I', 'D', '_'] {
        s.skip(4)
    } else {
        s
    }
}

/// What the date-reporting command decodes out of a file stem: the `VID_`
/// prefix is stripped, the stem is truncated to the token's eight structural
/// characters, and the result is decoded; a stem too short for a full token
/// decodes to nothing.
pub open spec fn get_date_spec(stem: Seq<char>) -> Option<CalendarTimestamp> {
    let c = strip_vid(stem);
    if c.len() < 8 {
        None
    } else {
        parse_name(c.take(8))
    }
}

/// Decodes the token embedded in a file stem, for the date-reporting
/// command.
pub fn name_to_date_helper(stem: &str) -> (r: Option<CalendarTimestamp>)
    ensures
        r == get_date_spec(stem@),
{
    let len = stem.unicode_len();
    let stripped: &str = if len >= 4 && stem.get_char(0) == 'V' && stem.get_char(1) == 'I'
        && stem.get_char(2) == 'D' && stem.get_char(3) == '_' {
        proof {
            assert(stem@.take(4) =~= seq!['V', 'I', 'D', '_']);
        }
        stem.substring_char(4, len)
    } else {
        proof {
            if stem@.len() >= 4 && stem@.take(4) == seq!['V', 'I', 'D', '_'] {
                assert(stem@[0] == stem@.take(4)[0]);
                assert(stem@[1] == stem@.take(4)[1]);
                assert(stem@[2] == stem@.take(4)[2]);
                assert(stem@[3] == stem@.take(4)[3]);
            }
        }
        stem
    };
    proof {
        assert(stripped@ =~= strip_vid(stem@));
    }
    let slen = stripped.unicode_len();
    if slen < 8 {
        return None;
    }
    let head = stripped.substring_char(0, 8);
    proof {
        assert(head@ =~= strip_vid(stem@).take(8));
    }
    name_to_date(head)
}

/// What the name-reporting command encodes out of a textual timestamp: the
/// fixed `"YYYY:MM:DD HH:MM:SS"` layout is parsed, and the token is produced
/// when the fields are in the encoder's range.
pub open spec fn get_name_spec(s: Seq<char>) -> Option<Seq<char>> {
    match crate::resolver::datetime_layout_spec(s) {
        Some(ts) => if encodable(ts) {
            Some(name_of(ts))
        } else {
            None
        },
        None => None,
    }
}

/// Encodes a textual timestamp as its token, for the name-reporting
/// command: the parsed timestamp and its token, or nothing when the text is
/// not in the layout or out of the encoder's range.
pub fn date_to_name_helper(date_string: &str) -> (r: Option<(CalendarTimestamp, String)>)
    ensures
        match get_name_spec(date_string@) {
            Some(tok) => ({
                &&& r matches Some(p)
                &&& Some(p.0) == crate::resolver::datetime_layout_spec(date_string@)
                &&& p.1@ == tok
            }),
            None => r is None,
        },
{
    match crate::resolver::parse_datetime_string(date_string) {
        Some(ts) => {
            if 2000 <= ts.year && ts.year <= 2025 && 1 <= ts.month && ts.month <= 12 && ts.day
                <= 35 && ts.hour <= 23 && ts.minute <= 59 && ts.second <= 59 {
                let name = date_to_name(ts);
                Some((ts, name))
            } else {
                None
            }
        },
        None => None,
    }
}

/// The human-readable `"YYYY-MM-DD HH:MM:SS"` rendering of a timestamp.
pub open spec fn display_of(ts: CalendarTimestamp) -> Seq<char> {
    dir_token_of(ts) + seq![' '] + digits2(ts.hour as int) + seq![':'] + digits2(ts.minute as int)
        + seq![':'] + digits2(ts.second as int)
}

/// Renders a timestamp as `"YYYY-MM-DD HH:MM:SS"` text.
pub fn timestamp_display(ts: CalendarTimestamp) -> (r: String)
    requires
        ts.year <= 9999,
        ts.month <= 99,
        ts.day <= 99,
        ts.hour <= 99,
        ts.minute <= 99,
        ts.second <= 99,
    ensures
        r@ == display_of(ts),
{
    let mut out = date_to_directory(ts);
    push_char(&mut out, ' ');
    push_digits2(&mut out, ts.hour);
    push_char(&mut out, ':');
    push_digits2(&mut out, ts.minute);
    push_char(&mut out, ':');
    push_digits2(&mut out, ts.second);
    assert(out@ =~= display_of(ts));
    out
}

} // verus!
