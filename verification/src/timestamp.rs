//! `YYYY-MM-DDTHH:MM:SS` timestamps decoded by fixed positions.
use vstd::prelude::*;
use vstd::string::StringSliceAdditionalSpecFns;

verus! {

/// The value a byte contributes as a digit: `byte - '0'`, wrapping in `u8`.
pub open spec fn digit_of(byte: u8) -> int {
    if byte >= 48 { byte - 48 } else { byte + 256 - 48 }
}

/// The decimal value of the `len` bytes at `start`, each read by `digit_of`.
pub open spec fn digits_value(bytes: Seq<u8>, start: int, len: int) -> int
    decreases len,
{
    if len <= 0 {
        0
    } else {
        digits_value(bytes, start, len - 1) * 10 + digit_of(bytes[start + len - 1])
    }
}

/// Days from 1970-01-01 to the given proleptic Gregorian date.
#[verifier::opaque]
pub open spec fn spec_days_from_civil(year: int, month: int, day: int) -> int {
    let y = if month <= 2 { year - 1 } else { year };
    let era = if y >= 0 { y / 400 } else { (y - 399) / 400 };
    let year_of_era = y - era * 400;
    let shifted_month = month + if month > 2 { -3int } else { 9int };
    let day_of_year = (153 * shifted_month + 2) / 5 + day - 1;
    let day_of_era = year_of_era * 365 + year_of_era / 4 - year_of_era / 100 + day_of_year;
    era * 146_097 + day_of_era - 719_468
}

/// A timestamp split into the parts the scorer reads.
#[derive(Clone, Copy)]
pub struct FastTimestamp {
    pub days_since_epoch: i32,
    pub hour: u8,
    pub seconds_since_midnight: u32,
    pub weekday_from_monday: u8,
}

/// The timestamp that `FastTimestamp::parse` reads from `bytes`, when it is long enough.
pub open spec fn spec_parse_timestamp(bytes: Seq<u8>) -> Option<FastTimestamp> {
    if bytes.len() < 19 {
        None
    } else {
        let year = digits_value(bytes, 0, 4);
        let month = digits_value(bytes, 5, 2) % 256;
        let day = digits_value(bytes, 8, 2) % 256;
        let hour = digits_value(bytes, 11, 2) % 256;
        let minute = digits_value(bytes, 14, 2) % 256;
        let second = digits_value(bytes, 17, 2) % 256;
        let days = spec_days_from_civil(year, month, day);
        Some(
            FastTimestamp {
                days_since_epoch: days as i32,
                hour: hour as u8,
                seconds_since_midnight: (hour * 3600 + minute * 60 + second) as u32,
                weekday_from_monday: ((days + 3) % 7) as u8,
            },
        )
    }
}

/// Seconds since 1970-01-01T00:00:00.
pub open spec fn spec_total_seconds(t: FastTimestamp) -> int {
    t.days_since_epoch * 86_400 + t.seconds_since_midnight
}

proof fn lemma_digits_bounds(bytes: Seq<u8>, start: int, len: int)
    requires
        0 <= len,
    ensures
        0 <= digits_value(bytes, start, len),
        len <= 4 ==> digits_value(bytes, start, len) <= 255 * 1111,
        len <= 3 ==> digits_value(bytes, start, len) <= 255 * 111,
        len <= 2 ==> digits_value(bytes, start, len) <= 255 * 11,
        len <= 1 ==> digits_value(bytes, start, len) <= 255,
    decreases len,
{
    if len > 0 {
        lemma_digits_bounds(bytes, start, len - 1);
    }
}

/// Reads the `len` digit bytes at `start`.
fn number(bytes: &[u8], start: usize, len: usize) -> (r: u32)
    requires
        1 <= len <= 4,
        start <= 17,
        start + len <= bytes@.len(),
    ensures
        r == digits_value(bytes@, start as int, len as int),
        len <= 2 ==> r <= 255 * 11,
        r <= 255 * 1111,
{
    let mut value: u32 = 0;
    let mut i: usize = 0;
    while i < len
        invariant
            i <= len <= 4,
            start <= 17,
            start + len <= bytes@.len(),
            value == digits_value(bytes@, start as int, i as int),
        decreases len - i,
    {
        proof {
            lemma_digits_bounds(bytes@, start as int, i as int);
        }
        let byte = bytes[start + i];
        assert(0 <= digit_of(byte) <= 255);
        let digit: u32 = if byte >= 48 { (byte - 48) as u32 } else { (byte as u32 + 256 - 48) };
        value = value * 10 + digit;
        i = i + 1;
    }
    proof {
        lemma_digits_bounds(bytes@, start as int, len as int);
    }
    value
}

/// Days from 1970-01-01 to the given date.
fn days_from_civil(year: i32, month: u8, day: u8) -> (r: i32)
    requires
        0 <= year <= 255 * 1111,
    ensures
        r == spec_days_from_civil(year as int, month as int, day as int),
        -1_000_000 <= r <= 200_000_000,
{
    reveal(spec_days_from_civil);
    let y: i32 = if month <= 2 { year - 1 } else { year };
    let era: i32 = if y >= 0 { y / 400 } else { -1 };
    let year_of_era: i32 = y - era * 400;
    let shifted_month: i32 = month as i32 + if month > 2 { -3 } else { 9 };
    let day_of_year: i32 = (153 * shifted_month + 2) / 5 + day as i32 - 1;
    let day_of_era: i32 = year_of_era * 365 + year_of_era / 4 - year_of_era / 100 + day_of_year;
    era * 146_097 + day_of_era - 719_468
}

/// The weekday, Monday being 0, of a day counted from 1970-01-01 (a Thursday).
fn weekday(days: i32) -> (r: u8)
    requires
        -1_000_000 <= days <= 200_000_000,
    ensures
        r == (days + 3) % 7,
{
    let shifted: i64 = days as i64 + 3 + 7 * 1_000_000;
    proof {
        assert(shifted % 7 == (days + 3) % 7) by (nonlinear_arith)
            requires shifted == days + 3 + 7 * 1_000_000, shifted >= 0;
    }
    (shifted % 7) as u8
}

impl FastTimestamp {
    /// Decodes the date and time at fixed byte positions; the separators are not checked.
    pub fn parse(value: &str) -> (r: Option<Self>)
        ensures
            r == spec_parse_timestamp(value.spec_bytes()),
    {
        let bytes = value.as_bytes();
        if bytes.len() < 19 {
            return None;
        }
        let year = number(bytes, 0, 4);
        let month = (number(bytes, 5, 2) % 256) as u8;
        let day = (number(bytes, 8, 2) % 256) as u8;
        let hour = (number(bytes, 11, 2) % 256) as u8;
        let minute = (number(bytes, 14, 2) % 256) as u8;
        let second = (number(bytes, 17, 2) % 256) as u8;
        let days_since_epoch = days_from_civil(year as i32, month, day);
        let seconds_since_midnight = hour as u32 * 3_600 + minute as u32 * 60 + second as u32;
        let weekday_from_monday = weekday(days_since_epoch);
        let r = FastTimestamp { days_since_epoch, hour, seconds_since_midnight, weekday_from_monday };
        Some(r)
    }

    /// Seconds since 1970-01-01T00:00:00.
    pub fn total_seconds(self) -> (r: i64)
        ensures
            r == spec_total_seconds(self),
    {
        self.days_since_epoch as i64 * 86_400 + self.seconds_since_midnight as i64
    }
}

/// A leap year of the proleptic Gregorian calendar.
pub open spec fn is_leap_year(year: int) -> bool {
    year % 4 == 0 && (year % 100 != 0 || year % 400 == 0)
}

/// The number of days of a month of the proleptic Gregorian calendar.
pub open spec fn days_in_month(year: int, month: int) -> int {
    if month == 2 {
        if is_leap_year(year) { 29 } else { 28 }
    } else if month == 4 || month == 6 || month == 9 || month == 11 {
        30
    } else {
        31
    }
}

/// A calendar date.
pub open spec fn valid_date(year: int, month: int, day: int) -> bool {
    1 <= month <= 12 && 1 <= day <= days_in_month(year, month)
}

/// The calendar date that follows the given one.
pub open spec fn next_date(year: int, month: int, day: int) -> (int, int, int) {
    if day < days_in_month(year, month) {
        (year, month, day + 1)
    } else if month < 12 {
        (year, month + 1, 1)
    } else {
        (year + 1, 1, 1)
    }
}

/// The days before the start of the March-based year `y`, shifted by the epoch.
spec fn march_year_start(y: int) -> int {
    let era = if y >= 0 { y / 400 } else { (y - 399) / 400 };
    let year_of_era = y - era * 400;
    era * 146_097 + year_of_era * 365 + year_of_era / 4 - year_of_era / 100
}

proof fn lemma_days_split(year: int, month: int, day: int)
    ensures
        spec_days_from_civil(year, month, day) == march_year_start(if month <= 2 { year - 1 } else { year }) + (153
            * (month + if month > 2 { -3int } else { 9int }) + 2) / 5 + day - 1 - 719_468,
{
    reveal(spec_days_from_civil);
}

/// The March-based year that ends in February of `year` has 365 days, 366
/// when `year` is a leap year.
proof fn lemma_march_year_length(year: int)
    requires
        year >= 0,
    ensures
        march_year_start(year) == march_year_start(year - 1) + 365 + if is_leap_year(year) { 1int } else { 0int },
{
    let y0 = year - 1;
    if year > 0 {
        let e = y0 / 400;
        let r = y0 % 400;
        vstd::arithmetic::div_mod::lemma_fundamental_div_mod(y0, 400);
        assert(y0 == e * 400 + r);
        if r < 399 {
            let r1 = r + 1;
            vstd::arithmetic::div_mod::lemma_fundamental_div_mod_converse(year, 400, e, r1);
            vstd::arithmetic::div_mod::lemma_fundamental_div_mod_converse(year, 4, 100 * e + r1 / 4, r1 % 4);
            vstd::arithmetic::div_mod::lemma_fundamental_div_mod_converse(year, 100, 4 * e + r1 / 100, r1 % 100);
            assert(year % 400 != 0);
            assert(r1 % 100 == 0 ==> r1 % 4 == 0);
        } else {
            vstd::arithmetic::div_mod::lemma_fundamental_div_mod_converse(year, 400, e + 1, 0);
            vstd::arithmetic::div_mod::lemma_fundamental_div_mod_converse(year, 4, 100 * (e + 1), 0);
        }
    } else {
        assert(march_year_start(-1) == -366);
        assert(march_year_start(0) == 0);
    }
}

/// The day count is the proleptic Gregorian day number: the day after any
/// date (the next day of the month, the first of the next month, or New
/// Year's day) is counted exactly one more.
pub proof fn lemma_days_from_civil_next(year: int, month: int, day: int)
    requires
        year >= 0,
        valid_date(year, month, day),
    ensures
        valid_date(next_date(year, month, day).0, next_date(year, month, day).1, next_date(year, month, day).2),
        spec_days_from_civil(next_date(year, month, day).0, next_date(year, month, day).1, next_date(year, month, day).2)
            == spec_days_from_civil(year, month, day) + 1,
{
    let (y, m, d) = next_date(year, month, day);
    lemma_days_split(year, month, day);
    lemma_days_split(y, m, d);
    if day < days_in_month(year, month) {
    } else if month == 2 {
        lemma_march_year_length(year);
    } else if month < 12 {
        if month == 1 {
        } else if month == 3 {
        } else if month == 4 {
        } else if month == 5 {
        } else if month == 6 {
        } else if month == 7 {
        } else if month == 8 {
        } else if month == 9 {
        } else if month == 10 {
        } else {
        }
    } else {
    }
}

/// Day 0 is 1970-01-01.
pub proof fn lemma_days_from_civil_epoch()
    ensures
        spec_days_from_civil(1970, 1, 1) == 0,
{
    reveal(spec_days_from_civil);
}

/// The day count of a date whose year has at most four digit bytes fits the
/// range the decoder works in.
proof fn lemma_days_bounds(year: int, month: int, day: int)
    requires
        0 <= year <= 255 * 1111,
        1 <= month <= 12,
        1 <= day <= 31,
    ensures
        -1_000_000 <= spec_days_from_civil(year, month, day) <= 200_000_000,
{
    lemma_days_split(year, month, day);
    let y = if month <= 2 { year - 1 } else { year };
    if y >= 0 {
        let e = y / 400;
        vstd::arithmetic::div_mod::lemma_fundamental_div_mod(y, 400);
        assert(0 <= e <= 709);
        assert(0 <= e * 146_097 <= 709 * 146_097) by (nonlinear_arith)
            requires 0 <= e <= 709;
    } else {
        assert(march_year_start(-1) == -366);
    }
}

/// Two timestamps on consecutive calendar days at the same time of day are
/// 86 400 seconds apart, and the second falls on the next weekday.
pub proof fn lemma_next_day_timestamp(a: Seq<u8>, b: Seq<u8>)
    requires
        a.len() >= 19,
        b.len() >= 19,
        valid_date(digits_value(a, 0, 4), digits_value(a, 5, 2), digits_value(a, 8, 2)),
        next_date(digits_value(a, 0, 4), digits_value(a, 5, 2), digits_value(a, 8, 2)) == (
            digits_value(b, 0, 4),
            digits_value(b, 5, 2),
            digits_value(b, 8, 2),
        ),
        digits_value(a, 11, 2) == digits_value(b, 11, 2),
        digits_value(a, 14, 2) == digits_value(b, 14, 2),
        digits_value(a, 17, 2) == digits_value(b, 17, 2),
    ensures
        spec_parse_timestamp(a) is Some,
        spec_parse_timestamp(b) is Some,
        spec_total_seconds(spec_parse_timestamp(b).unwrap()) == spec_total_seconds(spec_parse_timestamp(a).unwrap())
            + 86_400,
        spec_parse_timestamp(b).unwrap().weekday_from_monday == (spec_parse_timestamp(a).unwrap().weekday_from_monday
            + 1) % 7,
        spec_parse_timestamp(b).unwrap().hour == spec_parse_timestamp(a).unwrap().hour,
{
    let year = digits_value(a, 0, 4);
    let month = digits_value(a, 5, 2);
    let day = digits_value(a, 8, 2);
    let (y, m, d) = next_date(year, month, day);
    lemma_digits_bounds(a, 0, 4);
    lemma_digits_bounds(b, 0, 4);
    lemma_days_from_civil_next(year, month, day);
    lemma_days_bounds(year, month, day);
    lemma_days_bounds(y, m, d);
    assert(month % 256 == month && day % 256 == day && m % 256 == m && d % 256 == d);
    let da = spec_days_from_civil(year, month, day);
    let db = spec_days_from_civil(y, m, d);
    assert((da as i32) as int == da);
    assert((db as i32) as int == db);
    assert(db == da + 1);
    assert((db + 3) % 7 == ((da + 3) % 7 + 1) % 7);
}

/// The time of day one second after `hour:minute:second`, before midnight.
pub open spec fn next_second(hour: int, minute: int, second: int) -> (int, int, int) {
    if second < 59 {
        (hour, minute, second + 1)
    } else if minute < 59 {
        (hour, minute + 1, 0)
    } else {
        (hour + 1, 0, 0)
    }
}

/// Two timestamps on the same date one second apart within the day (the
/// second rolling over into the minute, the minute into the hour) are one
/// second apart in total, on the same weekday.
#[verifier::rlimit(60)]
pub proof fn lemma_next_second_timestamp(a: Seq<u8>, b: Seq<u8>)
    requires
        a.len() >= 19,
        b.len() >= 19,
        digits_value(a, 0, 4) == digits_value(b, 0, 4),
        digits_value(a, 5, 2) == digits_value(b, 5, 2),
        digits_value(a, 8, 2) == digits_value(b, 8, 2),
        valid_date(digits_value(a, 0, 4), digits_value(a, 5, 2), digits_value(a, 8, 2)),
        digits_value(a, 11, 2) <= 23,
        digits_value(a, 14, 2) <= 59,
        digits_value(a, 17, 2) <= 59,
        !(digits_value(a, 11, 2) == 23 && digits_value(a, 14, 2) == 59 && digits_value(a, 17, 2) == 59),
        next_second(digits_value(a, 11, 2), digits_value(a, 14, 2), digits_value(a, 17, 2)) == (
            digits_value(b, 11, 2),
            digits_value(b, 14, 2),
            digits_value(b, 17, 2),
        ),
    ensures
        spec_parse_timestamp(a) is Some,
        spec_parse_timestamp(b) is Some,
        spec_total_seconds(spec_parse_timestamp(b).unwrap()) == spec_total_seconds(spec_parse_timestamp(a).unwrap())
            + 1,
        spec_parse_timestamp(b).unwrap().weekday_from_monday == spec_parse_timestamp(a).unwrap().weekday_from_monday,
{
    let year = digits_value(a, 0, 4);
    let month = digits_value(a, 5, 2);
    let day = digits_value(a, 8, 2);
    lemma_digits_bounds(a, 0, 4);
    lemma_days_bounds(year, month, day);
    let da = spec_days_from_civil(year, month, day);
    assert((da as i32) as int == da);
    assert(month % 256 == month && day % 256 == day);
    let (h1, m1, s1) = (digits_value(a, 11, 2), digits_value(a, 14, 2), digits_value(a, 17, 2));
    let (h2, m2, s2) = (digits_value(b, 11, 2), digits_value(b, 14, 2), digits_value(b, 17, 2));
    lemma_digits_bounds(a, 11, 2);
    lemma_digits_bounds(a, 14, 2);
    lemma_digits_bounds(a, 17, 2);
    assert(h1 % 256 == h1 && m1 % 256 == m1 && s1 % 256 == s1);
    assert(h2 % 256 == h2 && m2 % 256 == m2 && s2 % 256 == s2);
    assert(h2 * 3600 + m2 * 60 + s2 == h1 * 3600 + m1 * 60 + s1 + 1);
    assert(0 <= h2 * 3600 + m2 * 60 + s2 < 86_400);
}

/// 1970-01-01, day 0, was a Thursday: every date a whole number of weeks
/// from it (before or after) reads as a Thursday, 3 counting from Monday as 0.
pub proof fn lemma_weekday_of_epoch_weeks(a: Seq<u8>)
    requires
        a.len() >= 19,
        valid_date(digits_value(a, 0, 4), digits_value(a, 5, 2), digits_value(a, 8, 2)),
        spec_days_from_civil(digits_value(a, 0, 4), digits_value(a, 5, 2), digits_value(a, 8, 2)) % 7 == 0,
    ensures
        spec_parse_timestamp(a) matches Some(t) && t.weekday_from_monday == 3,
{
    let year = digits_value(a, 0, 4);
    let month = digits_value(a, 5, 2);
    let day = digits_value(a, 8, 2);
    lemma_digits_bounds(a, 0, 4);
    lemma_days_bounds(year, month, day);
    assert(month % 256 == month && day % 256 == day);
}

} // verus!
