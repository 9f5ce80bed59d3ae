//! Calendar arithmetic and the Buddhist-Era date normalizer.
//!
//! A raw date field holds a range such as `"2567-03-02 17:55:38 - 18:25:47"`.
//! The normalizer takes the 19-character start instant, subtracts the fixed
//! Buddhist-Era offset of 543 years from the 4-digit year, and converts the
//! result to seconds since the Unix epoch, assuming UTC throughout.

use vstd::prelude::*;
use vstd::arithmetic::div_mod::lemma_mod_multiples_vanish;
use crate::strings::{all_digits, digits_value, is_digit, is_digit_char, parse_digits};

verus! {

/// The fixed Buddhist-Era to Gregorian year offset: a calendar fact.
pub const BE_OFFSET: i64 = 543;

// ---------------------------------------------------------------------------
// The proleptic Gregorian calendar as a mathematical model
// ---------------------------------------------------------------------------

/// A year is a leap year in the proleptic Gregorian calendar exactly when it
/// is divisible by 4 but not by 100, or divisible by 400.
pub open spec fn spec_is_leap_year(y: int) -> bool {
    (y % 4 == 0 && y % 100 != 0) || y % 400 == 0
}

/// Number of days of month `m` of year `y`.
pub open spec fn spec_days_in_month(y: int, m: int) -> int {
    if m == 2 {
        if spec_is_leap_year(y) { 29 } else { 28 }
    } else if m == 4 || m == 6 || m == 9 || m == 11 {
        30
    } else {
        31
    }
}

/// Number of days of year `y`.
pub open spec fn spec_days_in_year(y: int) -> int {
    if spec_is_leap_year(y) { 366 } else { 365 }
}

/// Days from 1970-01-01 to the first day of year `y` (negative for years
/// before 1970).
pub open spec fn days_before_year(y: int) -> int
    decreases (if y >= 1970 { y - 1970 } else { 1970 - y }),
{
    if y == 1970 {
        0
    } else if y > 1970 {
        days_before_year(y - 1) + spec_days_in_year(y - 1)
    } else {
        days_before_year(y + 1) - spec_days_in_year(y)
    }
}

/// Days from the first day of year `y` to the first day of its month `m`.
pub open spec fn days_before_month(y: int, m: int) -> int
    decreases m,
{
    if m <= 1 {
        0
    } else {
        days_before_month(y, m - 1) + spec_days_in_month(y, m - 1)
    }
}

/// Days from 1970-01-01 to the civil date `y-m-d`.
pub open spec fn days_from_epoch(y: int, m: int, d: int) -> int {
    days_before_year(y) + days_before_month(y, m) + (d - 1)
}

/// Seconds since the Unix epoch of the instant `y-m-d h:mi:s`, taken as UTC.
pub open spec fn instant_seconds(y: int, m: int, d: int, h: int, mi: int, s: int) -> int {
    days_from_epoch(y, m, d) * 86400 + h * 3600 + mi * 60 + s
}

/// The components form an existing calendar date and time of day.
pub open spec fn valid_date_time(y: int, m: int, d: int, h: int, mi: int, s: int) -> bool {
    &&& 1 <= m <= 12
    &&& 1 <= d <= spec_days_in_month(y, m)
    &&& 0 <= h < 24
    &&& 0 <= mi < 60
    &&& 0 <= s < 60
}

proof fn lemma_days_before_year_bound(y: int)
    requires
        -11000 <= y <= 11000,
    ensures
        -366 * 13000 <= days_before_year(y) <= 366 * 13000,
        y > 1970 ==> days_before_year(y) >= y - 1970,
        y < 1970 ==> days_before_year(y) <= -(1970 - y),
    decreases (if y >= 1970 { y - 1970 } else { 1970 - y }),
{
    if y > 1970 {
        lemma_days_before_year_bound(y - 1);
        assert(days_before_year(y) <= 366 * 13000) by {
            assert(days_before_year(y) == days_before_year(y - 1) + spec_days_in_year(y - 1));
            assert(days_before_year(y - 1) <= 366 * (y - 1 - 1970)) by {
                lemma_days_before_year_small_bound(y - 1);
            }
        }
    } else if y < 1970 {
        lemma_days_before_year_bound(y + 1);
        assert(days_before_year(y) >= -366 * 13000) by {
            lemma_days_before_year_small_bound(y);
        }
    }
}

proof fn lemma_days_before_year_small_bound(y: int)
    ensures
        y >= 1970 ==> 365 * (y - 1970) <= days_before_year(y) <= 366 * (y - 1970),
        y < 1970 ==> -366 * (1970 - y) <= days_before_year(y) <= -365 * (1970 - y),
    decreases (if y >= 1970 { y - 1970 } else { 1970 - y }),
{
    if y > 1970 {
        lemma_days_before_year_small_bound(y - 1);
    } else if y < 1970 {
        lemma_days_before_year_small_bound(y + 1);
    }
}

proof fn lemma_days_before_month_bound(y: int, m: int)
    requires
        1 <= m <= 13,
    ensures
        0 <= days_before_month(y, m) <= 31 * (m - 1),
    decreases m,
{
    if m > 1 {
        lemma_days_before_month_bound(y, m - 1);
    }
}

/// Shifting a year by a multiple of 400 does not change leapness.
proof fn lemma_leap_shift(y: int)
    ensures
        spec_is_leap_year(y + 800000) == spec_is_leap_year(y),
{
    lemma_mod_multiples_vanish(200000, y, 4);
    lemma_mod_multiples_vanish(8000, y, 100);
    lemma_mod_multiples_vanish(2000, y, 400);
}

// ---------------------------------------------------------------------------
// Executable calendar arithmetic
// ---------------------------------------------------------------------------

/// Decides whether `y` is a Gregorian leap year (proleptic for years before
/// 1; the year may be negative).
pub fn is_leap_year(y: i64) -> (r: bool)
    requires
        -11000 <= y <= 11000,
    ensures
        r == spec_is_leap_year(y as int),
{
    let z = y + 800000;
    proof {
        lemma_leap_shift(y as int);
    }
    (z % 4 == 0 && z % 100 != 0) || z % 400 == 0
}

/// Number of days of month `m` of year `y`.
pub fn days_in_month(y: i64, m: i64) -> (r: i64)
    requires
        -11000 <= y <= 11000,
        1 <= m <= 12,
    ensures
        r == spec_days_in_month(y as int, m as int),
{
    if m == 2 {
        if is_leap_year(y) { 29 } else { 28 }
    } else if m == 4 || m == 6 || m == 9 || m == 11 {
        30
    } else {
        31
    }
}

fn days_in_year(y: i64) -> (r: i64)
    requires
        -11000 <= y <= 11000,
    ensures
        r == spec_days_in_year(y as int),
{
    if is_leap_year(y) { 366 } else { 365 }
}

/// Days from 1970-01-01 to the first day of year `y`.
fn days_before_year_exec(y: i64) -> (r: i64)
    requires
        -10000 <= y <= 10000,
    ensures
        r == days_before_year(y as int),
{
    proof {
        lemma_days_before_year_bound(y as int);
    }
    if y >= 1970 {
        let mut acc: i64 = 0;
        let mut i: i64 = 1970;
        while i < y
            invariant
                1970 <= i <= if y >= 1970 { y as int } else { 1970 },
                y <= 10000,
                acc == days_before_year(i as int),
                -366 * 13000 <= acc <= 366 * 13000,
            decreases y - i,
        {
            proof {
                lemma_days_before_year_bound(i as int);
                lemma_days_before_year_bound(i + 1);
            }
            acc = acc + days_in_year(i);
            i = i + 1;
        }
        acc
    } else {
        let mut acc: i64 = 0;
        let mut i: i64 = y;
        while i < 1970
            invariant
                -10000 <= y <= i <= 1970,
                days_before_year(y as int) == acc + days_before_year(i as int),
                -366 * 13000 <= acc <= 366 * 13000,
            decreases 1970 - i,
        {
            proof {
                lemma_days_before_year_bound(y as int);
                lemma_days_before_year_bound(i as int);
                lemma_days_before_year_bound(i + 1);
            }
            acc = acc - days_in_year(i);
            i = i + 1;
        }
        acc
    }
}

/// Days from the first day of year `y` to the first day of its month `m`.
fn days_before_month_exec(y: i64, m: i64) -> (r: i64)
    requires
        -10000 <= y <= 10000,
        1 <= m <= 13,
    ensures
        r == days_before_month(y as int, m as int),
{
    let mut acc: i64 = 0;
    let mut i: i64 = 1;
    while i < m
        invariant
            -10000 <= y <= 10000,
            1 <= i <= m <= 13,
            acc == days_before_month(y as int, i as int),
            0 <= acc <= 372,
        decreases m - i,
    {
        proof {
            lemma_days_before_month_bound(y as int, i as int);
            lemma_days_before_month_bound(y as int, i + 1);
        }
        acc = acc + days_in_month(y, i);
        i = i + 1;
    }
    acc
}

/// Seconds since the Unix epoch of the instant `y-m-d h:mi:s`, taken as UTC.
pub fn instant_seconds_exec(y: i64, m: i64, d: i64, h: i64, mi: i64, s: i64) -> (r: i64)
    requires
        -10000 <= y <= 10000,
        valid_date_time(y as int, m as int, d as int, h as int, mi as int, s as int),
    ensures
        r == instant_seconds(y as int, m as int, d as int, h as int, mi as int, s as int),
{
    proof {
        lemma_days_before_year_bound(y as int);
        lemma_days_before_month_bound(y as int, m as int);
    }
    let days = days_before_year_exec(y) + days_before_month_exec(y, m) + (d - 1);
    days * 86400 + h * 3600 + mi * 60 + s
}

// ---------------------------------------------------------------------------
// The Buddhist-Era date-range normalizer
// ---------------------------------------------------------------------------

/// The 19-character prefix has the shape `YYYY-MM-DD HH:MM:SS`.
pub open spec fn be_layout_ok(s: Seq<char>) -> bool {
    &&& s.len() >= 19
    &&& all_digits(s.subrange(0, 4))
    &&& s[4] == '-'
    &&& all_digits(s.subrange(5, 7))
    &&& s[7] == '-'
    &&& all_digits(s.subrange(8, 10))
    &&& s[10] == ' '
    &&& all_digits(s.subrange(11, 13))
    &&& s[13] == ':'
    &&& all_digits(s.subrange(14, 16))
    &&& s[16] == ':'
    &&& all_digits(s.subrange(17, 19))
}

/// The Gregorian year after the Buddhist-Era correction.
pub open spec fn be_year(s: Seq<char>) -> int {
    digits_value(s.subrange(0, 4)) - 543
}

pub open spec fn be_month(s: Seq<char>) -> int {
    digits_value(s.subrange(5, 7))
}

pub open spec fn be_day(s: Seq<char>) -> int {
    digits_value(s.subrange(8, 10))
}

pub open spec fn be_hour(s: Seq<char>) -> int {
    digits_value(s.subrange(11, 13))
}

pub open spec fn be_minute(s: Seq<char>) -> int {
    digits_value(s.subrange(14, 16))
}

pub open spec fn be_second(s: Seq<char>) -> int {
    digits_value(s.subrange(17, 19))
}

/// A raw date field normalizes successfully: the 19-character prefix is
/// well-shaped and, after the year correction, names an existing Gregorian
/// date and time of day.
pub open spec fn be_date_ok(s: Seq<char>) -> bool {
    &&& be_layout_ok(s)
    &&& valid_date_time(be_year(s), be_month(s), be_day(s), be_hour(s), be_minute(s), be_second(s))
}

/// The canonical instant of a raw date field that normalizes successfully.
pub open spec fn be_timestamp(s: Seq<char>) -> int {
    instant_seconds(be_year(s), be_month(s), be_day(s), be_hour(s), be_minute(s), be_second(s))
}

/// Checks that `s[from..to]` is all digits.
fn check_digits(s: &str, from: usize, to: usize) -> (r: bool)
    requires
        from <= to <= s@.len(),
    ensures
        r == all_digits(s@.subrange(from as int, to as int)),
{
    let mut i: usize = from;
    while i < to
        invariant
            from <= i <= to <= s@.len(),
            forall|k: int| from <= k < i ==> is_digit(#[trigger] s@[k]),
        decreases to - i,
    {
        if !is_digit_char(s.get_char(i)) {
            proof {
                assert(s@.subrange(from as int, to as int)[i - from] == s@[i as int]);
            }
            return false;
        }
        i = i + 1;
    }
    proof {
        assert(forall|k: int|
            0 <= k < to - from ==> is_digit(#[trigger] s@.subrange(from as int, to as int)[k]));
    }
    true
}

/// Normalizes a raw Buddhist-Era date-range field to Unix seconds.
///
/// Returns `None`, and never fails, on any malformed input: a prefix shorter
/// than 19 characters, a non-digit where a digit belongs, or components that
/// name no existing calendar date.
pub fn date_to_timestamp(date_raw: &str) -> (r: Option<i64>)
    ensures
        r is Some <==> be_date_ok(date_raw@),
        r is Some ==> r->0 == be_timestamp(date_raw@),
{
    let n = date_raw.unicode_len();
    if n < 19 {
        return None;
    }
    if !(check_digits(date_raw, 0, 4) && check_digits(date_raw, 5, 7)
        && check_digits(date_raw, 8, 10) && check_digits(date_raw, 11, 13)
        && check_digits(date_raw, 14, 16) && check_digits(date_raw, 17, 19)) {
        return None;
    }
    if !(date_raw.get_char(4) == '-' && date_raw.get_char(7) == '-'
        && date_raw.get_char(10) == ' ' && date_raw.get_char(13) == ':'
        && date_raw.get_char(16) == ':') {
        return None;
    }
    let year_be = parse_digits(date_raw, 0, 4) as i64;
    let month = parse_digits(date_raw, 5, 7) as i64;
    let day = parse_digits(date_raw, 8, 10) as i64;
    let hour = parse_digits(date_raw, 11, 13) as i64;
    let minute = parse_digits(date_raw, 14, 16) as i64;
    let second = parse_digits(date_raw, 17, 19) as i64;
    proof {
        crate::strings::lemma_digits_value_bound(date_raw@.subrange(0, 4));
        assert(crate::strings::pow10(4) == 10000) by {
            reveal_with_fuel(crate::strings::pow10, 5);
        }
        assert(crate::strings::pow10(2) == 100) by {
            reveal_with_fuel(crate::strings::pow10, 3);
        }
    }
    let year = year_be - BE_OFFSET;
    if !(1 <= month && month <= 12) {
        return None;
    }
    if !(1 <= day && day <= days_in_month(year, month)) {
        return None;
    }
    if !(hour < 24 && minute < 60 && second < 60) {
        return None;
    }
    Some(instant_seconds_exec(year, month, day, hour, minute, second))
}

} // verus!
