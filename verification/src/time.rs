//! Calendar dates and UTC timestamps, modeled as plain values.
//!
//! A `Date` is a proleptic-Gregorian calendar day in years 0 through 9999
//! (the range a four-digit wire format can carry; year 10000 is admitted
//! only as the exclusive upper bound of a window). A `Timestamp` is a date
//! with a second-of-day, always in UTC. `day_index` maps a date to the
//! number of days since 0000-01-01, the ruler against which all the
//! day-stepping functions are specified.

use vstd::prelude::*;
use vstd::string::*;

verus! {

/// A calendar date: year, month (1..=12), day (1..=days in that month).
#[derive(Clone, Copy, Debug, PartialEq, Eq, Structural)]
pub struct Date {
    pub year: u32,
    pub month: u32,
    pub day: u32,
}

/// A UTC instant: a date plus a second-of-day below 86400.
#[derive(Clone, Copy, Debug, PartialEq, Eq, Structural)]
pub struct Timestamp {
    pub date: Date,
    pub secs: u32,
}

pub const SECS_PER_DAY: u64 = 86400;

/// Gregorian leap-year rule.
pub open spec fn is_leap(y: int) -> bool {
    y % 4 == 0 && (y % 100 != 0 || y % 400 == 0)
}

pub open spec fn spec_days_in_month(y: int, m: int) -> int {
    if m == 2 {
        if is_leap(y) {
            29
        } else {
            28
        }
    } else if m == 4 || m == 6 || m == 9 || m == 11 {
        30
    } else {
        31
    }
}

pub open spec fn spec_year_len(y: int) -> int {
    if is_leap(y) {
        366
    } else {
        365
    }
}

/// Days in all years before `y`, counting from year 0.
pub open spec fn days_before_year(y: int) -> int
    decreases y,
{
    if y <= 0 {
        0
    } else {
        days_before_year(y - 1) + spec_year_len(y - 1)
    }
}

/// Days in the months of year `y` before month `m`.
pub open spec fn days_before_month(y: int, m: int) -> int
    decreases m,
{
    if m <= 1 {
        0
    } else {
        days_before_month(y, m - 1) + spec_days_in_month(y, m - 1)
    }
}

/// Number of days from 0000-01-01 to this date.
pub open spec fn day_index(d: Date) -> int {
    days_before_year(d.year as int) + days_before_month(d.year as int, d.month as int) + d.day - 1
}

/// A well-formed date within the supported range. Year 10000 is allowed
/// only as 10000-01-01, the exclusive end of the largest window.
pub open spec fn date_valid(d: Date) -> bool {
    &&& d.year <= 10000
    &&& 1 <= d.month <= 12
    &&& 1 <= d.day <= spec_days_in_month(d.year as int, d.month as int)
    &&& (d.year == 10000 ==> d.month == 1 && d.day == 1)
}

/// A well-formed UTC instant a record can carry: its date is strictly
/// below year 10000, so it fits the four-digit wire format.
pub open spec fn ts_valid(t: Timestamp) -> bool {
    &&& date_valid(t.date)
    &&& t.date.year <= 9999
    &&& t.secs < 86400
}

/// Seconds from 0000-01-01T00:00:00Z to this instant.
pub open spec fn ts_total_secs(t: Timestamp) -> int {
    day_index(t.date) * 86400 + t.secs
}

/// Timestamp order: by day, then by second-of-day.
pub open spec fn ts_le(a: Timestamp, b: Timestamp) -> bool {
    ts_total_secs(a) <= ts_total_secs(b)
}

pub open spec fn ts_lt(a: Timestamp, b: Timestamp) -> bool {
    ts_total_secs(a) < ts_total_secs(b)
}

/// `days_before_year` grows by at least one day per year and at most 366.
pub proof fn lemma_dby_bounds(y: int)
    requires
        y >= 0,
    ensures
        365 * y <= days_before_year(y) <= 366 * y,
    decreases y,
{
    if y > 0 {
        lemma_dby_bounds(y - 1);
    }
}

/// `days_before_year` is strictly monotone.
pub proof fn lemma_dby_mono(a: int, b: int)
    requires
        0 <= a < b,
    ensures
        days_before_year(a) + 365 * (b - a) <= days_before_year(b),
    decreases b,
{
    if a < b - 1 {
        lemma_dby_mono(a, b - 1);
    }
}

/// The months of year `y` sum to the year's length.
pub proof fn lemma_year_days(y: int)
    ensures
        days_before_month(y, 13) == spec_year_len(y),
{
    assert(days_before_month(y, 1) == 0);
    assert(days_before_month(y, 2) == days_before_month(y, 1) + spec_days_in_month(y, 1));
    assert(days_before_month(y, 3) == days_before_month(y, 2) + spec_days_in_month(y, 2));
    assert(days_before_month(y, 4) == days_before_month(y, 3) + 31);
    assert(days_before_month(y, 5) == days_before_month(y, 4) + 30);
    assert(days_before_month(y, 6) == days_before_month(y, 5) + 31);
    assert(days_before_month(y, 7) == days_before_month(y, 6) + 30);
    assert(days_before_month(y, 8) == days_before_month(y, 7) + 31);
    assert(days_before_month(y, 9) == days_before_month(y, 8) + 31);
    assert(days_before_month(y, 10) == days_before_month(y, 9) + 30);
    assert(days_before_month(y, 11) == days_before_month(y, 10) + 31);
    assert(days_before_month(y, 12) == days_before_month(y, 11) + 30);
    assert(days_before_month(y, 13) == days_before_month(y, 12) + 31);
}

/// Days before a month are never negative.
pub proof fn lemma_dbm_nonneg(y: int, m: int)
    requires
        m >= 1,
    ensures
        days_before_month(y, m) >= 0,
    decreases m,
{
    if m > 1 {
        lemma_dbm_nonneg(y, m - 1);
    }
}

/// Days before a month never exceed the year's length.
pub proof fn lemma_dbm_bounds(y: int, m: int)
    requires
        1 <= m <= 13,
    ensures
        0 <= days_before_month(y, m) <= days_before_month(y, 13),
        m <= 12 ==> days_before_month(y, m) + spec_days_in_month(y, m) <= days_before_month(y, 13),
    decreases 13 - m,
{
    lemma_dbm_nonneg(y, m);
    if m < 13 {
        lemma_dbm_bounds(y, m + 1);
    }
}

/// A valid date of a timestamp lies below 10000-01-01.
pub proof fn lemma_day_index_range(d: Date)
    requires
        date_valid(d),
        d.year <= 9999,
    ensures
        0 <= day_index(d) < days_before_year(10000),
        days_before_year(10000) <= 3660000,
{
    lemma_dby_bounds(d.year as int);
    lemma_dbm_bounds(d.year as int, d.month as int);
    lemma_year_days(d.year as int);
    lemma_dby_bounds(10000);
    assert(day_index(d) < days_before_year(d.year as int + 1));
    if d.year as int + 1 < 10000 {
        lemma_dby_mono(d.year as int + 1, 10000);
    }
}

/// Days in the given month of the given year.
pub fn days_in_month(y: u32, m: u32) -> (r: u32)
    requires
        1 <= m <= 12,
    ensures
        r == spec_days_in_month(y as int, m as int),
        28 <= r <= 31,
{
    if m == 2 {
        if (y % 4 == 0 && y % 100 != 0) || y % 400 == 0 {
            29
        } else {
            28
        }
    } else if m == 4 || m == 6 || m == 9 || m == 11 {
        30
    } else {
        31
    }
}

/// Number of days from 0000-01-01 to the given date.
pub fn date_index(d: &Date) -> (r: u64)
    requires
        date_valid(*d),
    ensures
        r == day_index(*d),
{
    let mut acc: u64 = 0;
    let mut y: u32 = 0;
    while y < d.year
        invariant
            0 <= y <= d.year,
            d.year <= 10000,
            acc == days_before_year(y as int),
            acc <= 366 * (y as int),
        decreases d.year - y,
    {
        if (y % 4 == 0 && y % 100 != 0) || y % 400 == 0 {
            acc = acc + 366;
        } else {
            acc = acc + 365;
        }
        y = y + 1;
    }
    let mut m: u32 = 1;
    while m < d.month
        invariant
            1 <= m <= d.month,
            date_valid(*d),
            acc == days_before_year(d.year as int) + days_before_month(d.year as int, m as int),
            acc <= 366 * (d.year as int) + 366,
        decreases d.month - m,
    {
        proof {
            lemma_dby_bounds(d.year as int);
            lemma_dbm_bounds(d.year as int, m as int);
            lemma_year_days(d.year as int);
        }
        acc = acc + days_in_month(d.year, m) as u64;
        m = m + 1;
    }
    let r = acc + d.day as u64 - 1;
    r
}

/// The day after `d`.
pub fn next_day(d: &Date) -> (r: Date)
    requires
        date_valid(*d),
        d.year <= 9999,
    ensures
        r == spec_next_day(*d),
        date_valid(r),
        day_index(r) == day_index(*d) + 1,
{
    let dim = days_in_month(d.year, d.month);
    if d.day < dim {
        Date { year: d.year, month: d.month, day: d.day + 1 }
    } else if d.month < 12 {
        let r = Date { year: d.year, month: d.month + 1, day: 1 };
        proof {
            assert(days_before_month(d.year as int, d.month as int + 1)
                == days_before_month(d.year as int, d.month as int)
                    + spec_days_in_month(d.year as int, d.month as int));
        }
        r
    } else {
        let r = Date { year: d.year + 1, month: 1, day: 1 };
        proof {
            lemma_year_days(d.year as int);
            assert(days_before_year(d.year as int + 1)
                == days_before_year(d.year as int) + spec_year_len(d.year as int));
        }
        r
    }
}

/// The day before `d`; `d` must not be the first supported day.
pub fn prev_day(d: &Date) -> (r: Date)
    requires
        date_valid(*d),
        day_index(*d) >= 1,
    ensures
        r == spec_prev_day(*d),
        date_valid(r),
        r.year <= 9999,
        day_index(r) == day_index(*d) - 1,
{
    if d.day > 1 {
        Date { year: d.year, month: d.month, day: d.day - 1 }
    } else if d.month > 1 {
        let r = Date { year: d.year, month: d.month - 1, day: days_in_month(d.year, d.month - 1) };
        proof {
            assert(days_before_month(d.year as int, d.month as int)
                == days_before_month(d.year as int, d.month as int - 1)
                    + spec_days_in_month(d.year as int, d.month as int - 1));
        }
        r
    } else {
        proof {
            if d.year == 0 {
                assert(days_before_year(0) == 0);
                assert(days_before_month(0, 1) == 0);
                assert(false);
            }
        }
        let r = Date { year: d.year - 1, month: 12, day: 31 };
        proof {
            lemma_year_days(d.year as int - 1);
            assert(days_before_year(d.year as int)
                == days_before_year(d.year as int - 1) + spec_year_len(d.year as int - 1));
            assert(days_before_month(d.year as int, 1) == 0);
            assert(day_index(r) == day_index(*d) - 1);
        }
        r
    }
}

/// How many days `d` lies after the preceding (or same) Sunday.
/// 0000-01-01 was a Saturday, six days past a Sunday.
pub open spec fn spec_days_from_sunday(d: Date) -> int {
    (day_index(d) + 6) % 7
}

pub fn days_from_sunday(d: &Date) -> (r: u32)
    requires
        date_valid(*d),
        d.year <= 9999,
    ensures
        r == spec_days_from_sunday(*d),
        r < 7,
{
    let idx = date_index(d);
    proof {
        lemma_day_index_range(*d);
    }
    ((idx + 6) % 7) as u32
}

/// Seconds from 0000-01-01T00:00:00Z to the given instant.
pub fn total_secs(t: &Timestamp) -> (r: u64)
    requires
        ts_valid(*t),
    ensures
        r == ts_total_secs(*t),
        r < days_before_year(10000) * 86400,
{
    let d = date_index(&t.date);
    proof {
        lemma_day_index_range(t.date);
        assert(day_index(t.date) * 86400 <= 3660000 * 86400) by (nonlinear_arith)
            requires
                0 <= day_index(t.date) <= 3660000,
        ;
        assert(ts_total_secs(*t) < days_before_year(10000) * 86400) by (nonlinear_arith)
            requires
                day_index(t.date) < days_before_year(10000),
                ts_total_secs(*t) == day_index(t.date) * 86400 + t.secs,
                0 <= t.secs < 86400,
        ;
    }
    d * SECS_PER_DAY + t.secs as u64
}

/// The exclusive upper bound of `total_secs` over all valid timestamps.
pub fn max_total_secs() -> (r: u64)
    ensures
        r == days_before_year(10000) * 86400,
{
    let limit = Date { year: 10000, month: 1, day: 1 };
    let d = date_index(&limit);
    proof {
        lemma_dby_bounds(10000);
    }
    d * SECS_PER_DAY
}

/// The instant a given number of seconds after 0000-01-01T00:00:00Z:
/// the inverse of `total_secs` over the supported range.
pub fn from_total_secs(total: u64) -> (r: Timestamp)
    requires
        total < days_before_year(10000) * 86400,
    ensures
        ts_valid(r),
        ts_total_secs(r) == total,
{
    let days: u64 = total / SECS_PER_DAY;
    let secs: u64 = total % SECS_PER_DAY;
    proof {
        lemma_dby_bounds(10000);
        assert(days < days_before_year(10000)) by (nonlinear_arith)
            requires
                total < days_before_year(10000) * 86400,
                days == total / 86400,
                0 <= days_before_year(10000) <= 3660000,
        ;
    }
    let mut y: u32 = 0;
    let mut rem: u64 = days;
    loop
        invariant
            y <= 9999,
            days_before_year(y as int) + rem == days,
            days < days_before_year(10000),
        ensures
            y <= 9999,
            days_before_year(y as int) + rem == days,
            rem < spec_year_len(y as int),
        decreases rem,
    {
        let ylen: u64 = if (y % 4 == 0 && y % 100 != 0) || y % 400 == 0 {
            366
        } else {
            365
        };
        proof {
            assert(ylen == spec_year_len(y as int));
        }
        if rem < ylen {
            proof {
                assert(rem < spec_year_len(y as int));
            }
            break;
        }
        proof {
            assert(days_before_year(y as int + 1)
                == days_before_year(y as int) + spec_year_len(y as int));
            if y == 9999 {
                assert(days >= days_before_year(10000));
                assert(false);
            } else {
                lemma_dby_mono(y as int + 1, 10000);
            }
        }
        rem = rem - ylen;
        y = y + 1;
    }
    proof {
        lemma_year_days(y as int);
        assert(days_before_month(y as int, 1) == 0);
    }
    let mut m: u32 = 1;
    loop
        invariant
            1 <= m <= 12,
            y <= 9999,
            days_before_year(y as int) + days_before_month(y as int, m as int) + rem == days,
            days_before_month(y as int, m as int) + rem < days_before_month(y as int, 13),
        ensures
            1 <= m <= 12,
            days_before_year(y as int) + days_before_month(y as int, m as int) + rem == days,
            rem < spec_days_in_month(y as int, m as int),
        decreases 12 - m,
    {
        let dim: u32 = days_in_month(y, m);
        if rem < dim as u64 {
            proof {
                assert(rem < spec_days_in_month(y as int, m as int));
            }
            break;
        }
        proof {
            lemma_dbm_bounds(y as int, m as int);
            if m == 12 {
                assert(days_before_month(y as int, 13)
                    == days_before_month(y as int, 12) + spec_days_in_month(y as int, 12));
                assert(false);
            }
        }
        rem = rem - dim as u64;
        m = m + 1;
    }
    let r = Timestamp {
        date: Date { year: y, month: m, day: (rem + 1) as u32 },
        secs: secs as u32,
    };
    proof {
        assert(ts_total_secs(r) == days * 86400 + secs);
        assert(days * 86400 + secs == total) by (nonlinear_arith)
            requires
                days == total / 86400,
                secs == total % 86400,
        ;
    }
    r
}

/// The instant a given number of seconds after 1970-01-01T00:00:00Z,
/// or nothing if that falls beyond year 9999.
pub fn timestamp_from_unix(secs: u64) -> (r: Option<Timestamp>)
    ensures
        r matches Some(t) ==> ts_valid(t) && ts_total_secs(t) == secs + days_before_year(1970)
            * 86400,
        r is None <==> secs + days_before_year(1970) * 86400 >= days_before_year(10000) * 86400,
{
    let epoch = Date { year: 1970, month: 1, day: 1 };
    let base = date_index(&epoch);
    proof {
        lemma_dby_bounds(1970);
        lemma_dby_bounds(10000);
        assert(days_before_month(1970, 1) == 0);
        assert(base == days_before_year(1970));
    }
    let limit = max_total_secs();
    if secs >= limit {
        return None;
    }
    let total = secs + base * 86400;
    if total >= limit {
        return None;
    }
    Some(from_total_secs(total))
}

/// Decides `date_valid` for a date in the wire range (year <= 9999).
pub fn is_valid_date(d: &Date) -> (r: bool)
    ensures
        r == (date_valid(*d) && d.year <= 9999),
{
    d.year <= 9999 && 1 <= d.month && d.month <= 12 && 1 <= d.day && d.day <= days_in_month(
        d.year,
        d.month,
    )
}

/// Decides `ts_valid`.
pub fn is_valid_timestamp(t: &Timestamp) -> (r: bool)
    ensures
        r == ts_valid(*t),
{
    is_valid_date(&t.date) && t.secs < 86400
}

/// Compares two instants; the order is total seconds since the epoch.
pub fn ts_leq(a: &Timestamp, b: &Timestamp) -> (r: bool)
    requires
        ts_valid(*a),
        ts_valid(*b),
    ensures
        r == ts_le(*a, *b),
{
    let ta = total_secs(a);
    let tb = total_secs(b);
    ta <= tb
}

/// Strict version of `ts_leq`.
pub fn ts_less(a: &Timestamp, b: &Timestamp) -> (r: bool)
    requires
        ts_valid(*a),
        ts_valid(*b),
    ensures
        r == ts_lt(*a, *b),
{
    let ta = total_secs(a);
    let tb = total_secs(b);
    ta < tb
}

// ------------------------------------------------------------------
// Text forms: "YYYY-MM-DD" dates and RFC-3339 timestamps.
// ------------------------------------------------------------------

/// The decimal digit character for a value 0..=9.
pub open spec fn digit_char(d: int) -> char {
    if d == 0 {
        '0'
    } else if d == 1 {
        '1'
    } else if d == 2 {
        '2'
    } else if d == 3 {
        '3'
    } else if d == 4 {
        '4'
    } else if d == 5 {
        '5'
    } else if d == 6 {
        '6'
    } else if d == 7 {
        '7'
    } else if d == 8 {
        '8'
    } else {
        '9'
    }
}

/// The value of a decimal digit character, or -1.
pub open spec fn char_digit(c: char) -> int {
    if c == '0' {
        0
    } else if c == '1' {
        1
    } else if c == '2' {
        2
    } else if c == '3' {
        3
    } else if c == '4' {
        4
    } else if c == '5' {
        5
    } else if c == '6' {
        6
    } else if c == '7' {
        7
    } else if c == '8' {
        8
    } else if c == '9' {
        9
    } else {
        -1
    }
}

pub open spec fn is_digit(c: char) -> bool {
    char_digit(c) >= 0
}

/// Two decimal digits, zero-padded.
pub open spec fn two_digits(n: int) -> Seq<char> {
    seq![digit_char(n / 10), digit_char(n % 10)]
}

/// Four decimal digits, zero-padded.
pub open spec fn four_digits(n: int) -> Seq<char> {
    two_digits(n / 100) + two_digits(n % 100)
}

/// The wire form of a date: "YYYY-MM-DD".
pub open spec fn spec_fmt_date(d: Date) -> Seq<char> {
    four_digits(d.year as int) + seq!['-'] + two_digits(d.month as int) + seq!['-'] + two_digits(
        d.day as int,
    )
}

/// The wire form of a UTC instant: "YYYY-MM-DDTHH:MM:SS+00:00".
pub open spec fn spec_fmt_rfc3339(t: Timestamp) -> Seq<char> {
    spec_fmt_date(t.date) + seq!['T'] + two_digits(t.secs as int / 3600) + seq![':'] + two_digits(
        (t.secs as int % 3600) / 60,
    ) + seq![':'] + two_digits((t.secs as int % 3600) % 60) + seq!['+', '0', '0', ':', '0', '0']
}

/// The value of the two digits at `i`, or -1 if either is no digit.
pub open spec fn parse_two(s: Seq<char>, i: int) -> int {
    if is_digit(s[i]) && is_digit(s[i + 1]) {
        char_digit(s[i]) * 10 + char_digit(s[i + 1])
    } else {
        -1
    }
}

/// The value of the four digits at `i`, or -1.
pub open spec fn parse_four(s: Seq<char>, i: int) -> int {
    if parse_two(s, i) >= 0 && parse_two(s, i + 2) >= 0 {
        parse_two(s, i) * 100 + parse_two(s, i + 2)
    } else {
        -1
    }
}

/// What a "YYYY-MM-DD" string denotes: a valid calendar date, or nothing.
pub open spec fn spec_parse_date(s: Seq<char>) -> Option<Date> {
    if s.len() == 10 && s[4] == '-' && s[7] == '-' && parse_four(s, 0) >= 0 && parse_two(s, 5) >= 0
        && parse_two(s, 8) >= 0 {
        let d = Date {
            year: parse_four(s, 0) as u32,
            month: parse_two(s, 5) as u32,
            day: parse_two(s, 8) as u32,
        };
        if 1 <= d.month <= 12 && 1 <= d.day <= spec_days_in_month(d.year as int, d.month as int) {
            Some(d)
        } else {
            None
        }
    } else {
        None
    }
}

/// First position at or after `i` holding no digit.
pub open spec fn skip_digits(s: Seq<char>, i: int) -> int
    decreases s.len() - i,
{
    if i < s.len() && is_digit(s[i]) {
        skip_digits(s, i + 1)
    } else {
        i
    }
}

pub open spec fn spec_next_day(d: Date) -> Date {
    if d.day < spec_days_in_month(d.year as int, d.month as int) {
        Date { year: d.year, month: d.month, day: (d.day + 1) as u32 }
    } else if d.month < 12 {
        Date { year: d.year, month: (d.month + 1) as u32, day: 1 }
    } else {
        Date { year: (d.year + 1) as u32, month: 1, day: 1 }
    }
}

pub open spec fn spec_prev_day(d: Date) -> Date {
    if d.day > 1 {
        Date { year: d.year, month: d.month, day: (d.day - 1) as u32 }
    } else if d.month > 1 {
        Date {
            year: d.year,
            month: (d.month - 1) as u32,
            day: spec_days_in_month(d.year as int, d.month as int - 1) as u32,
        }
    } else {
        Date { year: (d.year - 1) as u32, month: 12, day: 31 }
    }
}

/// A local instant (date, second-of-day) shifted to UTC by an offset in
/// minutes. The shift crosses at most one midnight; a result outside the
/// supported range is nothing.
pub open spec fn spec_normalize(d: Date, sod: int, off_min: int) -> Option<Timestamp> {
    let t = sod - off_min * 60;
    if 0 <= t < 86400 {
        Some(Timestamp { date: d, secs: t as u32 })
    } else if t < 0 {
        if day_index(d) >= 1 {
            Some(Timestamp { date: spec_prev_day(d), secs: (t + 86400) as u32 })
        } else {
            None
        }
    } else {
        if spec_next_day(d).year <= 9999 {
            Some(Timestamp { date: spec_next_day(d), secs: (t - 86400) as u32 })
        } else {
            None
        }
    }
}

/// What an RFC-3339 string denotes. The date and clock fields sit at
/// fixed positions; a fractional second is read over and discarded; the
/// offset is "Z" or a signed "HH:MM", and the instant is shifted to UTC.
pub open spec fn spec_parse_rfc3339(s: Seq<char>) -> Option<Timestamp> {
    if s.len() >= 20 && spec_parse_date(s.subrange(0, 10)) is Some && (s[10] == 'T' || s[10] == 't'
        || s[10] == ' ') && s[13] == ':' && s[16] == ':' && 0 <= parse_two(s, 11) < 24 && 0
        <= parse_two(s, 14) < 60 && 0 <= parse_two(s, 17) < 60 {
        let d = spec_parse_date(s.subrange(0, 10)).unwrap();
        let sod = parse_two(s, 11) * 3600 + parse_two(s, 14) * 60 + parse_two(s, 17);
        let p = if s[19] == '.' {
            skip_digits(s, 20)
        } else {
            19
        };
        if s[19] == '.' && p == 20 {
            None
        } else if p < s.len() && (s[p] == 'Z' || s[p] == 'z') && p + 1 == s.len() {
            spec_normalize(d, sod, 0)
        } else if p < s.len() && (s[p] == '+' || s[p] == '-') && p + 6 == s.len() && s[p + 3] == ':'
            && 0 <= parse_two(s, p + 1) < 24 && 0 <= parse_two(s, p + 4) < 60 {
            let off = parse_two(s, p + 1) * 60 + parse_two(s, p + 4);
            spec_normalize(d, sod, if s[p] == '-' { -off } else { off })
        } else {
            None
        }
    } else {
        None
    }
}

/// Relies on std's String::push: appends exactly the given character.
#[verifier::external_body]
pub(crate) fn push_char(s: &mut String, c: char)
    ensures
        final(s)@ == old(s)@.push(c),
{
    s.push(c);
}

pub(crate) fn digit_to_char(d: u32) -> (c: char)
    requires
        d < 10,
    ensures
        c == digit_char(d as int),
{
    match d {
        0 => '0',
        1 => '1',
        2 => '2',
        3 => '3',
        4 => '4',
        5 => '5',
        6 => '6',
        7 => '7',
        8 => '8',
        _ => '9',
    }
}

pub(crate) fn digit_of(c: char) -> (r: Option<u32>)
    ensures
        r is Some <==> is_digit(c),
        r is Some ==> r.unwrap() == char_digit(c) && r.unwrap() < 10,
{
    match c {
        '0' => Some(0),
        '1' => Some(1),
        '2' => Some(2),
        '3' => Some(3),
        '4' => Some(4),
        '5' => Some(5),
        '6' => Some(6),
        '7' => Some(7),
        '8' => Some(8),
        '9' => Some(9),
        _ => None,
    }
}

fn push_two(out: &mut String, n: u32)
    requires
        n < 100,
    ensures
        final(out)@ == old(out)@ + two_digits(n as int),
{
    push_char(out, digit_to_char(n / 10));
    push_char(out, digit_to_char(n % 10));
    proof {
        assert(final(out)@ =~= old(out)@ + two_digits(n as int));
    }
}

fn push_four(out: &mut String, n: u32)
    requires
        n < 10000,
    ensures
        final(out)@ == old(out)@ + four_digits(n as int),
{
    push_two(out, n / 100);
    push_two(out, n % 100);
    proof {
        assert(final(out)@ =~= old(out)@ + four_digits(n as int));
    }
}

/// Renders a date as "YYYY-MM-DD".
pub fn format_date(d: &Date) -> (r: String)
    requires
        date_valid(*d),
        d.year <= 9999,
    ensures
        r@ == spec_fmt_date(*d),
{
    let mut out = String::new();
    push_four(&mut out, d.year);
    push_char(&mut out, '-');
    push_two(&mut out, d.month);
    push_char(&mut out, '-');
    push_two(&mut out, d.day);
    proof {
        assert(out@ =~= spec_fmt_date(*d));
    }
    out
}

/// Renders a UTC instant as "YYYY-MM-DDTHH:MM:SS+00:00".
pub fn format_rfc3339(t: &Timestamp) -> (r: String)
    requires
        ts_valid(*t),
    ensures
        r@ == spec_fmt_rfc3339(*t),
{
    let mut out = String::new();
    push_four(&mut out, t.date.year);
    push_char(&mut out, '-');
    push_two(&mut out, t.date.month);
    push_char(&mut out, '-');
    push_two(&mut out, t.date.day);
    push_char(&mut out, 'T');
    push_two(&mut out, t.secs / 3600);
    push_char(&mut out, ':');
    push_two(&mut out, (t.secs % 3600) / 60);
    push_char(&mut out, ':');
    push_two(&mut out, (t.secs % 3600) % 60);
    push_char(&mut out, '+');
    push_char(&mut out, '0');
    push_char(&mut out, '0');
    push_char(&mut out, ':');
    push_char(&mut out, '0');
    push_char(&mut out, '0');
    proof {
        assert(out@ =~= spec_fmt_rfc3339(*t));
    }
    out
}

fn read_two(s: &str, i: usize) -> (r: Option<u32>)
    requires
        i + 2 <= s@.len(),
        s@.len() <= usize::MAX,
    ensures
        r is Some <==> parse_two(s@, i as int) >= 0,
        r is Some ==> r.unwrap() == parse_two(s@, i as int) && r.unwrap() < 100,
{
    let c0 = digit_of(s.get_char(i));
    let c1 = digit_of(s.get_char(i + 1));
    match (c0, c1) {
        (Some(a), Some(b)) => Some(a * 10 + b),
        _ => None,
    }
}

/// Reads a "YYYY-MM-DD" string; anything else is nothing.
pub fn parse_date(s: &str) -> (r: Option<Date>)
    ensures
        r == spec_parse_date(s@),
        r is Some ==> date_valid(r.unwrap()) && r.unwrap().year <= 9999,
{
    if s.unicode_len() != 10 {
        return None;
    }
    if s.get_char(4) != '-' || s.get_char(7) != '-' {
        return None;
    }
    let hi = read_two(s, 0);
    let lo = read_two(s, 2);
    let mo = read_two(s, 5);
    let da = read_two(s, 8);
    match (hi, lo, mo, da) {
        (Some(hi), Some(lo), Some(mo), Some(da)) => {
            let year = hi * 100 + lo;
            if 1 <= mo && mo <= 12 && 1 <= da && da <= days_in_month(year, mo) {
                Some(Date { year, month: mo, day: da })
            } else {
                None
            }
        },
        _ => None,
    }
}

/// Reads an RFC-3339 timestamp and shifts it to UTC.
pub fn parse_rfc3339(s: &str) -> (r: Option<Timestamp>)
    ensures
        r == spec_parse_rfc3339(s@),
        r is Some ==> ts_valid(r.unwrap()),
{
    let n = s.unicode_len();
    if n < 20 {
        return None;
    }
    let date = match parse_date(s.substring_char(0, 10)) {
        Some(d) => d,
        None => {
            return None;
        },
    };
    let sep = s.get_char(10);
    if sep != 'T' && sep != 't' && sep != ' ' {
        return None;
    }
    if s.get_char(13) != ':' || s.get_char(16) != ':' {
        return None;
    }
    let (h, mi, sec) = match (read_two(s, 11), read_two(s, 14), read_two(s, 17)) {
        (Some(h), Some(mi), Some(sec)) => (h, mi, sec),
        _ => {
            return None;
        },
    };
    if h >= 24 || mi >= 60 || sec >= 60 {
        return None;
    }
    let sod = h * 3600 + mi * 60 + sec;
    let mut p: usize = 19;
    if s.get_char(19) == '.' {
        p = 20;
        while p < n && digit_of(s.get_char(p)).is_some()
            invariant
                20 <= p <= n,
                n == s@.len(),
                skip_digits(s@, 20) == skip_digits(s@, p as int),
            decreases n - p,
        {
            p = p + 1;
        }
        if p == 20 {
            return None;
        }
    }
    if p >= n {
        return None;
    }
    let oc = s.get_char(p);
    if oc == 'Z' || oc == 'z' {
        if p + 1 != n {
            return None;
        }
        normalize(&date, sod, 0, true)
    } else if oc == '+' || oc == '-' {
        if n - p != 6 || s.get_char(p + 3) != ':' {
            return None;
        }
        let (oh, om) = match (read_two(s, p + 1), read_two(s, p + 4)) {
            (Some(oh), Some(om)) => (oh, om),
            _ => {
                return None;
            },
        };
        if oh >= 24 || om >= 60 {
            return None;
        }
        normalize(&date, sod, oh * 60 + om, oc == '-')
    } else {
        None
    }
}

/// Shifts a local instant to UTC by an offset in minutes.
fn normalize(d: &Date, sod: u32, off_min: u32, negative: bool) -> (r: Option<Timestamp>)
    requires
        date_valid(*d),
        d.year <= 9999,
        sod < 86400,
        off_min < 1440,
    ensures
        r == spec_normalize(*d, sod as int, if negative { -(off_min as int) } else { off_min as int }),
        r is Some ==> ts_valid(r.unwrap()),
{
    let shift = off_min * 60;
    if negative {
        let t = sod + shift;
        if t < 86400 {
            Some(Timestamp { date: *d, secs: t })
        } else {
            let nd = next_day(d);
            if nd.year <= 9999 {
                Some(Timestamp { date: nd, secs: t - 86400 })
            } else {
                None
            }
        }
    } else {
        if sod >= shift {
            Some(Timestamp { date: *d, secs: sod - shift })
        } else {
            let di = date_index(d);
            if di >= 1 {
                let pd = prev_day(d);
                Some(Timestamp { date: pd, secs: 86400 + sod - shift })
            } else {
                None
            }
        }
    }
}

/// Formatting then parsing an instant gives it back unchanged:
/// the RFC-3339 wire form is lossless.
#[verifier::rlimit(100)]
pub proof fn lemma_rfc3339_round_trip(t: Timestamp)
    requires
        ts_valid(t),
    ensures
        spec_parse_rfc3339(spec_fmt_rfc3339(t)) == Some(t),
{
    let s = spec_fmt_rfc3339(t);
    lemma_date_round_trip(t.date);
    assert(s.subrange(0, 10) =~= spec_fmt_date(t.date));
    let h = t.secs as int / 3600;
    let mi = (t.secs as int % 3600) / 60;
    let sec = (t.secs as int % 3600) % 60;
    assert(s.len() == 25);
    assert(s[10] == 'T' && s[13] == ':' && s[16] == ':');
    assert(s[11] == digit_char(h / 10) && s[12] == digit_char(h % 10));
    assert(s[14] == digit_char(mi / 10) && s[15] == digit_char(mi % 10));
    assert(s[17] == digit_char(sec / 10) && s[18] == digit_char(sec % 10));
    assert(s[19] == '+' && s[20] == '0' && s[21] == '0' && s[22] == ':' && s[23] == '0' && s[24]
        == '0');
    lemma_two_digit_round_trip(h);
    lemma_two_digit_round_trip(mi);
    lemma_two_digit_round_trip(sec);
    assert(parse_two(s, 11) == h && parse_two(s, 14) == mi && parse_two(s, 17) == sec);
    assert(parse_two(s, 20) == 0 && parse_two(s, 23) == 0);
    assert(h * 3600 + mi * 60 + sec == t.secs) by {
        assert(t.secs as int == (t.secs as int / 3600) * 3600 + t.secs as int % 3600);
        assert(t.secs as int % 3600 == ((t.secs as int % 3600) / 60) * 60 + (t.secs as int % 3600)
            % 60);
    }
    assert(spec_normalize(t.date, t.secs as int, 0) == Some(t));
}

/// A two-digit rendering parses back to its value.
pub proof fn lemma_two_digit_round_trip(n: int)
    requires
        0 <= n < 100,
    ensures
        char_digit(digit_char(n / 10)) == n / 10,
        char_digit(digit_char(n % 10)) == n % 10,
        (n / 10) * 10 + n % 10 == n,
{
}

/// A "YYYY-MM-DD" rendering parses back to its date.
pub proof fn lemma_date_round_trip(d: Date)
    requires
        date_valid(d),
        d.year <= 9999,
    ensures
        spec_parse_date(spec_fmt_date(d)) == Some(d),
{
    let s = spec_fmt_date(d);
    assert(s.len() == 10);
    let y = d.year as int;
    assert(s[0] == digit_char(y / 100 / 10) && s[1] == digit_char(y / 100 % 10));
    assert(s[2] == digit_char(y % 100 / 10) && s[3] == digit_char(y % 100 % 10));
    assert(s[4] == '-' && s[7] == '-');
    assert(s[5] == digit_char(d.month as int / 10) && s[6] == digit_char(d.month as int % 10));
    assert(s[8] == digit_char(d.day as int / 10) && s[9] == digit_char(d.day as int % 10));
    lemma_two_digit_round_trip(y / 100);
    lemma_two_digit_round_trip(y % 100);
    lemma_two_digit_round_trip(d.month as int);
    lemma_two_digit_round_trip(d.day as int);
    assert(parse_two(s, 0) == y / 100 && parse_two(s, 2) == y % 100);
    assert(parse_four(s, 0) == (y / 100) * 100 + y % 100);
    assert((y / 100) * 100 + y % 100 == y);
    assert(parse_two(s, 5) == d.month as int);
    assert(parse_two(s, 8) == d.day as int);
}

} // verus!
