//! Dates and times without a time zone, in the proleptic Gregorian calendar.
use vstd::prelude::*;

use chrono::{DateTime, Datelike, NaiveDate, NaiveDateTime, NaiveTime, Timelike};

verus! {

/// First and last year of the supported dates.
pub const MIN_YEAR: i32 = -262143;

pub const MAX_YEAR: i32 = 262142;

/// Number of seconds in a day.
pub const SECONDS_PER_DAY: u32 = 86400;

pub open spec fn is_leap_year(year: int) -> bool {
    year % 4 == 0 && (year % 100 != 0 || year % 400 == 0)
}

/// Whether a year has a day with the given number, counting from 1.
pub open spec fn date_exists(year: int, ordinal: int) -> bool {
    MIN_YEAR <= year <= MAX_YEAR && 1 <= ordinal <= if is_leap_year(year) {
        366int
    } else {
        365
    }
}

/// Number of days from the start of year 1 until the end of the given day.
pub open spec fn days_from_year_1(year: int, ordinal: int) -> int {
    365 * (year - 1) + (year - 1) / 4 - (year - 1) / 100 + (year - 1) / 400 + ordinal
}

/// Number of seconds from the start of 1970 until the given time of a day.
pub open spec fn unix_seconds(year: int, ordinal: int, secs: int) -> int {
    (days_from_year_1(year, ordinal) - 719163) * 86400 + secs
}

/// What [`NaiveDateTime::format`] makes of a date and time with the format
/// `%Y-%m-%d %H:%M:%S`.
pub uninterp spec fn date_time_text(year: i32, ordinal: u32, secs: u32, nanos: u32) -> Seq<char>;

/// What [`NaiveDateTime::parse_from_str`] makes of a text with the format
/// `%Y-%m-%d %H:%M:%S`: the year, the day of the year, the seconds since midnight
/// and the nanoseconds.
pub uninterp spec fn date_time_of_text(text: Seq<char>) -> Option<(i32, u32, u32, u32)>;

/// A date and a time of day.
#[derive(Debug, Clone, Copy, PartialEq, Eq, PartialOrd, Ord, Structural)]
pub struct Timestamp {
    pub year: i32,
    /// Day of the year, counting from 1.
    pub ordinal: u32,
    /// Seconds since midnight.
    pub secs: u32,
    /// Nanoseconds since the last whole second, can exceed one second to
    /// represent a leap second.
    pub nanos: u32,
}

impl Timestamp {
    /// Whether the date exists and the time is a time of day.
    pub open spec fn valid(self) -> bool {
        &&& date_exists(self.year as int, self.ordinal as int)
        &&& self.secs < SECONDS_PER_DAY
        &&& self.nanos < 2_000_000_000
        &&& self.nanos >= 1_000_000_000 ==> self.secs % 60 == 59
    }

    /// The same time without any part of a second.
    pub open spec fn whole(self) -> Timestamp {
        Timestamp { nanos: 0, ..self }
    }

    pub open spec fn spec_unix_seconds(self) -> int {
        unix_seconds(self.year as int, self.ordinal as int, self.secs as int)
    }

    /// Returns `None` if there is no such date or no such time of day.
    pub fn new(year: i32, ordinal: u32, secs: u32, nanos: u32) -> (result: Option<Self>)
        ensures
            result is Some <==> (Timestamp { year, ordinal, secs, nanos }).valid(),
            result matches Some(t) ==> t == (Timestamp { year, ordinal, secs, nanos }),
    {
        if has_date(year, ordinal) && has_time(secs, nanos) {
            Some(Timestamp { year, ordinal, secs, nanos })
        } else {
            None
        }
    }

    /// Whether there is such a date and such a time of day.
    pub fn is_valid(&self) -> (result: bool)
        ensures
            result == self.valid(),
    {
        has_date(self.year, self.ordinal) && has_time(self.secs, self.nanos)
    }

    /// Number of seconds since the start of 1970.
    pub fn unix_timestamp(&self) -> (secs: i64)
        requires
            self.valid(),
        ensures
            secs == self.spec_unix_seconds(),
    {
        date_time_to_unix(self.year, self.ordinal, self.secs)
    }

    /// Number of microseconds since the start of 1970.
    pub fn unix_timestamp_micros(&self) -> (micros: i64)
        requires
            self.valid(),
        ensures
            micros == self.spec_unix_seconds() * 1_000_000 + self.nanos / 1000,
    {
        proof {
            lemma_unix_seconds_bound(self.year as int, self.ordinal as int, self.secs as int);
        }
        self.unix_timestamp() * 1_000_000 + (self.nanos / 1000) as i64
    }

    /// The time that is a number of seconds after the start of 1970, `None` if
    /// that time is outside of the supported years.
    pub fn from_unix_timestamp(secs: i64) -> (result: Option<Self>)
        ensures
            result matches Some(t) ==> t.valid() && t.nanos == 0 && t.spec_unix_seconds() == secs,
            result is None ==> forall|t: Timestamp|
                #![trigger t.spec_unix_seconds()]
                t.valid() ==> t.spec_unix_seconds() != secs,
    {
        match unix_to_date_time(secs) {
            Some((year, ordinal, secs)) => Some(Timestamp { year, ordinal, secs, nanos: 0 }),
            None => {
                assert forall|t: Timestamp|
                    #![trigger t.spec_unix_seconds()]
                    t.valid() implies t.spec_unix_seconds() != secs by {
                    let s = unix_seconds(t.year as int, t.ordinal as int, t.secs as int);
                }
                None
            },
        }
    }

    /// Format as year, month, day, hour, minute and second, for example
    /// `2024-02-29 23:59:01`.
    pub fn to_text(&self) -> (text: String)
        requires
            self.valid(),
        ensures
            text@ == date_time_text(self.year, self.ordinal, self.secs, self.nanos),
            0 <= self.year <= 9999 && self.nanos == 0 ==> date_time_of_text(text@) == Some(
                (self.year, self.ordinal, self.secs, self.nanos),
            ),
    {
        format_date_time(self.year, self.ordinal, self.secs, self.nanos)
    }

    /// Parse a text with the same format as [`Self::to_text`].
    pub fn from_text(text: &str) -> (result: Option<Self>)
        ensures
            result is Some <==> date_time_of_text(text@) is Some,
            result matches Some(t) ==> t.valid() && date_time_of_text(text@) == Some(
                (t.year, t.ordinal, t.secs, t.nanos),
            ),
    {
        match parse_date_time(text) {
            Some((year, ordinal, secs, nanos)) => Some(Timestamp { year, ordinal, secs, nanos }),
            None => None,
        }
    }
}

impl Default for Timestamp {
    /// The start of 1970.
    fn default() -> (t: Self)
        ensures
            t == (Timestamp { year: 1970, ordinal: 1, secs: 0, nanos: 0 }),
            t.valid(),
            t.spec_unix_seconds() == 0,
    {
        Timestamp { year: 1970, ordinal: 1, secs: 0, nanos: 0 }
    }
}

/// Two times with the same number of seconds since 1970 are the same time, apart
/// from their parts of a second.
pub proof fn law_unix_seconds_are_unique(a: Timestamp, b: Timestamp)
    requires
        a.valid(),
        b.valid(),
        a.spec_unix_seconds() == b.spec_unix_seconds(),
    ensures
        a.whole() == b.whole(),
{
    if a.year < b.year {
        lemma_days_step(a.year as int, b.year as int);
    } else if b.year < a.year {
        lemma_days_step(b.year as int, a.year as int);
    }
    let da = days_from_year_1(a.year as int, a.ordinal as int);
    let db = days_from_year_1(b.year as int, b.ordinal as int);
    assert(da == db && a.secs == b.secs) by (nonlinear_arith)
        requires
            (da - 719163) * 86400 + a.secs == (db - 719163) * 86400 + b.secs,
            0 <= a.secs < 86400,
            0 <= b.secs < 86400,
    ;
}

/// How a quotient grows from one number to the next.
proof fn lemma_next_quotient(n: int, d: int)
    requires
        d > 0,
    ensures
        n / d - (n - 1) / d == if n % d == 0 {
            1int
        } else {
            0
        },
{
    let q = n / d;
    let r = n % d;
    vstd::arithmetic::div_mod::lemma_fundamental_div_mod(n, d);
    vstd::arithmetic::div_mod::lemma_mod_bound(n, d);
    if r == 0 {
        assert(n - 1 == d * (q - 1) + (d - 1)) by (nonlinear_arith)
            requires
                n == d * q,
        ;
        vstd::arithmetic::div_mod::lemma_fundamental_div_mod_converse(n - 1, d, q - 1, d - 1);
    } else {
        vstd::arithmetic::div_mod::lemma_fundamental_div_mod_converse(n - 1, d, q, r - 1);
    }
}

/// A year starts after the last day of each year before it.
proof fn lemma_days_step(year: int, later: int)
    requires
        year < later,
    ensures
        days_from_year_1(year, if is_leap_year(year) {
            366
        } else {
            365
        }) < days_from_year_1(later, 1),
    decreases later - year,
{
    if year + 1 < later {
        lemma_days_step(year, later - 1);
        lemma_next_quotient(later - 1, 4);
        lemma_next_quotient(later - 1, 100);
        lemma_next_quotient(later - 1, 400);
    } else {
        lemma_next_quotient(year, 4);
        lemma_next_quotient(year, 100);
        lemma_next_quotient(year, 400);
    }
}

pub proof fn lemma_unix_seconds_bound(year: int, ordinal: int, secs: int)
    requires
        date_exists(year, ordinal),
        0 <= secs < 86400,
    ensures
        -9_000_000_000_000 < unix_seconds(year, ordinal, secs) < 9_000_000_000_000,
{
}

/// Calls [`NaiveDate::from_yo_opt`], which makes a date exactly if the year is in
/// the supported range and has a day with that number.
#[verifier::external_body]
fn has_date(year: i32, ordinal: u32) -> (exists: bool)
    ensures
        exists == date_exists(year as int, ordinal as int),
{
    NaiveDate::from_yo_opt(year, ordinal).is_some()
}

/// Calls [`NaiveTime::from_num_seconds_from_midnight_opt`], which accepts the
/// seconds of one day and less than two seconds of nanoseconds, more than one
/// second of them only in the last second of a minute.
#[verifier::external_body]
fn has_time(secs: u32, nanos: u32) -> (exists: bool)
    ensures
        exists == (secs < 86400 && nanos < 2_000_000_000 && (nanos >= 1_000_000_000 ==> secs % 60
            == 59)),
{
    NaiveTime::from_num_seconds_from_midnight_opt(secs, nanos).is_some()
}

/// Calls [`DateTime::timestamp`], which counts the seconds since the start of
/// 1970 without leap seconds.
#[verifier::external_body]
fn date_time_to_unix(year: i32, ordinal: u32, secs: u32) -> (unix: i64)
    requires
        date_exists(year as int, ordinal as int),
        secs < 86400,
    ensures
        unix == unix_seconds(year as int, ordinal as int, secs as int),
{
    let date = NaiveDate::from_yo_opt(year, ordinal).unwrap();
    let time = NaiveTime::from_num_seconds_from_midnight_opt(secs, 0).unwrap();
    NaiveDateTime::new(date, time).and_utc().timestamp()
}

/// Calls [`DateTime::from_timestamp`], which gives the date and time that is the
/// given number of seconds after the start of 1970, or nothing if the date is
/// outside of the supported years.
#[verifier::external_body]
fn unix_to_date_time(unix: i64) -> (result: Option<(i32, u32, u32)>)
    ensures
        result matches Some(t) ==> date_exists(t.0 as int, t.1 as int) && t.2 < 86400
            && unix_seconds(t.0 as int, t.1 as int, t.2 as int) == unix,
        result is None ==> forall|year: int, ordinal: int, secs: int|
            #![trigger unix_seconds(year, ordinal, secs)]
            date_exists(year, ordinal) && 0 <= secs < 86400 ==> unix_seconds(year, ordinal, secs)
                != unix,
{
    let time = DateTime::from_timestamp(unix, 0)?.naive_utc();
    Some((time.year(), time.ordinal(), time.num_seconds_from_midnight()))
}

/// Calls [`NaiveDateTime::format`] with `%Y-%m-%d %H:%M:%S`. The text is a function
/// of the date and time. [`NaiveDateTime::parse_from_str`] reads a text of a whole
/// second between the years 0 and 9999 as the same date and time.
#[verifier::external_body]
fn format_date_time(year: i32, ordinal: u32, secs: u32, nanos: u32) -> (text: String)
    requires
        (Timestamp { year, ordinal, secs, nanos }).valid(),
    ensures
        text@ == date_time_text(year, ordinal, secs, nanos),
        0 <= year <= 9999 && nanos == 0 ==> date_time_of_text(text@) == Some(
            (year, ordinal, secs, nanos),
        ),
{
    let date = NaiveDate::from_yo_opt(year, ordinal).unwrap();
    let time = NaiveTime::from_num_seconds_from_midnight_opt(secs, nanos).unwrap();
    NaiveDateTime::new(date, time).format("%Y-%m-%d %H:%M:%S").to_string()
}

/// Calls [`NaiveDateTime::parse_from_str`] with `%Y-%m-%d %H:%M:%S`. The result is a
/// function of the text, and always an existing date and time of day.
#[verifier::external_body]
fn parse_date_time(text: &str) -> (result: Option<(i32, u32, u32, u32)>)
    ensures
        result == date_time_of_text(text@),
        result matches Some(t) ==> (Timestamp {
            year: t.0,
            ordinal: t.1,
            secs: t.2,
            nanos: t.3,
        }).valid(),
{
    let time = NaiveDateTime::parse_from_str(text, "%Y-%m-%d %H:%M:%S").ok()?;
    Some((time.year(), time.ordinal(), time.num_seconds_from_midnight(), time.nanosecond()))
}

/// A day has as many seconds as a day has, each day follows the one before, and the first
/// day of a year follows the last day of the year before. The start of 1970 is zero.
pub proof fn law_days_follow_each_other(year: int, ordinal: int, secs: int)
    ensures
        unix_seconds(1970, 1, 0) == 0,
        unix_seconds(year, ordinal, secs + 1) == unix_seconds(year, ordinal, secs) + 1,
        unix_seconds(year, ordinal + 1, 0) == unix_seconds(year, ordinal, 86400),
        is_leap_year(year) ==> unix_seconds(year + 1, 1, 0) == unix_seconds(year, 366, 86400),
        !is_leap_year(year) ==> unix_seconds(year + 1, 1, 0) == unix_seconds(year, 365, 86400),
        is_leap_year(year) ==> date_exists(year, 366) || !(MIN_YEAR <= year <= MAX_YEAR),
        !is_leap_year(year) ==> !date_exists(year, 366),
{
}

/// Later times have larger numbers of seconds.
pub proof fn law_later_times_have_more_seconds(a: Timestamp, b: Timestamp)
    requires
        a.valid(),
        b.valid(),
        a.year < b.year || (a.year == b.year && (a.ordinal < b.ordinal || (a.ordinal == b.ordinal
            && a.secs < b.secs))),
    ensures
        a.spec_unix_seconds() < b.spec_unix_seconds(),
{
    if a.year < b.year {
        lemma_days_step(a.year as int, b.year as int);
    }
}

} // verus!
