//! Date-time keyword tokens: a date, a time of day, or both, resolved to a
//! wall-clock reading in the local time zone together with its UTC offset.
use crate::errors::ParsingError;
use crate::text::{
    contains_char, has_suffix, strip_all, strip_prefix_all, to_lower, trim, trim_str, lower_of,
    ends_with,
};
use chrono::{
    Datelike, Local, MappedLocalTime, NaiveDate, NaiveDateTime, NaiveTime, TimeZone, Timelike,
};
use vstd::prelude::*;

verus! {

/// A calendar date.
#[derive(Debug, Clone, Copy, PartialEq, Eq, Structural)]
pub struct CivilDate {
    pub year: i32,
    pub month: u32,
    pub day: u32,
}

/// A wall-clock reading: a calendar date and a time of day.
#[derive(Debug, Clone, Copy, PartialEq, Eq, Structural)]
pub struct CivilDateTime {
    pub year: i32,
    pub month: u32,
    pub day: u32,
    pub hour: u32,
    pub minute: u32,
    pub second: u32,
}

/// A wall-clock reading in the local time zone and the offset from UTC, in
/// seconds, that was in force at it; together they fix one instant.
#[derive(Debug, Clone, Copy, PartialEq, Eq, Structural)]
pub struct LocalDateTime {
    pub local: CivilDateTime,
    pub offset_seconds: i32,
}

pub open spec fn is_leap_year(y: int) -> bool {
    y % 4 == 0 && (y % 100 != 0 || y % 400 == 0)
}

pub open spec fn days_in_month(y: int, m: int) -> int {
    if m == 2 {
        if is_leap_year(y) {
            29
        } else {
            28
        }
    } else if m == 4 || m == 6 || m == 9 || m == 11 {
        30
    } else {
        31
    }
}

impl CivilDate {
    /// A date that exists in the proleptic Gregorian calendar, within the
    /// years that the date-time library represents.
    pub open spec fn valid(self) -> bool {
        &&& -262143 <= self.year <= 262142
        &&& 1 <= self.month <= 12
        &&& 1 <= self.day <= days_in_month(self.year as int, self.month as int)
    }
}

impl CivilDateTime {
    pub open spec fn date(self) -> CivilDate {
        CivilDate { year: self.year, month: self.month, day: self.day }
    }

    pub open spec fn valid(self) -> bool {
        &&& self.date().valid()
        &&& self.hour < 24
        &&& self.minute < 60
        &&& self.second < 60
    }
}

/// The date `d` at the time of day `t` (hour, minute, second).
pub open spec fn at_time(d: CivilDate, t: (u32, u32, u32)) -> CivilDateTime {
    CivilDateTime { year: d.year, month: d.month, day: d.day, hour: t.0, minute: t.1, second: t.2 }
}

pub open spec fn midnight(d: CivilDate) -> CivilDateTime {
    at_time(d, (0, 0, 0))
}

/// A name for what `NaiveDateTime::parse_from_str(s, fmt)` returns.
pub uninterp spec fn naive_datetime_of(s: Seq<char>, fmt: Seq<char>) -> Option<CivilDateTime>;

/// A name for what `NaiveTime::parse_from_str(s, fmt)` returns.
pub uninterp spec fn naive_time_of(s: Seq<char>, fmt: Seq<char>) -> Option<(u32, u32, u32)>;

/// A name for what `NaiveDate::parse_from_str(s, fmt)` returns.
pub uninterp spec fn naive_date_of(s: Seq<char>, fmt: Seq<char>) -> Option<CivilDate>;

/// Relies on chrono's `NaiveDateTime::parse_from_str`: the result depends on
/// the text and the format alone, and a `NaiveDateTime` always holds a valid
/// date and time.
#[verifier::external_body]
fn parse_naive_datetime(s: &str, fmt: &str) -> (r: Option<CivilDateTime>)
    ensures
        r == naive_datetime_of(s@, fmt@),
        r matches Some(c) ==> c.valid(),
{
    NaiveDateTime::parse_from_str(s, fmt).ok().map(
        |d| CivilDateTime {
            year: d.year(),
            month: d.month(),
            day: d.day(),
            hour: d.hour(),
            minute: d.minute(),
            second: d.second(),
        },
    )
}

/// Relies on chrono's `NaiveTime::parse_from_str`: the result depends on the
/// text and the format alone, and a `NaiveTime` reads as a valid time of day.
#[verifier::external_body]
fn parse_naive_time(s: &str, fmt: &str) -> (r: Option<(u32, u32, u32)>)
    ensures
        r == naive_time_of(s@, fmt@),
        r matches Some(t) ==> t.0 < 24 && t.1 < 60 && t.2 < 60,
{
    NaiveTime::parse_from_str(s, fmt).ok().map(|t| (t.hour(), t.minute(), t.second()))
}

/// Relies on chrono's `NaiveDate::parse_from_str`: the result depends on the
/// text and the format alone, and a `NaiveDate` always holds a valid date.
#[verifier::external_body]
fn parse_naive_date(s: &str, fmt: &str) -> (r: Option<CivilDate>)
    ensures
        r == naive_date_of(s@, fmt@),
        r matches Some(d) ==> d.valid(),
{
    NaiveDate::parse_from_str(s, fmt).ok().map(
        |d| CivilDate { year: d.year(), month: d.month(), day: d.day() },
    )
}

/// Relies on chrono's `Local::now`: today's date in the local time zone,
/// which a `NaiveDate` holds as a valid date.
#[verifier::external_body]
pub(crate) fn today() -> (r: CivilDate)
    ensures
        r.valid(),
{
    let d = Local::now().date_naive();
    CivilDate { year: d.year(), month: d.month(), day: d.day() }
}

/// Relies on chrono's `TimeZone::offset_from_local_datetime` for `Local`: the
/// UTC offsets in force at a wall-clock reading, both the same where the
/// reading occurs once, the two of them where it occurs twice, and `None` where
/// a clock change skips it. A `FixedOffset` lies within a day.
#[verifier::external_body]
fn offsets_at_local(c: &CivilDateTime) -> (r: Option<(i32, i32)>)
    requires
        c.valid(),
    ensures
        r matches Some(o) ==> -86400 < o.0 < 86400 && -86400 < o.1 < 86400,
{
    let n = NaiveDate::from_ymd_opt(c.year, c.month, c.day).unwrap().and_hms_opt(
        c.hour,
        c.minute,
        c.second,
    ).unwrap();
    match Local.offset_from_local_datetime(&n) {
        MappedLocalTime::Single(o) => Some((o.local_minus_utc(), o.local_minus_utc())),
        MappedLocalTime::Ambiguous(a, b) => Some((a.local_minus_utc(), b.local_minus_utc())),
        MappedLocalTime::None => None,
    }
}

/// Relies on chrono's `TimeZone::offset_from_utc_datetime` for `Local`: the UTC
/// offset in force at the instant whose UTC reading is `c`. A `FixedOffset`
/// lies within a day.
#[verifier::external_body]
fn offset_at_utc(c: &CivilDateTime) -> (r: i32)
    requires
        c.valid(),
    ensures
        -86400 < r < 86400,
{
    let n = NaiveDate::from_ymd_opt(c.year, c.month, c.day).unwrap().and_hms_opt(
        c.hour,
        c.minute,
        c.second,
    ).unwrap();
    Local.offset_from_utc_datetime(&n).local_minus_utc()
}

/// The UTC offset of the local time zone at a wall-clock reading. Where the
/// reading occurs twice it is the larger offset, which gives the earlier
/// instant; where a clock change skips the reading, it is the offset in force
/// at the same reading taken as UTC.
fn local_offset(c: &CivilDateTime) -> (r: i32)
    requires
        c.valid(),
    ensures
        -86400 < r < 86400,
{
    match offsets_at_local(c) {
        Some((a, b)) => if a >= b {
            a
        } else {
            b
        },
        None => offset_at_utc(c),
    }
}

/// A token with surrounding whitespace and leading underscores removed, in
/// lower case.
pub open spec fn cleaned(s: Seq<char>) -> Seq<char> {
    lower_of(strip_all(trim(s), seq!['_']))
}

/// A whole hour written with its minutes: `9pm` becomes `9:00pm`.
pub open spec fn on_the_hour(c: Seq<char>) -> Seq<char> {
    c.subrange(0, c.len() - 2) + ":00"@ + c.subrange(c.len() - 2, c.len() as int)
}

/// The wall-clock reading that a cleaned token denotes, trying its formats in
/// a fixed order: a date with a time, then a time alone, which falls on
/// `today`; a whole hour (`9pm`) is read as that hour with zero minutes; a
/// token without a time is a date at midnight.
pub open spec fn naive_of(c: Seq<char>, today: CivilDate) -> Option<CivilDateTime> {
    if c.contains(':') {
        match naive_datetime_of(c, "%d%b%Y_%I:%M%P"@) {
            Some(d) => Some(d),
            None => match naive_time_of(c, "%I:%M%P"@) {
                Some(t) => Some(at_time(today, t)),
                None => None,
            },
        }
    } else if ends_with(c, "am"@) || ends_with(c, "pm"@) {
        let w = on_the_hour(c);
        match naive_datetime_of(w, "%d%b%Y_%I:%M%P"@) {
            Some(d) => Some(d),
            None => match naive_time_of(w, "%I:%M%P"@) {
                Some(t) => Some(at_time(today, t)),
                None => None,
            },
        }
    } else {
        match naive_date_of(c, "%d%b%Y"@) {
            Some(d) => Some(midnight(d)),
            None => None,
        }
    }
}

/// The wall-clock reading that the cleaned text `c` denotes.
pub fn naive_date_time(c: &str, today: CivilDate) -> (r: Option<CivilDateTime>)
    requires
        today.valid(),
    ensures
        r == naive_of(c@, today),
        r matches Some(d) ==> d.valid(),
{
    if contains_char(c, ':') {
        match parse_naive_datetime(c, "%d%b%Y_%I:%M%P") {
            Some(d) => Some(d),
            None => match parse_naive_time(c, "%I:%M%P") {
                Some(t) => Some(
                    CivilDateTime {
                        year: today.year,
                        month: today.month,
                        day: today.day,
                        hour: t.0,
                        minute: t.1,
                        second: t.2,
                    },
                ),
                None => None,
            },
        }
    } else if has_suffix(c, "am") || has_suffix(c, "pm") {
        let n = c.unicode_len();
        proof {
            reveal_strlit("am");
            reveal_strlit("pm");
        }
        let mut w = String::from_str(c.substring_char(0, n - 2));
        w.append(":00");
        w.append(c.substring_char(n - 2, n));
        let w = w.as_str();
        match parse_naive_datetime(w, "%d%b%Y_%I:%M%P") {
            Some(d) => Some(d),
            None => match parse_naive_time(w, "%I:%M%P") {
                Some(t) => Some(
                    CivilDateTime {
                        year: today.year,
                        month: today.month,
                        day: today.day,
                        hour: t.0,
                        minute: t.1,
                        second: t.2,
                    },
                ),
                None => None,
            },
        }
    } else {
        match parse_naive_date(c, "%d%b%Y") {
            Some(d) => Some(
                CivilDateTime {
                    year: d.year,
                    month: d.month,
                    day: d.day,
                    hour: 0,
                    minute: 0,
                    second: 0,
                },
            ),
            None => None,
        }
    }
}

/// The last format tried on a cleaned token.
pub open spec fn last_format(c: Seq<char>) -> Seq<char> {
    if c.contains(':') || ends_with(c, "am"@) || ends_with(c, "pm"@) {
        "%I:%M%P"@
    } else {
        "%d%b%Y"@
    }
}

pub open spec fn date_time_message(token: Seq<char>, c: Seq<char>) -> Seq<char> {
    "Error parsing string '"@ + token + "' to date time with format '"@ + last_format(c) + "'"@
}

/// Reads a date-time token (`_12jan2025`, `_12jan2025_10:30pm`, `_9am`, ...)
/// on the day `today`, resolved in the local time zone. Where the token is no
/// date-time, the error names the token and the last format tried.
pub fn parse_date_time(token: &str, today: CivilDate) -> (r: Result<LocalDateTime, ParsingError>)
    requires
        today.valid(),
    ensures
        match naive_of(cleaned(token@), today) {
            Some(c) => r matches Ok(d) && d.local == c && -86400 < d.offset_seconds < 86400,
            None => r matches Err(ParsingError::String(m)) && m@ == date_time_message(
                token@,
                cleaned(token@),
            ),
        },
{
    let c = to_lower(strip_prefix_all(trim_str(token), "_"));
    proof {
        reveal_strlit("_");
        assert("_"@ =~= seq!['_']);
    }
    match naive_date_time(c.as_str(), today) {
        Some(d) => {
            let off = local_offset(&d);
            Ok(LocalDateTime { local: d, offset_seconds: off })
        },
        None => {
            let fmt = if contains_char(c.as_str(), ':') || has_suffix(c.as_str(), "am")
                || has_suffix(c.as_str(), "pm") {
                "%I:%M%P"
            } else {
                "%d%b%Y"
            };
            let mut m = String::from_str("Error parsing string '");
            m.append(token);
            m.append("' to date time with format '");
            m.append(fmt);
            m.append("'");
            Err(ParsingError::String(m))
        },
    }
}

} // verus!
