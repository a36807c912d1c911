//! Turning an instant into what a saved row shows: the local time somewhere
//! else, and a hint when it is not the same day there as it is here.

use std::time::Duration;

use jiff::civil::Date;
use jiff::tz::TimeZone;
use jiff::{Unit, Zoned};
use vstd::prelude::*;

use crate::text::{decimal, push_char, push_decimal};

verus! {

#[verifier::external_type_specification]
#[verifier::external_body]
pub struct ExZoned(Zoned);

#[verifier::external_type_specification]
#[verifier::external_body]
pub struct ExTimeZone(TimeZone);

/// What a saved row shows for one city.
#[derive(Debug, PartialEq, Eq)]
pub struct Reading {
    /// The local time as "HH:MM", 24-hour.
    pub time: String,
    /// How the local date differs from home's, when it does.
    pub day: Option<String>,
}

/// A civil date, by its parts.
#[derive(Debug, Clone, Copy, PartialEq, Eq)]
pub struct CivilDate {
    pub year: i16,
    pub month: i8,
    pub day: i8,
}

/// Shown when the city's zone is missing from this machine's tzdb, so there is
/// no time to show but the city still deserves its row.
pub const UNKNOWN: &'static str = "–:–";

/// The small pad, in nanoseconds, that a wait runs past the minute, so a
/// timer firing a hair early still lands inside the next minute.
pub const PAD_NANOS: u64 = 50_000_000;

/// Nanoseconds in a second.
pub const NANOS: u64 = 1_000_000_000;

/// Whether `year` is a leap year of the proleptic Gregorian calendar.
pub open spec fn is_leap(year: int) -> bool {
    year % 4 == 0 && (year % 100 != 0 || year % 400 == 0)
}

/// The number of days in `month` of `year`.
pub open spec fn month_days(year: int, month: int) -> int {
    if month == 2 {
        if is_leap(year) {
            29
        } else {
            28
        }
    } else if month == 4 || month == 6 || month == 9 || month == 11 {
        30
    } else {
        31
    }
}

/// A date that `jiff::civil::Date` can hold.
pub open spec fn is_civil_date(d: (i16, i8, i8)) -> bool {
    &&& -9999 <= d.0 <= 9999
    &&& 1 <= d.1 <= 12
    &&& 1 <= d.2 <= month_days(d.0 as int, d.1 as int)
}

/// The parts of a civil date.
pub open spec fn parts(d: CivilDate) -> (i16, i8, i8) {
    (d.year, d.month, d.day)
}

/// The days in the months of `year` before `month`.
pub open spec fn days_before_month(year: int, month: int) -> int
    decreases month,
{
    if month <= 1 {
        0
    } else {
        days_before_month(year, month - 1) + month_days(year, month - 1)
    }
}

/// The number of the day `d` in the proleptic Gregorian calendar, counting
/// 0001-01-01 as day 0 and earlier days as negative: the days of the years
/// before it, leap days included, then of its months before, then of its
/// month before it.
pub open spec fn day_number(d: (i16, i8, i8)) -> int {
    let y = d.0 - 1;
    365 * y + y / 4 - y / 100 + y / 400 + days_before_month(d.0 as int, d.1 as int) + d.2 - 1
}

/// The whole days from the date `here` to the date `there`, negative when
/// `there` is earlier; none when either is not a date.
pub open spec fn days_since(there: (i16, i8, i8), here: (i16, i8, i8)) -> Option<int> {
    if is_civil_date(there) && is_civil_date(here) {
        Some(day_number(there) - day_number(here))
    } else {
        None
    }
}

/// Two decimal digits for `n`, which is below a hundred.
pub open spec fn two_digits(n: int) -> Seq<char> {
    seq![crate::text::digit_char(n / 10), crate::text::digit_char(n % 10)]
}

/// The clock face for `hour`:`minute`, as "HH:MM".
pub open spec fn time_face(hour: int, minute: int) -> Seq<char> {
    two_digits(hour) + seq![':'] + two_digits(minute)
}

/// " days".
pub open spec fn days_word() -> Seq<char> {
    seq![' ', 'd', 'a', 'y', 's']
}

/// How a row tells a date `days` away from home's: nothing on the same day
/// (or when there is no count), "+1 day" and "−1 day" (with a minus sign)
/// next door, and a signed count of days beyond.
pub open spec fn day_hint(days: Option<int>) -> Option<Seq<char>> {
    match days {
        None => None,
        Some(d) => if d == 0 {
            None
        } else if d == 1 {
            Some(seq!['+', '1', ' ', 'd', 'a', 'y'])
        } else if d == -1 {
            Some(seq!['\u{2212}', '1', ' ', 'd', 'a', 'y'])
        } else if d > 0 {
            Some(seq!['+'] + decimal(d as nat) + days_word())
        } else {
            Some(seq!['-'] + decimal((-d) as nat) + days_word())
        },
    }
}

/// The text of an optional string.
pub open spec fn opt_text(s: Option<String>) -> Option<Seq<char>> {
    match s {
        Some(t) => Some(t@),
        None => None,
    }
}

/// How long, in nanoseconds, to wait from second `second` and nanosecond
/// `nanosecond` of a minute until just past the next minute begins. A leap
/// second reads as the minute's last.
pub open spec fn wait_nanos(second: int, nanosecond: int) -> int {
    let s = if second < 0 {
        0
    } else if second > 59 {
        59
    } else {
        second
    };
    let n = if nanosecond < 0 {
        0
    } else {
        nanosecond
    };
    (59 - s) * NANOS + (NANOS - n) + PAD_NANOS
}

/// What `Zoned::with_time_zone` makes of `now` and `zone`: the same instant
/// read in `zone`.
pub uninterp spec fn zoned_in(now: Zoned, zone: TimeZone) -> Zoned;

/// What `Zoned::hour` reads of `z`.
pub uninterp spec fn zoned_hour(z: Zoned) -> i8;

/// What `Zoned::minute` reads of `z`.
pub uninterp spec fn zoned_minute(z: Zoned) -> i8;

/// What `Zoned::second` reads of `z`.
pub uninterp spec fn zoned_second(z: Zoned) -> i8;

/// What `Zoned::subsec_nanosecond` reads of `z`.
pub uninterp spec fn zoned_subsec_nanosecond(z: Zoned) -> i32;

/// What `Zoned::date` reads of `z`, as year, month and day.
pub uninterp spec fn zoned_date(z: Zoned) -> (i16, i8, i8);

/// The clock face in `zone` at the instant `now`.
pub open spec fn local_face(now: Zoned, zone: TimeZone) -> Seq<char> {
    time_face(zoned_hour(zoned_in(now, zone)) as int, zoned_minute(zoned_in(now, zone)) as int)
}

/// How the date in `zone` at the instant `now` differs from the date in
/// `now`'s own zone, home.
pub open spec fn local_hint(now: Zoned, zone: TimeZone) -> Option<Seq<char>> {
    day_hint(days_since(zoned_date(zoned_in(now, zone)), zoned_date(now)))
}

/// `Zoned::with_time_zone`, on a copy of `zone`: the same instant read in
/// `zone`, named `zoned_in`.
#[verifier::external_body]
fn in_zone(now: &Zoned, zone: &TimeZone) -> (r: Zoned)
    ensures
        r == zoned_in(*now, *zone),
{
    now.with_time_zone(zone.clone())
}

/// `Zoned::hour`, which jiff documents as within `0..=23`.
#[verifier::external_body]
fn hour_of(z: &Zoned) -> (r: i8)
    ensures
        r == zoned_hour(*z),
        0 <= r <= 23,
{
    z.hour()
}

/// `Zoned::minute`, which jiff documents as within `0..=59`.
#[verifier::external_body]
fn minute_of(z: &Zoned) -> (r: i8)
    ensures
        r == zoned_minute(*z),
        0 <= r <= 59,
{
    z.minute()
}

/// `Zoned::second`, which jiff documents as within `0..=59`.
#[verifier::external_body]
fn second_of(z: &Zoned) -> (r: i8)
    ensures
        r == zoned_second(*z),
        0 <= r <= 59,
{
    z.second()
}

/// `Zoned::subsec_nanosecond`, which jiff documents as within
/// `0..=999_999_999`.
#[verifier::external_body]
fn subsec_nanosecond_of(z: &Zoned) -> (r: i32)
    ensures
        r == zoned_subsec_nanosecond(*z),
        0 <= r <= 999_999_999,
{
    z.subsec_nanosecond()
}

/// `Zoned::date`, taken apart into year, month and day; jiff documents a
/// `Date` as always a valid Gregorian date within years `-9999..=9999`.
#[verifier::external_body]
fn date_of(z: &Zoned) -> (r: CivilDate)
    ensures
        parts(r) == zoned_date(*z),
        is_civil_date(parts(r)),
{
    let d = z.date();
    CivilDate { year: d.year(), month: d.month(), day: d.day() }
}

/// `Date::since` with days as the largest unit, read back with
/// `Span::get_days`: the whole days from `here` to `there`. `Date::new`
/// refuses what is not a date; between two dates, jiff documents that the
/// difference in days is always representable and never an error.
#[verifier::external_body]
fn civil_days_since(there: CivilDate, here: CivilDate) -> (r: Option<i32>)
    ensures
        r matches Some(d) ==> days_since(parts(there), parts(here)) == Some(d as int),
        r is None ==> days_since(parts(there), parts(here)) is None,
{
    let (Ok(a), Ok(b)) = (
        Date::new(there.year, there.month, there.day),
        Date::new(here.year, here.month, here.day),
    ) else {
        return None;
    };
    match a.since((Unit::Day, b)) {
        Ok(span) => Some(span.get_days()),
        Err(_) => None,
    }
}

/// What `Duration::new` makes of `secs` whole seconds and `nanos`
/// nanoseconds: a value of its arguments alone.
pub uninterp spec fn duration_from(secs: u64, nanos: u32) -> Duration;

/// `Duration::new`, which panics only when carrying whole seconds out of
/// `nanos` overflows; with `nanos` under a second it never does. The contract
/// names the result `duration_from`, which Verus sees as opaque.
#[verifier::external_body]
fn duration_new(secs: u64, nanos: u32) -> (r: Duration)
    requires
        nanos < NANOS,
    ensures
        r == duration_from(secs, nanos),
{
    Duration::new(secs, nanos)
}

/// Two decimal digits for `n`.
fn push_two_digits(out: &mut String, n: i8)
    requires
        0 <= n <= 99,
    ensures
        final(out)@ == old(out)@ + two_digits(n as int),
{
    push_char(out, ((n / 10) as u8 + 48) as char);
    push_char(out, ((n % 10) as u8 + 48) as char);
}

/// The clock face for `hour`:`minute`, as "HH:MM".
pub fn time_text(hour: i8, minute: i8) -> (r: String)
    requires
        0 <= hour <= 23,
        0 <= minute <= 59,
    ensures
        r@ == time_face(hour as int, minute as int),
{
    let mut out = String::new();
    push_two_digits(&mut out, hour);
    push_char(&mut out, ':');
    push_two_digits(&mut out, minute);
    out
}

/// How a row tells a date `days` away from home's.
pub fn hint(days: Option<i32>) -> (r: Option<String>)
    ensures
        opt_text(r) == day_hint(
            match days {
                Some(d) => Some(d as int),
                None => None,
            },
        ),
{
    proof {
        reveal_strlit("+1 day");
        reveal_strlit("−1 day");
        reveal_strlit(" days");
    }
    match days {
        None => None,
        Some(0) => None,
        Some(1) => Some(String::from_str("+1 day")),
        Some(-1) => Some(String::from_str("−1 day")),
        Some(d) => {
            let mut out = String::new();
            if d > 0 {
                push_char(&mut out, '+');
                push_decimal(&mut out, d as u64);
            } else {
                push_char(&mut out, '-');
                let magnitude = -(d as i64);
                push_decimal(&mut out, magnitude as u64);
            }
            out.append(" days");
            Some(out)
        },
    }
}

/// How to describe `there` relative to `here`, or `None` on the same date.
pub fn day(here: CivilDate, there: CivilDate) -> (r: Option<String>)
    ensures
        opt_text(r) == day_hint(days_since(parts(there), parts(here))),
        parts(there) == parts(here) && is_civil_date(parts(here)) ==> r is None,
{
    hint(civil_days_since(there, here))
}

/// The reading for `zone` at the instant `now`, whose own zone is home: the
/// time there on the clock face, and how its date differs from home's.
pub fn reading(now: &Zoned, zone: &TimeZone) -> (r: Reading)
    ensures
        r.time@ == local_face(*now, *zone),
        opt_text(r.day) == local_hint(*now, *zone),
{
    let there = in_zone(now, zone);
    let hour = hour_of(&there);
    let minute = minute_of(&there);
    let here_date = date_of(now);
    let there_date = date_of(&there);
    let time = time_text(hour, minute);
    let d = day(here_date, there_date);
    Reading { time, day: d }
}

/// How long to wait, as whole seconds and nanoseconds, from second `second`
/// and nanosecond `nanosecond` of a minute until just past the next minute.
pub fn wait_parts(second: i8, nanosecond: i32) -> (r: (u64, u32))
    requires
        nanosecond <= NANOS,
    ensures
        r.1 < NANOS,
        r.0 * NANOS + r.1 == wait_nanos(second as int, nanosecond as int),
{
    // A leap second reads as :60, which is still inside the minute.
    let s: u64 = if second < 0 {
        0
    } else if second > 59 {
        59
    } else {
        second as u64
    };
    let n: u64 = if nanosecond < 0 {
        0
    } else {
        nanosecond as u64
    };
    let total: u64 = (59 - s) * NANOS + (NANOS - n) + PAD_NANOS;
    ((total / NANOS), (total % NANOS) as u32)
}

/// The wait, as a `Duration`, from second `second` and nanosecond
/// `nanosecond` of a minute until just past the next minute: whole seconds and
/// the nanoseconds under a second that add up to `wait_nanos`.
pub open spec fn is_wait(d: Duration, second: int, nanosecond: int) -> bool {
    exists|secs: u64, nanos: u32|
        nanos < NANOS && secs * NANOS + nanos == wait_nanos(second, nanosecond) && d
            == duration_from(secs, nanos)
}

/// How long to wait before the displayed minute changes: from the second and
/// nanosecond that `now` reads (a leap second as the minute's last) until just
/// past the next minute.
pub fn until_next_minute(now: &Zoned) -> (r: Duration)
    ensures
        is_wait(r, zoned_second(*now) as int, zoned_subsec_nanosecond(*now) as int),
{
    let second = second_of(now);
    let nanosecond = subsec_nanosecond_of(now);
    let (secs, nanos) = wait_parts(second, nanosecond);
    let r = duration_new(secs, nanos);
    assert(is_wait(r, second as int, nanosecond as int));
    r
}

} // verus!
