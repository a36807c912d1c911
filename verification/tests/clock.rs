use std::time::Duration;

use elsewhere::clock::{day, hint, reading, time_text, until_next_minute, wait_parts, CivilDate};
use jiff::tz::TimeZone;
use jiff::Zoned;

/// An instant, read from the given zone as home.
fn at(instant: &str, home: &str) -> Zoned {
    instant
        .parse::<jiff::Timestamp>()
        .expect("a valid timestamp")
        .to_zoned(zone(home))
}

fn zone(name: &str) -> TimeZone {
    TimeZone::get(name).expect("a zone this machine knows")
}

#[test]
fn reads_the_time_in_another_zone() {
    let now = at("2026-08-15T12:34:56Z", "UTC");
    assert_eq!(reading(&now, &zone("UTC")).time, "12:34");
    // +09:00, year round.
    assert_eq!(reading(&now, &zone("Asia/Tokyo")).time, "21:34");
    // -07:00 in August.
    assert_eq!(reading(&now, &zone("America/Los_Angeles")).time, "05:34");
}

#[test]
fn pads_the_hour_and_the_minute() {
    let now = at("2026-08-15T09:05:00Z", "UTC");
    assert_eq!(reading(&now, &zone("UTC")).time, "09:05");
    assert_eq!(reading(&now, &zone("Europe/London")).time, "10:05");
}

#[test]
fn the_same_date_needs_no_hint() {
    let now = at("2026-08-15T12:00:00Z", "UTC");
    assert_eq!(reading(&now, &zone("Europe/Paris")).day, None);
}

#[test]
fn a_zone_far_enough_east_is_a_day_ahead() {
    // 22:00 UTC is already the 16th at +14:00.
    let now = at("2026-08-15T22:00:00Z", "UTC");
    let there = reading(&now, &zone("Pacific/Kiritimati"));
    assert_eq!(there.time, "12:00");
    assert_eq!(there.day.as_deref(), Some("+1 day"));
}

#[test]
fn a_zone_far_enough_west_is_a_day_behind() {
    // Just past midnight UTC is still the 14th in California.
    let now = at("2026-08-15T00:30:00Z", "UTC");
    let there = reading(&now, &zone("America/Los_Angeles"));
    assert_eq!(there.time, "17:30");
    assert_eq!(there.day.as_deref(), Some("−1 day"));
}

#[test]
fn the_hint_is_relative_to_home_not_to_utc() {
    // Home in Tokyo: it is the 16th here, so London is the one behind and
    // Kiritimati, a day ahead of UTC, is level with us.
    let now = at("2026-08-15T22:00:00Z", "Asia/Tokyo");
    assert_eq!(now.date().to_string(), "2026-08-16");
    assert_eq!(
        reading(&now, &zone("Europe/London")).day.as_deref(),
        Some("−1 day")
    );
    assert_eq!(reading(&now, &zone("Pacific/Kiritimati")).day, None);
}

#[test]
fn a_fixed_offset_zone_reads_the_same_way() {
    let now = at("2026-08-15T23:15:00Z", "UTC");
    let there = reading(&now, &TimeZone::fixed(jiff::tz::offset(5)));
    assert_eq!(there.time, "04:15");
    assert_eq!(there.day.as_deref(), Some("+1 day"));
}

#[test]
fn an_unknown_zone_does_not_resolve() {
    assert!(TimeZone::get("Mars/Olympus_Mons").is_err());
}

#[test]
fn the_wait_runs_to_the_top_of_the_next_minute() {
    let now = at("2026-08-15T12:00:00Z", "UTC");
    assert_eq!(until_next_minute(&now), Duration::from_millis(60_050));

    let now = at("2026-08-15T12:00:59Z", "UTC");
    assert_eq!(until_next_minute(&now), Duration::from_millis(1_050));

    let now = at("2026-08-15T12:00:30.250Z", "UTC");
    assert_eq!(until_next_minute(&now), Duration::from_millis(29_800));
}

#[test]
fn the_clock_face_is_zero_padded() {
    assert_eq!(time_text(0, 0), "00:00");
    assert_eq!(time_text(23, 59), "23:59");
    assert_eq!(time_text(7, 3), "07:03");
}

#[test]
fn hints_count_days_beyond_the_next_door() {
    assert_eq!(hint(None), None);
    assert_eq!(hint(Some(0)), None);
    assert_eq!(hint(Some(1)).as_deref(), Some("+1 day"));
    assert_eq!(hint(Some(-1)).as_deref(), Some("−1 day"));
    assert_eq!(hint(Some(2)).as_deref(), Some("+2 days"));
    assert_eq!(hint(Some(-3)).as_deref(), Some("-3 days"));
    assert_eq!(hint(Some(i32::MIN)).as_deref(), Some("-2147483648 days"));
    assert_eq!(hint(Some(i32::MAX)).as_deref(), Some("+2147483647 days"));
}

#[test]
fn dates_are_compared_in_whole_days() {
    let d = |year, month, day| CivilDate { year, month, day };
    assert_eq!(day(d(2026, 8, 15), d(2026, 8, 15)), None);
    assert_eq!(day(d(2026, 8, 15), d(2026, 8, 16)).as_deref(), Some("+1 day"));
    assert_eq!(day(d(2026, 8, 16), d(2026, 8, 15)).as_deref(), Some("−1 day"));
    assert_eq!(day(d(2026, 12, 31), d(2027, 1, 2)).as_deref(), Some("+2 days"));
    assert_eq!(day(d(2024, 3, 1), d(2024, 2, 28)).as_deref(), Some("-2 days"));
    // Not a date: nothing to count.
    assert_eq!(day(d(2023, 2, 29), d(2023, 3, 1)), None);
}

#[test]
fn waits_carry_whole_seconds() {
    assert_eq!(wait_parts(0, 0), (60, 50_000_000));
    assert_eq!(wait_parts(59, 0), (1, 50_000_000));
    assert_eq!(wait_parts(30, 250_000_000), (29, 800_000_000));
    assert_eq!(wait_parts(59, 999_999_999), (0, 50_000_001));
    // A leap second counts as the minute's last.
    assert_eq!(wait_parts(60, 0), (1, 50_000_000));
}

#[test]
fn day_counts_follow_the_gregorian_calendar() {
    let d = |year, month, day| CivilDate { year, month, day };
    assert_eq!(day(d(1900, 2, 28), d(1900, 3, 1)).as_deref(), Some("+1 day"));
    assert_eq!(day(d(2000, 2, 28), d(2000, 3, 1)).as_deref(), Some("+2 days"));
    assert_eq!(day(d(0, 2, 28), d(0, 3, 1)).as_deref(), Some("+2 days"));
    assert_eq!(day(d(2006, 8, 24), d(2019, 1, 31)).as_deref(), Some("+4543 days"));
    assert_eq!(
        day(d(9999, 12, 31), d(-9999, 1, 1)).as_deref(),
        Some("-7304483 days")
    );
}
