use vstd::prelude::*;
use chrono::{Datelike, TimeZone, Utc};

verus! {

/// Day number of 1970-01-01, counted with 0001-01-01 as day 1
/// (the proleptic Gregorian calendar).
pub const UNIX_EPOCH_DAY: i32 = 719_163;

/// Day number of the earliest calendar date that chrono can represent.
pub const FIRST_DAY: i32 = -95_746_129;

/// Day number of the latest calendar date that chrono can represent.
pub const LAST_DAY: i32 = 95_745_399;

/// A calendar day, as its number in the proleptic Gregorian calendar with
/// 0001-01-01 as day 1. Days compare and order by that number.
#[derive(Clone, Copy, Debug, PartialEq, Eq, Structural, Hash)]
pub struct Day {
    pub days_from_ce: i32,
}

/// The day number that a Unix day count (days since 1970-01-01) falls on.
pub open spec fn epoch_day(unix_days: int) -> int {
    unix_days + UNIX_EPOCH_DAY
}

/// Whether a day number lies in the calendar range that chrono represents.
pub open spec fn representable(day: int) -> bool {
    FIRST_DAY <= day <= LAST_DAY
}

/// The UTC calendar day of a Unix timestamp in seconds, if chrono can
/// represent it.
pub open spec fn utc_day_of_seconds(secs: int) -> Option<Day> {
    let day = epoch_day(secs / 86_400);
    if representable(day) {
        Some(Day { days_from_ce: day as i32 })
    } else {
        None
    }
}

/// The UTC calendar day of a Unix timestamp in milliseconds, if chrono can
/// represent it.
pub open spec fn utc_day_of_millis(millis: int) -> Option<Day> {
    let day = epoch_day(millis / 86_400_000);
    if representable(day) {
        Some(Day { days_from_ce: day as i32 })
    } else {
        None
    }
}

/// chrono's `Utc.timestamp_opt(secs, 0).single()` followed by `date_naive()`
/// and `num_days_from_ce()`. chrono floors the timestamp to whole days
/// (`div_euclid(86_400)`), adds the epoch's day number, and answers `None`
/// exactly when that day falls outside `NaiveDate::MIN ..= NaiveDate::MAX`;
/// the contract claims that, and nothing more.
#[verifier::external_body]
pub(crate) fn utc_day_from_seconds(secs: i64) -> (r: Option<Day>)
    ensures
        r == utc_day_of_seconds(secs as int),
{
    match Utc.timestamp_opt(secs, 0).single() {
        Some(t) => Some(Day { days_from_ce: t.date_naive().num_days_from_ce() }),
        None => None,
    }
}

/// chrono's `Utc.timestamp_millis_opt(millis).single()` followed by
/// `date_naive()` and `num_days_from_ce()`. chrono splits the milliseconds
/// into seconds with `div_euclid(1000)` and then proceeds as for seconds, so
/// the day is the floor of `millis / 86_400_000` plus the epoch's day number,
/// and `None` comes exactly when that day is outside chrono's range.
#[verifier::external_body]
pub(crate) fn utc_day_from_millis(millis: i64) -> (r: Option<Day>)
    ensures
        r == utc_day_of_millis(millis as int),
{
    match Utc.timestamp_millis_opt(millis).single() {
        Some(t) => Some(Day { days_from_ce: t.date_naive().num_days_from_ce() }),
        None => None,
    }
}

} // verus!
