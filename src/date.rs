//! Calendar dates as day numbers, date windows, and the date of a timestamp.

use vstd::prelude::*;

verus! {

/// Day number of 1970-01-01, counting 0001-01-01 of the proleptic Gregorian calendar as day 1.
pub const UNIX_EPOCH_DAY: i32 = 719163;

/// Timestamps further than this many seconds from the Unix epoch (about 34,800 years)
/// are not given a date.
pub const TIMESTAMP_LIMIT: i64 = 1099511627776;

/// A calendar date, as its day number in the proleptic Gregorian calendar
/// (0001-01-01 is day 1).
#[derive(Clone, Copy, Debug, PartialEq, Eq, Structural, PartialOrd, Ord, Hash)]
pub struct Date {
    pub day: i32,
}

/// The UTC calendar day of a timestamp given in seconds since the Unix epoch.
pub open spec fn day_of_timestamp(secs: int) -> int {
    secs / 86400 + UNIX_EPOCH_DAY as int
}

/// Whether a timestamp lies close enough to the epoch to be given a date.
pub open spec fn timestamp_in_range(secs: int) -> bool {
    -(TIMESTAMP_LIMIT as int) <= secs <= TIMESTAMP_LIMIT as int
}

/// Relies on chrono's `DateTime::<Utc>::from_timestamp`, `DateTime::date_naive` and
/// `Datelike::num_days_from_ce`: the first splits the timestamp with `div_euclid(86_400)`
/// and adds the day number of 1970-01-01; the result is `None` only where that day
/// falls outside chrono's range of years (beyond 262,000 years from year 1).
#[verifier::external_body]
fn utc_date_of(secs: i64) -> (r: Option<Date>)
    ensures
        r matches Some(d) ==> d.day == day_of_timestamp(secs as int),
        timestamp_in_range(secs as int) ==> r is Some,
{
    match chrono::DateTime::from_timestamp(secs, 0) {
        Some(t) => Some(Date { day: chrono::Datelike::num_days_from_ce(&t.date_naive()) }),
        None => None,
    }
}

/// The UTC calendar date of a timestamp, or `None` for one out of range.
pub fn date_of_timestamp(secs: i64) -> (r: Option<Date>)
    ensures
        r == (if timestamp_in_range(secs as int) {
            Some(Date { day: day_of_timestamp(secs as int) as i32 })
        } else {
            None
        }),
{
    if secs < -TIMESTAMP_LIMIT || secs > TIMESTAMP_LIMIT {
        return None;
    }
    match utc_date_of(secs) {
        Some(d) => {
            assert(day_of_timestamp(secs as int) == d.day as int);
            Some(d)
        },
        None => None,
    }
}

/// Why a work item's history could not be turned into a log.
#[derive(Clone, Copy, Debug, PartialEq, Eq, Structural)]
pub enum LogError {
    /// The revision at this position changes the completed work but lacks its author
    /// or its timestamp, or its timestamp has no date.
    MalformedRevision { index: usize },
    /// The window's upper bound lies before its lower bound.
    InvalidWindow,
}

/// An inclusive range of calendar dates.
#[derive(Clone, Copy, Debug, PartialEq, Eq, Structural)]
pub struct DateWindow {
    pub from: Date,
    pub to: Date,
}

impl DateWindow {
    pub open spec fn spec_contains(&self, d: Date) -> bool {
        self.from.day <= d.day <= self.to.day
    }

    /// A window from `from` to `to`, both included; refused when `to` lies before `from`.
    pub fn new(from: Date, to: Date) -> (r: Result<DateWindow, LogError>)
        ensures
            to.day < from.day ==> r == Err::<DateWindow, LogError>(LogError::InvalidWindow),
            from.day <= to.day ==> r == Ok::<DateWindow, LogError>(DateWindow { from, to }),
    {
        if to.day < from.day {
            Err(LogError::InvalidWindow)
        } else {
            Ok(DateWindow { from, to })
        }
    }

    /// Whether `d` lies in the window, bounds included.
    pub fn contains(&self, d: Date) -> (r: bool)
        ensures
            r == self.spec_contains(d),
    {
        self.from.day <= d.day && d.day <= self.to.day
    }
}

} // verus!
