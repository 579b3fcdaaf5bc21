//! Days of the calendar, counted from 1 January 1970.

use chrono::Datelike;
use vstd::prelude::*;

verus! {

/// A day of the Gregorian calendar.
#[derive(Debug, Clone, Copy, PartialEq, Eq, Structural)]
pub struct Date {
    pub year: i32,
    pub month: u32,
    pub day: u32,
}

/// The number that `chrono` gives a day of the proleptic Gregorian calendar,
/// counting 1 January of the year 1 as day 1; none where `chrono` knows no
/// such day.
pub uninterp spec fn ce_days(year: i32, month: u32, day: u32) -> Option<i32>;

/// Makes the day with `chrono::NaiveDate::from_ymd_opt` and counts it with
/// `chrono::Datelike::num_days_from_ce`. The contract gives the result its
/// name and claims nothing else of it.
#[verifier::external_body]
fn count_days(year: i32, month: u32, day: u32) -> (r: Option<i32>)
    ensures
        r == ce_days(year, month, day),
{
    chrono::NaiveDate::from_ymd_opt(year, month, day).map(|d| d.num_days_from_ce())
}

/// The number of 1 January 1970 in the count of [`ce_days`].
pub const EPOCH_CE_DAYS: i64 = 719_163;

/// The days from 1 January 1970 to the day that the count names.
pub open spec fn since_epoch(count: Option<i32>) -> Option<i32> {
    match count {
        Some(c) => if c - EPOCH_CE_DAYS >= i32::MIN {
            Some((c - EPOCH_CE_DAYS) as i32)
        } else {
            None
        },
        None => None,
    }
}

/// Computes [`since_epoch`].
pub fn days_since_epoch(count: Option<i32>) -> (r: Option<i32>)
    ensures
        r == since_epoch(count),
{
    match count {
        Some(c) => {
            let d: i64 = c as i64 - EPOCH_CE_DAYS;
            if d >= i32::MIN as i64 {
                Some(d as i32)
            } else {
                None
            }
        },
        None => None,
    }
}

/// The days from 1 January 1970 to `date`; none where the calendar has no
/// such day.
pub fn epoch_day(date: &Date) -> (r: Option<i32>)
    ensures
        r == since_epoch(ce_days(date.year, date.month, date.day)),
{
    days_since_epoch(count_days(date.year, date.month, date.day))
}

} // verus!
