//! Calendar arithmetic, done by chrono behind trusted contracts: the year
//! anchor for the day aggregator and the month steps for the month-genre
//! aggregator.

use chrono::TimeZone;
use vstd::prelude::*;

verus! {

/// How many leap days the proleptic Gregorian calendar has seen before the
/// given year, counted from year 1.
pub open spec fn leap_days_before(y: int) -> int {
    (y - 1) / 4 - (y - 1) / 100 + (y - 1) / 400
}

/// The Unix timestamp of January 1st, 00:00:00 UTC of the given year.
pub open spec fn year_start_unix(y: int) -> int {
    (365 * (y - 1970) + leap_days_before(y) - leap_days_before(1970)) * 86400
}

/// Relies on chrono's `Utc.with_ymd_and_hms` and `DateTime::timestamp`:
/// January 1st of a year in range is a valid proleptic-Gregorian date, UTC
/// maps it to a single instant, and its timestamp counts the non-leap
/// seconds since the 1970 epoch, which the Gregorian day count gives.
#[verifier::external_body]
pub(crate) fn year_start_timestamp(year: i32) -> (r: i64)
    requires
        1970 <= year <= 9999,
    ensures
        r == year_start_unix(year as int),
{
    chrono::Utc.with_ymd_and_hms(year, 1, 1, 0, 0, 0).unwrap().timestamp()
}

/// What shifting a UTC timestamp forward by whole calendar months yields,
/// as chrono computes it; it depends on the timestamp and the month count
/// alone.
pub uninterp spec fn month_shift(ts: int, months: int) -> int;

/// Whether shifting a UTC timestamp forward by whole calendar months stays
/// inside chrono's representable date range; like the shift itself, it
/// depends on the timestamp and the month count alone.
pub uninterp spec fn month_shift_ok(ts: int, months: int) -> bool;

/// Relies on chrono's `DateTime::from_timestamp`,
/// `NaiveDateTime::checked_add_months` and `timestamp`: the shifted instant
/// is a pure function of the arguments, and `None` comes exactly of a
/// timestamp or a result outside chrono's representable range, which is
/// itself a function of the arguments alone.
#[verifier::external_body]
pub(crate) fn add_months_to_timestamp(ts: i64, months: u32) -> (r: Option<i64>)
    ensures
        r matches Some(t) ==> t == month_shift(ts as int, months as int),
        r is Some <==> month_shift_ok(ts as int, months as int),
{
    match chrono::DateTime::from_timestamp(ts, 0) {
        Some(dt) => match dt.naive_utc().checked_add_months(chrono::Months::new(months)) {
            Some(d2) => Some(d2.and_utc().timestamp()),
            None => None,
        },
        None => None,
    }
}

} // verus!
