//! The Day Aggregator: one fixed-size window per calendar day of the target
//! year, each summing the resolved durations of its scrobbles, with an
//! implausibly large total clamped to zero.

use crate::timeapi::{year_start_timestamp, year_start_unix};
use vstd::prelude::*;

verus! {

pub const DAY_SECONDS: i64 = 86400;

/// One day of listening, in milliseconds: the clamp threshold.
pub const DAY_MILLIS: u64 = 86400000;

/// How many day windows the aggregator walks: one fewer than the day count
/// of the year, where a year divisible by four counts 365 days and any
/// other 364, and the year's first day is never aggregated.
pub open spec fn day_window_count(year: int) -> int {
    if year % 4 == 0 {
        364
    } else {
        363
    }
}

/// The day windows of a year: window `j` spans the half-open second range
/// starting `j + 1` days after midnight UTC of the year's January 1st.
pub fn day_windows(year: i32) -> (r: Vec<(i64, i64)>)
    requires
        1970 <= year <= 9999,
    ensures
        r@.len() == day_window_count(year as int),
        forall|j: int|
            0 <= j < r@.len() ==> r@[j].0 == year_start_unix(year as int) + (j + 1) * 86400
                && r@[j].1 == year_start_unix(year as int) + (j + 2) * 86400,
{
    let year_start = year_start_timestamp(year);
    let days_in_year: i64 = if year % 4 == 0 {
        365
    } else {
        364
    };
    let mut r: Vec<(i64, i64)> = Vec::new();
    let mut i: i64 = 1;
    while i < days_in_year
        invariant
            1 <= i <= days_in_year,
            days_in_year == if year as int % 4 == 0 { 365int } else { 364int },
            year_start == year_start_unix(year as int),
            0 <= year_start <= 400_000_000_000,
            r@.len() == i - 1,
            forall|j: int|
                0 <= j < r@.len() ==> r@[j].0 == year_start + (j + 1) * 86400 && r@[j].1
                    == year_start + (j + 2) * 86400,
        decreases days_in_year - i,
    {
        let from_ts = year_start + i * DAY_SECONDS;
        let to_ts = year_start + (i + 1) * DAY_SECONDS;
        r.push((from_ts, to_ts));
        i = i + 1;
    }
    r
}

/// The sum of a window's resolved durations, in milliseconds.
pub open spec fn sum_durs(s: Seq<u64>) -> int
    decreases s.len(),
{
    if s.len() == 0 {
        0
    } else {
        sum_durs(s.drop_last()) + s.last()
    }
}

/// What a window stores: its total, unless the total is implausibly larger
/// than one day of listening, which signals a provider anomaly and is
/// stored as zero.
pub open spec fn clamped_total(s: Seq<u64>) -> u64 {
    if sum_durs(s) > 86400000 {
        0
    } else {
        sum_durs(s) as u64
    }
}

pub proof fn lemma_sum_durs_nonneg(s: Seq<u64>)
    ensures
        sum_durs(s) >= 0,
    decreases s.len(),
{
    if s.len() > 0 {
        lemma_sum_durs_nonneg(s.drop_last());
    }
}

/// A window total computed above one day's milliseconds is stored as zero,
/// never as the raw figure.
pub proof fn lemma_window_clamp(s: Seq<u64>)
    ensures
        sum_durs(s) > 86400000 ==> clamped_total(s) == 0,
        clamped_total(s) <= 86400000,
{
    lemma_sum_durs_nonneg(s);
}

/// Sums one window's resolved durations and applies the sanity clamp.
pub fn window_total(durs: &Vec<u64>) -> (r: u64)
    ensures
        r == clamped_total(durs@),
        r <= 86400000,
{
    let n = durs.len();
    let mut acc: u64 = 0;
    let mut over: bool = false;
    for i in 0..n
        invariant
            n == durs@.len(),
            if over {
                sum_durs(durs@.take(i as int)) > 86400000
            } else {
                acc == sum_durs(durs@.take(i as int))
            },
    {
        assert(durs@.take(i + 1).drop_last() =~= durs@.take(i as int));
        assert(durs@.take(i + 1).last() == durs@[i as int]);
        if !over {
            if acc <= u64::MAX - durs[i] {
                acc = acc + durs[i];
            } else {
                over = true;
            }
        }
    }
    assert(durs@.take(n as int) =~= durs@);
    if over {
        0
    } else if acc > DAY_MILLIS {
        0
    } else {
        acc
    }
}

/// The day aggregator's pure core: given the resolved durations of each
/// window, in window order, produce the ordered day buckets of the year,
/// each keyed by its window's starting timestamp and clamped.
pub fn calculate_year(year: i32, window_durations: &Vec<Vec<u64>>) -> (r: Vec<(i64, u64)>)
    requires
        1970 <= year <= 9999,
        window_durations@.len() == day_window_count(year as int),
    ensures
        r@.len() == day_window_count(year as int),
        forall|j: int|
            0 <= j < r@.len() ==> r@[j].0 == year_start_unix(year as int) + (j + 1) * 86400
                && r@[j].1 == clamped_total(window_durations@[j]@),
        forall|j: int| 0 <= j < r@.len() ==> r@[j].1 <= 86400000,
{
    let year_start = year_start_timestamp(year);
    let n = window_durations.len();
    let mut r: Vec<(i64, u64)> = Vec::new();
    for i in 0..n
        invariant
            n == window_durations@.len(),
            n == day_window_count(year as int),
            year_start == year_start_unix(year as int),
            0 <= year_start <= 400_000_000_000,
            r@.len() == i,
            forall|j: int|
                0 <= j < i ==> r@[j].0 == year_start + (j + 1) * 86400 && r@[j].1 == clamped_total(
                    window_durations@[j]@,
                ),
            forall|j: int| 0 <= j < i ==> r@[j].1 <= 86400000,
    {
        let from_ts = year_start + ((i as i64) + 1) * DAY_SECONDS;
        let total = window_total(&window_durations[i]);
        r.push((from_ts, total));
    }
    r
}

/// The sum of all day totals, in milliseconds.
pub open spec fn sum_day_totals(s: Seq<(i64, u64)>) -> int
    decreases s.len(),
{
    if s.len() == 0 {
        0
    } else {
        sum_day_totals(s.drop_last()) + s.last().1
    }
}

/// The year's total listening time in minutes, from its day buckets; every
/// bucket respects the clamp, so the sum fits comfortably.
pub fn total_minutes(days: &Vec<(i64, u64)>) -> (r: u64)
    requires
        days@.len() <= 100_000,
        forall|j: int| 0 <= j < days@.len() ==> days@[j].1 <= 86400000,
    ensures
        r == sum_day_totals(days@) / 1000 / 60,
{
    let n = days.len();
    let mut acc: u64 = 0;
    for i in 0..n
        invariant
            n == days@.len(),
            n <= 100_000,
            forall|j: int| 0 <= j < n ==> days@[j].1 <= 86400000,
            acc == sum_day_totals(days@.take(i as int)),
            acc <= i * 86400000,
    {
        assert(days@.take(i + 1).drop_last() =~= days@.take(i as int));
        assert(days@.take(i + 1).last() == days@[i as int]);
        acc = acc + days[i].1;
    }
    assert(days@.take(n as int) =~= days@);
    (acc / 1000) / 60
}

} // verus!
