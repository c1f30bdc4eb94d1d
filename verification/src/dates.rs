//! Calendar dates, held as chrono's day numbers: day 1 is 0001-01-01 of the
//! proleptic Gregorian calendar (a Monday), as `NaiveDate::num_days_from_ce`
//! counts them.
use chrono::Datelike;
use vstd::prelude::*;

verus! {

/// Day number of chrono's earliest date, `NaiveDate::MIN` (-262143-01-01).
pub open spec fn min_day() -> int {
    -95746129
}

/// Day number of chrono's latest date, `NaiveDate::MAX` (262142-12-31).
pub open spec fn max_day() -> int {
    95745399
}

pub open spec fn day_in_range(d: int) -> bool {
    min_day() <= d <= max_day()
}

/// Days since the last Sunday (0 on a Sunday, 1 on a Monday, ...).
pub open spec fn spec_days_since_sunday(d: int) -> int {
    d % 7
}

/// The Sunday that starts the Sunday-to-Saturday week holding day `d`.
pub open spec fn spec_week_start(d: int) -> int {
    d - spec_days_since_sunday(d)
}

/// `d` and the Sunday before it are both dates chrono can hold.
pub open spec fn week_start_ok(d: int) -> bool {
    day_in_range(d) && day_in_range(spec_week_start(d))
}

/// The Sunday that starts the Sun–Sat week containing `day`, through chrono:
/// `NaiveDate::weekday().num_days_from_sunday()` and subtraction of that many
/// days. Claims: that Sunday is `day - day mod 7` (day 1 is a Monday).
#[verifier::external_body]
pub(crate) fn week_start(day: i32) -> (r: i32)
    requires
        week_start_ok(day as int),
    ensures
        r as int == spec_week_start(day as int),
{
    let d = chrono::NaiveDate::from_num_days_from_ce_opt(day).unwrap();
    let w = d - chrono::Duration::days(d.weekday().num_days_from_sunday() as i64);
    w.num_days_from_ce()
}


/// Whether chrono can compute the week start of `day` (see `week_start_ok`).
pub fn week_start_in_range(day: i32) -> (r: bool)
    ensures
        r == week_start_ok(day as int),
{
    let since_sunday = day % 7;
    let since_sunday = if since_sunday < 0 { since_sunday + 7 } else { since_sunday };
    assert(since_sunday as int == spec_days_since_sunday(day as int)) by {
        assert(day % 7 == (day as int) % 7 || (day as int) % 7 == day % 7 + 7);
    }
    -95746129 <= day && day <= 95745399 && -95746129 <= day - since_sunday
}

/// The first and last day of the walk window of a period: six days on either
/// side, enough to hold the whole Sunday-to-Saturday weeks the period touches.
pub open spec fn walk_window(period_start: int, period_end: int) -> (int, int) {
    (period_start - 6, period_end + 6)
}

/// Every day of a week that the period touches lies in the walk window.
pub proof fn lemma_walk_window_covers_weeks(period_start: int, period_end: int, d: int)
    requires
        spec_week_start(period_start) <= spec_week_start(d) <= spec_week_start(period_end),
    ensures
        walk_window(period_start, period_end).0 <= d <= walk_window(period_start, period_end).1,
{
}

/// The walk window of a period, as day numbers.
pub fn worked_window(period_start: i32, period_end: i32) -> (r: (i32, i32))
    requires
        day_in_range(period_start as int - 6),
        day_in_range(period_end as int + 6),
    ensures
        r.0 as int == walk_window(period_start as int, period_end as int).0,
        r.1 as int == walk_window(period_start as int, period_end as int).1,
{
    (period_start - 6, period_end + 6)
}

} // verus!
