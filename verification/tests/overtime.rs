use std::str::FromStr;

use chrono::{Datelike, NaiveDate};
use rust_decimal::Decimal;
use timesheet::decimal::Dec;
use timesheet::dates::worked_window;
use timesheet::overtime::{compute_overtime, walk_dates_in_range, OvertimeEntry, OvertimeSplit};

fn d(s: &str) -> i32 {
    NaiveDate::from_str(s).unwrap().num_days_from_ce()
}

fn dec(n: &str) -> Dec {
    let x = Decimal::from_str(n).unwrap();
    Dec::new(x.mantissa(), x.scale()).unwrap()
}

fn zero() -> Dec {
    Dec::zero()
}

fn e(date: &str, hours: &str, cat: &str, priv_: bool) -> OvertimeEntry {
    OvertimeEntry { entry_date: d(date), hours: dec(hours), category: cat.to_string(), is_private: priv_ }
}

#[test]
fn under_40_all_regular() {
    let entries = vec![
        e("2026-07-06", "8", "teaching", false),
        e("2026-07-07", "8", "teaching", false),
        e("2026-07-08", "8", "office", false),
    ];
    let r = compute_overtime(&entries).unwrap();
    for split in &r {
        assert_eq!(split.overtime, zero());
    }
    assert_eq!(r[0].regular, dec("8"));
}

#[test]
fn exactly_40_then_overtime() {
    let entries = vec![
        e("2026-07-06", "10", "teaching", false),
        e("2026-07-07", "10", "teaching", false),
        e("2026-07-08", "10", "teaching", false),
        e("2026-07-09", "10", "office", false), // ends exactly at 40
        e("2026-07-10", "5", "office", false),  // all OT
    ];
    let r = compute_overtime(&entries).unwrap();
    assert_eq!(r[3], OvertimeSplit { regular: dec("10"), overtime: zero() });
    assert_eq!(r[4], OvertimeSplit { regular: zero(), overtime: dec("5") });
}

#[test]
fn straddles_the_line() {
    let entries = vec![
        e("2026-07-06", "38", "teaching", false),
        e("2026-07-07", "4", "office", false), // 2 reg + 2 OT
    ];
    let r = compute_overtime(&entries).unwrap();
    assert_eq!(r[1], OvertimeSplit { regular: dec("2"), overtime: dec("2") });
}

#[test]
fn private_after_regular_same_day() {
    let entries = vec![
        e("2026-07-06", "38", "teaching", false),
        e("2026-07-07", "1", "private", true), // private, listed first but counts last
        e("2026-07-07", "3", "office", false), // regular, counts first: 38->41 (2reg+1ot)
    ];
    let r = compute_overtime(&entries).unwrap();
    assert_eq!(r[2], OvertimeSplit { regular: dec("2"), overtime: dec("1") }); // office
    assert_eq!(r[1], OvertimeSplit { regular: zero(), overtime: dec("1") }); // private all OT
}

#[test]
fn week_straddles_two_periods() {
    let entries = vec![
        e("2026-07-13", "20", "teaching", false), // period 1
        e("2026-07-14", "22", "teaching", false), // period 1: 20 reg + 2 OT
        e("2026-07-16", "5", "office", false),    // period 2: all OT
    ];
    let r = compute_overtime(&entries).unwrap();
    assert_eq!(r[0], OvertimeSplit { regular: dec("20"), overtime: zero() });
    assert_eq!(r[1], OvertimeSplit { regular: dec("20"), overtime: dec("2") });
    assert_eq!(r[2], OvertimeSplit { regular: zero(), overtime: dec("5") });
}

#[test]
fn separate_weeks_restart_at_zero() {
    // 2026-07-11 is a Saturday, 2026-07-12 the next Sunday.
    let entries = vec![e("2026-07-11", "45", "teaching", false), e("2026-07-12", "45", "teaching", false)];
    let r = compute_overtime(&entries).unwrap();
    assert_eq!(r[0], OvertimeSplit { regular: dec("40"), overtime: dec("5") });
    assert_eq!(r[1], OvertimeSplit { regular: dec("40"), overtime: dec("5") });
}

#[test]
fn fractional_hours_split_exactly() {
    let entries = vec![e("2026-07-06", "39.75", "teaching", false), e("2026-07-07", "0.5", "office", false)];
    let r = compute_overtime(&entries).unwrap();
    assert_eq!(r[1], OvertimeSplit { regular: dec("0.25"), overtime: dec("0.25") });
}

#[test]
fn empty_input_gives_no_splits() {
    let r = compute_overtime(&[]).unwrap();
    assert!(r.is_empty());
}

#[test]
fn walk_needs_dates_chrono_can_hold() {
    let one = |day: i32| OvertimeEntry { entry_date: day, hours: dec("1"), category: "x".to_string(), is_private: false };
    assert!(walk_dates_in_range(&[e("2026-07-06", "8", "teaching", false)]));
    assert!(walk_dates_in_range(&[]));
    // chrono's first and last dates in this version.
    let first = NaiveDate::MIN.num_days_from_ce();
    let last = NaiveDate::MAX.num_days_from_ce();
    assert_eq!((first, last), (-95746129, 95745399));
    // The first date is a Thursday: the Sunday before it does not exist.
    assert!(!walk_dates_in_range(&[e("2026-07-06", "8", "teaching", false), one(first)]));
    assert!(walk_dates_in_range(&[one(first + 3)]));
    assert!(!walk_dates_in_range(&[one(first + 2)]));
    assert!(walk_dates_in_range(&[one(last)]));
    assert!(!walk_dates_in_range(&[one(last + 1)]));
    assert!(!walk_dates_in_range(&[one(i32::MAX)]));
    // Where the walk accepts the dates, it runs.
    assert!(compute_overtime(&[one(first + 3), one(last)]).is_some());
}

#[test]
fn walk_window_reaches_six_days_out() {
    assert_eq!(worked_window(d("2026-07-01"), d("2026-07-15")), (d("2026-06-25"), d("2026-07-21")));
}

#[test]
fn hours_with_many_places_split_exactly() {
    let tiny = Dec::new(1, 28).unwrap();
    let r = compute_overtime(&[OvertimeEntry {
        entry_date: d("2026-07-06"),
        hours: tiny,
        category: "private".to_string(),
        is_private: true,
    }])
    .unwrap();
    assert_eq!(r[0], OvertimeSplit { regular: tiny, overtime: zero() });
    // Three 20-minute sessions, each (20 / 60) hours: the week stays under 40.
    let third = dec("0.3333333333333333333333333333");
    let entries = vec![
        OvertimeEntry { entry_date: d("2026-07-06"), hours: third, category: "private".to_string(), is_private: true },
        OvertimeEntry { entry_date: d("2026-07-07"), hours: third, category: "private".to_string(), is_private: true },
    ];
    let r = compute_overtime(&entries).unwrap();
    assert_eq!(r[0], OvertimeSplit { regular: third, overtime: zero() });
    assert_eq!(r[1], OvertimeSplit { regular: third, overtime: zero() });
}

#[test]
fn separate_weeks_are_walked_independently() {
    let a = vec![e("2026-07-06", "30", "teaching", false), e("2026-07-08", "15", "office", false)];
    let b = vec![e("2026-07-13", "41", "teaching", false), e("2026-07-14", "1", "private", true)];
    let both: Vec<OvertimeEntry> = vec![
        e("2026-07-06", "30", "teaching", false),
        e("2026-07-08", "15", "office", false),
        e("2026-07-13", "41", "teaching", false),
        e("2026-07-14", "1", "private", true),
    ];
    let ra = compute_overtime(&a).unwrap();
    let rb = compute_overtime(&b).unwrap();
    let r = compute_overtime(&both).unwrap();
    let joined: Vec<OvertimeSplit> = ra.into_iter().chain(rb).collect();
    assert_eq!(r, joined);
    assert_eq!(r[1], OvertimeSplit { regular: dec("10"), overtime: dec("5") });
    assert_eq!(r[3], OvertimeSplit { regular: zero(), overtime: dec("1") });
}

#[test]
fn weekly_regular_hours_total_at_most_40() {
    let entries = vec![
        e("2026-07-06", "12", "teaching", false),
        e("2026-07-07", "12.5", "office", false),
        e("2026-07-08", "3", "private", true),
        e("2026-07-08", "12", "teaching", false),
        e("2026-07-10", "5.25", "office", false),
    ];
    let r = compute_overtime(&entries).unwrap();
    let add = |a: Decimal, x: &Dec| {
        let (m, s) = x.parts();
        a + Decimal::from_i128_with_scale(m, s)
    };
    let regular = r.iter().map(|s| &s.regular).fold(Decimal::ZERO, add);
    let overtime = r.iter().map(|s| &s.overtime).fold(Decimal::ZERO, add);
    assert_eq!(regular, Decimal::from(40));
    assert_eq!(overtime, Decimal::from_str("4.75").unwrap());
}
