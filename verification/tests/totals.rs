use std::str::FromStr;

use chrono::{Datelike, NaiveDate};
use rust_decimal::Decimal;
use timesheet::decimal::Dec;
use timesheet::totals::{
    compute_totals, private_count_change, CountChange, DollarRow, EmployeeRow, LumpEntryRow, RateRow,
    SessionCountRow, StoredCategoryRow, TotalsInput, WorkedRow,
};

fn dec(n: &str) -> Dec {
    let x = Decimal::from_str(n).unwrap();
    Dec::new(x.mantissa(), x.scale()).unwrap()
}

fn day(s: &str) -> i32 {
    NaiveDate::from_str(s).unwrap().num_days_from_ce()
}

fn employee(id: i64, name: &str) -> EmployeeRow {
    EmployeeRow {
        id,
        name: name.to_string(),
        employee_number: format!("E{}", id),
        pay_method: "payroll".to_string(),
        pay_frequency: "bimonthly".to_string(),
    }
}

fn worked(id: i64, date: &str, hours: &str, cat: &str, private: bool) -> WorkedRow {
    WorkedRow { employee_id: id, entry_date: day(date), hours: dec(hours), category: cat.to_string(), is_private: private }
}

fn rate(id: i64, label: &str, amount: &str) -> RateRow {
    RateRow { employee_id: id, label: label.to_string(), amount: dec(amount) }
}

fn input() -> TotalsInput {
    TotalsInput {
        period_start: day("2026-07-01"),
        period_end: day("2026-07-15"),
        employees: vec![employee(1, "Ann"), employee(2, "Bob")],
        stored_categories: vec![StoredCategoryRow {
            employee_id: 1,
            category: "office".to_string(),
            regular_hours: dec("3"),
            overtime_hours: dec("1"),
            sick_hours: dec("0.5"),
        }],
        stored_privates: vec![SessionCountRow { employee_id: 1, session_duration: 30, session_count: 4 }],
        dollars: vec![DollarRow {
            employee_id: 1,
            other_earn: dec("10"),
            competition_earn: dec("0"),
            coaching_earn: dec("5"),
        }],
        rates: vec![rate(1, "teaching", "20"), rate(1, "office", "15"), rate(1, "recital", "50"), rate(1, "private_30", "25")],
        worked: vec![
            worked(1, "2026-07-06", "38", "teaching", false),
            worked(1, "2026-07-07", "4", "office", false),
            worked(1, "2026-07-08", "1", "private", true),
            worked(1, "2026-07-09", "1", "recital", false),
        ],
        logged_privates: vec![
            SessionCountRow { employee_id: 1, session_duration: 45, session_count: 1 },
            SessionCountRow { employee_id: 1, session_duration: 30, session_count: 2 },
        ],
        lump_sum_categories: vec!["recital".to_string()],
        lump_entries: vec![LumpEntryRow { employee_id: 1, category: "recital".to_string(), count: 2 }],
    }
}

#[test]
fn totals_prefer_stored_hours_and_sort_categories() {
    let t = compute_totals(&input()).unwrap();
    assert_eq!(t.len(), 2);
    let ann = &t[0];
    assert_eq!(ann.employee_id, 1);
    assert_eq!(ann.employee_name, "Ann");
    assert_eq!(ann.categories.len(), 2);
    let office = &ann.categories[0];
    assert_eq!(office.category, "office");
    assert_eq!(office.regular_hours, dec("3"));
    assert_eq!(office.overtime_hours, dec("1"));
    assert_eq!(office.sick_hours, dec("0.5"));
    assert_eq!(office.logged_hours, dec("4"));
    assert!(office.admin_edited);
    let teaching = &ann.categories[1];
    assert_eq!(teaching.category, "teaching");
    assert_eq!(teaching.regular_hours, dec("38"));
    assert_eq!(teaching.overtime_hours, dec("0"));
    assert_eq!(teaching.sick_hours, dec("0"));
    assert_eq!(teaching.logged_hours, dec("38"));
    assert!(!teaching.admin_edited);
}

#[test]
fn totals_walk_private_hours_last() {
    let t = compute_totals(&input()).unwrap();
    let ann = &t[0];
    // 38 teaching + 4 office reach 42 before the private hour: it is all overtime.
    assert_eq!(ann.private_regular_hours, dec("0"));
    assert_eq!(ann.private_overtime_hours, dec("1"));
}

#[test]
fn totals_private_rows_use_stored_counts() {
    let t = compute_totals(&input()).unwrap();
    let ann = &t[0];
    assert_eq!(ann.private_sessions.len(), 2);
    let p30 = &ann.private_sessions[0];
    assert_eq!((p30.session_duration, p30.session_count, p30.logged_count, p30.admin_edited), (30, 4, 2, true));
    let p45 = &ann.private_sessions[1];
    assert_eq!((p45.session_duration, p45.session_count, p45.logged_count, p45.admin_edited), (45, 1, 1, false));
}

#[test]
fn totals_lump_sums_and_dollars() {
    let t = compute_totals(&input()).unwrap();
    let ann = &t[0];
    assert_eq!(ann.lump_sum_earn, dec("100"));
    assert_eq!(ann.lump_sums.len(), 1);
    assert_eq!(ann.lump_sums[0].category, "recital");
    assert_eq!(ann.lump_sums[0].amount, dec("100"));
    assert_eq!(ann.lump_sums[0].entry_count, 2);
    assert_eq!(ann.other_earn, dec("10"));
    assert_eq!(ann.competition_earn, dec("0"));
    assert_eq!(ann.coaching_earn, dec("5"));
    let labels: Vec<&str> = ann.rates.iter().map(|r| r.label.as_str()).collect();
    assert_eq!(labels, vec!["teaching", "office", "recital", "private_30"]);
}

#[test]
fn totals_of_employee_without_data_are_zero() {
    let t = compute_totals(&input()).unwrap();
    let bob = &t[1];
    assert_eq!(bob.employee_id, 2);
    assert!(bob.categories.is_empty());
    assert!(bob.private_sessions.is_empty());
    assert!(bob.lump_sums.is_empty());
    assert!(bob.rates.is_empty());
    assert_eq!(bob.lump_sum_earn, dec("0"));
    assert_eq!(bob.other_earn, dec("0"));
    assert_eq!(bob.private_overtime_hours, dec("0"));
}

#[test]
fn totals_count_hours_before_the_period_in_its_first_week() {
    let mut inp = input();
    inp.employees = vec![employee(3, "Cy")];
    inp.worked = vec![
        worked(3, "2026-06-29", "40", "teaching", false), // before the period, same week
        worked(3, "2026-07-01", "5", "teaching", false),  // in the period: all overtime
    ];
    let t = compute_totals(&inp).unwrap();
    let cy = &t[0];
    assert_eq!(cy.categories.len(), 1);
    assert_eq!(cy.categories[0].regular_hours, dec("0"));
    assert_eq!(cy.categories[0].overtime_hours, dec("5"));
    assert_eq!(cy.categories[0].logged_hours, dec("5"));
}

#[test]
fn totals_overflow_is_none() {
    let mut inp = input();
    inp.lump_entries = vec![LumpEntryRow { employee_id: 1, category: "recital".to_string(), count: i64::MAX }];
    inp.rates = vec![rate(1, "recital", "79228162514264337593543950335")];
    assert!(compute_totals(&inp).is_none());
}

#[test]
fn zero_private_count_removes_the_row() {
    assert!(matches!(private_count_change(0), CountChange::Remove));
    assert!(matches!(private_count_change(-1), CountChange::Remove));
    assert!(matches!(private_count_change(3), CountChange::Store));
}
