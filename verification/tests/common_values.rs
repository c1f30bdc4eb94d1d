use std::str::FromStr;

use chrono::{Datelike, NaiveDate};
use rust_decimal::Decimal;
use timesheet::decimal::Dec;
use timesheet::overtime::{compute_overtime, OvertimeEntry, OvertimeSplit};
use timesheet::pay::{compute_pay, HoursSumRow, PayInput};
use timesheet::text::{parse_i32, strip_text_prefix, text_less};
use timesheet::totals::{EmployeeRow, RateRow};

fn dec(n: &str) -> Dec {
    let x = Decimal::from_str(n).unwrap();
    Dec::new(x.mantissa(), x.scale()).unwrap()
}

fn day(s: &str) -> i32 {
    NaiveDate::from_str(s).unwrap().num_days_from_ce()
}

fn worked(date: &str, hours: Dec) -> OvertimeEntry {
    OvertimeEntry { entry_date: day(date), hours, category: "teaching".to_string(), is_private: false }
}

#[test]
fn weeks_begin_on_sunday() {
    // Saturday 2026-07-11 closes a week; Sunday 2026-07-12 opens the next.
    let r = compute_overtime(&[worked("2026-07-11", dec("38")), worked("2026-07-12", dec("4"))]).unwrap();
    assert_eq!(r[1], OvertimeSplit { regular: dec("4"), overtime: dec("0") });
    // Sunday 2026-07-05 and Saturday 2026-07-11 share a week.
    let r = compute_overtime(&[worked("2026-07-05", dec("38")), worked("2026-07-11", dec("4"))]).unwrap();
    assert_eq!(r[1], OvertimeSplit { regular: dec("2"), overtime: dec("2") });
}

#[test]
fn split_at_the_line_is_exact_in_cents() {
    let r = compute_overtime(&[worked("2026-07-06", dec("38.5")), worked("2026-07-07", dec("1.75"))]).unwrap();
    assert_eq!(r[1], OvertimeSplit { regular: dec("1.5"), overtime: dec("0.25") });
    assert_eq!(r[1].overtime.parts(), (25, 2));
    // Exactly at the line: all regular.
    let r = compute_overtime(&[worked("2026-07-06", dec("38.5")), worked("2026-07-07", dec("1.50"))]).unwrap();
    assert_eq!(r[1], OvertimeSplit { regular: dec("1.5"), overtime: dec("0") });
}

#[test]
fn decimal_overflow_is_none() {
    let max = Dec::new(0xFFFF_FFFF_FFFF_FFFF_FFFF_FFFF, 0).unwrap();
    assert!(compute_overtime(&[worked("2026-07-06", max), worked("2026-07-07", max)]).is_none());
    assert!(compute_overtime(&[worked("2026-07-06", max), worked("2026-07-13", max)]).is_some());
    assert!(Dec::new(1, 29).is_none());
    assert!(Dec::new(0x1_0000_0000_0000_0000_0000_0000, 0).is_none());
}

fn one_hour_at(rate: &str) -> PayInput {
    PayInput {
        employees: vec![EmployeeRow {
            id: 1,
            name: "Ann".to_string(),
            employee_number: "E1".to_string(),
            pay_method: "check".to_string(),
            pay_frequency: "weekly".to_string(),
        }],
        sums: vec![HoursSumRow {
            employee_id: 1,
            category: "teaching".to_string(),
            entry_type: "regular".to_string(),
            hours: dec("1"),
        }],
        rates: vec![RateRow { employee_id: 1, label: "teaching".to_string(), amount: dec(rate) }],
        dollars: vec![],
    }
}

#[test]
fn subtotals_round_half_to_even_cent() {
    let p = compute_pay(&one_hour_at("2.345")).unwrap();
    assert_eq!(p[0].pay_lines[0].subtotal, dec("2.34"));
    let p = compute_pay(&one_hour_at("2.355")).unwrap();
    assert_eq!(p[0].pay_lines[0].subtotal, dec("2.36"));
    let p = compute_pay(&one_hour_at("2.5")).unwrap();
    assert_eq!(p[0].pay_lines[0].subtotal.parts(), (25, 1));
}

#[test]
fn parse_i32_reads_like_std() {
    assert_eq!(parse_i32("30"), Some(30));
    assert_eq!(parse_i32("+45"), Some(45));
    assert_eq!(parse_i32("-7"), Some(-7));
    assert_eq!(parse_i32("2147483647"), Some(i32::MAX));
    assert_eq!(parse_i32("-2147483648"), Some(i32::MIN));
    assert_eq!(parse_i32("2147483648"), None);
    assert_eq!(parse_i32(""), None);
    assert_eq!(parse_i32("-"), None);
    assert_eq!(parse_i32("3x"), None);
    assert_eq!(parse_i32(" 3"), None);
}

#[test]
fn prefix_is_stripped_only_when_present() {
    assert_eq!(strip_text_prefix("private_30", "private_"), Some("30".to_string()));
    assert_eq!(strip_text_prefix("private_", "private_"), Some(String::new()));
    assert_eq!(strip_text_prefix("teaching", "private_"), None);
    assert_eq!(strip_text_prefix("priv", "private_"), None);
}

#[test]
fn names_sort_like_strings() {
    assert!(text_less("office", "teaching"));
    assert!(!text_less("teaching", "office"));
    assert!(text_less("a", "ab"));
    assert!(!text_less("ab", "ab"));
    assert!(text_less("B", "a"));
}
