use std::str::FromStr;

use rust_decimal::Decimal;
use timesheet::decimal::Dec;
use timesheet::pay::{compute_pay, HoursSumRow, PayInput};
use timesheet::totals::{DollarRow, EmployeeRow, RateRow};

fn dec(n: &str) -> Dec {
    let x = Decimal::from_str(n).unwrap();
    Dec::new(x.mantissa(), x.scale()).unwrap()
}

fn employee(id: i64, name: &str) -> EmployeeRow {
    EmployeeRow {
        id,
        name: name.to_string(),
        employee_number: format!("E{}", id),
        pay_method: "check".to_string(),
        pay_frequency: "weekly".to_string(),
    }
}

fn sum(id: i64, cat: &str, kind: &str, hours: &str) -> HoursSumRow {
    HoursSumRow { employee_id: id, category: cat.to_string(), entry_type: kind.to_string(), hours: dec(hours) }
}

fn rate(id: i64, label: &str, amount: &str) -> RateRow {
    RateRow { employee_id: id, label: label.to_string(), amount: dec(amount) }
}

fn input() -> PayInput {
    PayInput {
        employees: vec![employee(1, "Ann")],
        sums: vec![
            sum(1, "teaching", "regular", "10"),
            sum(1, "teaching", "overtime", "2"),
            sum(1, "teaching", "sick", "1"),
            sum(1, "office", "regular", "3.333"),
            sum(1, "uncategorized", "regular", "4"),
            sum(1, "office", "holiday", "9"),
        ],
        rates: vec![rate(1, "teaching", "20"), rate(1, "office", "15"), rate(1, "coaching", "30")],
        dollars: vec![DollarRow {
            employee_id: 1,
            other_earn: dec("10"),
            competition_earn: dec("20"),
            coaching_earn: dec("5"),
        }],
    }
}

#[test]
fn pay_lines_price_hours_at_rates() {
    let p = compute_pay(&input()).unwrap();
    assert_eq!(p.len(), 1);
    let ann = &p[0];
    let cats: Vec<&str> = ann.pay_lines.iter().map(|l| l.category.as_str()).collect();
    assert_eq!(cats, vec!["coaching", "office", "teaching", "uncategorized"]);
    let teaching = &ann.pay_lines[2];
    assert_eq!(teaching.hours, dec("13"));
    assert_eq!(teaching.regular_hours, dec("10"));
    assert_eq!(teaching.overtime_hours, dec("2"));
    assert_eq!(teaching.sick_hours, dec("1"));
    assert_eq!(teaching.rate, dec("20"));
    assert_eq!(teaching.subtotal, dec("260"));
    assert!(!teaching.needs_rate);
    // 3.333 h at 15 is 49.995, rounded to the even cent.
    let office = &ann.pay_lines[1];
    assert_eq!(office.hours, dec("3.333"));
    assert_eq!(office.subtotal, dec("50.00"));
}

#[test]
fn pay_flags_hours_without_rate() {
    let p = compute_pay(&input()).unwrap();
    let ann = &p[0];
    let unc = &ann.pay_lines[3];
    assert!(unc.needs_rate);
    assert_eq!(unc.rate, dec("0"));
    assert_eq!(unc.subtotal, dec("0"));
    assert_eq!(ann.unpaid_hours, dec("4"));
}

#[test]
fn pay_lists_rates_without_hours() {
    let p = compute_pay(&input()).unwrap();
    let coaching = &p[0].pay_lines[0];
    assert_eq!(coaching.rate, dec("30"));
    assert_eq!(coaching.hours, dec("0"));
    assert_eq!(coaching.subtotal, dec("0"));
    assert!(!coaching.needs_rate);
}

#[test]
fn pay_totals_add_dollar_buckets() {
    let p = compute_pay(&input()).unwrap();
    let ann = &p[0];
    assert_eq!(ann.total_hours, dec("20.333"));
    // 260 + 50.00 + 10 + 20 + 5
    assert_eq!(ann.total_pay, dec("345"));
    assert_eq!(ann.other_earn, dec("10"));
    assert_eq!(ann.competition_earn, dec("20"));
    assert_eq!(ann.coaching_earn, dec("5"));
}

#[test]
fn pay_of_employee_without_rows() {
    let mut inp = input();
    inp.employees = vec![employee(9, "Zed")];
    let p = compute_pay(&inp).unwrap();
    assert!(p[0].pay_lines.is_empty());
    assert_eq!(p[0].total_pay, dec("0"));
    assert_eq!(p[0].total_hours, dec("0"));
}

#[test]
fn pay_overflow_is_none() {
    let mut inp = input();
    inp.sums = vec![
        sum(1, "teaching", "regular", "79228162514264337593543950335"),
        sum(1, "teaching", "regular", "79228162514264337593543950335"),
    ];
    assert!(compute_pay(&inp).is_none());
}
