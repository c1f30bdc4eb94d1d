use std::str::FromStr;

use rust_decimal::Decimal;
use timesheet::decimal::Dec;
use timesheet::export::{export_columns, export_rates, export_selection};
use timesheet::totals::{CategoryRow, EmployeeTotals, PrivateRow, RateEntry};

fn dec(n: &str) -> Dec {
    let x = Decimal::from_str(n).unwrap();
    Dec::new(x.mantissa(), x.scale()).unwrap()
}

fn rate(label: &str, amount: &str) -> RateEntry {
    RateEntry { label: label.to_string(), amount: dec(amount) }
}

fn cat(name: &str, reg: &str, ot: &str, sick: &str) -> CategoryRow {
    CategoryRow {
        category: name.to_string(),
        regular_hours: dec(reg),
        overtime_hours: dec(ot),
        sick_hours: dec(sick),
        logged_hours: dec("0"),
        admin_edited: false,
    }
}

fn totals(id: i64, freq: &str, method: &str) -> EmployeeTotals {
    EmployeeTotals {
        employee_id: id,
        employee_name: format!("Emp {}", id),
        employee_number: format!("{}", id),
        pay_method: method.to_string(),
        pay_frequency: freq.to_string(),
        categories: vec![cat("office", "2", "1", "0"), cat("teaching", "30", "4", "2.5")],
        private_sessions: vec![
            PrivateRow { session_duration: 30, session_count: 2, logged_count: 2, admin_edited: false },
            PrivateRow { session_duration: 45, session_count: 0, logged_count: 0, admin_edited: false },
        ],
        other_earn: dec("12.5"),
        competition_earn: dec("40"),
        coaching_earn: dec("7"),
        lump_sum_earn: dec("100"),
        lump_sums: vec![],
        private_regular_hours: dec("1.5"),
        private_overtime_hours: dec("0"),
        rates: vec![
            rate("teaching", "20"),
            rate("private_30", "25"),
            rate("recital", "50"),
            rate("private_45", "30"),
            rate("office", "15"),
        ],
    }
}

#[test]
fn export_filters_by_frequency_and_method() {
    let all = vec![totals(1, "weekly", "payroll"), totals(2, "monthly", "check"), totals(3, "weekly", "check")];
    assert_eq!(export_selection(&all, &None, &None), vec![0, 1, 2]);
    assert_eq!(export_selection(&all, &Some("all".to_string()), &Some("both".to_string())), vec![0, 1, 2]);
    assert_eq!(export_selection(&all, &Some("weekly".to_string()), &None), vec![0, 2]);
    assert_eq!(export_selection(&all, &Some("weekly".to_string()), &Some("check".to_string())), vec![2]);
    assert_eq!(export_selection(&all, &None, &Some("payroll".to_string())), vec![0]);
}

#[test]
fn export_lists_normal_then_taught_private_rates() {
    let t = totals(1, "weekly", "payroll");
    let lump = vec!["recital".to_string()];
    // teaching, office, then private_30 (taught); private_45 had no sessions.
    assert_eq!(export_rates(&t, &lump), vec![dec("20"), dec("15"), dec("25")]);
}

#[test]
fn export_columns_sum_the_blocks() {
    let t = totals(1, "weekly", "payroll");
    let c = export_columns(&t).unwrap();
    assert_eq!(c.regular, dec("33.5"));
    assert_eq!(c.overtime, dec("5"));
    assert_eq!(c.sick, dec("2.5"));
    assert_eq!(c.other, dec("112.5"));
    assert_eq!(c.competition, dec("40"));
    assert_eq!(c.coaching, dec("7"));
}
