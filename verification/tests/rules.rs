use std::str::FromStr;

use rust_decimal::Decimal;
use timesheet::accounts::{
    check_new_password, invite_check, login_account, login_password, me_response, normalize_email,
    require_employee, signup_invite, InviteCheck, MeResponse,
};
use timesheet::auth::{AdminEmployee, CurrentEmployee, SuperAdminEmployee};
use timesheet::categories::{category_name, category_name_free};
use timesheet::decimal::Dec;
use timesheet::durations::{check_new_duration, duration_created};
use timesheet::employees::{check_role_change, employee_number_free, losing_super_admin};
use timesheet::entries::{duration_known, my_categories, resolve_hours};
use timesheet::error::{require_affected, require_row};

fn dec(n: &str) -> Dec {
    let x = Decimal::from_str(n).unwrap();
    Dec::new(x.mantissa(), x.scale()).unwrap()
}

fn s(x: &str) -> String {
    x.to_string()
}

#[test]
fn session_decides_who_is_logged_in() {
    assert_eq!(CurrentEmployee::from_session(Some(7)).ok().unwrap().id, 7);
    let e = CurrentEmployee::from_session(None).err().unwrap();
    assert_eq!((e.status, e.message.as_str()), (401, "Not logged in"));
}

#[test]
fn admin_gate_lets_admins_and_super_admins_through() {
    assert_eq!(AdminEmployee::from_role(CurrentEmployee { id: 3 }, Some(s("admin"))).ok().unwrap().id, 3);
    assert_eq!(AdminEmployee::from_role(CurrentEmployee { id: 3 }, Some(s("super_admin"))).ok().unwrap().id, 3);
    let e = AdminEmployee::from_role(CurrentEmployee { id: 3 }, Some(s("employee"))).err().unwrap();
    assert_eq!((e.status, e.message.as_str()), (403, "Admin access required"));
    let e = AdminEmployee::from_role(CurrentEmployee { id: 3 }, None).err().unwrap();
    assert_eq!((e.status, e.message.as_str()), (401, "Unknown employee"));
}

#[test]
fn super_admin_gate_lets_only_super_admins_through() {
    assert_eq!(SuperAdminEmployee::from_role(CurrentEmployee { id: 4 }, Some(s("super_admin"))).ok().unwrap().id, 4);
    let e = SuperAdminEmployee::from_role(CurrentEmployee { id: 4 }, Some(s("admin"))).err().unwrap();
    assert_eq!((e.status, e.message.as_str()), (403, "Super-admin access required"));
}

#[test]
fn emails_are_trimmed_and_lowercased() {
    assert_eq!(normalize_email("  Ann@Example.COM \n"), "ann@example.com");
}

#[test]
fn passwords_need_eight_bytes() {
    assert!(check_new_password("12345678").is_ok());
    let e = check_new_password("1234567").err().unwrap();
    assert_eq!((e.status, e.message.as_str()), (400, "Password must be at least 8 characters."));
    // Counted in bytes: four two-byte letters are enough.
    assert!(check_new_password("éééé").is_ok());
}

#[test]
fn invites_and_logins_refuse_unknowns() {
    assert_eq!(signup_invite(Some(5)).ok(), Some(5));
    let e = signup_invite(None).err().unwrap();
    assert_eq!((e.status, e.message.as_str()), (400, "This invite link is invalid or has expired."));
    let e = invite_check(None).err().unwrap();
    assert_eq!((e.status, e.message.as_str()), (404, "This invite link is invalid or has expired."));
    let ok = invite_check(Some(InviteCheck { employee_name: s("Ann"), email: None })).ok().unwrap();
    assert_eq!(ok.employee_name, "Ann");
    assert_eq!(login_account(Some((2, Some(s("h"))))).ok(), Some((2, s("h"))));
    let e = login_account(Some((2, None))).err().unwrap();
    assert_eq!((e.status, e.message.as_str()), (401, "Invalid email or password."));
    let e = login_account(None).err().unwrap();
    assert_eq!((e.status, e.message.as_str()), (401, "Invalid email or password."));
    assert!(login_password(true).is_ok());
    let e = login_password(false).err().unwrap();
    assert_eq!((e.status, e.message.as_str()), (401, "Invalid email or password."));
    let e = require_employee(false).err().unwrap();
    assert_eq!((e.status, e.message.as_str()), (404, "Employee not found."));
    assert!(require_employee(true).is_ok());
}

#[test]
fn profile_of_a_missing_employee_is_unknown() {
    let me = MeResponse { id: 3, name: s("Ann"), email: Some(s("ann@x.org")), role: s("admin") };
    let ok = me_response(Some(me)).ok().unwrap();
    assert_eq!((ok.id, ok.name.as_str(), ok.role.as_str()), (3, "Ann", "admin"));
    assert_eq!(ok.email, Some(s("ann@x.org")));
    let e = me_response(None).err().unwrap();
    assert_eq!((e.status, e.message.as_str()), (401, "Unknown employee"));
}

#[test]
fn category_names_are_normalized_and_unique() {
    assert_eq!(category_name("  Teaching ").ok().unwrap(), "teaching");
    assert_eq!(category_name("\u{3000}Tap\u{a0}\t").ok().unwrap(), "tap");
    assert_eq!(category_name("Ballet Jazz").ok().unwrap(), "ballet jazz");
    let e = category_name("\u{2003}\n").err().unwrap();
    assert_eq!(e.status, 400);
    let e = category_name("   ").err().unwrap();
    assert_eq!((e.status, e.message.as_str()), (400, "Category name can't be empty."));
    assert!(category_name_free(&s("office"), false).is_ok());
    let e = category_name_free(&s("office"), true).err().unwrap();
    assert_eq!((e.status, e.message.as_str()), (409, "A category named \"office\" already exists."));
}

#[test]
fn last_super_admin_keeps_the_role() {
    assert!(losing_super_admin(&s("super_admin"), &s("admin")));
    assert!(!losing_super_admin(&s("admin"), &s("employee")));
    let e = check_role_change(&s("super_admin"), &s("admin"), 0).err().unwrap();
    assert_eq!((e.status, e.message.as_str()), (400, "Cannot remove the last super-admin. Promote someone else first."));
    assert!(check_role_change(&s("super_admin"), &s("admin"), 1).is_ok());
    assert!(check_role_change(&s("super_admin"), &s("super_admin"), 0).is_ok());
    assert!(check_role_change(&s("admin"), &s("employee"), 0).is_ok());
}

#[test]
fn employee_numbers_are_unique() {
    assert!(employee_number_free(&s("12"), None).is_ok());
    let e = employee_number_free(&s("12"), Some(s("Ann"))).err().unwrap();
    assert_eq!((e.status, e.message.as_str()), (409, "Employee number 12 is already used by Ann."));
}

#[test]
fn private_entry_hours_come_from_length_and_count() {
    let (h, d, c) = resolve_hours(dec("2"), Some(30), Some(3)).unwrap().unwrap();
    assert_eq!(h, dec("1.5"));
    assert_eq!((d, c), (Some(30), Some(3)));
    // 45 / 60 is exactly 0.75; 20 / 60 is rounded at 28 places before the count.
    assert_eq!(resolve_hours(dec("0"), Some(45), Some(2)).unwrap().unwrap().0, dec("1.5"));
    assert_eq!(resolve_hours(dec("0"), Some(90), Some(1)).unwrap().unwrap().0, dec("1.5"));
    assert_eq!(
        resolve_hours(dec("0"), Some(20), Some(3)).unwrap().unwrap().0,
        dec("0.9999999999999999999999999999")
    );
    let (h, d, c) = resolve_hours(dec("2.25"), None, None).unwrap().unwrap();
    assert_eq!(h, dec("2.25"));
    assert_eq!((d, c), (None, None));
    assert_eq!(resolve_hours(dec("1"), Some(30), Some(0)).unwrap().err(), Some(s("Session count must be positive.")));
    assert_eq!(
        resolve_hours(dec("1"), Some(30), None).unwrap().err(),
        Some(s("Private sessions need both a duration and a count."))
    );
    assert_eq!(
        resolve_hours(dec("1"), None, Some(2)).unwrap().err(),
        Some(s("Private sessions need both a duration and a count."))
    );
}

#[test]
fn durations_must_be_managed_tiers() {
    assert!(duration_known(30, true).is_ok());
    let e = duration_known(25, false).err().unwrap();
    assert_eq!((e.status, e.message.as_str()), (400, "25 minutes is not a valid private duration."));
    let e = duration_known(-5, false).err().unwrap();
    assert_eq!(e.message, "-5 minutes is not a valid private duration.");
    let e = duration_known(120, false).err().unwrap();
    assert_eq!(e.message, "120 minutes is not a valid private duration.");
    assert!(check_new_duration(20).is_ok());
    let e = check_new_duration(0).err().unwrap();
    assert_eq!((e.status, e.message.as_str()), (400, "Duration must be positive."));
    let e = duration_created(0).err().unwrap();
    assert_eq!((e.status, e.message.as_str()), (409, "That duration already exists."));
    assert!(duration_created(1).is_ok());
}

#[test]
fn my_categories_split_rate_labels() {
    let labels = vec![s("office"), s("private_45"), s("private_20"), s("private_x"), s("private_90"), s("teaching")];
    let r = my_categories(&labels, &vec![20, 30, 45]);
    assert_eq!(r.categories, vec![s("office"), s("teaching")]);
    assert_eq!(r.private_durations, vec![20, 45]);
}

#[test]
fn missing_rows_are_not_found() {
    let e = require_affected(0, "Rate not found").err().unwrap();
    assert_eq!((e.status, e.message.as_str()), (404, "Rate not found"));
    assert!(require_affected(1, "Rate not found").is_ok());
    assert_eq!(require_row(Some(3), 404, "Category not found").ok(), Some(3));
    let e = require_row::<i64>(None, 404, "Category not found").err().unwrap();
    assert_eq!((e.status, e.message.as_str()), (404, "Category not found"));
}
