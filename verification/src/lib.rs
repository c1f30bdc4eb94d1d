//! Timesheet and payroll rules of a dance studio's back office: how a week's
//! hours split into regular and overtime time, how per-period totals and pay
//! are assembled, and the small decisions (roles, validation) around them.

pub mod accounts;
pub mod auth;
pub mod categories;
pub mod dates;
pub mod decimal;
pub mod durations;
pub mod employees;
pub mod entries;
pub mod error;
pub mod export;
pub mod overtime;
pub mod pay;
pub mod text;
pub mod totals;
