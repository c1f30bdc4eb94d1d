//! Accounts: invites, signup, login and the current user's profile.
use crate::error::{api_error, is_error, ApiError, BAD_REQUEST, NOT_FOUND, UNAUTHORIZED};
use crate::text::{lowercase_text, str_to_lowercase, str_trim, trim_text};
use vstd::prelude::*;

verus! {

/// Days an invite stays valid.
pub const INVITE_DAYS: i64 = 7;

/// Days a session (and its cookie) stays valid.
pub const SESSION_DAYS: i64 = 30;

pub struct LoginInput {
    pub email: String,
    pub password: String,
}

pub struct MeResponse {
    pub id: i64,
    pub name: String,
    pub email: Option<String>,
    pub role: String,
}

pub struct InviteInput {
    pub employee_id: i64,
}

pub struct InviteResponse {
    pub token: String,
}

pub struct InviteCheck {
    pub employee_name: String,
    pub email: Option<String>,
}

pub struct SignupInput {
    pub token: String,
    pub email: String,
    pub password: String,
}

/// How an email address is stored and looked up: trimmed, then lower-cased.
pub open spec fn normal_email(email: Seq<char>) -> Seq<char> {
    str_to_lowercase(str_trim(email))
}

/// The email address as it is stored and looked up.
pub fn normalize_email(email: &str) -> (r: String)
    ensures
        r@ == normal_email(email@),
{
    let trimmed = trim_text(email);
    lowercase_text(trimmed.as_str())
}

/// A new password needs at least 8 bytes.
pub fn check_new_password(password: &str) -> (r: Result<(), ApiError>)
    ensures
        r is Ok <==> password.len() >= 8,
        r matches Err(e) ==> is_error(e, BAD_REQUEST, "Password must be at least 8 characters."@),
{
    if password.len() < 8 {
        Err(api_error(BAD_REQUEST, "Password must be at least 8 characters."))
    } else {
        Ok(())
    }
}

pub open spec fn invalid_invite_message() -> Seq<char> {
    "This invite link is invalid or has expired."@
}

/// The employee of an unused, unexpired invite (signup): else a bad request.
pub fn signup_invite(employee_id: Option<i64>) -> (r: Result<i64, ApiError>)
    ensures
        match employee_id {
            Some(id) => r == Ok::<i64, ApiError>(id),
            None => r matches Err(e) && is_error(e, BAD_REQUEST, invalid_invite_message()),
        },
{
    match employee_id {
        Some(id) => Ok(id),
        None => Err(api_error(BAD_REQUEST, "This invite link is invalid or has expired.")),
    }
}

/// Who an unused, unexpired invite is for (signup page): else "not found".
pub fn invite_check(row: Option<InviteCheck>) -> (r: Result<InviteCheck, ApiError>)
    ensures
        match row {
            Some(c) => r == Ok::<InviteCheck, ApiError>(c),
            None => r matches Err(e) && is_error(e, NOT_FOUND, invalid_invite_message()),
        },
{
    match row {
        Some(c) => Ok(c),
        None => Err(api_error(NOT_FOUND, "This invite link is invalid or has expired.")),
    }
}

pub open spec fn bad_login_message() -> Seq<char> {
    "Invalid email or password."@
}

/// The account a login names: its id and password hash. An unknown email and
/// an account without a password get the same answer, so that the answer does
/// not tell who has an account.
pub fn login_account(row: Option<(i64, Option<String>)>) -> (r: Result<(i64, String), ApiError>)
    ensures
        match row {
            Some((id, Some(h))) => r matches Ok(a) && a.0 == id && a.1@ == h@,
            _ => r matches Err(e) && is_error(e, UNAUTHORIZED, bad_login_message()),
        },
{
    match row {
        Some((id, Some(h))) => Ok((id, h)),
        _ => Err(api_error(UNAUTHORIZED, "Invalid email or password.")),
    }
}

/// A wrong password gets the same answer as an unknown email.
pub fn login_password(matches: bool) -> (r: Result<(), ApiError>)
    ensures
        r is Ok <==> matches,
        r matches Err(e) ==> is_error(e, UNAUTHORIZED, bad_login_message()),
{
    if matches {
        Ok(())
    } else {
        Err(api_error(UNAUTHORIZED, "Invalid email or password."))
    }
}

/// The current user's profile, or "Unknown employee" when it is gone.
pub fn me_response(row: Option<MeResponse>) -> (r: Result<MeResponse, ApiError>)
    ensures
        match row {
            Some(m) => r == Ok::<MeResponse, ApiError>(m),
            None => r matches Err(e) && is_error(e, UNAUTHORIZED, "Unknown employee"@),
        },
{
    match row {
        Some(m) => Ok(m),
        None => Err(api_error(UNAUTHORIZED, "Unknown employee")),
    }
}

/// Invites and account resets need an existing employee.
pub fn require_employee(exists: bool) -> (r: Result<(), ApiError>)
    ensures
        r is Ok <==> exists,
        r matches Err(e) ==> is_error(e, NOT_FOUND, "Employee not found."@),
{
    if exists {
        Ok(())
    } else {
        Err(api_error(NOT_FOUND, "Employee not found."))
    }
}

} // verus!
