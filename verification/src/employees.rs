//! Employee records: employee numbers are unique, and the last super-admin
//! cannot lose that role.
use crate::auth::super_admin_role;
use crate::error::{api_error, is_error, ApiError, BAD_REQUEST, CONFLICT};
use vstd::prelude::*;

verus! {

/// The update takes the super_admin role away from a super-admin.
pub open spec fn loses_super_admin(current_role: Seq<char>, new_role: Seq<char>) -> bool {
    current_role == super_admin_role() && new_role != super_admin_role()
}

/// Whether the update takes the super_admin role away from a super-admin (then
/// the other super-admins are counted).
pub fn losing_super_admin(current_role: &String, new_role: &String) -> (r: bool)
    ensures
        r == loses_super_admin(current_role@, new_role@),
{
    let super_admin = String::from_str("super_admin");
    *current_role == super_admin && *new_role != super_admin
}

/// A super-admin loses the role only while another super-admin remains.
pub fn keep_a_super_admin(other_super_admins: i64) -> (r: Result<(), ApiError>)
    ensures
        r is Ok <==> other_super_admins != 0,
        r matches Err(e) ==> is_error(
            e,
            BAD_REQUEST,
            "Cannot remove the last super-admin. Promote someone else first."@,
        ),
{
    if other_super_admins == 0 {
        return Err(api_error(BAD_REQUEST, "Cannot remove the last super-admin. Promote someone else first."));
    }
    Ok(())
}

/// The role change an update asks for is allowed: it keeps a super-admin.
pub open spec fn role_change_allowed(current_role: Seq<char>, new_role: Seq<char>, other_super_admins: i64) -> bool {
    !loses_super_admin(current_role, new_role) || other_super_admins != 0
}

/// The role gate of an update: the last super-admin keeps the role.
pub fn check_role_change(current_role: &String, new_role: &String, other_super_admins: i64) -> (r: Result<(), ApiError>)
    ensures
        r is Ok <==> role_change_allowed(current_role@, new_role@, other_super_admins),
{
    if losing_super_admin(current_role, new_role) {
        keep_a_super_admin(other_super_admins)
    } else {
        Ok(())
    }
}

/// No allowed role change removes the last super-admin: a super-admin whose
/// update drops the role had another super-admin beside it.
pub proof fn lemma_last_super_admin_stays(current_role: Seq<char>, new_role: Seq<char>, other_super_admins: i64)
    requires
        role_change_allowed(current_role, new_role, other_super_admins),
        current_role == super_admin_role(),
        other_super_admins == 0,
    ensures
        new_role == super_admin_role(),
{
}

pub open spec fn number_taken_message(number: Seq<char>, holder: Seq<char>) -> Seq<char> {
    "Employee number "@ + number + " is already used by "@ + holder + "."@
}

/// An employee number already held by another employee is refused.
pub fn employee_number_free(number: &String, holder: Option<String>) -> (r: Result<(), ApiError>)
    ensures
        r is Ok <==> holder is None,
        r matches Err(e) ==> holder matches Some(h) && is_error(e, CONFLICT, number_taken_message(number@, h@)),
{
    match holder {
        Some(h) => {
            let mut message = String::from_str("Employee number ");
            message.append(number.as_str());
            message.append(" is already used by ");
            message.append(h.as_str());
            message.append(".");
            Err(ApiError { status: CONFLICT, message })
        },
        None => Ok(()),
    }
}

} // verus!
