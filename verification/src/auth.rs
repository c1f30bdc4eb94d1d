//! Who makes a request, and the role gates in front of admin and super-admin
//! routes.
use crate::error::{api_error, is_error, ApiError, FORBIDDEN, UNAUTHORIZED};
use vstd::prelude::*;

verus! {

/// Who is making this request (from a live session cookie).
pub struct CurrentEmployee {
    pub id: i64,
}

/// A request from an admin or a super-admin.
pub struct AdminEmployee {
    pub id: i64,
}

/// A request from a super-admin.
pub struct SuperAdminEmployee {
    pub id: i64,
}

pub open spec fn admin_role() -> Seq<char> {
    "admin"@
}

pub open spec fn super_admin_role() -> Seq<char> {
    "super_admin"@
}

/// The admin gate lets `role` through.
pub open spec fn admin_allows(role: Seq<char>) -> bool {
    role == admin_role() || role == super_admin_role()
}

/// The super-admin gate lets `role` through.
pub open spec fn super_admin_allows(role: Seq<char>) -> bool {
    role == super_admin_role()
}

/// Whoever passes the super-admin gate passes the admin gate.
pub proof fn lemma_super_admin_is_admin(role: Seq<char>)
    ensures
        super_admin_allows(role) ==> admin_allows(role),
{
}

impl CurrentEmployee {
    /// The employee of the request's live session, if it has one; otherwise
    /// "Not logged in" (a cookie alone, or none, logs no one in).
    pub fn from_session(session_employee: Option<i64>) -> (r: Result<CurrentEmployee, ApiError>)
        ensures
            match session_employee {
                Some(id) => r matches Ok(c) && c.id == id,
                None => r matches Err(e) && is_error(e, UNAUTHORIZED, "Not logged in"@),
            },
    {
        match session_employee {
            Some(id) => Ok(CurrentEmployee { id }),
            None => Err(api_error(UNAUTHORIZED, "Not logged in")),
        }
    }
}

/// The role of the current employee, or "Unknown employee" when none is stored.
fn known_role(role: Option<String>) -> (r: Result<String, ApiError>)
    ensures
        match role {
            Some(x) => r matches Ok(y) && y@ == x@,
            None => r matches Err(e) && is_error(e, UNAUTHORIZED, "Unknown employee"@),
        },
{
    match role {
        Some(x) => Ok(x),
        None => Err(api_error(UNAUTHORIZED, "Unknown employee")),
    }
}

impl AdminEmployee {
    /// Lets `current` through when its stored role is admin or super_admin.
    pub fn from_role(current: CurrentEmployee, role: Option<String>) -> (r: Result<AdminEmployee, ApiError>)
        ensures
            match role {
                None => r matches Err(e) && is_error(e, UNAUTHORIZED, "Unknown employee"@),
                Some(x) => if admin_allows(x@) {
                    r matches Ok(a) && a.id == current.id
                } else {
                    r matches Err(e) && is_error(e, FORBIDDEN, "Admin access required"@)
                },
            },
    {
        let role = known_role(role)?;
        let admin = String::from_str("admin");
        let super_admin = String::from_str("super_admin");
        if role != admin && role != super_admin {
            return Err(api_error(FORBIDDEN, "Admin access required"));
        }
        Ok(AdminEmployee { id: current.id })
    }
}

impl SuperAdminEmployee {
    /// Lets `current` through when its stored role is super_admin.
    pub fn from_role(current: CurrentEmployee, role: Option<String>) -> (r: Result<SuperAdminEmployee, ApiError>)
        ensures
            match role {
                None => r matches Err(e) && is_error(e, UNAUTHORIZED, "Unknown employee"@),
                Some(x) => if super_admin_allows(x@) {
                    r matches Ok(a) && a.id == current.id
                } else {
                    r matches Err(e) && is_error(e, FORBIDDEN, "Super-admin access required"@)
                },
            },
    {
        let role = known_role(role)?;
        let super_admin = String::from_str("super_admin");
        if role != super_admin {
            return Err(api_error(FORBIDDEN, "Super-admin access required"));
        }
        Ok(SuperAdminEmployee { id: current.id })
    }
}

} // verus!
