//! The errors the back office answers a refused request with.
use vstd::prelude::*;

verus! {

pub const BAD_REQUEST: u16 = 400;
pub const UNAUTHORIZED: u16 = 401;
pub const FORBIDDEN: u16 = 403;
pub const NOT_FOUND: u16 = 404;
pub const CONFLICT: u16 = 409;

/// An HTTP status code and the message shown with it.
pub struct ApiError {
    pub status: u16,
    pub message: String,
}

/// `e` is the error with this status and message.
pub open spec fn is_error(e: ApiError, status: u16, message: Seq<char>) -> bool {
    e.status == status && e.message@ == message
}

/// The error with `status` and `message`.
pub fn api_error(status: u16, message: &str) -> (r: ApiError)
    ensures
        is_error(r, status, message@),
{
    ApiError { status, message: String::from_str(message) }
}

/// A change that had to touch a row: `Ok` when it touched one, else
/// "not found" with `message`.
pub fn require_affected(rows_affected: u64, message: &str) -> (r: Result<(), ApiError>)
    ensures
        rows_affected > 0 <==> r is Ok,
        r matches Err(e) ==> is_error(e, NOT_FOUND, message@),
{
    if rows_affected == 0 {
        Err(api_error(NOT_FOUND, message))
    } else {
        Ok(())
    }
}

/// A row the request needs: `Ok` with it when found, else `status` with `message`.
pub fn require_row<T>(row: Option<T>, status: u16, message: &str) -> (r: Result<T, ApiError>)
    ensures
        match row {
            Some(v) => r == Ok::<T, ApiError>(v),
            None => r matches Err(e) && is_error(e, status, message@),
        },
{
    match row {
        Some(v) => Ok(v),
        None => Err(api_error(status, message)),
    }
}

} // verus!
