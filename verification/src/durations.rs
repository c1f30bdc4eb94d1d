//! The managed private-session lengths ("tiers").
use crate::error::{api_error, is_error, ApiError, BAD_REQUEST, CONFLICT};
use vstd::prelude::*;

verus! {

/// A new tier needs a positive length.
pub fn check_new_duration(duration_minutes: i32) -> (r: Result<(), ApiError>)
    ensures
        r is Ok <==> duration_minutes > 0,
        r matches Err(e) ==> is_error(e, BAD_REQUEST, "Duration must be positive."@),
{
    if duration_minutes <= 0 {
        return Err(api_error(BAD_REQUEST, "Duration must be positive."));
    }
    Ok(())
}

/// Adding a length that is already a tier adds no row, and is refused.
pub fn duration_created(rows_affected: u64) -> (r: Result<(), ApiError>)
    ensures
        r is Ok <==> rows_affected > 0,
        r matches Err(e) ==> is_error(e, CONFLICT, "That duration already exists."@),
{
    if rows_affected == 0 {
        return Err(api_error(CONFLICT, "That duration already exists."));
    }
    Ok(())
}

} // verus!
