//! The global category list: names are stored trimmed and lower-cased, must not
//! be empty and must be unique.
use crate::error::{api_error, is_error, ApiError, BAD_REQUEST, CONFLICT};
use crate::text::{lowercase_text, str_to_lowercase, str_trim, trim_text};
use vstd::prelude::*;

verus! {

pub struct NewCategory {
    pub name: String,
    pub is_private: bool,
}

pub struct UpdateCategory {
    pub name: String,
    pub is_private: bool,
}

/// How a category name is stored: trimmed, then lower-cased.
pub open spec fn normal_category_name(raw: Seq<char>) -> Seq<char> {
    str_to_lowercase(str_trim(raw))
}

/// The stored form of a category name; an empty one is refused.
pub fn category_name(raw: &str) -> (r: Result<String, ApiError>)
    ensures
        str_trim(raw@).len() > 0 <==> r is Ok,
        r matches Ok(name) ==> name@ == normal_category_name(raw@),
        r matches Err(e) ==> is_error(e, BAD_REQUEST, "Category name can't be empty."@),
{
    let trimmed = trim_text(raw);
    let name = lowercase_text(trimmed.as_str());
    if name.as_str().is_empty() {
        return Err(api_error(BAD_REQUEST, "Category name can't be empty."));
    }
    Ok(name)
}

pub open spec fn duplicate_category_message(name: Seq<char>) -> Seq<char> {
    "A category named \""@ + name + "\" already exists."@
}

/// A name that another category already has is refused.
pub fn category_name_free(name: &String, taken: bool) -> (r: Result<(), ApiError>)
    ensures
        r is Ok <==> !taken,
        r matches Err(e) ==> is_error(e, CONFLICT, duplicate_category_message(name@)),
{
    if taken {
        let mut message = String::from_str("A category named \"");
        message.append(name.as_str());
        message.append("\" already exists.");
        return Err(ApiError { status: CONFLICT, message });
    }
    Ok(())
}

} // verus!
