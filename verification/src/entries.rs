//! Time entries: the hours of a private-session entry come from its length and
//! count; the entry form offers the employee's rated categories and session
//! lengths.
use crate::decimal::{dec_checked_div, dec_checked_mul, spec_div, spec_int, spec_mul, DecView, Dec};
use crate::error::{is_error, ApiError, BAD_REQUEST};
use crate::text::{
    contains_i32, holds_i32_spec, int_display, int_text, parse_i32, parse_i32_spec, strip_prefix_spec,
    strip_text_prefix, text_views,
};
use vstd::prelude::*;

verus! {

pub open spec fn count_not_positive_message() -> Seq<char> {
    "Session count must be positive."@
}

pub open spec fn half_session_message() -> Seq<char> {
    "Private sessions need both a duration and a count."@
}

/// The hours an entry is stored with, and its session length and count: for a
/// private session (length and count given) `length / 60 * count`, else the
/// given hours. A count must be positive, and a length needs a count and the
/// other way round. `None` where the decimal arithmetic overflows.
pub open spec fn resolve_hours_spec(hours: DecView, session_duration: Option<i32>, session_count: Option<i32>) -> Option<Result<(DecView, Option<i32>, Option<i32>), Seq<char>>> {
    match (session_duration, session_count) {
        (Some(dur), Some(count)) => if count <= 0 {
            Some(Err(count_not_positive_message()))
        } else {
            match spec_div(spec_int(dur as int), spec_int(60)) {
                Some(q) => match spec_mul(q, spec_int(count as int)) {
                    Some(h) => Some(Ok((h, Some(dur), Some(count)))),
                    None => None,
                },
                None => None,
            }
        },
        (None, None) => Some(Ok((hours, None, None))),
        _ => Some(Err(half_session_message())),
    }
}

pub open spec fn resolved_view(r: Result<(Dec, Option<i32>, Option<i32>), String>) -> Result<(DecView, Option<i32>, Option<i32>), Seq<char>> {
    match r {
        Ok(t) => Ok((t.0@, t.1, t.2)),
        Err(m) => Err(m@),
    }
}

/// For private entries, hours are derived from duration × count. For normal
/// entries, the provided hours are used as-is. Returns (hours, duration, count).
pub fn resolve_hours(hours: Dec, session_duration: Option<i32>, session_count: Option<i32>) -> (r: Option<Result<(Dec, Option<i32>, Option<i32>), String>>)
    ensures
        r is None <==> resolve_hours_spec(hours@, session_duration, session_count) is None,
        r matches Some(x) ==> resolve_hours_spec(hours@, session_duration, session_count) == Some(resolved_view(x)),
{
    match (session_duration, session_count) {
        (Some(dur), Some(count)) => {
            if count <= 0 {
                return Some(Err(String::from_str("Session count must be positive.")));
            }
            let q = match dec_checked_div(Dec::from_i64(dur as i64), Dec::from_i64(60)) {
                Some(q) => q,
                None => return None,
            };
            match dec_checked_mul(q, Dec::from_i64(count as i64)) {
                Some(h) => Some(Ok((h, Some(dur), Some(count)))),
                None => None,
            }
        },
        (None, None) => Some(Ok((hours, None, None))),
        _ => Some(Err(String::from_str("Private sessions need both a duration and a count."))),
    }
}

pub open spec fn invalid_duration_message(duration: i32) -> Seq<char> {
    int_display(duration as i64) + " minutes is not a valid private duration."@
}

/// A session length must be one of the managed tiers.
pub fn duration_known(duration: i32, known: bool) -> (r: Result<(), ApiError>)
    ensures
        r is Ok <==> known,
        r matches Err(e) ==> is_error(e, BAD_REQUEST, invalid_duration_message(duration)),
{
    if known {
        return Ok(());
    }
    let mut message = int_text(duration as i64);
    message.append(" minutes is not a valid private duration.");
    Err(ApiError { status: BAD_REQUEST, message })
}

/// The normal categories (e.g. ["office","teaching"]) and private session
/// lengths (e.g. [20, 30]) the current employee has rates for.
pub struct MyCategories {
    pub categories: Vec<String>,
    pub private_durations: Vec<i32>,
}

pub open spec fn private_label_prefix() -> Seq<char> {
    "private_"@
}

/// The labels among the first `n` that are not `private_…`, in order.
pub open spec fn normal_labels(labels: Seq<String>, n: int) -> Seq<Seq<char>>
    decreases n,
{
    if n <= 0 {
        Seq::empty()
    } else {
        let p = normal_labels(labels, n - 1);
        if strip_prefix_spec(labels[n - 1]@, private_label_prefix()) is None {
            p.push(labels[n - 1]@)
        } else {
            p
        }
    }
}

/// The session lengths of the `private_<minutes>` labels among the first `n`
/// whose minutes are a managed tier, in label order.
pub open spec fn private_label_durations(labels: Seq<String>, valid: Seq<i32>, n: int) -> Seq<i32>
    decreases n,
{
    if n <= 0 {
        Seq::empty()
    } else {
        let p = private_label_durations(labels, valid, n - 1);
        match strip_prefix_spec(labels[n - 1]@, private_label_prefix()) {
            Some(rest) => match parse_i32_spec(rest) {
                Some(d) => if holds_i32_spec(valid, d) {
                    p.push(d)
                } else {
                    p
                },
                None => p,
            },
            None => p,
        }
    }
}

/// Inserts `x` into the non-decreasing `v`, after the values equal to it.
fn insert_ordered(v: &mut Vec<i32>, x: i32)
    requires
        forall|i: int, j: int| 0 <= i < j < old(v)@.len() ==> old(v)@[i] <= old(v)@[j],
    ensures
        forall|i: int, j: int| 0 <= i < j < final(v)@.len() ==> final(v)@[i] <= final(v)@[j],
        final(v)@.to_multiset() == old(v)@.to_multiset().insert(x),
{
    broadcast use vstd::seq_lib::to_multiset_insert;

    let ghost old_v = v@;
    let mut p: usize = 0;
    while p < v.len() && v[p] <= x
        invariant
            p <= v@.len(),
            v@ == old_v,
            forall|j: int| 0 <= j < p ==> v@[j] <= x,
        decreases v.len() - p,
    {
        p += 1;
    }
    v.insert(p, x);
    assert(v@.to_multiset() == old_v.to_multiset().insert(x));
}

/// Splits the employee's rate labels (in label order) into normal categories
/// and private session lengths: a `private_<minutes>` label counts when its
/// minutes are one of `valid_durations`; the lengths come out sorted.
pub fn my_categories(labels: &Vec<String>, valid_durations: &Vec<i32>) -> (r: MyCategories)
    ensures
        text_views(r.categories@) == normal_labels(labels@, labels@.len() as int),
        forall|i: int, j: int|
            0 <= i < j < r.private_durations@.len() ==> r.private_durations@[i] <= r.private_durations@[j],
        r.private_durations@.to_multiset() == private_label_durations(
            labels@,
            valid_durations@,
            labels@.len() as int,
        ).to_multiset(),
{
    broadcast use vstd::seq_lib::to_multiset_build;

    let mut categories: Vec<String> = Vec::new();
    let mut private_durations: Vec<i32> = Vec::new();
    let mut k: usize = 0;
    while k < labels.len()
        invariant
            k <= labels@.len(),
            text_views(categories@) == normal_labels(labels@, k as int),
            forall|i: int, j: int|
                0 <= i < j < private_durations@.len() ==> private_durations@[i] <= private_durations@[j],
            private_durations@.to_multiset() == private_label_durations(labels@, valid_durations@, k as int).to_multiset(),
        decreases labels.len() - k,
    {
        let label = &labels[k];
        let ghost before_d = private_label_durations(labels@, valid_durations@, k as int);
        match strip_text_prefix(label.as_str(), "private_") {
            Some(rest) => {
                if let Some(dur) = parse_i32(rest.as_str()) {
                    if contains_i32(valid_durations, dur) {
                        insert_ordered(&mut private_durations, dur);
                        assert(private_label_durations(labels@, valid_durations@, k + 1) == before_d.push(dur));
                    } else {
                        assert(private_label_durations(labels@, valid_durations@, k + 1) == before_d);
                    }
                } else {
                    assert(private_label_durations(labels@, valid_durations@, k + 1) == before_d);
                }
            },
            None => {
                let ghost before = categories@;
                categories.push(label.clone());
                assert(text_views(categories@) =~= text_views(before).push(label@));
                assert(private_label_durations(labels@, valid_durations@, k + 1) == before_d);
            },
        }
        proof {
            if private_label_durations(labels@, valid_durations@, k + 1) != before_d {
                let dd = private_label_durations(labels@, valid_durations@, k + 1).last();
                assert(private_label_durations(labels@, valid_durations@, k + 1) == before_d.push(dd));
                vstd::seq_lib::to_multiset_build(before_d, dd);
            }
        }
        k += 1;
    }
    MyCategories { categories, private_durations }
}

} // verus!
