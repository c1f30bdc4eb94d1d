//! Per-period totals of every employee: regular and overtime hours per
//! category (computed by the overtime walk unless an admin stored them), private
//! session counts, dollar buckets, lump-sum earnings and rates.
use crate::decimal::{dec_checked_add, dec_checked_mul, spec_add, spec_int, spec_mul, spec_zero, Dec};
use crate::overtime::{
    compute_overtime, dates_ok, lemma_splits_by_index, split_of, split_view, walk_succeeds,
    OvertimeEntry, OvertimeSplit,
};
use crate::text::{contains_text, holds_text, insert_sorted_text, sorted_texts, text_lt, text_views};
use vstd::prelude::*;

verus! {

/// An employee, as listed for the totals (ordered by name).
pub struct EmployeeRow {
    pub id: i64,
    pub name: String,
    pub employee_number: String,
    pub pay_method: String,
    pub pay_frequency: String,
}

/// Hours an admin stored for one normal category of one employee.
pub struct StoredCategoryRow {
    pub employee_id: i64,
    pub category: String,
    pub regular_hours: Dec,
    pub overtime_hours: Dec,
    pub sick_hours: Dec,
}

/// A private session count of one employee for one session length.
pub struct SessionCountRow {
    pub employee_id: i64,
    pub session_duration: i32,
    pub session_count: i32,
}

/// An employee's dollar buckets for the period.
pub struct DollarRow {
    pub employee_id: i64,
    pub other_earn: Dec,
    pub competition_earn: Dec,
    pub coaching_earn: Dec,
}

/// One rate of one employee.
pub struct RateRow {
    pub employee_id: i64,
    pub label: String,
    pub amount: Dec,
}

/// One worked (non-sick) time entry.
pub struct WorkedRow {
    pub employee_id: i64,
    pub entry_date: i32,
    pub hours: Dec,
    pub category: String,
    pub is_private: bool,
}

/// How many entries an employee logged in one lump-sum category.
pub struct LumpEntryRow {
    pub employee_id: i64,
    pub category: String,
    pub count: i64,
}

/// Everything the totals of a period are computed from.
pub struct TotalsInput {
    /// Day numbers of the period's first and last day.
    pub period_start: i32,
    pub period_end: i32,
    pub employees: Vec<EmployeeRow>,
    /// Admin-stored normal category rows of the period.
    pub stored_categories: Vec<StoredCategoryRow>,
    /// Admin-stored private session counts of the period.
    pub stored_privates: Vec<SessionCountRow>,
    pub dollars: Vec<DollarRow>,
    /// All rates, in the order they were created.
    pub rates: Vec<RateRow>,
    /// Worked entries from six days before the period to six days after it.
    pub worked: Vec<WorkedRow>,
    /// Logged private session counts per session length, within the period.
    pub logged_privates: Vec<SessionCountRow>,
    pub lump_sum_categories: Vec<String>,
    /// Lump-sum entry counts per employee and category, within the period.
    pub lump_entries: Vec<LumpEntryRow>,
}

pub struct CategoryRow {
    pub category: String,
    pub regular_hours: Dec,
    pub overtime_hours: Dec,
    pub sick_hours: Dec,
    pub logged_hours: Dec,
    pub admin_edited: bool,
}

pub struct PrivateRow {
    pub session_duration: i32,
    pub session_count: i32,
    pub logged_count: i32,
    pub admin_edited: bool,
}

pub struct RateEntry {
    pub label: String,
    pub amount: Dec,
}

pub struct LumpSumRow {
    pub category: String,
    /// Computed dollars for this lump-sum category this period.
    pub amount: Dec,
    pub entry_count: i64,
}

pub struct EmployeeTotals {
    pub employee_id: i64,
    pub employee_name: String,
    pub employee_number: String,
    pub pay_method: String,
    pub pay_frequency: String,
    pub categories: Vec<CategoryRow>,
    pub private_sessions: Vec<PrivateRow>,
    pub other_earn: Dec,
    pub competition_earn: Dec,
    pub coaching_earn: Dec,
    pub lump_sum_earn: Dec,
    pub lump_sums: Vec<LumpSumRow>,
    pub private_regular_hours: Dec,
    pub private_overtime_hours: Dec,
    pub rates: Vec<RateEntry>,
}

pub open spec fn entry_of_row(r: WorkedRow) -> OvertimeEntry {
    OvertimeEntry {
        entry_date: r.entry_date,
        hours: r.hours,
        category: r.category,
        is_private: r.is_private,
    }
}

/// The entries of employee `id` among the first `n` worked rows, in order.
pub open spec fn worked_prefix(rows: Seq<WorkedRow>, id: i64, n: int) -> Seq<OvertimeEntry>
    decreases n,
{
    if n <= 0 {
        Seq::empty()
    } else {
        let p = worked_prefix(rows, id, n - 1);
        if rows[n - 1].employee_id == id {
            p.push(entry_of_row(rows[n - 1]))
        } else {
            p
        }
    }
}

/// The worked entries of employee `id`, in row order.
pub open spec fn worked_of(rows: Seq<WorkedRow>, id: i64) -> Seq<OvertimeEntry> {
    worked_prefix(rows, id, rows.len() as int)
}

pub open spec fn in_period(start: i32, end: i32, e: OvertimeEntry) -> bool {
    start <= e.entry_date <= end
}

pub type DecView = (i128, u32);

/// Running (regular, overtime, logged) sums of category `cat` over the first `n`
/// entries that fall in the period; `None` once an addition overflows.
pub open spec fn category_sums(e: Seq<OvertimeEntry>, start: i32, end: i32, cat: Seq<char>, n: int) -> Option<(DecView, DecView, DecView)>
    decreases n,
{
    if n <= 0 {
        Some((spec_zero(), spec_zero(), spec_zero()))
    } else {
        match category_sums(e, start, end, cat, n - 1) {
            None => None,
            Some(t) => if in_period(start, end, e[n - 1]) && e[n - 1].category@ == cat {
                let sp = split_of(e, n - 1);
                match (spec_add(t.0, sp.0), spec_add(t.1, sp.1), spec_add(t.2, e[n - 1].hours@)) {
                    (Some(a), Some(b), Some(c)) => Some((a, b, c)),
                    _ => None,
                }
            } else {
                Some(t)
            },
        }
    }
}

/// The positions `i < n`, in order, of the entries of category `cat` dated
/// from `start` to `end`, both days included.
pub open spec fn period_positions(e: Seq<OvertimeEntry>, start: i32, end: i32, cat: Seq<char>, n: int) -> Seq<int>
    decreases n,
{
    if n <= 0 {
        Seq::empty()
    } else {
        let p = period_positions(e, start, end, cat, n - 1);
        if start <= e[n - 1].entry_date && e[n - 1].entry_date <= end && e[n - 1].category@ == cat {
            p.push(n - 1)
        } else {
            p
        }
    }
}

/// The running (regular, overtime, logged) sums over the entries at positions
/// `ps`, in order: their splits and their hours.
pub open spec fn sums_over(e: Seq<OvertimeEntry>, ps: Seq<int>) -> Option<(DecView, DecView, DecView)>
    decreases ps.len(),
{
    if ps.len() == 0 {
        Some((spec_zero(), spec_zero(), spec_zero()))
    } else {
        match sums_over(e, ps.drop_last()) {
            None => None,
            Some(t) => {
                let i = ps.last();
                let sp = split_of(e, i);
                match (spec_add(t.0, sp.0), spec_add(t.1, sp.1), spec_add(t.2, e[i].hours@)) {
                    (Some(a), Some(b), Some(c)) => Some((a, b, c)),
                    _ => None,
                }
            },
        }
    }
}

/// A category's sums count every entry of that category dated within the
/// period, its first and last day included, and no other: they are the sums
/// over exactly those entries, in order, of their regular and overtime splits
/// and of their hours (the logged hours).
pub proof fn lemma_category_sums_closed_period(e: Seq<OvertimeEntry>, start: i32, end: i32, cat: Seq<char>, n: int)
    requires
        0 <= n <= e.len(),
    ensures
        category_sums(e, start, end, cat, n) == sums_over(e, period_positions(e, start, end, cat, n)),
        forall|i: int|
            0 <= i < n ==> (period_positions(e, start, end, cat, n).contains(i) <==> (start <= (#[trigger] e[i]).entry_date
                <= end && e[i].category@ == cat)),
    decreases n,
{
    if n > 0 {
        lemma_category_sums_closed_period(e, start, end, cat, n - 1);
        let p = period_positions(e, start, end, cat, n - 1);
        let q = period_positions(e, start, end, cat, n);
        assert forall|j: int| 0 <= j < p.len() implies p[j] < n - 1 by {
            lemma_period_positions_below(e, start, end, cat, n - 1);
        }
        if start <= e[n - 1].entry_date && e[n - 1].entry_date <= end && e[n - 1].category@ == cat {
            assert(q.drop_last() =~= p);
            assert forall|i: int| 0 <= i < n implies (q.contains(i) <==> (start <= (#[trigger] e[i]).entry_date
                <= end && e[i].category@ == cat)) by {
                if i < n - 1 {
                    if p.contains(i) {
                        let j = choose|j: int| 0 <= j < p.len() && p[j] == i;
                        assert(q[j] == i);
                    }
                    if q.contains(i) {
                        let j = choose|j: int| 0 <= j < q.len() && q[j] == i;
                        if j == p.len() {
                            assert(q[j] == n - 1);
                        } else {
                            assert(p[j] == i);
                        }
                    }
                } else {
                    assert(q[p.len() as int] == n - 1);
                }
            }
        } else {
            assert forall|i: int| 0 <= i < n implies (q.contains(i) <==> (start <= (#[trigger] e[i]).entry_date
                <= end && e[i].category@ == cat)) by {
                if i == n - 1 && q.contains(i) {
                    let j = choose|j: int| 0 <= j < p.len() && p[j] == i;
                    assert(p[j] < n - 1);
                }
            }
        }
    }
}

proof fn lemma_period_positions_below(e: Seq<OvertimeEntry>, start: i32, end: i32, cat: Seq<char>, n: int)
    ensures
        forall|j: int| 0 <= j < period_positions(e, start, end, cat, n).len() ==> 0 <= #[trigger] period_positions(
            e,
            start,
            end,
            cat,
            n,
        )[j] < n,
    decreases n,
{
    if n > 0 {
        lemma_period_positions_below(e, start, end, cat, n - 1);
        let p = period_positions(e, start, end, cat, n - 1);
        let q = period_positions(e, start, end, cat, n);
        assert forall|j: int| 0 <= j < q.len() implies 0 <= #[trigger] q[j] < n by {
            if j < p.len() {
                assert(q[j] == p[j]);
            }
        }
    }
}

/// Some entry of category `cat` among the first `n` falls in the period.
pub open spec fn walked_in_period(e: Seq<OvertimeEntry>, start: i32, end: i32, cat: Seq<char>, n: int) -> bool {
    exists|i: int| 0 <= i < n && in_period(start, end, e[i]) && (#[trigger] e[i]).category@ == cat
}

/// Collects the worked entries of employee `id`, in row order.
pub fn worked_entries(rows: &Vec<WorkedRow>, id: i64) -> (r: Vec<OvertimeEntry>)
    ensures
        r@ == worked_of(rows@, id),
{
    let mut r: Vec<OvertimeEntry> = Vec::new();
    let mut i: usize = 0;
    while i < rows.len()
        invariant
            i <= rows@.len(),
            r@ == worked_prefix(rows@, id, i as int),
        decreases rows.len() - i,
    {
        let row = &rows[i];
        if row.employee_id == id {
            r.push(
                OvertimeEntry {
                    entry_date: row.entry_date,
                    hours: row.hours,
                    category: row.category.clone(),
                    is_private: row.is_private,
                },
            );
        }
        i += 1;
    }
    r
}

proof fn lemma_worked_prefix_dates(rows: Seq<WorkedRow>, id: i64, n: int)
    requires
        0 <= n <= rows.len(),
        forall|j: int| 0 <= j < rows.len() ==> crate::dates::week_start_ok((#[trigger] rows[j]).entry_date as int),
    ensures
        worked_prefix(rows, id, n).len() <= n,
        dates_ok(worked_prefix(rows, id, n)),
    decreases n,
{
    if n > 0 {
        lemma_worked_prefix_dates(rows, id, n - 1);
        let p = worked_prefix(rows, id, n - 1);
        let q = worked_prefix(rows, id, n);
        assert forall|i: int| 0 <= i < q.len() implies crate::dates::week_start_ok((#[trigger] q[i]).entry_date as int) by {
            if i < p.len() {
                assert(q[i] == p[i]);
            } else {
                assert(q[i] == entry_of_row(rows[n - 1]));
            }
        }
    }
}

/// The worked entries of one employee satisfy what the walk asks of dates.
pub proof fn lemma_worked_dates_ok(rows: Seq<WorkedRow>, id: i64)
    requires
        forall|j: int| 0 <= j < rows.len() ==> crate::dates::week_start_ok((#[trigger] rows[j]).entry_date as int),
    ensures
        dates_ok(worked_of(rows, id)),
        worked_of(rows, id).len() <= rows.len(),
{
    lemma_worked_prefix_dates(rows, id, rows.len() as int);
}

proof fn lemma_category_sums_unwalked(e: Seq<OvertimeEntry>, start: i32, end: i32, cat: Seq<char>, n: int)
    requires
        0 <= n <= e.len(),
        !walked_in_period(e, start, end, cat, n),
    ensures
        category_sums(e, start, end, cat, n) == Some((spec_zero(), spec_zero(), spec_zero())),
    decreases n,
{
    if n > 0 {
        assert(!(in_period(start, end, e[n - 1]) && e[n - 1].category@ == cat));
        assert(!walked_in_period(e, start, end, cat, n - 1)) by {
            if walked_in_period(e, start, end, cat, n - 1) {
                let i = choose|i: int|
                    0 <= i < n - 1 && in_period(start, end, e[i]) && (#[trigger] e[i]).category@ == cat;
                assert(0 <= i < n && in_period(start, end, e[i]) && e[i].category@ == cat);
            }
        }
        lemma_category_sums_unwalked(e, start, end, cat, n - 1);
    }
}

/// The (regular, overtime, logged) sums of category `cat` over the entries
/// that fall in the period, from their splits.
pub fn category_sums_of(
    e: &Vec<OvertimeEntry>,
    splits: &Vec<OvertimeSplit>,
    start: i32,
    end: i32,
    cat: &String,
) -> (r: Option<(Dec, Dec, Dec)>)
    requires
        splits@.len() == e@.len(),
        forall|i: int| 0 <= i < e@.len() ==> split_view(#[trigger] splits@[i]) == split_of(e@, i),
    ensures
        r is Some <==> category_sums(e@, start, end, cat@, e@.len() as int) is Some,
        r matches Some(t) ==> category_sums(e@, start, end, cat@, e@.len() as int) == Some(
            (t.0@, t.1@, t.2@),
        ),
{
    let mut reg = Dec::zero();
    let mut ot = Dec::zero();
    let mut logged = Dec::zero();
    let mut i: usize = 0;
    while i < e.len()
        invariant
            i <= e@.len(),
            splits@.len() == e@.len(),
            forall|j: int| 0 <= j < e@.len() ==> split_view(#[trigger] splits@[j]) == split_of(e@, j),
            category_sums(e@, start, end, cat@, i as int) == Some((reg@, ot@, logged@)),
        decreases e.len() - i,
    {
        let x = &e[i];
        if start <= x.entry_date && x.entry_date <= end && x.category == *cat {
            assert(split_view(splits@[i as int]) == split_of(e@, i as int));
            let a = dec_checked_add(reg, splits[i].regular);
            let b = dec_checked_add(ot, splits[i].overtime);
            let c = dec_checked_add(logged, x.hours);
            match (a, b, c) {
                (Some(a), Some(b), Some(c)) => {
                    reg = a;
                    ot = b;
                    logged = c;
                },
                _ => {
                    proof {
                        lemma_category_sums_stays_none(e@, start, end, cat@, i as int + 1, e@.len() as int);
                    }
                    return None;
                },
            }
        }
        i += 1;
    }
    Some((reg, ot, logged))
}

proof fn lemma_category_sums_stays_none(e: Seq<OvertimeEntry>, start: i32, end: i32, cat: Seq<char>, m: int, n: int)
    requires
        0 <= m <= n,
        category_sums(e, start, end, cat, m) is None,
    ensures
        category_sums(e, start, end, cat, n) is None,
    decreases n - m,
{
    if m < n {
        lemma_category_sums_stays_none(e, start, end, cat, m + 1, n);
    }
}


/// The last admin-stored row of employee `id` for category `cat` among the first `n`.
pub open spec fn last_stored(rows: Seq<StoredCategoryRow>, id: i64, cat: Seq<char>, n: int) -> Option<StoredCategoryRow>
    decreases n,
{
    if n <= 0 {
        None
    } else if rows[n - 1].employee_id == id && rows[n - 1].category@ == cat {
        Some(rows[n - 1])
    } else {
        last_stored(rows, id, cat, n - 1)
    }
}

/// Some admin-stored row of employee `id` among the first `n` is for category `cat`.
pub open spec fn stored_for(rows: Seq<StoredCategoryRow>, id: i64, cat: Seq<char>, n: int) -> bool {
    exists|j: int| 0 <= j < n && (#[trigger] rows[j]).employee_id == id && rows[j].category@ == cat
}

proof fn lemma_last_stored(rows: Seq<StoredCategoryRow>, id: i64, cat: Seq<char>, n: int)
    requires
        0 <= n <= rows.len(),
    ensures
        last_stored(rows, id, cat, n) is Some <==> stored_for(rows, id, cat, n),
    decreases n,
{
    if n > 0 {
        lemma_last_stored(rows, id, cat, n - 1);
        if stored_for(rows, id, cat, n) && !(rows[n - 1].employee_id == id && rows[n - 1].category@ == cat) {
            let j = choose|j: int| 0 <= j < n && (#[trigger] rows[j]).employee_id == id && rows[j].category@ == cat;
            assert(j < n - 1);
        }
        if stored_for(rows, id, cat, n - 1) {
            let j = choose|j: int| 0 <= j < n - 1 && (#[trigger] rows[j]).employee_id == id && rows[j].category@ == cat;
            assert(0 <= j < n);
        }
    }
}

pub open spec fn private_name() -> Seq<char> {
    "private"@
}

/// Category `cat` gets a row of its own: it was walked in the period or has
/// stored hours, and it is neither the private category nor a lump-sum one.
pub open spec fn category_listed(inp: TotalsInput, id: i64, e: Seq<OvertimeEntry>, cat: Seq<char>) -> bool {
    &&& walked_in_period(e, inp.period_start, inp.period_end, cat, e.len() as int)
        || stored_for(inp.stored_categories@, id, cat, inp.stored_categories@.len() as int)
    &&& cat != private_name()
    &&& !holds_text(inp.lump_sum_categories@, cat)
}

/// A category row: the stored hours where an admin stored some, else the walk's.
pub open spec fn category_row_ok(inp: TotalsInput, id: i64, e: Seq<OvertimeEntry>, row: CategoryRow) -> bool {
    let cat = row.category@;
    let sums = category_sums(e, inp.period_start, inp.period_end, cat, e.len() as int).unwrap();
    &&& row.logged_hours@ == sums.2
    &&& match last_stored(inp.stored_categories@, id, cat, inp.stored_categories@.len() as int) {
        Some(st) => {
            &&& row.regular_hours@ == st.regular_hours@
            &&& row.overtime_hours@ == st.overtime_hours@
            &&& row.sick_hours@ == st.sick_hours@
            &&& row.admin_edited
        },
        None => {
            &&& row.regular_hours@ == sums.0
            &&& row.overtime_hours@ == sums.1
            &&& row.sick_hours@ == spec_zero()
            &&& !row.admin_edited
        },
    }
}

/// One row per listed category, in name order.
pub open spec fn category_rows_ok(inp: TotalsInput, id: i64, e: Seq<OvertimeEntry>, rows: Seq<CategoryRow>) -> bool {
    &&& forall|a: int, b: int|
        0 <= a < b < rows.len() ==> text_lt((#[trigger] rows[a]).category@, (#[trigger] rows[b]).category@)
    &&& forall|a: int|
        0 <= a < rows.len() ==> category_listed(inp, id, e, (#[trigger] rows[a]).category@)
            && category_row_ok(inp, id, e, rows[a])
    &&& forall|cat: Seq<char>|
        category_listed(inp, id, e, cat) ==> exists|a: int| 0 <= a < rows.len() && (#[trigger] rows[a]).category@ == cat
}

/// No category's sums overflow.
pub open spec fn category_sums_ok(e: Seq<OvertimeEntry>, start: i32, end: i32) -> bool {
    forall|i: int|
        0 <= i < e.len() && in_period(start, end, e[i]) ==> (#[trigger] category_sums(
            e,
            start,
            end,
            e[i].category@,
            e.len() as int,
        )) is Some
}

/// The names of the categories walked in the period or stored, sorted.
fn category_names(inp: &TotalsInput, id: i64, e: &Vec<OvertimeEntry>) -> (names: Vec<String>)
    ensures
        sorted_texts(text_views(names@)),
        forall|y: Seq<char>|
            holds_text(names@, y) <==> (walked_in_period(e@, inp.period_start, inp.period_end, y, e@.len() as int)
                || stored_for(inp.stored_categories@, id, y, inp.stored_categories@.len() as int)),
{
    let mut names: Vec<String> = Vec::new();
    let mut i: usize = 0;
    while i < e.len()
        invariant
            i <= e@.len(),
            sorted_texts(text_views(names@)),
            forall|y: Seq<char>|
                holds_text(names@, y) <==> walked_in_period(e@, inp.period_start, inp.period_end, y, i as int),
        decreases e.len() - i,
    {
        let x = &e[i];
        if inp.period_start <= x.entry_date && x.entry_date <= inp.period_end {
            insert_sorted_text(&mut names, x.category.clone());
        }
        proof {
            assert forall|y: Seq<char>| holds_text(names@, y) <==> walked_in_period(
                e@,
                inp.period_start,
                inp.period_end,
                y,
                i + 1,
            ) by {
                if walked_in_period(e@, inp.period_start, inp.period_end, y, i + 1) {
                    let k = choose|k: int|
                        0 <= k < i + 1 && in_period(inp.period_start, inp.period_end, e@[k]) && (#[trigger] e@[k]).category@ == y;
                    if k < i {
                        assert(walked_in_period(e@, inp.period_start, inp.period_end, y, i as int));
                    }
                }
                if walked_in_period(e@, inp.period_start, inp.period_end, y, i as int) {
                    let k = choose|k: int|
                        0 <= k < i && in_period(inp.period_start, inp.period_end, e@[k]) && (#[trigger] e@[k]).category@ == y;
                    assert(0 <= k < i + 1);
                }
                if in_period(inp.period_start, inp.period_end, e@[i as int]) && y == e@[i as int].category@ {
                    assert(0 <= i < i + 1);
                }
            }
        }
        i += 1;
    }
    let rows = &inp.stored_categories;
    let mut j: usize = 0;
    while j < rows.len()
        invariant
            j <= rows@.len(),
            rows@ == inp.stored_categories@,
            sorted_texts(text_views(names@)),
            forall|y: Seq<char>|
                holds_text(names@, y) <==> (walked_in_period(e@, inp.period_start, inp.period_end, y, e@.len() as int)
                    || stored_for(rows@, id, y, j as int)),
        decreases rows.len() - j,
    {
        if rows[j].employee_id == id {
            insert_sorted_text(&mut names, rows[j].category.clone());
        }
        proof {
            assert forall|y: Seq<char>| stored_for(rows@, id, y, j + 1) <==> (stored_for(rows@, id, y, j as int)
                || (rows@[j as int].employee_id == id && rows@[j as int].category@ == y)) by {
                if stored_for(rows@, id, y, j + 1) {
                    let k = choose|k: int| 0 <= k < j + 1 && (#[trigger] rows@[k]).employee_id == id && rows@[k].category@ == y;
                    if k < j {
                        assert(stored_for(rows@, id, y, j as int));
                    }
                }
                if stored_for(rows@, id, y, j as int) {
                    let k = choose|k: int| 0 <= k < j && (#[trigger] rows@[k]).employee_id == id && rows@[k].category@ == y;
                    assert(0 <= k < j + 1);
                }
                if rows@[j as int].employee_id == id && rows@[j as int].category@ == y {
                    assert(0 <= j < j + 1);
                }
            }
        }
        j += 1;
    }
    names
}

/// The index of the last admin-stored row of employee `id` for `cat`.
fn find_last_stored(rows: &Vec<StoredCategoryRow>, id: i64, cat: &String) -> (r: Option<usize>)
    ensures
        r matches Some(j) ==> j < rows@.len() && last_stored(rows@, id, cat@, rows@.len() as int) == Some(rows@[j as int]),
        r is None ==> last_stored(rows@, id, cat@, rows@.len() as int) is None,
{
    let mut j: usize = rows.len();
    while j > 0
        invariant
            j <= rows@.len(),
            last_stored(rows@, id, cat@, rows@.len() as int) == last_stored(rows@, id, cat@, j as int),
        decreases j,
    {
        j -= 1;
        if rows[j].employee_id == id && rows[j].category == *cat {
            return Some(j);
        }
    }
    None
}

/// One row per listed category, or `None` where a category's sums overflow.
fn category_rows(
    inp: &TotalsInput,
    id: i64,
    e: &Vec<OvertimeEntry>,
    splits: &Vec<OvertimeSplit>,
) -> (r: Option<Vec<CategoryRow>>)
    requires
        splits@.len() == e@.len(),
        forall|i: int| 0 <= i < e@.len() ==> split_view(#[trigger] splits@[i]) == split_of(e@, i),
    ensures
        r is Some <==> category_sums_ok(e@, inp.period_start, inp.period_end),
        r matches Some(rows) ==> category_rows_ok(*inp, id, e@, rows@),
{
    let names = category_names(inp, id, e);
    let private = String::from_str("private");
    let mut out: Vec<CategoryRow> = Vec::new();
    let ghost mut idxs: Seq<int> = Seq::empty();
    proof {
        lemma_last_stored_all(inp.stored_categories@, id);
    }
    let mut k: usize = 0;
    while k < names.len()
        invariant
            k <= names@.len(),
            splits@.len() == e@.len(),
            forall|i: int| 0 <= i < e@.len() ==> split_view(#[trigger] splits@[i]) == split_of(e@, i),
            private@ == private_name(),
            sorted_texts(text_views(names@)),
            forall|y: Seq<char>|
                holds_text(names@, y) <==> (walked_in_period(e@, inp.period_start, inp.period_end, y, e@.len() as int)
                    || stored_for(inp.stored_categories@, id, y, inp.stored_categories@.len() as int)),
            forall|y: Seq<char>|
                last_stored(inp.stored_categories@, id, y, inp.stored_categories@.len() as int) is Some
                    <==> stored_for(inp.stored_categories@, id, y, inp.stored_categories@.len() as int),
            idxs.len() == out@.len(),
            forall|a: int, b: int| 0 <= a < b < idxs.len() ==> idxs[a] < idxs[b],
            forall|a: int| 0 <= a < idxs.len() ==> 0 <= #[trigger] idxs[a] < k,
            forall|a: int| 0 <= a < idxs.len() ==> (#[trigger] out@[a]).category@ == names@[idxs[a]]@,
            forall|a: int|
                0 <= a < out@.len() ==> category_listed(*inp, id, e@, (#[trigger] out@[a]).category@)
                    && category_row_ok(*inp, id, e@, out@[a]),
            forall|m: int|
                0 <= m < k && category_listed(*inp, id, e@, (#[trigger] names@[m])@) ==> exists|a: int|
                    0 <= a < idxs.len() && idxs[a] == m,
            forall|m: int|
                0 <= m < k ==> (#[trigger] category_sums(
                    e@,
                    inp.period_start,
                    inp.period_end,
                    names@[m]@,
                    e@.len() as int,
                )) is Some,
        decreases names.len() - k,
    {
        let name = &names[k];
        let ghost old_idxs = idxs;
        assert(holds_text(names@, name@));
        let sums = category_sums_of(e, splits, inp.period_start, inp.period_end, name);
        let (reg, ot, logged) = match sums {
            Some(t) => t,
            None => {
                proof {
                    if !walked_in_period(e@, inp.period_start, inp.period_end, name@, e@.len() as int) {
                        lemma_category_sums_unwalked(e@, inp.period_start, inp.period_end, name@, e@.len() as int);
                    }
                    let i = choose|i: int|
                        0 <= i < e@.len() && in_period(inp.period_start, inp.period_end, e@[i])
                            && (#[trigger] e@[i]).category@ == name@;
                    assert(!category_sums_ok(e@, inp.period_start, inp.period_end));
                }
                return None;
            },
        };
        let excluded = *name == private || contains_text(&inp.lump_sum_categories, name);
        let ghost listed = category_listed(*inp, id, e@, name@);
        assert(listed == !excluded);
        if !excluded {
            let row = match find_last_stored(&inp.stored_categories, id, name) {
                Some(j) => {
                    let st = &inp.stored_categories[j];
                    CategoryRow {
                        category: name.clone(),
                        regular_hours: st.regular_hours,
                        overtime_hours: st.overtime_hours,
                        sick_hours: st.sick_hours,
                        logged_hours: logged,
                        admin_edited: true,
                    }
                },
                None => CategoryRow {
                    category: name.clone(),
                    regular_hours: reg,
                    overtime_hours: ot,
                    sick_hours: Dec::zero(),
                    logged_hours: logged,
                    admin_edited: false,
                },
            };
            out.push(row);
            proof {
                idxs = idxs.push(k as int);
            }
        }
        proof {
            assert forall|m: int|
                0 <= m < k + 1 && category_listed(*inp, id, e@, (#[trigger] names@[m])@) implies exists|a: int|
                    0 <= a < idxs.len() && idxs[a] == m by {
                if m == k {
                    assert(idxs[idxs.len() - 1] == m);
                } else {
                    let a = choose|a: int| 0 <= a < old_idxs.len() && old_idxs[a] == m;
                    assert(idxs[a] == old_idxs[a]);
                }
            }
        }
        k += 1;
    }
    proof {
        let t = text_views(names@);
        assert forall|a: int, b: int| 0 <= a < b < out@.len() implies text_lt(
            (#[trigger] out@[a]).category@,
            (#[trigger] out@[b]).category@,
        ) by {
            assert(t[idxs[a]] == names@[idxs[a]]@ && t[idxs[b]] == names@[idxs[b]]@);
        }
        assert forall|cat: Seq<char>| category_listed(*inp, id, e@, cat) implies exists|a: int|
            0 <= a < out@.len() && (#[trigger] out@[a]).category@ == cat by {
            assert(holds_text(names@, cat));
            let m = choose|m: int| 0 <= m < names@.len() && (#[trigger] names@[m])@ == cat;
            let a = choose|a: int| 0 <= a < idxs.len() && idxs[a] == m;
            assert(out@[a].category@ == cat);
        }
        assert forall|i: int|
            0 <= i < e@.len() && in_period(inp.period_start, inp.period_end, e@[i]) implies (#[trigger] category_sums(
            e@,
            inp.period_start,
            inp.period_end,
            e@[i].category@,
            e@.len() as int,
        )) is Some by {
            assert(walked_in_period(e@, inp.period_start, inp.period_end, e@[i].category@, e@.len() as int));
            assert(holds_text(names@, e@[i].category@));
            let m = choose|m: int| 0 <= m < names@.len() && (#[trigger] names@[m])@ == e@[i].category@;
        }
    }
    Some(out)
}

proof fn lemma_last_stored_all(rows: Seq<StoredCategoryRow>, id: i64)
    ensures
        forall|y: Seq<char>|
            last_stored(rows, id, y, rows.len() as int) is Some <==> stored_for(rows, id, y, rows.len() as int),
{
    assert forall|y: Seq<char>|
        last_stored(rows, id, y, rows.len() as int) is Some <==> stored_for(rows, id, y, rows.len() as int) by {
        lemma_last_stored(rows, id, y, rows.len() as int);
    }
}


/// The count of the last row of employee `id` for session length `dur` among the first `n`.
pub open spec fn last_count(rows: Seq<SessionCountRow>, id: i64, dur: i32, n: int) -> Option<i32>
    decreases n,
{
    if n <= 0 {
        None
    } else if rows[n - 1].employee_id == id && rows[n - 1].session_duration == dur {
        Some(rows[n - 1].session_count)
    } else {
        last_count(rows, id, dur, n - 1)
    }
}

pub open spec fn count_for(rows: Seq<SessionCountRow>, id: i64, dur: i32, n: int) -> bool {
    exists|j: int| 0 <= j < n && (#[trigger] rows[j]).employee_id == id && rows[j].session_duration == dur
}

proof fn lemma_last_count(rows: Seq<SessionCountRow>, id: i64, dur: i32, n: int)
    requires
        0 <= n <= rows.len(),
    ensures
        last_count(rows, id, dur, n) is Some <==> count_for(rows, id, dur, n),
    decreases n,
{
    if n > 0 {
        lemma_last_count(rows, id, dur, n - 1);
        if count_for(rows, id, dur, n) && !(rows[n - 1].employee_id == id && rows[n - 1].session_duration == dur) {
            let j = choose|j: int| 0 <= j < n && (#[trigger] rows[j]).employee_id == id && rows[j].session_duration == dur;
            assert(j < n - 1);
        }
        if count_for(rows, id, dur, n - 1) {
            let j = choose|j: int| 0 <= j < n - 1 && (#[trigger] rows[j]).employee_id == id && rows[j].session_duration == dur;
            assert(0 <= j < n);
        }
    }
}

/// The session length has a logged or a stored count.
pub open spec fn duration_listed(inp: TotalsInput, id: i64, dur: i32) -> bool {
    count_for(inp.logged_privates@, id, dur, inp.logged_privates@.len() as int)
        || count_for(inp.stored_privates@, id, dur, inp.stored_privates@.len() as int)
}

/// A private row: the stored count where an admin stored one, else the logged count.
pub open spec fn private_row_ok(inp: TotalsInput, id: i64, row: PrivateRow) -> bool {
    let logged = match last_count(inp.logged_privates@, id, row.session_duration, inp.logged_privates@.len() as int) {
        Some(c) => c,
        None => 0,
    };
    &&& row.logged_count == logged
    &&& match last_count(inp.stored_privates@, id, row.session_duration, inp.stored_privates@.len() as int) {
        Some(c) => row.session_count == c && row.admin_edited,
        None => row.session_count == logged && !row.admin_edited,
    }
}

/// One row per session length with a count, shortest first.
pub open spec fn private_rows_ok(inp: TotalsInput, id: i64, rows: Seq<PrivateRow>) -> bool {
    &&& forall|a: int, b: int|
        0 <= a < b < rows.len() ==> (#[trigger] rows[a]).session_duration < (#[trigger] rows[b]).session_duration
    &&& forall|a: int|
        0 <= a < rows.len() ==> duration_listed(inp, id, (#[trigger] rows[a]).session_duration)
            && private_row_ok(inp, id, rows[a])
    &&& forall|dur: i32|
        duration_listed(inp, id, dur) ==> exists|a: int| 0 <= a < rows.len() && (#[trigger] rows[a]).session_duration == dur
}

pub open spec fn holds_i32(s: Seq<i32>, y: i32) -> bool {
    exists|i: int| 0 <= i < s.len() && s[i] == y
}

/// Adds `x` to the strictly increasing `v`, unless it is there.
#[verifier::spinoff_prover]
fn insert_sorted_i32(v: &mut Vec<i32>, x: i32)
    requires
        forall|i: int, j: int| 0 <= i < j < old(v)@.len() ==> old(v)@[i] < old(v)@[j],
    ensures
        forall|i: int, j: int| 0 <= i < j < final(v)@.len() ==> final(v)@[i] < final(v)@[j],
        forall|y: i32| holds_i32(final(v)@, y) <==> (holds_i32(old(v)@, y) || y == x),
{
    let ghost old_v = v@;
    let mut p: usize = 0;
    while p < v.len() && v[p] < x
        invariant
            p <= v@.len(),
            v@ == old_v,
            forall|j: int| 0 <= j < p ==> v@[j] < x,
        decreases v.len() - p,
    {
        p += 1;
    }
    if p < v.len() && v[p] == x {
        assert(v@[p as int] == x);
        assert forall|y: i32| holds_i32(v@, y) <==> (holds_i32(old_v, y) || y == x) by {
            if y == x {
                assert(v@[p as int] == y);
            }
        }
        return;
    }
    v.insert(p, x);
    proof {
        assert forall|y: i32| holds_i32(v@, y) <==> (holds_i32(old_v, y) || y == x) by {
            if holds_i32(v@, y) {
                let k = choose|k: int| 0 <= k < v@.len() && v@[k] == y;
                if k < p {
                    assert(v@[k] == old_v[k]);
                } else if k > p {
                    assert(v@[k] == old_v[k - 1]);
                }
            }
            if holds_i32(old_v, y) {
                let k = choose|k: int| 0 <= k < old_v.len() && old_v[k] == y;
                if k < p {
                    assert(v@[k] == old_v[k]);
                } else {
                    assert(v@[k + 1] == old_v[k]);
                }
            }
            if y == x {
                assert(v@[p as int] == x);
            }
        }
    }
}

/// The last count of employee `id` for `dur`, if any.
fn find_last_count(rows: &Vec<SessionCountRow>, id: i64, dur: i32) -> (r: Option<i32>)
    ensures
        r == last_count(rows@, id, dur, rows@.len() as int),
{
    let mut j: usize = rows.len();
    while j > 0
        invariant
            j <= rows@.len(),
            last_count(rows@, id, dur, rows@.len() as int) == last_count(rows@, id, dur, j as int),
        decreases j,
    {
        j -= 1;
        if rows[j].employee_id == id && rows[j].session_duration == dur {
            return Some(rows[j].session_count);
        }
    }
    None
}

/// Adds the session lengths of employee `id` in `rows` to `durs`.
#[verifier::spinoff_prover]
fn collect_durations(rows: &Vec<SessionCountRow>, id: i64, start: Vec<i32>) -> (durs: Vec<i32>)
    requires
        forall|i: int, j: int| 0 <= i < j < start@.len() ==> start@[i] < start@[j],
    ensures
        forall|i: int, j: int| 0 <= i < j < durs@.len() ==> durs@[i] < durs@[j],
        forall|y: i32|
            holds_i32(durs@, y) <==> (holds_i32(start@, y) || count_for(rows@, id, y, rows@.len() as int)),
{
    let ghost start_v = start@;
    let mut durs = start;
    let mut j: usize = 0;
    while j < rows.len()
        invariant
            j <= rows@.len(),
            forall|a: int, b: int| 0 <= a < b < durs@.len() ==> durs@[a] < durs@[b],
            forall|y: i32| holds_i32(durs@, y) <==> (holds_i32(start_v, y) || count_for(rows@, id, y, j as int)),
        decreases rows.len() - j,
    {
        let ghost before = durs@;
        let ghost jo = j as int;
        let ghost r = rows@[j as int];
        if rows[j].employee_id == id {
            insert_sorted_i32(&mut durs, rows[j].session_duration);
        }
        j += 1;
        proof {
            assert forall|y: i32| holds_i32(durs@, y) <==> (holds_i32(start_v, y) || count_for(rows@, id, y, j as int)) by {
                assert(holds_i32(before, y) <==> (holds_i32(start_v, y) || count_for(rows@, id, y, jo)));
                assert(jo == j - 1);
                assert(holds_i32(durs@, y) <==> (holds_i32(before, y) || (r.employee_id == id && r.session_duration == y)));
                if count_for(rows@, id, y, j as int) {
                    let k = choose|k: int| 0 <= k < j && (#[trigger] rows@[k]).employee_id == id && rows@[k].session_duration == y;
                    if k < jo {
                        assert(count_for(rows@, id, y, jo));
                    }
                }
                if count_for(rows@, id, y, jo) {
                    let k = choose|k: int| 0 <= k < jo && (#[trigger] rows@[k]).employee_id == id && rows@[k].session_duration == y;
                    assert(0 <= k < j);
                }
                if r.employee_id == id && r.session_duration == y {
                    assert(rows@[jo] == r);
                }
            }
        }
    }
    durs
}

/// One row per session length with a logged or stored count, shortest first.
fn private_rows(inp: &TotalsInput, id: i64) -> (rows: Vec<PrivateRow>)
    ensures
        private_rows_ok(*inp, id, rows@),
{
    let durs = collect_durations(&inp.logged_privates, id, Vec::new());
    let durs = collect_durations(&inp.stored_privates, id, durs);
    let mut rows: Vec<PrivateRow> = Vec::new();
    let mut k: usize = 0;
    while k < durs.len()
        invariant
            k <= durs@.len(),
            rows@.len() == k,
            forall|a: int, b: int| 0 <= a < b < durs@.len() ==> durs@[a] < durs@[b],
            forall|y: i32| holds_i32(durs@, y) <==> duration_listed(*inp, id, y),
            forall|a: int| 0 <= a < k ==> (#[trigger] rows@[a]).session_duration == durs@[a],
            forall|a: int| 0 <= a < k ==> private_row_ok(*inp, id, #[trigger] rows@[a]),
        decreases durs.len() - k,
    {
        let dur = durs[k];
        let logged = match find_last_count(&inp.logged_privates, id, dur) {
            Some(c) => c,
            None => 0,
        };
        let row = match find_last_count(&inp.stored_privates, id, dur) {
            Some(c) => PrivateRow { session_duration: dur, session_count: c, logged_count: logged, admin_edited: true },
            None => PrivateRow { session_duration: dur, session_count: logged, logged_count: logged, admin_edited: false },
        };
        rows.push(row);
        k += 1;
    }
    proof {
        assert forall|a: int| 0 <= a < rows@.len() implies duration_listed(*inp, id, (#[trigger] rows@[a]).session_duration) by {
            assert(holds_i32(durs@, durs@[a]));
        }
        assert forall|dur: i32| duration_listed(*inp, id, dur) implies exists|a: int|
            0 <= a < rows@.len() && (#[trigger] rows@[a]).session_duration == dur by {
            assert(holds_i32(durs@, dur));
            let a = choose|a: int| 0 <= a < durs@.len() && durs@[a] == dur;
            assert(rows@[a].session_duration == dur);
        }
    }
    rows
}


/// The amount of the first rate of employee `id` labelled `label`, from row `k` on.
pub open spec fn first_rate_from(rates: Seq<RateRow>, id: i64, label: Seq<char>, k: int) -> Option<DecView>
    decreases rates.len() - k,
{
    if k < 0 || k >= rates.len() {
        None
    } else if rates[k].employee_id == id && rates[k].label@ == label {
        Some(rates[k].amount@)
    } else {
        first_rate_from(rates, id, label, k + 1)
    }
}

/// The first rate of employee `id` for `label` from row `k` on is the amount of
/// the first of those rows that is the employee's own and carries that label;
/// there is none exactly when no such row exists. Rows of other employees, or
/// with other labels, never give it.
pub proof fn lemma_first_rate_is_own(rates: Seq<RateRow>, id: i64, label: Seq<char>, k: int)
    requires
        0 <= k,
    ensures
        first_rate_from(rates, id, label, k) is None <==> forall|j: int|
            k <= j < rates.len() ==> !((#[trigger] rates[j]).employee_id == id && rates[j].label@ == label),
        first_rate_from(rates, id, label, k) matches Some(a) ==> exists|j: int|
            k <= j < rates.len() && (#[trigger] rates[j]).employee_id == id && rates[j].label@ == label
                && rates[j].amount@ == a && forall|q: int|
                k <= q < j ==> !((#[trigger] rates[q]).employee_id == id && rates[q].label@ == label),
    decreases rates.len() - k,
{
    if k < rates.len() {
        lemma_first_rate_is_own(rates, id, label, k + 1);
        if !(rates[k].employee_id == id && rates[k].label@ == label) {
            if first_rate_from(rates, id, label, k + 1) is Some {
                let a = first_rate_from(rates, id, label, k + 1).unwrap();
                let j = choose|j: int|
                    k + 1 <= j < rates.len() && (#[trigger] rates[j]).employee_id == id && rates[j].label@ == label
                        && rates[j].amount@ == a && forall|q: int|
                        k + 1 <= q < j ==> !((#[trigger] rates[q]).employee_id == id && rates[q].label@ == label);
                assert forall|q: int| k <= q < j implies !((#[trigger] rates[q]).employee_id == id
                    && rates[q].label@ == label) by {}
            }
        }
    }
}

/// The rate of a lump-sum row is the amount of the first rate row of the row's
/// own employee labelled with its category, or zero when that employee has none.
pub proof fn lemma_lump_rate_is_own(inp: TotalsInput, j: int)
    requires
        0 <= j < inp.lump_entries@.len(),
    ensures
        ({
            let le = inp.lump_entries@[j];
            let rates = inp.rates@;
            &&& (forall|k: int|
                0 <= k < rates.len() ==> !((#[trigger] rates[k]).employee_id == le.employee_id && rates[k].label@
                    == le.category@)) ==> lump_rate(inp, j) == spec_zero()
            &&& (exists|k: int|
                0 <= k < rates.len() && (#[trigger] rates[k]).employee_id == le.employee_id && rates[k].label@
                    == le.category@) ==> exists|k: int|
                0 <= k < rates.len() && (#[trigger] rates[k]).employee_id == le.employee_id && rates[k].label@
                    == le.category@ && rates[k].amount@ == lump_rate(inp, j) && forall|q: int|
                    0 <= q < k ==> !((#[trigger] rates[q]).employee_id == le.employee_id && rates[q].label@
                        == le.category@)
        }),
{
    lemma_first_rate_is_own(inp.rates@, inp.lump_entries@[j].employee_id, inp.lump_entries@[j].category@, 0);
}

/// The rate of lump-sum row `j`: its employee's first rate labelled with its
/// category, or zero.
pub open spec fn lump_rate(inp: TotalsInput, j: int) -> DecView {
    match first_rate_from(inp.rates@, inp.lump_entries@[j].employee_id, inp.lump_entries@[j].category@, 0) {
        Some(a) => a,
        None => spec_zero(),
    }
}

/// The dollars of lump-sum row `j`: rate times entry count.
pub open spec fn lump_line(inp: TotalsInput, j: int) -> Option<DecView> {
    spec_mul(lump_rate(inp, j), spec_int(inp.lump_entries@[j].count as int))
}

/// Running lump-sum dollars of employee `id` over the first `n` lump-sum rows.
pub open spec fn lump_total(inp: TotalsInput, id: i64, n: int) -> Option<DecView>
    decreases n,
{
    if n <= 0 {
        Some(spec_zero())
    } else {
        match lump_total(inp, id, n - 1) {
            None => None,
            Some(t) => if inp.lump_entries@[n - 1].employee_id == id {
                match lump_line(inp, n - 1) {
                    Some(l) => spec_add(t, l),
                    None => None,
                }
            } else {
                Some(t)
            },
        }
    }
}

pub open spec fn lump_row_view(r: LumpSumRow) -> (Seq<char>, DecView, i64) {
    (r.category@, r.amount@, r.entry_count)
}

/// The lump-sum rows of employee `id` among the first `n`, as (category, dollars, count).
pub open spec fn lump_rows_prefix(inp: TotalsInput, id: i64, n: int) -> Seq<(Seq<char>, DecView, i64)>
    decreases n,
{
    if n <= 0 {
        Seq::empty()
    } else {
        let p = lump_rows_prefix(inp, id, n - 1);
        if inp.lump_entries@[n - 1].employee_id == id {
            p.push((inp.lump_entries@[n - 1].category@, lump_line(inp, n - 1).unwrap(), inp.lump_entries@[n - 1].count))
        } else {
            p
        }
    }
}

/// No lump-sum multiplication or running sum overflows.
pub open spec fn lumps_ok(inp: TotalsInput) -> bool {
    forall|j: int|
        0 <= j < inp.lump_entries@.len() ==> (#[trigger] lump_line(inp, j)) is Some && lump_total(
            inp,
            inp.lump_entries@[j].employee_id,
            j + 1,
        ) is Some
}

pub fn find_first_rate(rates: &Vec<RateRow>, id: i64, label: &String) -> (r: Option<Dec>)
    ensures
        r matches Some(a) ==> first_rate_from(rates@, id, label@, 0) == Some(a@),
        r is None ==> first_rate_from(rates@, id, label@, 0) is None,
{
    let mut k: usize = 0;
    while k < rates.len()
        invariant
            k <= rates@.len(),
            first_rate_from(rates@, id, label@, 0) == first_rate_from(rates@, id, label@, k as int),
        decreases rates.len() - k,
    {
        if rates[k].employee_id == id && rates[k].label == *label {
            return Some(rates[k].amount);
        }
        k += 1;
    }
    None
}

fn lump_line_of(inp: &TotalsInput, j: usize) -> (r: Option<Dec>)
    requires
        j < inp.lump_entries@.len(),
    ensures
        r matches Some(l) ==> lump_line(*inp, j as int) == Some(l@),
        r is None ==> lump_line(*inp, j as int) is None,
{
    let row = &inp.lump_entries[j];
    let rate = match find_first_rate(&inp.rates, row.employee_id, &row.category) {
        Some(a) => a,
        None => Dec::zero(),
    };
    dec_checked_mul(rate, Dec::from_i64(row.count))
}

/// The lump-sum dollars and rows of employee `id` over the first `n` lump-sum rows.
fn employee_lumps(inp: &TotalsInput, id: i64, n: usize) -> (r: Option<(Dec, Vec<LumpSumRow>)>)
    requires
        n <= inp.lump_entries@.len(),
    ensures
        r is Some <==> lump_total(*inp, id, n as int) is Some,
        r matches Some(t) ==> lump_total(*inp, id, n as int) == Some(t.0@) && Seq::new(
            t.1@.len(),
            |i: int| lump_row_view(t.1@[i]),
        ) == lump_rows_prefix(*inp, id, n as int),
{
    let mut total = Dec::zero();
    let mut rows: Vec<LumpSumRow> = Vec::new();
    let mut j: usize = 0;
    while j < n
        invariant
            j <= n,
            n <= inp.lump_entries@.len(),
            lump_total(*inp, id, j as int) == Some(total@),
            Seq::new(rows@.len(), |i: int| lump_row_view(rows@[i])) == lump_rows_prefix(*inp, id, j as int),
        decreases n - j,
    {
        let row = &inp.lump_entries[j];
        if row.employee_id == id {
            let line = match lump_line_of(inp, j) {
                Some(l) => l,
                None => {
                    proof {
                        lemma_lump_total_stays_none(*inp, id, j as int + 1, n as int);
                    }
                    return None;
                },
            };
            total = match dec_checked_add(total, line) {
                Some(t) => t,
                None => {
                    proof {
                        lemma_lump_total_stays_none(*inp, id, j as int + 1, n as int);
                    }
                    return None;
                },
            };
            let ghost before = rows@;
            rows.push(LumpSumRow { category: row.category.clone(), amount: line, entry_count: row.count });
            assert(Seq::new(rows@.len(), |i: int| lump_row_view(rows@[i])) =~= Seq::new(
                before.len(),
                |i: int| lump_row_view(before[i]),
            ).push(lump_row_view(rows@[rows@.len() - 1])));
        }
        j += 1;
    }
    Some((total, rows))
}

proof fn lemma_lump_total_stays_none(inp: TotalsInput, id: i64, m: int, n: int)
    requires
        0 <= m <= n,
        lump_total(inp, id, m) is None,
    ensures
        lump_total(inp, id, n) is None,
    decreases n - m,
{
    if m < n {
        lemma_lump_total_stays_none(inp, id, m + 1, n);
    }
}

/// Whether no lump-sum multiplication or running sum overflows.
fn lumps_fit(inp: &TotalsInput) -> (r: bool)
    ensures
        r == lumps_ok(*inp),
{
    let mut j: usize = 0;
    while j < inp.lump_entries.len()
        invariant
            j <= inp.lump_entries@.len(),
            forall|q: int|
                0 <= q < j ==> (#[trigger] lump_line(*inp, q)) is Some && lump_total(
                    *inp,
                    inp.lump_entries@[q].employee_id,
                    q + 1,
                ) is Some,
        decreases inp.lump_entries.len() - j,
    {
        if lump_line_of(inp, j).is_none() {
            return false;
        }
        if employee_lumps(inp, inp.lump_entries[j].employee_id, j + 1).is_none() {
            return false;
        }
        j += 1;
    }
    true
}

/// Without overflow anywhere, every employee's lump-sum dollars exist.
proof fn lemma_lumps_ok_total(inp: TotalsInput, id: i64, n: int)
    requires
        lumps_ok(inp),
        0 <= n <= inp.lump_entries@.len(),
    ensures
        lump_total(inp, id, n) is Some,
    decreases n,
{
    if n > 0 {
        lemma_lumps_ok_total(inp, id, n - 1);
        if inp.lump_entries@[n - 1].employee_id == id {
            assert(lump_line(inp, n - 1) is Some);
        }
    }
}

/// The last dollar row of employee `id` among the first `n`.
pub open spec fn last_dollars(rows: Seq<DollarRow>, id: i64, n: int) -> Option<DollarRow>
    decreases n,
{
    if n <= 0 {
        None
    } else if rows[n - 1].employee_id == id {
        Some(rows[n - 1])
    } else {
        last_dollars(rows, id, n - 1)
    }
}

pub fn find_last_dollars(rows: &Vec<DollarRow>, id: i64) -> (r: Option<usize>)
    ensures
        r matches Some(j) ==> j < rows@.len() && last_dollars(rows@, id, rows@.len() as int) == Some(rows@[j as int]),
        r is None ==> last_dollars(rows@, id, rows@.len() as int) is None,
{
    let mut j: usize = rows.len();
    while j > 0
        invariant
            j <= rows@.len(),
            last_dollars(rows@, id, rows@.len() as int) == last_dollars(rows@, id, j as int),
        decreases j,
    {
        j -= 1;
        if rows[j].employee_id == id {
            return Some(j);
        }
    }
    None
}

pub open spec fn rate_entry_view(r: RateEntry) -> (Seq<char>, DecView) {
    (r.label@, r.amount@)
}

/// The rates of employee `id` among the first `n`, in order, as (label, amount).
pub open spec fn rates_prefix(rates: Seq<RateRow>, id: i64, n: int) -> Seq<(Seq<char>, DecView)>
    decreases n,
{
    if n <= 0 {
        Seq::empty()
    } else {
        let p = rates_prefix(rates, id, n - 1);
        if rates[n - 1].employee_id == id {
            p.push((rates[n - 1].label@, rates[n - 1].amount@))
        } else {
            p
        }
    }
}

fn employee_rates(rates: &Vec<RateRow>, id: i64) -> (r: Vec<RateEntry>)
    ensures
        Seq::new(r@.len(), |i: int| rate_entry_view(r@[i])) == rates_prefix(rates@, id, rates@.len() as int),
{
    let mut r: Vec<RateEntry> = Vec::new();
    let mut j: usize = 0;
    while j < rates.len()
        invariant
            j <= rates@.len(),
            Seq::new(r@.len(), |i: int| rate_entry_view(r@[i])) == rates_prefix(rates@, id, j as int),
        decreases rates.len() - j,
    {
        if rates[j].employee_id == id {
            let ghost before = r@;
            r.push(RateEntry { label: rates[j].label.clone(), amount: rates[j].amount });
            assert(Seq::new(r@.len(), |i: int| rate_entry_view(r@[i])) =~= Seq::new(
                before.len(),
                |i: int| rate_entry_view(before[i]),
            ).push(rate_entry_view(r@[r@.len() - 1])));
        }
        j += 1;
    }
    r
}


/// The walk and the category sums of employee `emp` get through without overflow.
pub open spec fn employee_fits(inp: TotalsInput, emp: EmployeeRow) -> bool {
    let e = worked_of(inp.worked@, emp.id);
    walk_succeeds(e) && category_sums_ok(e, inp.period_start, inp.period_end)
}

/// `t` holds the totals of employee `emp` for the period.
pub open spec fn employee_totals_ok(inp: TotalsInput, emp: EmployeeRow, t: EmployeeTotals) -> bool {
    let id = emp.id;
    let e = worked_of(inp.worked@, id);
    &&& t.employee_id == id
    &&& t.employee_name@ == emp.name@
    &&& t.employee_number@ == emp.employee_number@
    &&& t.pay_method@ == emp.pay_method@
    &&& t.pay_frequency@ == emp.pay_frequency@
    &&& category_rows_ok(inp, id, e, t.categories@)
    &&& private_rows_ok(inp, id, t.private_sessions@)
    &&& match last_dollars(inp.dollars@, id, inp.dollars@.len() as int) {
        Some(d) => t.other_earn@ == d.other_earn@ && t.competition_earn@ == d.competition_earn@
            && t.coaching_earn@ == d.coaching_earn@,
        None => t.other_earn@ == spec_zero() && t.competition_earn@ == spec_zero() && t.coaching_earn@
            == spec_zero(),
    }
    &&& lump_total(inp, id, inp.lump_entries@.len() as int) == Some(t.lump_sum_earn@)
    &&& Seq::new(t.lump_sums@.len(), |i: int| lump_row_view(t.lump_sums@[i])) == lump_rows_prefix(
        inp,
        id,
        inp.lump_entries@.len() as int,
    )
    &&& category_sums(e, inp.period_start, inp.period_end, private_name(), e.len() as int) matches Some(p)
        && p.0 == t.private_regular_hours@ && p.1 == t.private_overtime_hours@
    &&& Seq::new(t.rates@.len(), |i: int| rate_entry_view(t.rates@[i])) == rates_prefix(
        inp.rates@,
        id,
        inp.rates@.len() as int,
    )
}

/// Every worked entry's date is one whose week start chrono can compute.
pub open spec fn worked_dates_ok(inp: TotalsInput) -> bool {
    forall|j: int| 0 <= j < inp.worked@.len() ==> crate::dates::week_start_ok((#[trigger] inp.worked@[j]).entry_date as int)
}

/// The totals of one employee, or `None` where the arithmetic overflows.
fn employee_totals(inp: &TotalsInput, emp: &EmployeeRow) -> (r: Option<EmployeeTotals>)
    requires
        worked_dates_ok(*inp),
        lumps_ok(*inp),
    ensures
        r is Some <==> employee_fits(*inp, *emp),
        r matches Some(t) ==> employee_totals_ok(*inp, *emp, t),
{
    let id = emp.id;
    let e = worked_entries(&inp.worked, id);
    proof {
        lemma_worked_dates_ok(inp.worked@, id);
    }
    let splits = match compute_overtime(e.as_slice()) {
        Some(v) => v,
        None => return None,
    };
    proof {
        lemma_splits_by_index(e@, splits@);
    }
    let categories = match category_rows(inp, id, &e, &splits) {
        Some(c) => c,
        None => return None,
    };
    let private_sessions = private_rows(inp, id);
    let (other, competition, coaching) = match find_last_dollars(&inp.dollars, id) {
        Some(j) => (inp.dollars[j].other_earn, inp.dollars[j].competition_earn, inp.dollars[j].coaching_earn),
        None => (Dec::zero(), Dec::zero(), Dec::zero()),
    };
    proof {
        lemma_lumps_ok_total(*inp, id, inp.lump_entries@.len() as int);
    }
    let (lump, lump_sums) = match employee_lumps(inp, id, inp.lump_entries.len()) {
        Some(t) => t,
        None => return None,
    };
    let private = String::from_str("private");
    let (priv_reg, priv_ot) = match category_sums_of(&e, &splits, inp.period_start, inp.period_end, &private) {
        Some(t) => (t.0, t.1),
        None => {
            proof {
                if !walked_in_period(e@, inp.period_start, inp.period_end, private@, e@.len() as int) {
                    lemma_category_sums_unwalked(e@, inp.period_start, inp.period_end, private@, e@.len() as int);
                }
                let i = choose|i: int|
                    0 <= i < e@.len() && in_period(inp.period_start, inp.period_end, e@[i])
                        && (#[trigger] e@[i]).category@ == private@;
            }
            return None;
        },
    };
    let rates = employee_rates(&inp.rates, id);
    Some(
        EmployeeTotals {
            employee_id: id,
            employee_name: emp.name.clone(),
            employee_number: emp.employee_number.clone(),
            pay_method: emp.pay_method.clone(),
            pay_frequency: emp.pay_frequency.clone(),
            categories,
            private_sessions,
            other_earn: other,
            competition_earn: competition,
            coaching_earn: coaching,
            lump_sum_earn: lump,
            lump_sums,
            private_regular_hours: priv_reg,
            private_overtime_hours: priv_ot,
            rates,
        },
    )
}

/// Nothing in the period's totals overflows.
pub open spec fn totals_fit(inp: TotalsInput) -> bool {
    &&& lumps_ok(inp)
    &&& forall|x: int| 0 <= x < inp.employees@.len() ==> employee_fits(inp, #[trigger] inp.employees@[x])
}

/// The totals of every employee for the period, in the order of `employees`;
/// `None` where the decimal arithmetic overflows.
pub fn compute_totals(inp: &TotalsInput) -> (r: Option<Vec<EmployeeTotals>>)
    requires
        worked_dates_ok(*inp),
    ensures
        r is Some <==> totals_fit(*inp),
        r matches Some(v) ==> v@.len() == inp.employees@.len() && forall|x: int|
            0 <= x < v@.len() ==> employee_totals_ok(*inp, inp.employees@[x], #[trigger] v@[x]),
{
    if !lumps_fit(inp) {
        return None;
    }
    let mut result: Vec<EmployeeTotals> = Vec::new();
    let mut x: usize = 0;
    while x < inp.employees.len()
        invariant
            x <= inp.employees@.len(),
            worked_dates_ok(*inp),
            lumps_ok(*inp),
            result@.len() == x,
            forall|q: int| 0 <= q < x ==> employee_fits(*inp, #[trigger] inp.employees@[q]),
            forall|q: int| 0 <= q < x ==> employee_totals_ok(*inp, inp.employees@[q], #[trigger] result@[q]),
        decreases inp.employees.len() - x,
    {
        match employee_totals(inp, &inp.employees[x]) {
            Some(t) => result.push(t),
            None => return None,
        }
        x += 1;
    }
    Some(result)
}


/// The change that storing `session_count` makes.
pub open spec fn count_change_spec(session_count: i32) -> CountChange {
    if session_count <= 0 {
        CountChange::Remove
    } else {
        CountChange::Store
    }
}

/// The key of a stored private row: employee, first and last day of the
/// period, and session length.
pub type CountKey = (i64, i32, i32, i32);

/// Rows of a key other than `key`.
pub open spec fn other_key(key: CountKey) -> spec_fn((CountKey, i32)) -> bool {
    |r: (CountKey, i32)| r.0 != key
}

/// The stored private rows, as (key, count), after storing `session_count` for
/// `key`: the row of that key is dropped, and put back with the new count when
/// the change stores it.
pub open spec fn rows_after_count(rows: Seq<(CountKey, i32)>, key: CountKey, session_count: i32) -> Seq<(CountKey, i32)> {
    let others = rows.filter(other_key(key));
    match count_change_spec(session_count) {
        CountChange::Remove => others,
        CountChange::Store => others.push((key, session_count)),
    }
}

/// Storing private counts keeps the stored rows clean: if no stored row had a
/// count of zero or less, none has one after. The key's row is there exactly
/// when the count is positive, then once and with that count; every row of
/// another key stays, and no other row appears.
pub proof fn lemma_no_empty_private_rows(rows: Seq<(CountKey, i32)>, key: CountKey, session_count: i32)
    requires
        forall|i: int| 0 <= i < rows.len() ==> (#[trigger] rows[i]).1 > 0,
    ensures
        ({
            let after = rows_after_count(rows, key, session_count);
            &&& forall|i: int| 0 <= i < after.len() ==> (#[trigger] after[i]).1 > 0
            &&& (exists|i: int| 0 <= i < after.len() && (#[trigger] after[i]).0 == key) <==> session_count > 0
            &&& forall|i: int, j: int|
                0 <= i < j < after.len() && (#[trigger] after[i]).0 == key ==> (#[trigger] after[j]).0 != key
            &&& forall|i: int| 0 <= i < after.len() && (#[trigger] after[i]).0 == key ==> after[i].1 == session_count
            &&& forall|r: (CountKey, i32)| r.0 != key ==> (rows.contains(r) <==> after.contains(r))
        }),
{
    let f = other_key(key);
    let others = rows.filter(f);
    assert forall|i: int| 0 <= i < others.len() implies (#[trigger] others[i]).1 > 0 && others[i].0 != key by {
        rows.lemma_filter_pred(f, i);
        assert(others.contains(others[i]));
        rows.lemma_filter_contains_rev(f, others[i]);
    }
    assert forall|r: (CountKey, i32)| r.0 != key implies (rows.contains(r) <==> others.contains(r)) by {
        if rows.contains(r) {
            let i = choose|i: int| 0 <= i < rows.len() && rows[i] == r;
            rows.lemma_filter_contains(f, i);
        }
        if others.contains(r) {
            rows.lemma_filter_contains_rev(f, r);
        }
    }
    let after = rows_after_count(rows, key, session_count);
    if session_count > 0 {
        assert(after == others.push((key, session_count)));
        assert(after[others.len() as int].0 == key);
        assert forall|r: (CountKey, i32)| r.0 != key implies (others.contains(r) <==> after.contains(r)) by {
            if after.contains(r) {
                let i = choose|i: int| 0 <= i < after.len() && after[i] == r;
                assert(i < others.len());
                assert(others[i] == r);
            }
            if others.contains(r) {
                let i = choose|i: int| 0 <= i < others.len() && others[i] == r;
                assert(after[i] == r);
            }
        }
        assert forall|i: int| 0 <= i < after.len() && (#[trigger] after[i]).0 == key implies i == others.len() by {
            if i < others.len() {
                assert(after[i] == others[i]);
            }
        }
    } else {
        assert(after == others);
    }
}

/// What storing a private session count does to the stored rows.
pub enum CountChange {
    /// Drop the stored row (no zero-count private rows are kept).
    Remove,
    /// Insert or overwrite the stored count.
    Store,
}

/// A count of zero or less removes the stored row; any other count is stored.
pub fn private_count_change(session_count: i32) -> (r: CountChange)
    ensures
        r is Remove <==> session_count <= 0,
        r == count_change_spec(session_count),
{
    if session_count <= 0 {
        CountChange::Remove
    } else {
        CountChange::Store
    }
}


/// Whether every worked entry's date is one whose week start chrono can compute.
pub fn worked_dates_in_range(inp: &TotalsInput) -> (r: bool)
    ensures
        r == worked_dates_ok(*inp),
{
    let mut j: usize = 0;
    while j < inp.worked.len()
        invariant
            j <= inp.worked@.len(),
            forall|q: int| 0 <= q < j ==> crate::dates::week_start_ok((#[trigger] inp.worked@[q]).entry_date as int),
        decreases inp.worked.len() - j,
    {
        if !crate::dates::week_start_in_range(inp.worked[j].entry_date) {
            return false;
        }
        j += 1;
    }
    true
}

} // verus!
