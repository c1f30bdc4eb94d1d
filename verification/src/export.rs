//! What the payroll timesheet export shows of each employee: which employees
//! the view's filters keep, which rates are listed (normal ones, then private
//! session rates for session lengths taught this period), and the column totals.
use crate::decimal::{
    abs, at_scale, dec_checked_add, lemma_fits_within, lemma_units_to_scale, max_mantissa, max_scale, spec_add,
    spec_zero, sum_fits, units, Dec,
};
use crate::text::{
    contains_text, holds_text, parse_i32, parse_i32_spec, strip_prefix_spec, strip_text_prefix,
};
use crate::totals::{EmployeeTotals, RateEntry, DecView};
use vstd::prelude::*;

verus! {

/// The view's filters keep `t`: pay frequency `frequency` ("all" or none keeps
/// every one) and pay method `pay_method` ("both" or none keeps every one).
pub open spec fn export_keeps(t: EmployeeTotals, frequency: Option<String>, pay_method: Option<String>) -> bool {
    &&& match frequency {
        Some(f) => f@ == "all"@ || t.pay_frequency@ == f@,
        None => true,
    }
    &&& match pay_method {
        Some(m) => m@ == "both"@ || t.pay_method@ == m@,
        None => true,
    }
}

/// The positions of the employees the filters keep, in order.
pub fn export_selection(
    totals: &Vec<EmployeeTotals>,
    frequency: &Option<String>,
    pay_method: &Option<String>,
) -> (r: Vec<usize>)
    ensures
        forall|a: int, b: int| 0 <= a < b < r@.len() ==> r@[a] < r@[b],
        forall|a: int|
            0 <= a < r@.len() ==> (#[trigger] r@[a]) < totals@.len() && export_keeps(
                totals@[r@[a] as int],
                *frequency,
                *pay_method,
            ),
        forall|i: int|
            0 <= i < totals@.len() && export_keeps(#[trigger] totals@[i], *frequency, *pay_method) ==> exists|a: int|
                0 <= a < r@.len() && r@[a] == i,
{
    let all = String::from_str("all");
    let both = String::from_str("both");
    let mut r: Vec<usize> = Vec::new();
    let mut i: usize = 0;
    while i < totals.len()
        invariant
            i <= totals@.len(),
            all@ == "all"@,
            both@ == "both"@,
            forall|a: int, b: int| 0 <= a < b < r@.len() ==> r@[a] < r@[b],
            forall|a: int| 0 <= a < r@.len() ==> (#[trigger] r@[a]) < i,
            forall|a: int|
                0 <= a < r@.len() ==> export_keeps(totals@[(#[trigger] r@[a]) as int], *frequency, *pay_method),
            forall|q: int|
                0 <= q < i && export_keeps(#[trigger] totals@[q], *frequency, *pay_method) ==> exists|a: int|
                    0 <= a < r@.len() && r@[a] == q,
        decreases totals.len() - i,
    {
        let t = &totals[i];
        let freq_ok = match frequency {
            Some(f) => *f == all || t.pay_frequency == *f,
            None => true,
        };
        let method_ok = match pay_method {
            Some(m) => *m == both || t.pay_method == *m,
            None => true,
        };
        let ghost before = r@;
        if freq_ok && method_ok {
            r.push(i);
        }
        proof {
            assert forall|q: int|
                0 <= q < i + 1 && export_keeps(#[trigger] totals@[q], *frequency, *pay_method) implies exists|a: int|
                    0 <= a < r@.len() && r@[a] == q by {
                if q < i {
                    let a = choose|a: int| 0 <= a < before.len() && before[a] == q;
                    assert(r@[a] == before[a]);
                } else {
                    assert(r@[r@.len() - 1] == q);
                }
            }
        }
        i += 1;
    }
    r
}

pub open spec fn private_prefix() -> Seq<char> {
    "private_"@
}

/// A rate listed among the normal ones: not a private session rate and not a
/// lump-sum category.
pub open spec fn normal_rate(label: Seq<char>, lump: Seq<String>) -> bool {
    strip_prefix_spec(label, private_prefix()) is None && !holds_text(lump, label)
}

/// Some private session of length `dur` was taught this period.
pub open spec fn active_duration(t: EmployeeTotals, dur: i32) -> bool {
    exists|a: int|
        0 <= a < t.private_sessions@.len() && (#[trigger] t.private_sessions@[a]).session_count > 0
            && t.private_sessions@[a].session_duration == dur
}

/// A private session rate (`private_<minutes>`) for a length taught this period.
pub open spec fn active_private_rate(t: EmployeeTotals, label: Seq<char>) -> bool {
    match strip_prefix_spec(label, private_prefix()) {
        Some(rest) => match parse_i32_spec(rest) {
            Some(d) => active_duration(t, d),
            None => false,
        },
        None => false,
    }
}

/// The amounts of the first `n` rates of `t` that are normal ones.
pub open spec fn normal_rate_amounts(t: EmployeeTotals, lump: Seq<String>, n: int) -> Seq<DecView>
    decreases n,
{
    if n <= 0 {
        Seq::empty()
    } else {
        let p = normal_rate_amounts(t, lump, n - 1);
        let r = t.rates@[n - 1];
        if normal_rate(r.label@, lump) {
            p.push(r.amount@)
        } else {
            p
        }
    }
}

/// The amounts of the first `n` rates of `t` that are active private ones.
pub open spec fn private_rate_amounts(t: EmployeeTotals, n: int) -> Seq<DecView>
    decreases n,
{
    if n <= 0 {
        Seq::empty()
    } else {
        let p = private_rate_amounts(t, n - 1);
        let r = t.rates@[n - 1];
        if active_private_rate(t, r.label@) {
            p.push(r.amount@)
        } else {
            p
        }
    }
}

/// The rates an hourly employee's block lists, in order: normal rates, then
/// active private ones. The first goes with the name ("Hourly"), the others get
/// rows of their own ("Rate 2", "Rate 3", ...).
pub open spec fn export_rates_spec(t: EmployeeTotals, lump: Seq<String>) -> Seq<DecView> {
    normal_rate_amounts(t, lump, t.rates@.len() as int) + private_rate_amounts(t, t.rates@.len() as int)
}

/// `t` and `u` have the same rates, and the same private session rows as far as
/// their lengths and the period's counts go (logged counts and the stored flag
/// may differ).
pub open spec fn same_rates_and_counts(t: EmployeeTotals, u: EmployeeTotals) -> bool {
    &&& t.rates@ == u.rates@
    &&& t.private_sessions@.len() == u.private_sessions@.len()
    &&& forall|a: int|
        0 <= a < t.private_sessions@.len() ==> (#[trigger] t.private_sessions@[a]).session_duration
            == u.private_sessions@[a].session_duration && t.private_sessions@[a].session_count
            == u.private_sessions@[a].session_count
}

/// A private session rate `private_<d>` is listed exactly when some private
/// session row of length `d` has a positive count for the period (stored or
/// logged), whatever its logged count: rate `k` of `t` is added to the private
/// amounts exactly under that condition.
pub proof fn lemma_private_rate_listed(t: EmployeeTotals, k: int)
    requires
        0 <= k < t.rates@.len(),
    ensures
        ({
            let listed = match strip_prefix_spec(t.rates@[k].label@, private_prefix()) {
                Some(rest) => match parse_i32_spec(rest) {
                    Some(d) => exists|a: int|
                        0 <= a < t.private_sessions@.len() && (#[trigger] t.private_sessions@[a]).session_count > 0
                            && t.private_sessions@[a].session_duration == d,
                    None => false,
                },
                None => false,
            };
            private_rate_amounts(t, k + 1) == if listed {
                private_rate_amounts(t, k).push(t.rates@[k].amount@)
            } else {
                private_rate_amounts(t, k)
            }
        }),
{
}

/// The rates an hourly employee's block lists depend only on the rates and on
/// the period's private session counts: two employees' totals that agree on
/// those list the same rates, whatever their logged counts.
pub proof fn lemma_export_rates_ignore_logged(t: EmployeeTotals, u: EmployeeTotals, lump: Seq<String>)
    requires
        same_rates_and_counts(t, u),
    ensures
        export_rates_spec(t, lump) == export_rates_spec(u, lump),
{
    assert forall|d: i32| active_duration(t, d) == active_duration(u, d) by {
        if active_duration(t, d) {
            let a = choose|a: int|
                0 <= a < t.private_sessions@.len() && (#[trigger] t.private_sessions@[a]).session_count > 0
                    && t.private_sessions@[a].session_duration == d;
            assert(u.private_sessions@[a].session_count > 0);
        }
        if active_duration(u, d) {
            let a = choose|a: int|
                0 <= a < u.private_sessions@.len() && (#[trigger] u.private_sessions@[a]).session_count > 0
                    && u.private_sessions@[a].session_duration == d;
            assert(t.private_sessions@[a].session_count > 0);
        }
    }
    lemma_rate_amounts_agree(t, u, lump, t.rates@.len() as int);
}

proof fn lemma_rate_amounts_agree(t: EmployeeTotals, u: EmployeeTotals, lump: Seq<String>, n: int)
    requires
        t.rates@ == u.rates@,
        0 <= n <= t.rates@.len(),
        forall|d: i32| active_duration(t, d) == active_duration(u, d),
    ensures
        normal_rate_amounts(t, lump, n) == normal_rate_amounts(u, lump, n),
        private_rate_amounts(t, n) == private_rate_amounts(u, n),
    decreases n,
{
    if n > 0 {
        lemma_rate_amounts_agree(t, u, lump, n - 1);
        assert(active_private_rate(t, t.rates@[n - 1].label@) == active_private_rate(u, u.rates@[n - 1].label@));
    }
}

fn has_active_duration(t: &EmployeeTotals, dur: i32) -> (r: bool)
    ensures
        r == active_duration(*t, dur),
{
    let mut a: usize = 0;
    while a < t.private_sessions.len()
        invariant
            a <= t.private_sessions@.len(),
            forall|q: int|
                0 <= q < a ==> !((#[trigger] t.private_sessions@[q]).session_count > 0
                    && t.private_sessions@[q].session_duration == dur),
        decreases t.private_sessions.len() - a,
    {
        let p = &t.private_sessions[a];
        if p.session_count > 0 && p.session_duration == dur {
            return true;
        }
        a += 1;
    }
    false
}

fn is_active_private_rate(t: &EmployeeTotals, label: &String) -> (r: bool)
    ensures
        r == active_private_rate(*t, label@),
{
    let prefix = "private_";
    match strip_text_prefix(label.as_str(), prefix) {
        Some(rest) => match parse_i32(rest.as_str()) {
            Some(d) => has_active_duration(t, d),
            None => false,
        },
        None => false,
    }
}

/// The rate amounts listed for an hourly employee, in order.
pub fn export_rates(t: &EmployeeTotals, lump_sum_categories: &Vec<String>) -> (r: Vec<Dec>)
    ensures
        Seq::new(r@.len(), |i: int| r@[i]@) == export_rates_spec(*t, lump_sum_categories@),
{
    let mut normal: Vec<Dec> = Vec::new();
    let mut k: usize = 0;
    while k < t.rates.len()
        invariant
            k <= t.rates@.len(),
            Seq::new(normal@.len(), |i: int| normal@[i]@) == normal_rate_amounts(*t, lump_sum_categories@, k as int),
        decreases t.rates.len() - k,
    {
        let rt: &RateEntry = &t.rates[k];
        let is_private = strip_text_prefix(rt.label.as_str(), "private_").is_some();
        let is_lump = contains_text(lump_sum_categories, &rt.label);
        if !is_private && !is_lump {
            let ghost before = normal@;
            normal.push(rt.amount);
            assert(Seq::new(normal@.len(), |i: int| normal@[i]@) =~= Seq::new(before.len(), |i: int| before[i]@).push(rt.amount@));
        }
        k += 1;
    }
    let mut privates: Vec<Dec> = Vec::new();
    let mut j: usize = 0;
    while j < t.rates.len()
        invariant
            j <= t.rates@.len(),
            Seq::new(privates@.len(), |i: int| privates@[i]@) == private_rate_amounts(*t, j as int),
        decreases t.rates.len() - j,
    {
        let rt: &RateEntry = &t.rates[j];
        if is_active_private_rate(t, &rt.label) {
            let ghost before = privates@;
            privates.push(rt.amount);
            assert(Seq::new(privates@.len(), |i: int| privates@[i]@) =~= Seq::new(before.len(), |i: int| before[i]@).push(rt.amount@));
        }
        j += 1;
    }
    let ghost nv = normal@;
    let ghost pv = privates@;
    let mut out = normal;
    let mut q: usize = 0;
    while q < privates.len()
        invariant
            q <= privates@.len(),
            pv == privates@,
            out@ == nv + pv.take(q as int),
        decreases privates.len() - q,
    {
        out.push(privates[q]);
        assert(pv.take(q + 1) =~= pv.take(q as int).push(pv[q as int]));
        assert(out@ =~= nv + pv.take(q + 1));
        q += 1;
    }
    assert(pv.take(pv.len() as int) =~= pv);
    assert(Seq::new(out@.len(), |i: int| out@[i]@) =~= Seq::new(nv.len(), |i: int| nv[i]@) + Seq::new(
        pv.len(),
        |i: int| pv[i]@,
    ));
    out
}

/// The six numbers of an employee's block: regular hours (categories plus
/// private regular hours), overtime hours, other dollars (typed plus
/// lump-sum), competition, coaching, sick hours.
pub struct ExportColumns {
    pub regular: Dec,
    pub overtime: Dec,
    pub other: Dec,
    pub competition: Dec,
    pub coaching: Dec,
    pub sick: Dec,
}

/// Which hours of a category row a column sums.
#[derive(Clone, Copy)]
pub enum HourColumn {
    Regular,
    Overtime,
    Sick,
}

pub open spec fn column_value(t: EmployeeTotals, a: int, c: HourColumn) -> DecView {
    match c {
        HourColumn::Regular => t.categories@[a].regular_hours@,
        HourColumn::Overtime => t.categories@[a].overtime_hours@,
        HourColumn::Sick => t.categories@[a].sick_hours@,
    }
}

/// The running sum from zero of one hour column over the first `n` category rows.
pub open spec fn column_sum(t: EmployeeTotals, c: HourColumn, n: int) -> Option<DecView>
    decreases n,
{
    if n <= 0 {
        Some(spec_zero())
    } else {
        match column_sum(t, c, n - 1) {
            Some(s) => spec_add(s, column_value(t, n - 1, c)),
            None => None,
        }
    }
}

/// The columns of `t`, or `None` where a sum overflows.
pub open spec fn export_columns_spec(t: EmployeeTotals) -> Option<(DecView, DecView, DecView, DecView, DecView, DecView)> {
    let n = t.categories@.len() as int;
    match (column_sum(t, HourColumn::Regular, n), column_sum(t, HourColumn::Overtime, n), column_sum(t, HourColumn::Sick, n)) {
        (Some(reg), Some(ot), Some(sick)) => match (spec_add(reg, t.private_regular_hours@), spec_add(t.other_earn@, t.lump_sum_earn@)) {
            (Some(regular), Some(other)) => Some((regular, ot, other, t.competition_earn@, t.coaching_earn@, sick)),
            _ => None,
        },
        _ => None,
    }
}

/// The exact sum (in units of 10^-28) of one hour column over the first `n`
/// category rows.
pub open spec fn column_units(t: EmployeeTotals, c: HourColumn, n: int) -> int
    decreases n,
{
    if n <= 0 {
        0
    } else {
        column_units(t, c, n - 1) + units(column_value(t, n - 1, c))
    }
}

/// Every value of column `c` has at most `s` places and a magnitude of at most
/// `b` at that scale, and `n + 1` such values still fit in 96 bits: then no
/// addition of the column (and one more value) rounds.
pub open spec fn column_bounded(t: EmployeeTotals, c: HourColumn, s: nat, b: int) -> bool {
    &&& s <= max_scale()
    &&& b >= 0
    &&& forall|a: int|
        0 <= a < t.categories@.len() ==> (#[trigger] column_value(t, a, c)).1 <= s && abs(
            at_scale(column_value(t, a, c), s),
        ) <= b
    &&& (t.categories@.len() + 1) * b <= max_mantissa()
}

fn column_total(t: &EmployeeTotals, c: HourColumn, Ghost(s): Ghost<nat>, Ghost(b): Ghost<int>) -> (r: Option<Dec>)
    ensures
        r is Some <==> column_sum(*t, c, t.categories@.len() as int) is Some,
        r matches Some(x) ==> column_sum(*t, c, t.categories@.len() as int) == Some(x@),
        column_bounded(*t, c, s, b) ==> (r matches Some(x) && x@.1 <= s && abs(at_scale(x@, s))
            <= t.categories@.len() * b && units(x@) == column_units(*t, c, t.categories@.len() as int)),
{
    let mut sum = Dec::zero();
    let mut a: usize = 0;
    while a < t.categories.len()
        invariant
            a <= t.categories@.len(),
            column_sum(*t, c, a as int) == Some(sum@),
            column_bounded(*t, c, s, b) ==> sum@.1 <= s && abs(at_scale(sum@, s)) <= a * b && units(sum@)
                == column_units(*t, c, a as int),
        decreases t.categories.len() - a,
    {
        let row = &t.categories[a];
        let v = match c {
            HourColumn::Regular => row.regular_hours,
            HourColumn::Overtime => row.overtime_hours,
            HourColumn::Sick => row.sick_hours,
        };
        assert(v@ == column_value(*t, a as int, c));
        proof {
            if column_bounded(*t, c, s, b) {
                assert(abs(at_scale(v@, s)) <= b);
                assert(a * b + b <= (t.categories@.len() + 1) * b) by (nonlinear_arith)
                    requires
                        a < t.categories@.len(),
                        b >= 0,
                ;
                assert(a * b >= 0) by (nonlinear_arith)
                    requires
                        b >= 0,
                ;
                lemma_fits_within(sum@, v@, s, a * b, b);
            }
        }
        let next = match dec_checked_add(sum, v) {
            Some(x) => x,
            None => {
                proof {
                    lemma_column_sum_stays_none(*t, c, a as int + 1, t.categories@.len() as int);
                }
                return None;
            },
        };
        proof {
            if column_bounded(*t, c, s, b) {
                lemma_units_to_scale(next@, sum@, v@, s, 1);
                assert(a * b + b == (a + 1) * b) by (nonlinear_arith);
            }
        }
        sum = next;
        a += 1;
    }
    Some(sum)
}

proof fn lemma_column_sum_stays_none(t: EmployeeTotals, c: HourColumn, m: int, n: int)
    requires
        0 <= m <= n,
        column_sum(t, c, m) is None,
    ensures
        column_sum(t, c, n) is None,
    decreases n - m,
{
    if m < n {
        lemma_column_sum_stays_none(t, c, m + 1, n);
    }
}

/// The regular column depends only on the categories' regular hours and the
/// private regular hours: two employees' totals that agree on those have the
/// same regular column (private overtime hours never enter it).
pub proof fn lemma_regular_column_inputs(t: EmployeeTotals, u: EmployeeTotals)
    requires
        t.categories@.len() == u.categories@.len(),
        forall|a: int|
            0 <= a < t.categories@.len() ==> (#[trigger] t.categories@[a]).regular_hours@
                == u.categories@[a].regular_hours@,
        t.private_regular_hours@ == u.private_regular_hours@,
    ensures
        export_columns_spec(t) is Some && export_columns_spec(u) is Some ==> export_columns_spec(t).unwrap().0
            == export_columns_spec(u).unwrap().0,
{
    let n = t.categories@.len() as int;
    lemma_column_sums_agree(t, u, n);
    if export_columns_spec(t) is Some && export_columns_spec(u) is Some {
        let rt = column_sum(t, HourColumn::Regular, n).unwrap();
        let ru = column_sum(u, HourColumn::Regular, n).unwrap();
        assert(rt == ru);
        assert(export_columns_spec(t).unwrap().0 == spec_add(rt, t.private_regular_hours@).unwrap());
        assert(export_columns_spec(u).unwrap().0 == spec_add(ru, u.private_regular_hours@).unwrap());
    }
}

proof fn lemma_column_sums_agree(t: EmployeeTotals, u: EmployeeTotals, n: int)
    requires
        0 <= n <= t.categories@.len(),
        t.categories@.len() == u.categories@.len(),
        forall|a: int|
            0 <= a < t.categories@.len() ==> (#[trigger] t.categories@[a]).regular_hours@
                == u.categories@[a].regular_hours@,
    ensures
        column_sum(t, HourColumn::Regular, n) == column_sum(u, HourColumn::Regular, n),
    decreases n,
{
    if n > 0 {
        lemma_column_sums_agree(t, u, n - 1);
        assert(column_value(t, n - 1, HourColumn::Regular) == column_value(u, n - 1, HourColumn::Regular));
    }
}

/// The regular column's values are bounded as in `column_bounded`, and so is
/// the private regular hours value.
pub open spec fn regular_bounded(t: EmployeeTotals, s: nat, b: int) -> bool {
    &&& column_bounded(t, HourColumn::Regular, s, b)
    &&& t.private_regular_hours@.1 <= s
    &&& abs(at_scale(t.private_regular_hours@, s)) <= b
}

/// The six column values of an employee's block, or `None` where a sum
/// overflows. Where no addition rounds, the regular column is exactly the
/// categories' regular hours plus the private regular hours, the overtime and
/// sick columns the categories' overtime and sick hours, and the other column
/// the other dollars plus the lump-sum dollars.
pub fn export_columns(t: &EmployeeTotals) -> (r: Option<ExportColumns>)
    ensures
        r is Some <==> export_columns_spec(*t) is Some,
        r matches Some(c) ==> export_columns_spec(*t) == Some(
            (c.regular@, c.overtime@, c.other@, c.competition@, c.coaching@, c.sick@),
        ),
        (exists|s: nat, b: int| regular_bounded(*t, s, b)) ==> (r matches Some(c) ==> units(c.regular@)
            == column_units(*t, HourColumn::Regular, t.categories@.len() as int) + units(t.private_regular_hours@)),
        (exists|s: nat, b: int| column_bounded(*t, HourColumn::Overtime, s, b)) ==> (r matches Some(c) ==> units(
            c.overtime@,
        ) == column_units(*t, HourColumn::Overtime, t.categories@.len() as int)),
        (exists|s: nat, b: int| column_bounded(*t, HourColumn::Sick, s, b)) ==> (r matches Some(c) ==> units(
            c.sick@,
        ) == column_units(*t, HourColumn::Sick, t.categories@.len() as int)),
        sum_fits(t.other_earn@, t.lump_sum_earn@) ==> (r matches Some(c) ==> units(c.other@) == units(
            t.other_earn@,
        ) + units(t.lump_sum_earn@)),
{
    let ghost n = t.categories@.len();
    let ghost (rs, rb) = choose|s: nat, b: int| regular_bounded(*t, s, b);
    let ghost (os, ob) = choose|s: nat, b: int| column_bounded(*t, HourColumn::Overtime, s, b);
    let ghost (ss, sb) = choose|s: nat, b: int| column_bounded(*t, HourColumn::Sick, s, b);
    let reg = column_total(t, HourColumn::Regular, Ghost(rs), Ghost(rb));
    let ot = column_total(t, HourColumn::Overtime, Ghost(os), Ghost(ob));
    let sick = column_total(t, HourColumn::Sick, Ghost(ss), Ghost(sb));
    match (reg, ot, sick) {
        (Some(reg), Some(ot), Some(sick)) => {
            proof {
                if regular_bounded(*t, rs, rb) {
                    assert(n * rb + rb <= max_mantissa()) by (nonlinear_arith)
                        requires
                            (n + 1) * rb <= max_mantissa(),
                    ;
                    assert(n * rb >= 0) by (nonlinear_arith)
                        requires
                            rb >= 0,
                    ;
                    lemma_fits_within(reg@, t.private_regular_hours@, rs, n * rb, rb);
                }
            }
            match (dec_checked_add(reg, t.private_regular_hours), dec_checked_add(t.other_earn, t.lump_sum_earn)) {
                (Some(regular), Some(other)) => Some(
                    ExportColumns {
                        regular,
                        overtime: ot,
                        other,
                        competition: t.competition_earn,
                        coaching: t.coaching_earn,
                        sick,
                    },
                ),
                _ => None,
            }
        },
        _ => None,
    }
}

} // verus!
