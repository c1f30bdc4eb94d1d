//! Pay per employee for a period: hours per category and entry type, priced at
//! the employee's rate for the category (rounded to cents), plus the dollar
//! buckets; categories without a rate are flagged and their hours left unpaid.
use crate::decimal::{
    dec_checked_add, dec_checked_mul, dec_round_dp, spec_add, spec_mul, spec_round_dp, spec_zero, Dec,
};
use crate::text::{
    holds_text, insert_sorted_text, lemma_holds_text_views, lemma_sorted_texts_unique, sorted_texts,
    text_lt, text_views,
};
use crate::totals::{find_first_rate, find_last_dollars, first_rate_from, last_dollars, DecView, DollarRow, EmployeeRow, RateRow};
use vstd::prelude::*;

verus! {

/// Hours summed per employee, category and entry type.
pub struct HoursSumRow {
    pub employee_id: i64,
    pub category: String,
    pub entry_type: String,
    pub hours: Dec,
}

/// Everything the pay of a period is computed from.
pub struct PayInput {
    /// Employees, ordered by name.
    pub employees: Vec<EmployeeRow>,
    pub sums: Vec<HoursSumRow>,
    pub rates: Vec<RateRow>,
    pub dollars: Vec<DollarRow>,
}

pub struct PayLine {
    pub category: String,
    /// Zero when no rate is set.
    pub rate: Dec,
    /// The category has hours but no rate.
    pub needs_rate: bool,
    pub regular_hours: Dec,
    pub overtime_hours: Dec,
    pub sick_hours: Dec,
    pub hours: Dec,
    pub subtotal: Dec,
}

pub struct EmployeePay {
    pub employee_id: i64,
    pub employee_name: String,
    pub employee_number: String,
    pub pay_method: String,
    pub pay_lines: Vec<PayLine>,
    pub unpaid_hours: Dec,
    pub other_earn: Dec,
    pub competition_earn: Dec,
    pub coaching_earn: Dec,
    pub total_hours: Dec,
    pub total_pay: Dec,
}

pub type HourTriple = (DecView, DecView, DecView);

/// Running (regular, overtime, sick) hours of employee `id` in category `cat`
/// over the first `n` sum rows; rows of other entry types count for nothing.
pub open spec fn pay_hours(inp: PayInput, id: i64, cat: Seq<char>, n: int) -> Option<HourTriple>
    decreases n,
{
    if n <= 0 {
        Some((spec_zero(), spec_zero(), spec_zero()))
    } else {
        match pay_hours(inp, id, cat, n - 1) {
            None => None,
            Some(t) => {
                let r = inp.sums@[n - 1];
                if r.employee_id == id && r.category@ == cat {
                    if r.entry_type@ == "regular"@ {
                        match spec_add(t.0, r.hours@) {
                            Some(x) => Some((x, t.1, t.2)),
                            None => None,
                        }
                    } else if r.entry_type@ == "overtime"@ {
                        match spec_add(t.1, r.hours@) {
                            Some(x) => Some((t.0, x, t.2)),
                            None => None,
                        }
                    } else if r.entry_type@ == "sick"@ {
                        match spec_add(t.2, r.hours@) {
                            Some(x) => Some((t.0, t.1, x)),
                            None => None,
                        }
                    } else {
                        Some(t)
                    }
                } else {
                    Some(t)
                }
            },
        }
    }
}

/// No running hour sum overflows.
pub open spec fn pay_hours_fit(inp: PayInput) -> bool {
    forall|j: int|
        0 <= j < inp.sums@.len() ==> (#[trigger] pay_hours(
            inp,
            inp.sums@[j].employee_id,
            inp.sums@[j].category@,
            j + 1,
        )) is Some
}

/// Employee `id` has hours in category `cat`.
pub open spec fn has_hours(inp: PayInput, id: i64, cat: Seq<char>) -> bool {
    exists|j: int|
        0 <= j < inp.sums@.len() && (#[trigger] inp.sums@[j]).employee_id == id && inp.sums@[j].category@ == cat
}

/// Employee `id` has a rate labelled `label`.
pub open spec fn has_rate_label(inp: PayInput, id: i64, label: Seq<char>) -> bool {
    exists|j: int|
        0 <= j < inp.rates@.len() && (#[trigger] inp.rates@[j]).employee_id == id && inp.rates@[j].label@ == label
}

/// The categories in which employee `id` has hours, in name order.
pub open spec fn pay_categories(inp: PayInput, id: i64) -> Seq<Seq<char>> {
    choose|s: Seq<Seq<char>>| sorted_texts(s) && forall|y: Seq<char>| s.contains(y) <==> has_hours(inp, id, y)
}

/// The last rate of employee `id` labelled `label` among the first `n` rate rows.
pub open spec fn last_rate(rates: Seq<RateRow>, id: i64, label: Seq<char>, n: int) -> Option<DecView>
    decreases n,
{
    if n <= 0 {
        None
    } else if rates[n - 1].employee_id == id && rates[n - 1].label@ == label {
        Some(rates[n - 1].amount@)
    } else {
        last_rate(rates, id, label, n - 1)
    }
}

/// The rate of employee `id` for `label` among the first `n` rate rows is the
/// amount of the last of those rows that is the employee's own and carries that
/// label; there is none exactly when no such row exists. Rows of other
/// employees, or with other labels, never give it.
pub proof fn lemma_last_rate_is_own(rates: Seq<RateRow>, id: i64, label: Seq<char>, n: int)
    requires
        0 <= n <= rates.len(),
    ensures
        last_rate(rates, id, label, n) is None <==> forall|k: int|
            0 <= k < n ==> !((#[trigger] rates[k]).employee_id == id && rates[k].label@ == label),
        last_rate(rates, id, label, n) matches Some(a) ==> exists|k: int|
            0 <= k < n && (#[trigger] rates[k]).employee_id == id && rates[k].label@ == label && rates[k].amount@ == a
                && forall|j: int| k < j < n ==> !((#[trigger] rates[j]).employee_id == id && rates[j].label@ == label),
    decreases n,
{
    if n > 0 {
        lemma_last_rate_is_own(rates, id, label, n - 1);
        if !(rates[n - 1].employee_id == id && rates[n - 1].label@ == label) {
            if last_rate(rates, id, label, n - 1) is Some {
                let a = last_rate(rates, id, label, n - 1).unwrap();
                let k = choose|k: int|
                    0 <= k < n - 1 && (#[trigger] rates[k]).employee_id == id && rates[k].label@ == label
                        && rates[k].amount@ == a && forall|j: int|
                        k < j < n - 1 ==> !((#[trigger] rates[j]).employee_id == id && rates[j].label@ == label);
                assert forall|j: int| k < j < n implies !((#[trigger] rates[j]).employee_id == id
                    && rates[j].label@ == label) by {}
            }
        }
    }
}

pub open spec fn category_rate(inp: PayInput, id: i64, cat: Seq<char>) -> Option<DecView> {
    last_rate(inp.rates@, id, cat, inp.rates@.len() as int)
}

/// The hours of category `cat`: regular + overtime + sick.
pub open spec fn line_hours(inp: PayInput, id: i64, cat: Seq<char>) -> Option<DecView> {
    match pay_hours(inp, id, cat, inp.sums@.len() as int) {
        Some(t) => match spec_add(t.0, t.1) {
            Some(a) => spec_add(a, t.2),
            None => None,
        },
        None => None,
    }
}

/// Running (total hours, category pay, unpaid hours) over the categories `cs`.
pub open spec fn pay_fold(inp: PayInput, id: i64, cs: Seq<Seq<char>>) -> Option<HourTriple>
    decreases cs.len(),
{
    if cs.len() == 0 {
        Some((spec_zero(), spec_zero(), spec_zero()))
    } else {
        match pay_fold(inp, id, cs.drop_last()) {
            None => None,
            Some(acc) => {
                let c = cs.last();
                match line_hours(inp, id, c) {
                    None => None,
                    Some(lh) => match spec_add(acc.0, lh) {
                        None => None,
                        Some(th) => match category_rate(inp, id, c) {
                            Some(rate) => match spec_mul(lh, rate) {
                                Some(m) => match spec_add(acc.1, spec_round_dp(m, 2)) {
                                    Some(cp) => Some((th, cp, acc.2)),
                                    None => None,
                                },
                                None => None,
                            },
                            None => match spec_add(acc.2, lh) {
                                Some(up) => Some((th, acc.1, up)),
                                None => None,
                            },
                        },
                    },
                }
            },
        }
    }
}

/// The dollar buckets of employee `id` (zeros without a row).
pub open spec fn pay_dollars(inp: PayInput, id: i64) -> HourTriple {
    match last_dollars(inp.dollars@, id, inp.dollars@.len() as int) {
        Some(d) => (d.other_earn@, d.competition_earn@, d.coaching_earn@),
        None => (spec_zero(), spec_zero(), spec_zero()),
    }
}

/// Total pay: category pay + other + competition + coaching.
pub open spec fn total_pay(category_pay: DecView, d: HourTriple) -> Option<DecView> {
    match spec_add(category_pay, d.0) {
        Some(a) => match spec_add(a, d.1) {
            Some(b) => spec_add(b, d.2),
            None => None,
        },
        None => None,
    }
}

/// A pay line: for a category with hours, its hours priced at the rate (or
/// flagged without one); for a rate without hours, a zero line at that rate.
pub open spec fn pay_line_ok(inp: PayInput, id: i64, l: PayLine) -> bool {
    let c = l.category@;
    if has_hours(inp, id, c) {
        let t = pay_hours(inp, id, c, inp.sums@.len() as int).unwrap();
        let lh = line_hours(inp, id, c).unwrap();
        &&& l.regular_hours@ == t.0
        &&& l.overtime_hours@ == t.1
        &&& l.sick_hours@ == t.2
        &&& l.hours@ == lh
        &&& match category_rate(inp, id, c) {
            Some(rate) => l.rate@ == rate && !l.needs_rate && l.subtotal@ == spec_round_dp(
                spec_mul(lh, rate).unwrap(),
                2,
            ),
            None => l.rate@ == spec_zero() && l.needs_rate && l.subtotal@ == spec_zero(),
        }
    } else {
        &&& first_rate_from(inp.rates@, id, c, 0) == Some(l.rate@)
        &&& !l.needs_rate
        &&& l.regular_hours@ == spec_zero()
        &&& l.overtime_hours@ == spec_zero()
        &&& l.sick_hours@ == spec_zero()
        &&& l.hours@ == spec_zero()
        &&& l.subtotal@ == spec_zero()
    }
}

/// One line per category with hours or a rate, in category order.
pub open spec fn pay_lines_ok(inp: PayInput, id: i64, lines: Seq<PayLine>) -> bool {
    &&& forall|a: int, b: int|
        0 <= a < b < lines.len() ==> text_lt((#[trigger] lines[a]).category@, (#[trigger] lines[b]).category@)
    &&& forall|a: int|
        0 <= a < lines.len() ==> (has_hours(inp, id, (#[trigger] lines[a]).category@) || has_rate_label(
            inp,
            id,
            lines[a].category@,
        )) && pay_line_ok(inp, id, lines[a])
    &&& forall|c: Seq<char>|
        has_hours(inp, id, c) || has_rate_label(inp, id, c) ==> exists|a: int|
            0 <= a < lines.len() && (#[trigger] lines[a]).category@ == c
}

/// The pay of employee `emp` gets through without overflow.
pub open spec fn employee_pay_fits(inp: PayInput, emp: EmployeeRow) -> bool {
    match pay_fold(inp, emp.id, pay_categories(inp, emp.id)) {
        Some(acc) => total_pay(acc.1, pay_dollars(inp, emp.id)) is Some,
        None => false,
    }
}

/// `p` is the pay of employee `emp`.
pub open spec fn employee_pay_ok(inp: PayInput, emp: EmployeeRow, p: EmployeePay) -> bool {
    let id = emp.id;
    let acc = pay_fold(inp, id, pay_categories(inp, id)).unwrap();
    let d = pay_dollars(inp, id);
    &&& p.employee_id == id
    &&& p.employee_name@ == emp.name@
    &&& p.employee_number@ == emp.employee_number@
    &&& p.pay_method@ == emp.pay_method@
    &&& pay_lines_ok(inp, id, p.pay_lines@)
    &&& p.total_hours@ == acc.0
    &&& p.unpaid_hours@ == acc.2
    &&& p.other_earn@ == d.0
    &&& p.competition_earn@ == d.1
    &&& p.coaching_earn@ == d.2
    &&& total_pay(acc.1, d) == Some(p.total_pay@)
}

/// Nothing in the period's pay overflows.
pub open spec fn pay_fits(inp: PayInput) -> bool {
    &&& pay_hours_fit(inp)
    &&& forall|x: int| 0 <= x < inp.employees@.len() ==> employee_pay_fits(inp, #[trigger] inp.employees@[x])
}


/// The categories among the first `k` of `names` in which employee `id` has hours.
pub open spec fn hour_filter(inp: PayInput, id: i64, names: Seq<Seq<char>>, k: int) -> Seq<Seq<char>>
    decreases k,
{
    if k <= 0 {
        Seq::empty()
    } else if has_hours(inp, id, names[k - 1]) {
        hour_filter(inp, id, names, k - 1).push(names[k - 1])
    } else {
        hour_filter(inp, id, names, k - 1)
    }
}

proof fn lemma_hour_filter_prefix(inp: PayInput, id: i64, names: Seq<Seq<char>>, k: int, n: int)
    requires
        0 <= k <= n,
    ensures
        hour_filter(inp, id, names, k).len() <= hour_filter(inp, id, names, n).len(),
        hour_filter(inp, id, names, n).take(hour_filter(inp, id, names, k).len() as int) == hour_filter(
            inp,
            id,
            names,
            k,
        ),
    decreases n - k,
{
    if k < n {
        lemma_hour_filter_prefix(inp, id, names, k, n - 1);
        let a = hour_filter(inp, id, names, k);
        let b = hour_filter(inp, id, names, n - 1);
        let c = hour_filter(inp, id, names, n);
        if has_hours(inp, id, names[n - 1]) {
            assert(c.take(a.len() as int) =~= b.take(a.len() as int));
        }
    } else {
        assert(hour_filter(inp, id, names, n).take(hour_filter(inp, id, names, n).len() as int) =~= hour_filter(
            inp,
            id,
            names,
            n,
        ));
    }
}

proof fn lemma_hour_filter_members(inp: PayInput, id: i64, names: Seq<Seq<char>>, n: int)
    requires
        0 <= n <= names.len(),
        sorted_texts(names),
    ensures
        sorted_texts(hour_filter(inp, id, names, n)),
        forall|y: Seq<char>|
            #[trigger] hour_filter(inp, id, names, n).contains(y) <==> (names.take(n).contains(y) && has_hours(inp, id, y)),
        forall|i: int|
            0 <= i < hour_filter(inp, id, names, n).len() ==> exists|m: int|
                0 <= m < n && names[m] == #[trigger] hour_filter(inp, id, names, n)[i],
    decreases n,
{
    if n > 0 {
        lemma_hour_filter_members(inp, id, names, n - 1);
        let a = hour_filter(inp, id, names, n - 1);
        let b = hour_filter(inp, id, names, n);
        assert forall|y: Seq<char>| b.contains(y) <==> (names.take(n).contains(y) && has_hours(inp, id, y)) by {
            assert(a.contains(y) <==> (names.take(n - 1).contains(y) && has_hours(inp, id, y)));
            if b.contains(y) {
                let i = choose|i: int| 0 <= i < b.len() && b[i] == y;
                if i < a.len() {
                    assert(b[i] == a[i]);
                    assert(a.contains(y));
                    let m = choose|m: int| 0 <= m < n - 1 && #[trigger] names.take(n - 1)[m] == y;
                    assert(names.take(n)[m] == y);
                } else {
                    assert(has_hours(inp, id, names[n - 1]));
                    assert(y == names[n - 1]);
                    assert(names.take(n)[n - 1] == y);
                }
            }
            if names.take(n).contains(y) && has_hours(inp, id, y) {
                let m = choose|m: int| 0 <= m < n && #[trigger] names.take(n)[m] == y;
                if m < n - 1 {
                    assert(names.take(n - 1)[m] == y);
                    assert(a.contains(y));
                    let i = choose|i: int| 0 <= i < a.len() && a[i] == y;
                    assert(b[i] == y);
                } else {
                    assert(y == names[n - 1]);
                    assert(b[b.len() - 1] == y);
                }
            }
        }
        if has_hours(inp, id, names[n - 1]) {
            assert forall|i: int| 0 <= i < b.len() implies exists|m: int| 0 <= m < n && names[m] == #[trigger] b[i] by {
                if i < a.len() {
                    assert(b[i] == a[i]);
                    let m = choose|m: int| 0 <= m < n - 1 && names[m] == #[trigger] a[i];
                } else {
                    assert(names[n - 1] == b[i]);
                }
            }
            assert forall|p: int, q: int| 0 <= p < q < b.len() implies text_lt(#[trigger] b[p], #[trigger] b[q]) by {
                if q < a.len() {
                    assert(b[p] == a[p] && b[q] == a[q]);
                } else {
                    assert(b[p] == a[p]);
                    let m = choose|m: int| 0 <= m < n - 1 && names[m] == #[trigger] a[p];
                    assert(b[q] == names[n - 1]);
                }
            }
        }
    }
}

proof fn lemma_pay_fold_prefix_none(inp: PayInput, id: i64, cs: Seq<Seq<char>>, k: int)
    requires
        0 <= k <= cs.len(),
        pay_fold(inp, id, cs.take(k)) is None,
    ensures
        pay_fold(inp, id, cs) is None,
    decreases cs.len(),
{
    if k == cs.len() {
        assert(cs.take(k) =~= cs);
    } else {
        assert(cs.drop_last().take(k) =~= cs.take(k));
        lemma_pay_fold_prefix_none(inp, id, cs.drop_last(), k);
    }
}

proof fn lemma_pay_hours_none(inp: PayInput, id: i64, cat: Seq<char>, n: int)
    requires
        0 <= n <= inp.sums@.len(),
        pay_hours(inp, id, cat, n) is None,
    ensures
        exists|j: int|
            0 <= j < n && inp.sums@[j].employee_id == id && inp.sums@[j].category@ == cat && (#[trigger] pay_hours(
                inp,
                id,
                cat,
                j + 1,
            )) is None,
    decreases n,
{
    if pay_hours(inp, id, cat, n - 1) is None {
        lemma_pay_hours_none(inp, id, cat, n - 1);
        let j = choose|j: int|
            0 <= j < n - 1 && inp.sums@[j].employee_id == id && inp.sums@[j].category@ == cat && (#[trigger] pay_hours(
                inp,
                id,
                cat,
                j + 1,
            )) is None;
        assert(0 <= j < n);
    } else {
        assert(pay_hours(inp, id, cat, (n - 1) + 1) is None);
    }
}

/// With no overflow in the running sums, every employee's category hours exist.
proof fn lemma_pay_hours_fit(inp: PayInput, id: i64, cat: Seq<char>)
    requires
        pay_hours_fit(inp),
    ensures
        pay_hours(inp, id, cat, inp.sums@.len() as int) is Some,
{
    if pay_hours(inp, id, cat, inp.sums@.len() as int) is None {
        lemma_pay_hours_none(inp, id, cat, inp.sums@.len() as int);
        let j = choose|j: int|
            0 <= j < inp.sums@.len() && inp.sums@[j].employee_id == id && inp.sums@[j].category@ == cat && (#[trigger] pay_hours(
                inp,
                id,
                cat,
                j + 1,
            )) is None;
        assert(pay_hours(inp, inp.sums@[j].employee_id, inp.sums@[j].category@, j + 1) is Some);
    }
}

/// The running (regular, overtime, sick) hours of `id` in `cat` over the first `n` rows.
fn pay_hours_of(inp: &PayInput, id: i64, cat: &String, n: usize) -> (r: Option<(Dec, Dec, Dec)>)
    requires
        n <= inp.sums@.len(),
    ensures
        r is Some <==> pay_hours(*inp, id, cat@, n as int) is Some,
        r matches Some(t) ==> pay_hours(*inp, id, cat@, n as int) == Some((t.0@, t.1@, t.2@)),
{
    let regular = String::from_str("regular");
    let overtime = String::from_str("overtime");
    let sick = String::from_str("sick");
    let mut reg = Dec::zero();
    let mut ot = Dec::zero();
    let mut sk = Dec::zero();
    let mut j: usize = 0;
    while j < n
        invariant
            j <= n,
            n <= inp.sums@.len(),
            regular@ == "regular"@,
            overtime@ == "overtime"@,
            sick@ == "sick"@,
            pay_hours(*inp, id, cat@, j as int) == Some((reg@, ot@, sk@)),
        decreases n - j,
    {
        let row = &inp.sums[j];
        if row.employee_id == id && row.category == *cat {
            if row.entry_type == regular {
                reg = match dec_checked_add(reg, row.hours) {
                    Some(x) => x,
                    None => {
                        proof { lemma_pay_hours_stays_none(*inp, id, cat@, j as int + 1, n as int); }
                        return None;
                    },
                };
            } else if row.entry_type == overtime {
                ot = match dec_checked_add(ot, row.hours) {
                    Some(x) => x,
                    None => {
                        proof { lemma_pay_hours_stays_none(*inp, id, cat@, j as int + 1, n as int); }
                        return None;
                    },
                };
            } else if row.entry_type == sick {
                sk = match dec_checked_add(sk, row.hours) {
                    Some(x) => x,
                    None => {
                        proof { lemma_pay_hours_stays_none(*inp, id, cat@, j as int + 1, n as int); }
                        return None;
                    },
                };
            }
        }
        j += 1;
    }
    Some((reg, ot, sk))
}

proof fn lemma_pay_hours_stays_none(inp: PayInput, id: i64, cat: Seq<char>, m: int, n: int)
    requires
        0 <= m <= n,
        pay_hours(inp, id, cat, m) is None,
    ensures
        pay_hours(inp, id, cat, n) is None,
    decreases n - m,
{
    if m < n {
        lemma_pay_hours_stays_none(inp, id, cat, m + 1, n);
    }
}

/// Whether no running hour sum overflows.
fn pay_hours_check(inp: &PayInput) -> (r: bool)
    ensures
        r == pay_hours_fit(*inp),
{
    let mut j: usize = 0;
    while j < inp.sums.len()
        invariant
            j <= inp.sums@.len(),
            forall|q: int|
                0 <= q < j ==> (#[trigger] pay_hours(*inp, inp.sums@[q].employee_id, inp.sums@[q].category@, q + 1)) is Some,
        decreases inp.sums.len() - j,
    {
        if pay_hours_of(inp, inp.sums[j].employee_id, &inp.sums[j].category, j + 1).is_none() {
            return false;
        }
        j += 1;
    }
    true
}

fn find_last_rate(rates: &Vec<RateRow>, id: i64, label: &String) -> (r: Option<Dec>)
    ensures
        r matches Some(a) ==> last_rate(rates@, id, label@, rates@.len() as int) == Some(a@),
        r is None ==> last_rate(rates@, id, label@, rates@.len() as int) is None,
{
    let mut j: usize = rates.len();
    while j > 0
        invariant
            j <= rates@.len(),
            last_rate(rates@, id, label@, rates@.len() as int) == last_rate(rates@, id, label@, j as int),
        decreases j,
    {
        j -= 1;
        if rates[j].employee_id == id && rates[j].label == *label {
            return Some(rates[j].amount);
        }
    }
    None
}

fn has_hours_in(inp: &PayInput, id: i64, cat: &String) -> (r: bool)
    ensures
        r == has_hours(*inp, id, cat@),
{
    let mut j: usize = 0;
    while j < inp.sums.len()
        invariant
            j <= inp.sums@.len(),
            forall|q: int| 0 <= q < j ==> !((#[trigger] inp.sums@[q]).employee_id == id && inp.sums@[q].category@ == cat@),
        decreases inp.sums.len() - j,
    {
        if inp.sums[j].employee_id == id && inp.sums[j].category == *cat {
            return true;
        }
        j += 1;
    }
    false
}

/// The categories with hours or a rate of employee `id`, in name order.
fn pay_line_names(inp: &PayInput, id: i64) -> (names: Vec<String>)
    ensures
        sorted_texts(text_views(names@)),
        forall|y: Seq<char>| holds_text(names@, y) <==> (has_hours(*inp, id, y) || has_rate_label(*inp, id, y)),
{
    let mut names: Vec<String> = Vec::new();
    let mut j: usize = 0;
    while j < inp.sums.len()
        invariant
            j <= inp.sums@.len(),
            sorted_texts(text_views(names@)),
            forall|y: Seq<char>|
                holds_text(names@, y) <==> exists|q: int|
                    0 <= q < j && (#[trigger] inp.sums@[q]).employee_id == id && inp.sums@[q].category@ == y,
        decreases inp.sums.len() - j,
    {
        let ghost jo = j as int;
        let ghost before = names@;
        if inp.sums[j].employee_id == id {
            insert_sorted_text(&mut names, inp.sums[j].category.clone());
        }
        j += 1;
        proof {
            assert forall|y: Seq<char>| holds_text(names@, y) <==> exists|q: int|
                0 <= q < j && (#[trigger] inp.sums@[q]).employee_id == id && inp.sums@[q].category@ == y by {
                assert(holds_text(before, y) <==> exists|q: int|
                    0 <= q < jo && (#[trigger] inp.sums@[q]).employee_id == id && inp.sums@[q].category@ == y);
                if exists|q: int| 0 <= q < j && (#[trigger] inp.sums@[q]).employee_id == id && inp.sums@[q].category@ == y {
                    let q = choose|q: int| 0 <= q < j && (#[trigger] inp.sums@[q]).employee_id == id && inp.sums@[q].category@ == y;
                    if q < jo {
                        assert(0 <= q < jo && inp.sums@[q].employee_id == id && inp.sums@[q].category@ == y);
                    }
                }
                if exists|q: int| 0 <= q < jo && (#[trigger] inp.sums@[q]).employee_id == id && inp.sums@[q].category@ == y {
                    let q = choose|q: int| 0 <= q < jo && (#[trigger] inp.sums@[q]).employee_id == id && inp.sums@[q].category@ == y;
                    assert(0 <= q < j);
                }
                if inp.sums@[jo].employee_id == id && inp.sums@[jo].category@ == y {
                    assert(0 <= jo < j);
                }
            }
        }
    }
    let mut k: usize = 0;
    while k < inp.rates.len()
        invariant
            k <= inp.rates@.len(),
            sorted_texts(text_views(names@)),
            forall|y: Seq<char>|
                holds_text(names@, y) <==> (has_hours(*inp, id, y) || exists|q: int|
                    0 <= q < k && (#[trigger] inp.rates@[q]).employee_id == id && inp.rates@[q].label@ == y),
        decreases inp.rates.len() - k,
    {
        let ghost ko = k as int;
        let ghost before = names@;
        if inp.rates[k].employee_id == id {
            insert_sorted_text(&mut names, inp.rates[k].label.clone());
        }
        k += 1;
        proof {
            assert forall|y: Seq<char>| holds_text(names@, y) <==> (has_hours(*inp, id, y) || exists|q: int|
                0 <= q < k && (#[trigger] inp.rates@[q]).employee_id == id && inp.rates@[q].label@ == y) by {
                assert(holds_text(before, y) <==> (has_hours(*inp, id, y) || exists|q: int|
                    0 <= q < ko && (#[trigger] inp.rates@[q]).employee_id == id && inp.rates@[q].label@ == y));
                if exists|q: int| 0 <= q < k && (#[trigger] inp.rates@[q]).employee_id == id && inp.rates@[q].label@ == y {
                    let q = choose|q: int| 0 <= q < k && (#[trigger] inp.rates@[q]).employee_id == id && inp.rates@[q].label@ == y;
                    if q < ko {
                        assert(0 <= q < ko && inp.rates@[q].employee_id == id && inp.rates@[q].label@ == y);
                    }
                }
                if exists|q: int| 0 <= q < ko && (#[trigger] inp.rates@[q]).employee_id == id && inp.rates@[q].label@ == y {
                    let q = choose|q: int| 0 <= q < ko && (#[trigger] inp.rates@[q]).employee_id == id && inp.rates@[q].label@ == y;
                    assert(0 <= q < k);
                }
                if inp.rates@[ko].employee_id == id && inp.rates@[ko].label@ == y {
                    assert(0 <= ko < k);
                }
            }
        }
    }
    names
}


proof fn lemma_first_rate_exists(rates: Seq<RateRow>, id: i64, label: Seq<char>, k: int, j: int)
    requires
        0 <= k <= j < rates.len(),
        rates[j].employee_id == id,
        rates[j].label@ == label,
    ensures
        first_rate_from(rates, id, label, k) is Some,
    decreases j - k,
{
    if k < j {
        lemma_first_rate_exists(rates, id, label, k + 1, j);
    }
}

proof fn lemma_fold_fails(inp: PayInput, emp: EmployeeRow, nv: Seq<Seq<char>>, k: int)
    requires
        0 <= k < nv.len(),
        has_hours(inp, emp.id, nv[k]),
        pay_categories(inp, emp.id) == hour_filter(inp, emp.id, nv, nv.len() as int),
        pay_fold(inp, emp.id, hour_filter(inp, emp.id, nv, k + 1)) is None,
    ensures
        !employee_pay_fits(inp, emp),
{
    let id = emp.id;
    lemma_hour_filter_prefix(inp, id, nv, k + 1, nv.len() as int);
    let full = hour_filter(inp, id, nv, nv.len() as int);
    lemma_pay_fold_prefix_none(inp, id, full, hour_filter(inp, id, nv, k + 1).len() as int);
}

/// The pay of one employee, or `None` where the arithmetic overflows.
fn employee_pay(inp: &PayInput, emp: &EmployeeRow) -> (r: Option<EmployeePay>)
    requires
        pay_hours_fit(*inp),
    ensures
        r is Some <==> employee_pay_fits(*inp, *emp),
        r matches Some(p) ==> employee_pay_ok(*inp, *emp, p),
{
    let id = emp.id;
    let names = pay_line_names(inp, id);
    let ghost nv = text_views(names@);
    proof {
        lemma_holds_text_views(names@);
        lemma_hour_filter_members(*inp, id, nv, nv.len() as int);
        assert(nv.take(nv.len() as int) =~= nv);
        let hf = hour_filter(*inp, id, nv, nv.len() as int);
        assert forall|y: Seq<char>| hf.contains(y) <==> has_hours(*inp, id, y) by {
            assert(hf.contains(y) <==> (nv.take(nv.len() as int).contains(y) && has_hours(*inp, id, y)));
        }
        let pc = pay_categories(*inp, id);
        assert(sorted_texts(pc) && forall|y: Seq<char>| pc.contains(y) <==> has_hours(*inp, id, y));
        lemma_sorted_texts_unique(pc, hf);
    }
    let mut th = Dec::zero();
    let mut cp = Dec::zero();
    let mut up = Dec::zero();
    let mut lines: Vec<PayLine> = Vec::new();
    let mut k: usize = 0;
    while k < names.len()
        invariant
            k <= names@.len(),
            id == emp.id,
            nv == text_views(names@),
            pay_hours_fit(*inp),
            sorted_texts(nv),
            forall|y: Seq<char>| holds_text(names@, y) <==> (has_hours(*inp, id, y) || has_rate_label(*inp, id, y)),
            forall|y: Seq<char>| holds_text(names@, y) <==> nv.contains(y),
            pay_categories(*inp, id) == hour_filter(*inp, id, nv, nv.len() as int),
            pay_fold(*inp, id, hour_filter(*inp, id, nv, k as int)) == Some((th@, cp@, up@)),
            lines@.len() == k,
            forall|a: int| 0 <= a < k ==> (#[trigger] lines@[a]).category@ == nv[a],
            forall|a: int| 0 <= a < k ==> pay_line_ok(*inp, id, #[trigger] lines@[a]),
        decreases names.len() - k,
    {
        let name = &names[k];
        assert(nv[k as int] == name@);
        let ghost hf = hour_filter(*inp, id, nv, k as int);
        let hours_here = has_hours_in(inp, id, name);
        if hours_here {
            assert(hour_filter(*inp, id, nv, k + 1) == hf.push(name@));
            assert(hf.push(name@).drop_last() =~= hf);
            proof {
                lemma_pay_hours_fit(*inp, id, name@);
            }
            let t = match pay_hours_of(inp, id, name, inp.sums.len()) {
                Some(t) => t,
                None => return None,
            };
            let lh = match dec_checked_add(t.0, t.1) {
                Some(a) => match dec_checked_add(a, t.2) {
                    Some(b) => b,
                    None => {
                        proof { lemma_fold_fails(*inp, *emp, nv, k as int); }
                        return None;
                    },
                },
                None => {
                    proof { lemma_fold_fails(*inp, *emp, nv, k as int); }
                    return None;
                },
            };
            let th2 = match dec_checked_add(th, lh) {
                Some(x) => x,
                None => {
                    proof { lemma_fold_fails(*inp, *emp, nv, k as int); }
                    return None;
                },
            };
            let line = match find_last_rate(&inp.rates, id, name) {
                Some(rate) => {
                    let m = match dec_checked_mul(lh, rate) {
                        Some(m) => m,
                        None => {
                            proof { lemma_fold_fails(*inp, *emp, nv, k as int); }
                            return None;
                        },
                    };
                    let subtotal = dec_round_dp(m, 2);
                    cp = match dec_checked_add(cp, subtotal) {
                        Some(x) => x,
                        None => {
                            proof { lemma_fold_fails(*inp, *emp, nv, k as int); }
                            return None;
                        },
                    };
                    PayLine {
                        category: name.clone(),
                        rate,
                        needs_rate: false,
                        regular_hours: t.0,
                        overtime_hours: t.1,
                        sick_hours: t.2,
                        hours: lh,
                        subtotal,
                    }
                },
                None => {
                    up = match dec_checked_add(up, lh) {
                        Some(x) => x,
                        None => {
                            proof { lemma_fold_fails(*inp, *emp, nv, k as int); }
                            return None;
                        },
                    };
                    PayLine {
                        category: name.clone(),
                        rate: Dec::zero(),
                        needs_rate: true,
                        regular_hours: t.0,
                        overtime_hours: t.1,
                        sick_hours: t.2,
                        hours: lh,
                        subtotal: Dec::zero(),
                    }
                },
            };
            th = th2;
            lines.push(line);
        } else {
            assert(hour_filter(*inp, id, nv, k + 1) == hf);
            assert(holds_text(names@, name@));
            assert(has_rate_label(*inp, id, name@));
            proof {
                let j = choose|j: int|
                    0 <= j < inp.rates@.len() && (#[trigger] inp.rates@[j]).employee_id == id && inp.rates@[j].label@ == name@;
                lemma_first_rate_exists(inp.rates@, id, name@, 0, j);
            }
            let rate = match find_first_rate(&inp.rates, id, name) {
                Some(a) => a,
                None => return None,
            };
            lines.push(
                PayLine {
                    category: name.clone(),
                    rate,
                    needs_rate: false,
                    regular_hours: Dec::zero(),
                    overtime_hours: Dec::zero(),
                    sick_hours: Dec::zero(),
                    hours: Dec::zero(),
                    subtotal: Dec::zero(),
                },
            );
        }
        k += 1;
    }
    assert(hour_filter(*inp, id, nv, k as int) == pay_categories(*inp, id));
    let (other, competition, coaching) = match find_last_dollars(&inp.dollars, id) {
        Some(j) => (inp.dollars[j].other_earn, inp.dollars[j].competition_earn, inp.dollars[j].coaching_earn),
        None => (Dec::zero(), Dec::zero(), Dec::zero()),
    };
    let total = match dec_checked_add(cp, other) {
        Some(a) => match dec_checked_add(a, competition) {
            Some(b) => match dec_checked_add(b, coaching) {
                Some(c) => c,
                None => return None,
            },
            None => return None,
        },
        None => return None,
    };
    proof {
        assert forall|a: int, b: int| 0 <= a < b < lines@.len() implies text_lt(
            (#[trigger] lines@[a]).category@,
            (#[trigger] lines@[b]).category@,
        ) by {}
        assert forall|a: int| 0 <= a < lines@.len() implies (has_hours(*inp, id, (#[trigger] lines@[a]).category@)
            || has_rate_label(*inp, id, lines@[a].category@)) by {
            assert(nv.contains(nv[a]));
        }
        assert forall|c: Seq<char>| has_hours(*inp, id, c) || has_rate_label(*inp, id, c) implies exists|a: int|
            0 <= a < lines@.len() && (#[trigger] lines@[a]).category@ == c by {
            assert(nv.contains(c));
            let a = choose|a: int| 0 <= a < nv.len() && nv[a] == c;
            assert(lines@[a].category@ == c);
        }
    }
    Some(
        EmployeePay {
            employee_id: id,
            employee_name: emp.name.clone(),
            employee_number: emp.employee_number.clone(),
            pay_method: emp.pay_method.clone(),
            pay_lines: lines,
            unpaid_hours: up,
            other_earn: other,
            competition_earn: competition,
            coaching_earn: coaching,
            total_hours: th,
            total_pay: total,
        },
    )
}

/// The pay of every employee for the period, in the order of `employees`;
/// `None` where the decimal arithmetic overflows.
pub fn compute_pay(inp: &PayInput) -> (r: Option<Vec<EmployeePay>>)
    ensures
        r is Some <==> pay_fits(*inp),
        r matches Some(v) ==> v@.len() == inp.employees@.len() && forall|x: int|
            0 <= x < v@.len() ==> employee_pay_ok(*inp, inp.employees@[x], #[trigger] v@[x]),
{
    if !pay_hours_check(inp) {
        return None;
    }
    let mut result: Vec<EmployeePay> = Vec::new();
    let mut x: usize = 0;
    while x < inp.employees.len()
        invariant
            x <= inp.employees@.len(),
            pay_hours_fit(*inp),
            result@.len() == x,
            forall|q: int| 0 <= q < x ==> employee_pay_fits(*inp, #[trigger] inp.employees@[q]),
            forall|q: int| 0 <= q < x ==> employee_pay_ok(*inp, inp.employees@[q], #[trigger] result@[q]),
        decreases inp.employees.len() - x,
    {
        match employee_pay(inp, &inp.employees[x]) {
            Some(p) => result.push(p),
            None => return None,
        }
        x += 1;
    }
    Some(result)
}

} // verus!
