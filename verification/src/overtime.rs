//! The weekly overtime walk: every Sunday-to-Saturday week is walked in
//! chronological order (regular entries before private ones on the same day,
//! then input order), and each entry's hours are split at the 40-hour line.
use crate::dates::{spec_week_start, week_start, week_start_ok};
use crate::decimal::{
    abs, at_scale, dec_checked_add, dec_checked_sub, dec_le, fits_at, lemma_fits_at, lemma_fits_within,
    lemma_units_to_scale,
    max_mantissa, max_scale, pow10, spec_add, spec_int, spec_le, spec_sub, spec_zero, units, Dec,
};
use vstd::prelude::*;

verus! {

/// One entry's minimal shape for the overtime walk.
pub struct OvertimeEntry {
    /// Day number of the entry's date (see `dates`).
    pub entry_date: i32,
    pub hours: Dec,
    pub category: String,
    pub is_private: bool,
}

/// The regular/overtime split for one entry.
#[derive(Debug, PartialEq)]
pub struct OvertimeSplit {
    pub regular: Dec,
    pub overtime: Dec,
}

/// The weekly limit of regular hours: 40.
pub open spec fn weekly_limit() -> (i128, u32) {
    spec_int(40)
}

/// Entry `i` is walked before entry `j`: earlier date, or the same date with
/// `i` regular and `j` private, or the same date and kind with `i` listed first.
pub open spec fn walk_before(e: Seq<OvertimeEntry>, i: int, j: int) -> bool {
    let a = e[i];
    let b = e[j];
    ||| a.entry_date < b.entry_date
    ||| a.entry_date == b.entry_date && !a.is_private && b.is_private
    ||| a.entry_date == b.entry_date && a.is_private == b.is_private && i < j
}

/// Where entry `i` goes in the walk-ordered index sequence `s`: before the
/// first index that it is walked before.
pub open spec fn insert_position(e: Seq<OvertimeEntry>, s: Seq<usize>, i: int) -> int
    decreases s.len(),
{
    if s.len() == 0 {
        0
    } else if walk_before(e, i, s[0] as int) {
        0
    } else {
        1 + insert_position(e, s.drop_first(), i)
    }
}

/// The indices `0..n` in walk order.
pub open spec fn walk_order_prefix(e: Seq<OvertimeEntry>, n: nat) -> Seq<usize>
    decreases n,
{
    if n == 0 {
        Seq::empty()
    } else {
        let s = walk_order_prefix(e, (n - 1) as nat);
        s.insert(insert_position(e, s, n - 1), (n - 1) as usize)
    }
}

/// All indices of `e` in walk order.
pub open spec fn walk_order(e: Seq<OvertimeEntry>) -> Seq<usize> {
    walk_order_prefix(e, e.len())
}

pub open spec fn week_of(e: Seq<OvertimeEntry>, i: int) -> int {
    spec_week_start(e[i].entry_date as int)
}

/// The hours already walked in the week of the entry at walk position `k`
/// (`None` once an addition has overflowed).
pub open spec fn running_total(e: Seq<OvertimeEntry>, ord: Seq<usize>, k: int) -> Option<(i128, u32)>
    decreases k,
{
    if k <= 0 {
        Some(spec_zero())
    } else if week_of(e, ord[k - 1] as int) != week_of(e, ord[k] as int) {
        Some(spec_zero())
    } else {
        match running_total(e, ord, k - 1) {
            Some(c) => spec_add(c, e[ord[k - 1] as int].hours@),
            None => None,
        }
    }
}

/// Split `h` hours that start after `start` hours of the week at the limit:
/// (regular, overtime), or `None` where the arithmetic overflows.
pub open spec fn split_at_limit(start: (i128, u32), h: (i128, u32)) -> Option<((i128, u32), (i128, u32))> {
    match spec_add(start, h) {
        None => None,
        Some(end) => if spec_le(end, weekly_limit()) {
            Some((h, spec_zero()))
        } else if spec_le(weekly_limit(), start) {
            Some((spec_zero(), h))
        } else {
            match (spec_sub(weekly_limit(), start), spec_sub(end, weekly_limit())) {
                (Some(r), Some(o)) => Some((r, o)),
                _ => None,
            }
        },
    }
}

/// The split of the entry at walk position `k`.
pub open spec fn walk_step(e: Seq<OvertimeEntry>, ord: Seq<usize>, k: int) -> Option<((i128, u32), (i128, u32))> {
    match running_total(e, ord, k) {
        Some(c) => split_at_limit(c, e[ord[k] as int].hours@),
        None => None,
    }
}

/// The walk gets through every entry without an arithmetic overflow.
pub open spec fn walk_succeeds(e: Seq<OvertimeEntry>) -> bool {
    forall|k: int| 0 <= k < e.len() ==> (#[trigger] walk_step(e, walk_order(e), k)) is Some
}

pub open spec fn split_view(s: OvertimeSplit) -> ((i128, u32), (i128, u32)) {
    (s.regular@, s.overtime@)
}

/// `v` holds, at each entry's index, that entry's split from the walk.
pub open spec fn splits_match(e: Seq<OvertimeEntry>, v: Seq<OvertimeSplit>) -> bool {
    &&& v.len() == e.len()
    &&& forall|k: int|
        0 <= k < e.len() ==> Some(split_view(#[trigger] v[walk_order(e)[k] as int])) == walk_step(
            e,
            walk_order(e),
            k,
        )
}

pub open spec fn dates_ok(e: Seq<OvertimeEntry>) -> bool {
    forall|i: int| 0 <= i < e.len() ==> week_start_ok(#[trigger] e[i].entry_date as int)
}

/// Every entry's hours have at most `s` decimal places and a magnitude of at
/// most `b` at that scale, and `n * b` plus the 40-hour limit still fit in a
/// decimal's 96 bits: then no addition or subtraction of the walk rounds.
pub open spec fn exact_premise(e: Seq<OvertimeEntry>, s: nat, b: nat) -> bool {
    &&& s <= max_scale()
    &&& forall|i: int|
        0 <= i < e.len() ==> (#[trigger] e[i].hours@).1 <= s && abs(at_scale(e[i].hours@, s)) <= b
    &&& e.len() * b + 40 * pow10(s) <= max_mantissa()
}

/// The exact hours (in units of 10^-28) already walked in the week of the
/// entry at walk position `k`.
pub open spec fn week_hours_before(e: Seq<OvertimeEntry>, ord: Seq<usize>, k: int) -> int
    decreases k,
{
    if k <= 0 {
        0
    } else if week_of(e, ord[k - 1] as int) != week_of(e, ord[k] as int) {
        0
    } else {
        week_hours_before(e, ord, k - 1) + units(e[ord[k - 1] as int].hours@)
    }
}

/// The 40-hour limit in units of 10^-28.
pub open spec fn limit_units() -> int {
    units(weekly_limit())
}

/// The most decimal places among the hours of the entry at walk position `k`
/// and of the entries walked before it in its week.
pub open spec fn week_scale(e: Seq<OvertimeEntry>, ord: Seq<usize>, k: int) -> nat
    decreases k,
{
    let own = e[ord[k] as int].hours@.1 as nat;
    if k <= 0 || week_of(e, ord[k - 1] as int) != week_of(e, ord[k] as int) {
        own
    } else {
        let before = week_scale(e, ord, k - 1);
        if before >= own { before } else { own }
    }
}

/// At walk position `k` no step rounds: at the week's scale so far, the hours
/// before the entry, its hours and their sum fit in 96 bits, and where the
/// entry straddles the 40-hour line so do 40 and both parts of the split.
pub open spec fn step_fits(e: Seq<OvertimeEntry>, ord: Seq<usize>, k: int) -> bool {
    let s = week_scale(e, ord, k);
    let b = week_hours_before(e, ord, k);
    let h = units(e[ord[k] as int].hours@);
    let l = limit_units();
    &&& s <= max_scale()
    &&& fits_at(b, s)
    &&& fits_at(h, s)
    &&& fits_at(b + h, s)
    &&& (!(b + h <= l) && !(l <= b)) ==> fits_at(l, s) && fits_at(l - b, s) && fits_at(b + h - l, s)
}

/// Every step of the walk fits (see `step_fits`).
pub open spec fn walk_fits(e: Seq<OvertimeEntry>) -> bool {
    forall|k: int| 0 <= k < e.len() ==> #[trigger] step_fits(e, walk_order(e), k)
}

/// The regular part of `h` hours that start after `start` hours of the week.
pub open spec fn exact_regular(start: int, h: int) -> int {
    if start + h <= limit_units() {
        h
    } else if limit_units() <= start {
        0
    } else {
        limit_units() - start
    }
}

/// The overtime part of `h` hours that start after `start` hours of the week.
pub open spec fn exact_overtime(start: int, h: int) -> int {
    if start + h <= limit_units() {
        0
    } else if limit_units() <= start {
        h
    } else {
        start + h - limit_units()
    }
}

/// In exact arithmetic: each entry's regular and overtime hours are its hours
/// split at the 40-hour line, counted from the hours walked before it in its week.
pub open spec fn splits_exact(e: Seq<OvertimeEntry>, v: Seq<OvertimeSplit>) -> bool {
    &&& v.len() == e.len()
    &&& forall|k: int|
        0 <= k < e.len() ==> {
            let i = walk_order(e)[k] as int;
            let start = week_hours_before(e, walk_order(e), k);
            &&& units((#[trigger] v[walk_order(e)[k] as int]).regular@) == exact_regular(
                start,
                units(e[i].hours@),
            )
            &&& units(v[i].overtime@) == exact_overtime(start, units(e[i].hours@))
        }
}

/// `s` lists each of `0..n` once.
pub open spec fn is_index_permutation(s: Seq<usize>, n: nat) -> bool {
    &&& s.len() == n
    &&& forall|a: int| 0 <= a < n ==> (#[trigger] s[a]) < n
    &&& forall|a: int, b: int| 0 <= a < b < n ==> s[a] != s[b]
    &&& forall|x: usize| x < n ==> s.contains(x)
}

proof fn lemma_insert_position_bound(e: Seq<OvertimeEntry>, s: Seq<usize>, i: int)
    ensures
        0 <= insert_position(e, s, i) <= s.len(),
    decreases s.len(),
{
    if s.len() > 0 && !walk_before(e, i, s[0] as int) {
        lemma_insert_position_bound(e, s.drop_first(), i);
    }
}

proof fn lemma_insert_position_is(e: Seq<OvertimeEntry>, s: Seq<usize>, i: int, p: int)
    requires
        0 <= p <= s.len(),
        forall|q: int| 0 <= q < p ==> !walk_before(e, i, s[q] as int),
        p < s.len() ==> walk_before(e, i, s[p] as int),
    ensures
        insert_position(e, s, i) == p,
    decreases s.len(),
{
    if s.len() > 0 && p > 0 {
        assert(!walk_before(e, i, s[0] as int));
        let t = s.drop_first();
        assert forall|q: int| 0 <= q < p - 1 implies !walk_before(e, i, t[q] as int) by {
            assert(t[q] == s[q + 1]);
        }
        if p - 1 < t.len() {
            assert(t[p - 1] == s[p]);
        }
        lemma_insert_position_is(e, t, i, p - 1);
    }
}

/// The walk order lists every index exactly once.
pub proof fn lemma_walk_order_prefix_permutation(e: Seq<OvertimeEntry>, n: nat)
    requires
        n <= usize::MAX,
    ensures
        is_index_permutation(walk_order_prefix(e, n), n),
    decreases n,
{
    if n > 0 {
        let m = (n - 1) as nat;
        lemma_walk_order_prefix_permutation(e, m);
        let s = walk_order_prefix(e, m);
        let p = insert_position(e, s, m as int);
        lemma_insert_position_bound(e, s, m as int);
        let t = s.insert(p, m as usize);
        assert(t == walk_order_prefix(e, n));
        assert forall|a: int| 0 <= a < n implies (#[trigger] t[a]) < n by {
            if a < p {
                assert(t[a] == s[a]);
            } else if a > p {
                assert(t[a] == s[a - 1]);
            }
        }
        assert forall|a: int, b: int| 0 <= a < b < n implies t[a] != t[b] by {
            if a < p && b < p {
                assert(t[a] == s[a] && t[b] == s[b]);
            } else if a < p && b == p {
                assert(t[a] == s[a]);
            } else if a < p && b > p {
                assert(t[a] == s[a] && t[b] == s[b - 1]);
            } else if a == p {
                assert(t[b] == s[b - 1]);
            } else {
                assert(t[a] == s[a - 1] && t[b] == s[b - 1]);
            }
        }
        assert forall|x: usize| x < n implies t.contains(x) by {
            if x == m {
                assert(t[p] == x);
            } else {
                assert(s.contains(x));
                let a = choose|a: int| 0 <= a < s.len() && s[a] == x;
                if a < p {
                    assert(t[a] == x);
                } else {
                    assert(t[a + 1] == x);
                }
            }
        }
    }
}

fn walks_before(entries: &[OvertimeEntry], i: usize, j: usize) -> (r: bool)
    requires
        i < entries@.len(),
        j < entries@.len(),
    ensures
        r == walk_before(entries@, i as int, j as int),
{
    let a = &entries[i];
    let b = &entries[j];
    a.entry_date < b.entry_date || (a.entry_date == b.entry_date && !a.is_private && b.is_private)
        || (a.entry_date == b.entry_date && a.is_private == b.is_private && i < j)
}

/// The indices of `entries` in walk order.
fn walk_order_indices(entries: &[OvertimeEntry]) -> (ord: Vec<usize>)
    ensures
        ord@ == walk_order(entries@),
        is_index_permutation(ord@, entries@.len()),
{
    let n = entries.len();
    let mut ord: Vec<usize> = Vec::new();
    let mut i: usize = 0;
    while i < n
        invariant
            i <= n,
            n == entries@.len(),
            ord@ == walk_order_prefix(entries@, i as nat),
            is_index_permutation(ord@, i as nat),
        decreases n - i,
    {
        let mut p: usize = 0;
        while p < ord.len()
            invariant
                i < n,
                n == entries@.len(),
                p <= ord.len(),
                is_index_permutation(ord@, i as nat),
                forall|q: int| 0 <= q < p ==> !walk_before(entries@, i as int, ord@[q] as int),
            ensures
                p <= ord.len(),
                forall|q: int| 0 <= q < p ==> !walk_before(entries@, i as int, ord@[q] as int),
                p < ord.len() ==> walk_before(entries@, i as int, ord@[p as int] as int),
            decreases ord.len() - p,
        {
            if walks_before(entries, i, ord[p]) {
                break;
            }
            p += 1;
        }
        proof {
            lemma_insert_position_is(entries@, ord@, i as int, p as int);
        }
        ord.insert(p, i);
        i += 1;
        proof {
            lemma_walk_order_prefix_permutation(entries@, i as nat);
        }
    }
    ord
}

/// Walk each Sun–Sat week chronologically (regular before private within a
/// day), splitting each entry's hours at the 40-hour line. Returns the splits
/// in input order, or `None` where the decimal arithmetic overflows.
/// Where no step of the walk rounds (`walk_fits`, or the simpler bound
/// `exact_premise`), every split is the exact one (`splits_exact`).
pub fn compute_overtime(entries: &[OvertimeEntry]) -> (r: Option<Vec<OvertimeSplit>>)
    requires
        dates_ok(entries@),
    ensures
        r is Some <==> walk_succeeds(entries@),
        r matches Some(v) ==> splits_match(entries@, v@),
        (exists|s: nat, b: nat| exact_premise(entries@, s, b)) ==> (r matches Some(v)
            && splits_exact(entries@, v@)),
        walk_fits(entries@) ==> (r matches Some(v) && splits_exact(entries@, v@)),
{
    let n = entries.len();
    let ord = walk_order_indices(entries);
    let ghost e = entries@;
    let ghost premise = exists|s: nat, b: nat| exact_premise(e, s, b);
    let ghost (sc, bd) = choose|s: nat, b: nat| exact_premise(e, s, b);
    let ghost fits = walk_fits(e);
    let ghost exact = premise || fits;
    let mut results: Vec<OvertimeSplit> = Vec::new();
    let mut j: usize = 0;
    while j < n
        invariant
            j <= n,
            results@.len() == j,
        decreases n - j,
    {
        results.push(OvertimeSplit { regular: Dec::zero(), overtime: Dec::zero() });
        j += 1;
    }
    let threshold = Dec::from_i64(40);
    let mut cumulative = Dec::zero();
    let mut k: usize = 0;
    while k < n
        invariant
            e == entries@,
            n == e.len(),
            k <= n,
            dates_ok(e),
            threshold@ == weekly_limit(),
            ord@ == walk_order(e),
            is_index_permutation(ord@, n as nat),
            results@.len() == n,
            k == 0 ==> cumulative@ == spec_zero(),
            0 < k < n ==> (running_total(e, ord@, (k - 1) as int) matches Some(c)
                && spec_add(c, e[ord@[k - 1] as int].hours@) == Some(cumulative@)),
            forall|q: int| 0 <= q < k ==> (#[trigger] walk_step(e, ord@, q)) is Some,
            forall|q: int|
                0 <= q < k ==> Some(split_view(#[trigger] results@[ord@[q] as int])) == walk_step(
                    e,
                    ord@,
                    q,
                ),
            premise == (exists|s: nat, b: nat| exact_premise(e, s, b)),
            premise ==> exact_premise(e, sc, bd),
            premise ==> cumulative@.1 <= sc && abs(at_scale(cumulative@, sc)) <= k * bd,
            fits == walk_fits(e),
            exact == (premise || fits),
            exact ==> units(cumulative@) == (if k == 0 {
                0
            } else {
                week_hours_before(e, ord@, k - 1) + units(e[ord@[k - 1] as int].hours@)
            }),
            fits && 0 < k < n ==> cumulative@.1 <= week_scale(e, ord@, k - 1),
            exact ==> forall|q: int|
                0 <= q < k ==> {
                    let j = ord@[q] as int;
                    let start = week_hours_before(e, ord@, q);
                    &&& units((#[trigger] results@[ord@[q] as int]).regular@) == exact_regular(
                        start,
                        units(e[j].hours@),
                    )
                    &&& units(results@[j].overtime@) == exact_overtime(start, units(e[j].hours@))
                },
        decreases n - k,
    {
        let i = ord[k];
        let ghost prev_results = results@;
        if k > 0 {
            let here = week_start(entries[i].entry_date);
            let before = week_start(entries[ord[k - 1]].entry_date);
            if here != before {
                cumulative = Dec::zero();
            }
        }
        assert(running_total(e, ord@, k as int) == Some(cumulative@));
        let h = entries[i].hours;
        let ghost start = week_hours_before(e, ord@, k as int);
        let ghost sw = week_scale(e, ord@, k as int);
        proof {
            assert(e[i as int].hours@ == h@);
            if exact {
                assert(units(cumulative@) == start);
            }
            if fits {
                assert(cumulative@.1 <= sw);
                assert(h@.1 <= sw);
                assert(step_fits(e, ord@, k as int));
                assert(sw <= max_scale());
                lemma_fits_at(cumulative@, h@, sw, 1);
            }
            if premise {
                assert(units(cumulative@) == start);
                assert(abs(at_scale(cumulative@, sc)) <= k * bd);
                assert((k + 1) * bd <= n * bd) by (nonlinear_arith)
                    requires
                        k + 1 <= n,
                ;
                assert(k * bd + bd == (k + 1) * bd) by (nonlinear_arith);
                crate::decimal::lemma_pow10_positive(sc);
                lemma_fits_within(cumulative@, h@, sc, k * bd, bd as int);
            }
        }
        let end = match dec_checked_add(cumulative, h) {
            Some(x) => x,
            None => {
                assert(walk_step(e, ord@, k as int) is None);
                return None;
            },
        };
        proof {
            if fits {
                assert(end@.1 <= sw);
            }
            if premise {
                lemma_units_to_scale(end@, cumulative@, h@, sc, 1);
                assert(abs(at_scale(end@, sc)) <= (k + 1) * bd);
                lemma_pow10_le_limit(sc);
            }
        }
        let split = if dec_le(end, threshold) {
            OvertimeSplit { regular: h, overtime: Dec::zero() }
        } else if dec_le(threshold, cumulative) {
            OvertimeSplit { regular: Dec::zero(), overtime: h }
        } else {
            proof {
                if fits {
                    lemma_fits_at(threshold@, cumulative@, sw, -1);
                    lemma_fits_at(end@, threshold@, sw, -1);
                }
                if premise {
                    lemma_limit_at_scale(sc);
                    lemma_fits_within(threshold@, cumulative@, sc, 40 * pow10(sc), k * bd);
                    lemma_fits_within(end@, threshold@, sc, (k + 1) * bd, 40 * pow10(sc));
                }
            }
            let reg = match dec_checked_sub(threshold, cumulative) {
                Some(x) => x,
                None => {
                    assert(walk_step(e, ord@, k as int) is None);
                    return None;
                },
            };
            let ot = match dec_checked_sub(end, threshold) {
                Some(x) => x,
                None => {
                    assert(walk_step(e, ord@, k as int) is None);
                    return None;
                },
            };
            OvertimeSplit { regular: reg, overtime: ot }
        };
        assert(Some(split_view(split)) == walk_step(e, ord@, k as int));
        results.set(i, split);
        assert forall|q: int| 0 <= q < k + 1 implies Some(
            split_view(#[trigger] results@[ord@[q] as int]),
        ) == walk_step(e, ord@, q) by {
            if q < k {
                assert(ord@[q] != ord@[k as int]);
            }
        }
        proof {
            if exact {
                assert forall|q: int| 0 <= q < k + 1 implies {
                    let j = ord@[q] as int;
                    let st = week_hours_before(e, ord@, q);
                    &&& units((#[trigger] results@[ord@[q] as int]).regular@) == exact_regular(
                        st,
                        units(e[j].hours@),
                    )
                    &&& units(results@[j].overtime@) == exact_overtime(st, units(e[j].hours@))
                } by {
                    if q < k {
                        assert(ord@[q] != ord@[k as int]);
                        assert(results@[ord@[q] as int] == prev_results[ord@[q] as int]);
                    }
                }
            }
        }
        cumulative = end;
        k += 1;
    }
    Some(results)
}

proof fn lemma_pow10_le_limit(s: nat)
    ensures
        pow10(s) >= 1,
{
    crate::decimal::lemma_pow10_positive(s);
}

/// The limit, 40, brought to scale `s` is `40 * 10^s`.
proof fn lemma_limit_at_scale(s: nat)
    ensures
        at_scale(weekly_limit(), s) == 40 * pow10(s),
        abs(at_scale(weekly_limit(), s)) <= 40 * pow10(s),
{
    crate::decimal::lemma_pow10_positive(s);
}


proof fn lemma_insert_position_props(e: Seq<OvertimeEntry>, s: Seq<usize>, i: int)
    ensures
        0 <= insert_position(e, s, i) <= s.len(),
        forall|q: int| 0 <= q < insert_position(e, s, i) ==> !walk_before(e, i, #[trigger] s[q] as int),
        insert_position(e, s, i) < s.len() ==> walk_before(e, i, s[insert_position(e, s, i)] as int),
    decreases s.len(),
{
    if s.len() > 0 && !walk_before(e, i, s[0] as int) {
        let t = s.drop_first();
        lemma_insert_position_props(e, t, i);
        assert forall|q: int| 0 <= q < insert_position(e, s, i) implies !walk_before(
            e,
            i,
            #[trigger] s[q] as int,
        ) by {
            if q > 0 {
                assert(s[q] == t[q - 1]);
            }
        }
    }
}

/// The walk order never puts an entry before itself and is transitive.
pub proof fn lemma_walk_before_order(e: Seq<OvertimeEntry>, i: int, j: int, k: int)
    ensures
        !walk_before(e, i, i),
        walk_before(e, i, j) ==> !walk_before(e, j, i),
        walk_before(e, i, j) && walk_before(e, j, k) ==> walk_before(e, i, k),
        i != j ==> walk_before(e, i, j) || walk_before(e, j, i),
{
}

/// The walk order is chronological: by date, regular entries before private
/// ones on the same day, and otherwise in input order.
pub proof fn lemma_walk_order_sorted(e: Seq<OvertimeEntry>, n: nat)
    requires
        n <= usize::MAX,
    ensures
        forall|a: int, b: int|
            0 <= a < b < n ==> walk_before(
                e,
                #[trigger] walk_order_prefix(e, n)[a] as int,
                #[trigger] walk_order_prefix(e, n)[b] as int,
            ),
    decreases n,
{
    if n > 0 {
        let m = (n - 1) as nat;
        lemma_walk_order_sorted(e, m);
        lemma_walk_order_prefix_permutation(e, m);
        let s = walk_order_prefix(e, m);
        let p = insert_position(e, s, m as int);
        lemma_insert_position_props(e, s, m as int);
        let t = s.insert(p, m as usize);
        assert(t == walk_order_prefix(e, n));
        assert forall|a: int, b: int| 0 <= a < b < n implies walk_before(
            e,
            #[trigger] t[a] as int,
            #[trigger] t[b] as int,
        ) by {
            if b < p {
                assert(t[a] == s[a] && t[b] == s[b]);
            } else if b == p {
                assert(t[a] == s[a]);
                assert(s[a] < m);
                lemma_walk_before_order(e, m as int, s[a] as int, 0);
            } else if a < p {
                assert(t[a] == s[a] && t[b] == s[b - 1]);
                assert(s[a] < m);
                lemma_walk_before_order(e, m as int, s[a] as int, 0);
                lemma_walk_before_order(e, s[a] as int, m as int, s[p] as int);
                if p < b - 1 {
                    lemma_walk_before_order(e, s[a] as int, s[p] as int, s[b - 1] as int);
                }
            } else if a == p {
                assert(t[b] == s[b - 1]);
                if p < b - 1 {
                    lemma_walk_before_order(e, m as int, s[p] as int, s[b - 1] as int);
                }
            } else {
                assert(t[a] == s[a - 1] && t[b] == s[b - 1]);
            }
        }
    }
}

/// In exact arithmetic every entry's regular and overtime hours add up to its hours.
pub proof fn lemma_split_adds_up(e: Seq<OvertimeEntry>, v: Seq<OvertimeSplit>)
    requires
        e.len() <= usize::MAX,
        splits_exact(e, v),
    ensures
        forall|i: int|
            0 <= i < e.len() ==> units((#[trigger] v[i]).regular@) + units(v[i].overtime@) == units(
                e[i].hours@,
            ),
{
    lemma_walk_order_prefix_permutation(e, e.len());
    let ord = walk_order(e);
    assert forall|i: int| 0 <= i < e.len() implies units((#[trigger] v[i]).regular@) + units(
        v[i].overtime@,
    ) == units(e[i].hours@) by {
        assert(ord.contains(i as usize));
        let k = choose|k: int| 0 <= k < ord.len() && ord[k] == i as usize;
        assert(v[ord[k] as int] == v[i]);
    }
}

/// The regular hours of the entries walked so far in a week.
pub open spec fn week_regular_before(e: Seq<OvertimeEntry>, v: Seq<OvertimeSplit>, ord: Seq<usize>, k: int) -> int
    decreases k,
{
    if k <= 0 {
        0
    } else if week_of(e, ord[k - 1] as int) != week_of(e, ord[k] as int) {
        0
    } else {
        week_regular_before(e, v, ord, k - 1) + units(v[ord[k - 1] as int].regular@)
    }
}

/// The overtime hours of the entries walked so far in a week.
pub open spec fn week_overtime_before(e: Seq<OvertimeEntry>, v: Seq<OvertimeSplit>, ord: Seq<usize>, k: int) -> int
    decreases k,
{
    if k <= 0 {
        0
    } else if week_of(e, ord[k - 1] as int) != week_of(e, ord[k] as int) {
        0
    } else {
        week_overtime_before(e, v, ord, k - 1) + units(v[ord[k - 1] as int].overtime@)
    }
}

pub open spec fn min_int(a: int, b: int) -> int {
    if a <= b { a } else { b }
}

pub open spec fn max_int(a: int, b: int) -> int {
    if a >= b { a } else { b }
}

/// With no negative hours, a week never holds more than 40 regular hours: at
/// every point of the walk the regular hours so far are the hours so far capped
/// at 40, and the overtime hours are what lies beyond 40.
pub proof fn lemma_week_capped(e: Seq<OvertimeEntry>, v: Seq<OvertimeSplit>, k: int)
    requires
        splits_exact(e, v),
        forall|i: int| 0 <= i < e.len() ==> units(#[trigger] e[i].hours@) >= 0,
        0 <= k < e.len(),
        e.len() <= usize::MAX,
    ensures
        week_hours_before(e, walk_order(e), k) >= 0,
        week_regular_before(e, v, walk_order(e), k) == min_int(
            week_hours_before(e, walk_order(e), k),
            limit_units(),
        ),
        week_overtime_before(e, v, walk_order(e), k) == max_int(
            week_hours_before(e, walk_order(e), k) - limit_units(),
            0,
        ),
    decreases k,
{
    let ord = walk_order(e);
    lemma_walk_order_prefix_permutation(e, e.len());
    crate::decimal::lemma_pow10_positive(28);
    if k > 0 && week_of(e, ord[k - 1] as int) == week_of(e, ord[k] as int) {
        lemma_week_capped(e, v, k - 1);
        let i = ord[k - 1] as int;
        assert(units(v[ord[k - 1] as int].regular@) == exact_regular(
            week_hours_before(e, ord, k - 1),
            units(e[i].hours@),
        ));
        assert(units(e[i].hours@) >= 0);
    }
}


/// The walk position of entry `i`.
pub open spec fn walk_position(e: Seq<OvertimeEntry>, i: int) -> int {
    choose|k: int| 0 <= k < e.len() && walk_order(e)[k] == i as usize
}

/// The split the walk gives entry `i`.
pub open spec fn split_of(e: Seq<OvertimeEntry>, i: int) -> ((i128, u32), (i128, u32)) {
    walk_step(e, walk_order(e), walk_position(e, i)).unwrap()
}

/// A successful walk's result holds, at each index, that entry's split.
pub proof fn lemma_splits_by_index(e: Seq<OvertimeEntry>, v: Seq<OvertimeSplit>)
    requires
        e.len() <= usize::MAX,
        walk_succeeds(e),
        splits_match(e, v),
    ensures
        forall|i: int| 0 <= i < e.len() ==> split_view(#[trigger] v[i]) == split_of(e, i),
{
    lemma_walk_order_prefix_permutation(e, e.len());
    let ord = walk_order(e);
    assert forall|i: int| 0 <= i < e.len() implies split_view(#[trigger] v[i]) == split_of(e, i) by {
        assert(ord.contains(i as usize));
        let k = walk_position(e, i);
        assert(0 <= k < e.len() && ord[k] == i as usize);
        assert(walk_step(e, ord, k) is Some);
    }
}


/// Whether every entry's date is one whose week start chrono can compute.
pub fn walk_dates_in_range(entries: &[OvertimeEntry]) -> (r: bool)
    ensures
        r == dates_ok(entries@),
{
    let mut i: usize = 0;
    while i < entries.len()
        invariant
            i <= entries@.len(),
            forall|q: int| 0 <= q < i ==> week_start_ok((#[trigger] entries@[q]).entry_date as int),
        decreases entries.len() - i,
    {
        if !crate::dates::week_start_in_range(entries[i].entry_date) {
            return false;
        }
        i += 1;
    }
    true
}


/// A day between two days of one Sunday-to-Saturday week lies in that week.
proof fn lemma_week_between(x: int, y: int, z: int)
    requires
        x <= y <= z,
        spec_week_start(x) == spec_week_start(z),
    ensures
        spec_week_start(y) == spec_week_start(x),
{
    let w = spec_week_start(x);
    assert(w % 7 == 0 && w <= x) by {
        assert(x % 7 >= 0 && x % 7 < 7);
    }
    assert(z - z % 7 == w && z % 7 < 7);
    assert(y - y % 7 == w) by {
        assert(0 <= y % 7 < 7);
        assert((y - y % 7) % 7 == 0);
    }
}

/// In walk order, the entry just before position `k` is of the same week
/// exactly when some entry of that week is walked before `ord[k]`, and then it
/// is the last such entry.
proof fn lemma_walk_predecessor(e: Seq<OvertimeEntry>, k: int)
    requires
        e.len() <= usize::MAX,
        0 <= k < e.len(),
    ensures
        ({
            let ord = walk_order(e);
            let i = ord[k] as int;
            &&& (exists|j: int| 0 <= j < e.len() && week_of(e, j) == week_of(e, i) && #[trigger] walk_before(e, j, i))
                <==> (k > 0 && week_of(e, ord[k - 1] as int) == week_of(e, i))
            &&& k > 0 && week_of(e, ord[k - 1] as int) == week_of(e, i) ==> forall|j: int|
                0 <= j < e.len() && week_of(e, j) == week_of(e, i) && #[trigger] walk_before(e, j, i) ==> j
                    == ord[k - 1] as int || walk_before(e, j, ord[k - 1] as int)
        }),
{
    let n = e.len();
    lemma_walk_order_prefix_permutation(e, n);
    lemma_walk_order_sorted(e, n);
    let ord = walk_order(e);
    let i = ord[k] as int;
    assert forall|j: int|
        0 <= j < n && week_of(e, j) == week_of(e, i) && #[trigger] walk_before(e, j, i) implies k > 0
            && week_of(e, ord[k - 1] as int) == week_of(e, i) && (j == ord[k - 1] as int || walk_before(
            e,
            j,
            ord[k - 1] as int,
        )) by {
        assert(ord.contains(j as usize));
        let p = choose|p: int| 0 <= p < ord.len() && ord[p] == j as usize;
        lemma_walk_before_order(e, j, i, 0);
        if p >= k {
            if p > k {
                assert(walk_before(e, ord[k] as int, ord[p] as int));
            }
            assert(false);
        }
        if p < k - 1 {
            assert(walk_before(e, ord[p] as int, ord[k - 1] as int));
            assert(walk_before(e, ord[k - 1] as int, ord[k] as int));
            lemma_week_between(
                e[j].entry_date as int,
                e[ord[k - 1] as int].entry_date as int,
                e[i].entry_date as int,
            );
        }
    }
    if k > 0 && week_of(e, ord[k - 1] as int) == week_of(e, i) {
        assert(walk_before(e, ord[k - 1] as int, ord[k] as int));
    }
}


/// The (regular, overtime) parts of each split.
pub open spec fn split_views(v: Seq<OvertimeSplit>) -> Seq<((i128, u32), (i128, u32))> {
    v.map_values(|s: OvertimeSplit| split_view(s))
}

/// `f` is the part `off .. off + f.len()` of `e`, and every entry of `e` that
/// shares a week with an entry of the part lies in it.
pub open spec fn is_week_closed_part(e: Seq<OvertimeEntry>, f: Seq<OvertimeEntry>, off: int) -> bool {
    &&& 0 <= off
    &&& off + f.len() <= e.len()
    &&& forall|x: int| 0 <= x < f.len() ==> #[trigger] f[x] == e[x + off]
    &&& forall|x: int, j: int|
        0 <= x < f.len() && 0 <= j < e.len() && #[trigger] week_of(e, j) == #[trigger] week_of(f, x) ==> off <= j
            < off + f.len()
}

/// The walk position of an entry is where the walk order lists it, and the
/// only such place.
proof fn lemma_walk_position(e: Seq<OvertimeEntry>, i: int)
    requires
        e.len() <= usize::MAX,
        0 <= i < e.len(),
    ensures
        0 <= walk_position(e, i) < e.len(),
        walk_order(e)[walk_position(e, i)] == i as usize,
        forall|p: int| 0 <= p < e.len() && #[trigger] walk_order(e)[p] == i as usize ==> p == walk_position(e, i),
{
    lemma_walk_order_prefix_permutation(e, e.len());
    assert(walk_order(e).contains(i as usize));
}

/// Within a week-closed part, the walk of the whole reaches each entry with the
/// hours that the walk of the part alone reaches it with.
proof fn lemma_part_running_total(e: Seq<OvertimeEntry>, f: Seq<OvertimeEntry>, off: int, x: int)
    requires
        e.len() <= usize::MAX,
        is_week_closed_part(e, f, off),
        0 <= x < f.len(),
    ensures
        running_total(e, walk_order(e), walk_position(e, x + off)) == running_total(
            f,
            walk_order(f),
            walk_position(f, x),
        ),
    decreases walk_position(f, x),
{
    let i = x + off;
    let orde = walk_order(e);
    let ordf = walk_order(f);
    lemma_walk_position(e, i);
    lemma_walk_position(f, x);
    let ke = walk_position(e, i);
    let kf = walk_position(f, x);
    lemma_walk_predecessor(e, ke);
    lemma_walk_predecessor(f, kf);
    assert(f[x] == e[i]);
    let ee = exists|j: int| 0 <= j < e.len() && week_of(e, j) == week_of(e, i) && #[trigger] walk_before(e, j, i);
    let ef = exists|y: int| 0 <= y < f.len() && week_of(f, y) == week_of(f, x) && #[trigger] walk_before(f, y, x);
    if ee {
        let j = choose|j: int| 0 <= j < e.len() && week_of(e, j) == week_of(e, i) && #[trigger] walk_before(e, j, i);
        assert(week_of(f, x) == week_of(e, i));
        assert(off <= j < off + f.len());
        assert(f[j - off] == e[j]);
        assert(walk_before(f, j - off, x));
    }
    if ef {
        let y = choose|y: int| 0 <= y < f.len() && week_of(f, y) == week_of(f, x) && #[trigger] walk_before(f, y, x);
        assert(f[y] == e[y + off]);
        assert(walk_before(e, y + off, i));
    }
    assert(ee <==> ef);
    if ee {
        lemma_walk_order_prefix_permutation(e, e.len());
        lemma_walk_order_prefix_permutation(f, f.len());
        assert(ke > 0 && kf > 0);
        let je = orde[ke - 1] as int;
        let yf = ordf[kf - 1] as int;
        assert(0 <= je < e.len() && 0 <= yf < f.len());
        assert(week_of(f, x) == week_of(e, i));
        assert(week_of(e, je) == week_of(e, i));
        assert(week_of(f, yf) == week_of(f, x));
        assert(walk_before(e, je, i)) by {
            lemma_walk_order_sorted(e, e.len());
        }
        assert(off <= je < off + f.len());
        assert(f[je - off] == e[je]);
        assert(walk_before(f, je - off, x));
        assert(walk_before(f, yf, x)) by {
            lemma_walk_order_sorted(f, f.len());
        }
        assert(f[yf] == e[yf + off]);
        assert(week_of(e, yf + off) == week_of(e, i));
        assert(walk_before(e, yf + off, i));
        assert(je - off == yf || walk_before(f, je - off, yf));
        assert(yf + off == je || walk_before(e, yf + off, je));
        if je - off != yf {
            assert(walk_before(f, yf, je - off));
            lemma_walk_before_order(f, yf, je - off, 0);
            assert(false);
        }
        lemma_walk_position(e, je);
        lemma_walk_position(f, yf);
        assert(walk_position(e, yf + off) == ke - 1);
        assert(walk_position(f, yf) == kf - 1);
        lemma_part_running_total(e, f, off, yf);
        assert(e[je].hours == f[yf].hours);
    }
}

/// Weeks are walked independently: when no week holds entries of both `a` and
/// `b`, walking `a + b` gives each entry of `a` the step that walking `a` alone
/// gives it, and each entry of `b` the step that walking `b` alone gives it;
/// the walk of `a + b` gets through exactly when both walks do, and then the
/// splits of `a + b` are those of `a` followed by those of `b`.
pub proof fn lemma_week_disjoint_walks(a: Seq<OvertimeEntry>, b: Seq<OvertimeEntry>)
    requires
        a.len() + b.len() <= usize::MAX,
        forall|i: int, j: int| 0 <= i < a.len() && 0 <= j < b.len() ==> #[trigger] week_of(a, i) != #[trigger] week_of(b, j),
    ensures
        forall|i: int|
            0 <= i < a.len() ==> #[trigger] walk_step(a + b, walk_order(a + b), walk_position(a + b, i)) == walk_step(
                a,
                walk_order(a),
                walk_position(a, i),
            ),
        forall|j: int|
            0 <= j < b.len() ==> #[trigger] walk_step(
                a + b,
                walk_order(a + b),
                walk_position(a + b, a.len() + j),
            ) == walk_step(b, walk_order(b), walk_position(b, j)),
        walk_succeeds(a + b) <==> walk_succeeds(a) && walk_succeeds(b),
        forall|v: Seq<OvertimeSplit>, va: Seq<OvertimeSplit>, vb: Seq<OvertimeSplit>|
            walk_succeeds(a + b) && splits_match(a + b, v) && splits_match(a, va) && splits_match(b, vb)
                ==> #[trigger] split_views(v) == #[trigger] split_views(va + vb),
{
    let e = a + b;
    let n = e.len();
    assert(is_week_closed_part(e, a, 0)) by {
        assert forall|x: int, j: int|
            0 <= x < a.len() && 0 <= j < e.len() && #[trigger] week_of(e, j) == #[trigger] week_of(a, x) implies 0
                <= j < a.len() by {
            if j >= a.len() {
                assert(e[j] == b[j - a.len()]);
                assert(week_of(a, x) != week_of(b, j - a.len()));
            }
        }
    }
    assert(is_week_closed_part(e, b, a.len() as int)) by {
        assert forall|x: int, j: int|
            0 <= x < b.len() && 0 <= j < e.len() && #[trigger] week_of(e, j) == #[trigger] week_of(b, x) implies a.len()
                <= j < a.len() + b.len() by {
            if j < a.len() {
                assert(e[j] == a[j]);
                assert(week_of(a, j) != week_of(b, x));
            }
        }
        assert forall|x: int| 0 <= x < b.len() implies #[trigger] b[x] == e[x + a.len()] by {}
    }
    assert forall|i: int| 0 <= i < a.len() implies #[trigger] walk_step(e, walk_order(e), walk_position(e, i))
        == walk_step(a, walk_order(a), walk_position(a, i)) by {
        lemma_part_running_total(e, a, 0, i);
        lemma_walk_position(e, i);
        lemma_walk_position(a, i);
        assert(e[i] == a[i]);
    }
    assert forall|j: int| 0 <= j < b.len() implies #[trigger] walk_step(
        e,
        walk_order(e),
        walk_position(e, a.len() + j),
    ) == walk_step(b, walk_order(b), walk_position(b, j)) by {
        lemma_part_running_total(e, b, a.len() as int, j);
        lemma_walk_position(e, a.len() + j);
        lemma_walk_position(b, j);
        assert(e[a.len() + j] == b[j]);
    }
    if walk_succeeds(e) {
        assert forall|k: int| 0 <= k < a.len() implies (#[trigger] walk_step(a, walk_order(a), k)) is Some by {
            lemma_walk_order_prefix_permutation(a, a.len());
            let i = walk_order(a)[k] as int;
            lemma_walk_position(a, i);
            lemma_walk_position(e, i);
            assert(walk_step(e, walk_order(e), walk_position(e, i)) is Some);
        }
        assert forall|k: int| 0 <= k < b.len() implies (#[trigger] walk_step(b, walk_order(b), k)) is Some by {
            lemma_walk_order_prefix_permutation(b, b.len());
            let j = walk_order(b)[k] as int;
            lemma_walk_position(b, j);
            lemma_walk_position(e, a.len() + j);
            assert(walk_step(e, walk_order(e), walk_position(e, a.len() + j)) is Some);
        }
    }
    if walk_succeeds(a) && walk_succeeds(b) {
        assert forall|k: int| 0 <= k < n implies (#[trigger] walk_step(e, walk_order(e), k)) is Some by {
            lemma_walk_order_prefix_permutation(e, n);
            let i = walk_order(e)[k] as int;
            lemma_walk_position(e, i);
            if i < a.len() {
                lemma_walk_position(a, i);
                assert(walk_step(a, walk_order(a), walk_position(a, i)) is Some);
            } else {
                lemma_walk_position(b, i - a.len());
                assert(walk_step(b, walk_order(b), walk_position(b, i - a.len())) is Some);
                assert(a.len() + (i - a.len()) == i);
            }
        }
    }
    assert forall|v: Seq<OvertimeSplit>, va: Seq<OvertimeSplit>, vb: Seq<OvertimeSplit>|
        walk_succeeds(e) && splits_match(e, v) && splits_match(a, va) && splits_match(b, vb) implies #[trigger] split_views(v)
        == #[trigger] split_views(va + vb) by {
        lemma_splits_by_index(e, v);
        lemma_splits_by_index(a, va);
        lemma_splits_by_index(b, vb);
        let l = split_views(v);
        let r = split_views(va + vb);
        assert forall|i: int| 0 <= i < n implies l[i] == r[i] by {
            if i < a.len() {
                assert(split_view(v[i]) == split_of(e, i));
                assert(split_view(va[i]) == split_of(a, i));
            } else {
                assert(split_view(v[i]) == split_of(e, i));
                assert(split_view(vb[i - a.len()]) == split_of(b, i - a.len()));
                assert(a.len() + (i - a.len()) == i);
            }
        }
        assert(l =~= r);
    }
}


/// Each entry's hours, in units of 10^-28.
pub open spec fn hours_of(e: Seq<OvertimeEntry>) -> spec_fn(int) -> int {
    |i: int| units(e[i].hours@)
}

/// Each split's regular hours, in units of 10^-28.
pub open spec fn regular_of(v: Seq<OvertimeSplit>) -> spec_fn(int) -> int {
    |i: int| units(v[i].regular@)
}

/// Each split's overtime hours, in units of 10^-28.
pub open spec fn overtime_of(v: Seq<OvertimeSplit>) -> spec_fn(int) -> int {
    |i: int| units(v[i].overtime@)
}

/// The sum of `g(i)` over the entries `i < n` of the week starting on day `w`.
pub open spec fn week_total(e: Seq<OvertimeEntry>, g: spec_fn(int) -> int, w: int, n: int) -> int
    decreases n,
{
    if n <= 0 {
        0
    } else {
        week_total(e, g, w, n - 1) + if week_of(e, n - 1) == w {
            g(n - 1)
        } else {
            0
        }
    }
}

/// The sum of `g(i)` over the indices `i` listed in `s` whose entry is of the
/// week starting on day `w`.
pub open spec fn listed_week_total(e: Seq<OvertimeEntry>, g: spec_fn(int) -> int, w: int, s: Seq<usize>) -> int
    decreases s.len(),
{
    if s.len() == 0 {
        0
    } else {
        listed_week_total(e, g, w, s.drop_last()) + if week_of(e, s.last() as int) == w {
            g(s.last() as int)
        } else {
            0
        }
    }
}

/// Inserting an index anywhere into a list adds its term to the sum.
proof fn lemma_listed_insert(e: Seq<OvertimeEntry>, g: spec_fn(int) -> int, w: int, s: Seq<usize>, p: int, x: usize)
    requires
        0 <= p <= s.len(),
    ensures
        listed_week_total(e, g, w, s.insert(p, x)) == listed_week_total(e, g, w, s) + if week_of(e, x as int) == w {
            g(x as int)
        } else {
            0
        },
    decreases s.len(),
{
    let t = s.insert(p, x);
    if p == s.len() {
        assert(t.drop_last() =~= s);
    } else {
        assert(t.drop_last() =~= s.drop_last().insert(p, x));
        assert(t.last() == s.last());
        lemma_listed_insert(e, g, w, s.drop_last(), p, x);
    }
}

/// Summing over the walk order is summing over the indices.
proof fn lemma_listed_walk_order(e: Seq<OvertimeEntry>, g: spec_fn(int) -> int, w: int, n: nat)
    requires
        n <= e.len(),
        e.len() <= usize::MAX,
    ensures
        listed_week_total(e, g, w, walk_order_prefix(e, n)) == week_total(e, g, w, n as int),
    decreases n,
{
    if n > 0 {
        let m = (n - 1) as nat;
        lemma_listed_walk_order(e, g, w, m);
        let s = walk_order_prefix(e, m);
        lemma_insert_position_bound(e, s, m as int);
        lemma_listed_insert(e, g, w, s, insert_position(e, s, m as int), m as usize);
    }
}

/// The hours walked before position `k` in its week are the hours of all the
/// entries of that week walked before it (weeks are walked one after another).
proof fn lemma_week_hours_before_listed(e: Seq<OvertimeEntry>, k: int)
    requires
        e.len() <= usize::MAX,
        0 <= k < e.len(),
    ensures
        week_hours_before(e, walk_order(e), k) == listed_week_total(
            e,
            hours_of(e),
            week_of(e, walk_order(e)[k] as int),
            walk_order(e).take(k),
        ),
    decreases k,
{
    let ord = walk_order(e);
    let w = week_of(e, ord[k] as int);
    lemma_walk_order_prefix_permutation(e, e.len());
    lemma_walk_order_sorted(e, e.len());
    if k > 0 {
        assert(ord.take(k).drop_last() =~= ord.take(k - 1));
        assert(ord.take(k).last() == ord[k - 1]);
        if week_of(e, ord[k - 1] as int) == w {
            lemma_week_hours_before_listed(e, k - 1);
        } else {
            lemma_no_earlier_of_week(e, k, k - 1);
        }
    }
}

/// When the entry before position `k` is of another week, no entry among the
/// first `q` positions (`q < k`) is of the week at `k`.
proof fn lemma_no_earlier_of_week(e: Seq<OvertimeEntry>, k: int, q: int)
    requires
        e.len() <= usize::MAX,
        0 < k < e.len(),
        0 <= q <= k - 1,
        week_of(e, walk_order(e)[k - 1] as int) != week_of(e, walk_order(e)[k] as int),
    ensures
        listed_week_total(e, hours_of(e), week_of(e, walk_order(e)[k] as int), walk_order(e).take(q)) == 0,
    decreases q,
{
    let ord = walk_order(e);
    let w = week_of(e, ord[k] as int);
    lemma_walk_order_prefix_permutation(e, e.len());
    lemma_walk_order_sorted(e, e.len());
    if q > 0 {
        assert(ord.take(q).drop_last() =~= ord.take(q - 1));
        assert(ord.take(q).last() == ord[q - 1]);
        lemma_no_earlier_of_week(e, k, q - 1);
        if week_of(e, ord[q - 1] as int) == w {
            if q - 1 < k - 1 {
                assert(walk_before(e, ord[q - 1] as int, ord[k - 1] as int));
            }
            assert(walk_before(e, ord[k - 1] as int, ord[k] as int));
            lemma_week_between(
                e[ord[q - 1] as int].entry_date as int,
                e[ord[k - 1] as int].entry_date as int,
                e[ord[k] as int].entry_date as int,
            );
        }
    }
}

/// Along the walk, each week's regular hours so far are its hours so far capped
/// at 40, and its overtime hours are what lies beyond 40.
proof fn lemma_walk_totals_capped(e: Seq<OvertimeEntry>, v: Seq<OvertimeSplit>, k: int, w: int)
    requires
        e.len() <= usize::MAX,
        splits_exact(e, v),
        forall|i: int| 0 <= i < e.len() ==> units(#[trigger] e[i].hours@) >= 0,
        0 <= k <= e.len(),
    ensures
        listed_week_total(e, hours_of(e), w, walk_order(e).take(k)) >= 0,
        listed_week_total(e, regular_of(v), w, walk_order(e).take(k)) == min_int(
            listed_week_total(e, hours_of(e), w, walk_order(e).take(k)),
            limit_units(),
        ),
        listed_week_total(e, overtime_of(v), w, walk_order(e).take(k)) == max_int(
            listed_week_total(e, hours_of(e), w, walk_order(e).take(k)) - limit_units(),
            0,
        ),
    decreases k,
{
    let ord = walk_order(e);
    lemma_walk_order_prefix_permutation(e, e.len());
    crate::decimal::lemma_pow10_positive(28);
    if k > 0 {
        lemma_walk_totals_capped(e, v, k - 1, w);
        let t = ord.take(k);
        assert(t.drop_last() =~= ord.take(k - 1));
        assert(t.last() == ord[k - 1]);
        let i = ord[k - 1] as int;
        if week_of(e, i) == w {
            lemma_week_hours_before_listed(e, k - 1);
            assert(units(e[i].hours@) >= 0);
            assert(units(v[ord[k - 1] as int].regular@) == exact_regular(
                week_hours_before(e, ord, k - 1),
                units(e[i].hours@),
            ));
            assert(units(v[i].overtime@) == exact_overtime(week_hours_before(e, ord, k - 1), units(e[i].hours@)));
        }
    }
}

/// With no negative hours and exact splits, every Sunday-to-Saturday week holds
/// at most 40 regular hours: the regular hours of the entries of the week
/// starting on day `w` total min(40, H) and their overtime hours max(0, H - 40),
/// H being the week's hours (all in units of 10^-28).
pub proof fn lemma_weekly_totals(e: Seq<OvertimeEntry>, v: Seq<OvertimeSplit>, w: int)
    requires
        e.len() <= usize::MAX,
        splits_exact(e, v),
        forall|i: int| 0 <= i < e.len() ==> units(#[trigger] e[i].hours@) >= 0,
    ensures
        week_total(e, regular_of(v), w, e.len() as int) == min_int(
            week_total(e, hours_of(e), w, e.len() as int),
            limit_units(),
        ),
        week_total(e, overtime_of(v), w, e.len() as int) == max_int(
            week_total(e, hours_of(e), w, e.len() as int) - limit_units(),
            0,
        ),
{
    let n = e.len();
    lemma_walk_totals_capped(e, v, n as int, w);
    lemma_walk_order_prefix_permutation(e, n);
    assert(walk_order(e).take(n as int) =~= walk_order(e));
    lemma_listed_walk_order(e, hours_of(e), w, n);
    lemma_listed_walk_order(e, regular_of(v), w, n);
    lemma_listed_walk_order(e, overtime_of(v), w, n);
}

} // verus!
