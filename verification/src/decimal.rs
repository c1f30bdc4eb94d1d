//! Fixed-point decimal numbers, as `rust_decimal` holds them: a mantissa of at
//! most 96 bits and a scale of at most 28 decimal places. The arithmetic itself
//! is done by `rust_decimal`; this module states what the library relies on.
use vstd::prelude::*;

verus! {

/// The largest mantissa magnitude (2^96 - 1).
pub open spec fn max_mantissa() -> int {
    0xFFFF_FFFF_FFFF_FFFF_FFFF_FFFFint
}

/// The largest scale (number of decimal places).
pub open spec fn max_scale() -> nat {
    28
}

pub open spec fn pow10(n: nat) -> int
    decreases n,
{
    if n == 0 {
        1
    } else {
        10 * pow10((n - 1) as nat)
    }
}

/// A (mantissa, scale) pair that denotes a decimal number.
pub open spec fn dec_valid(v: (i128, u32)) -> bool {
    &&& v.1 <= max_scale()
    &&& -max_mantissa() <= v.0 <= max_mantissa()
}

/// The exact value of `v`, counted in units of 10^-28.
pub open spec fn units(v: (i128, u32)) -> int {
    v.0 * pow10((max_scale() - v.1) as nat)
}

/// The mantissa of `v` brought to scale `s` (meant for `s >= v.1`).
pub open spec fn at_scale(v: (i128, u32), s: nat) -> int {
    v.0 * pow10((s - v.1) as nat)
}

pub open spec fn max_u32(a: u32, b: u32) -> u32 {
    if a >= b { a } else { b }
}

pub open spec fn abs(x: int) -> int {
    if x >= 0 { x } else { -x }
}

/// Both operands, brought to the larger of their scales, still fit in 96 bits,
/// and so does `combined` (their sum or difference at that scale).
pub open spec fn aligned_fits(a: (i128, u32), b: (i128, u32), combined: int) -> bool {
    let s = max_u32(a.1, b.1) as nat;
    &&& abs(at_scale(a, s)) <= max_mantissa()
    &&& abs(at_scale(b, s)) <= max_mantissa()
    &&& abs(combined) <= max_mantissa()
}

pub open spec fn sum_fits(a: (i128, u32), b: (i128, u32)) -> bool {
    let s = max_u32(a.1, b.1) as nat;
    aligned_fits(a, b, at_scale(a, s) + at_scale(b, s))
}

pub open spec fn difference_fits(a: (i128, u32), b: (i128, u32)) -> bool {
    let s = max_u32(a.1, b.1) as nat;
    aligned_fits(a, b, at_scale(a, s) - at_scale(b, s))
}

/// What `rust_decimal::Decimal::checked_add` gives for the decimals with these
/// (mantissa, scale) parts, as (mantissa, scale) parts.
pub uninterp spec fn decimal_checked_add(am: i128, ascale: u32, bm: i128, bscale: u32) -> Option<(i128, u32)>;

/// What `rust_decimal::Decimal::checked_sub` gives.
pub uninterp spec fn decimal_checked_sub(am: i128, ascale: u32, bm: i128, bscale: u32) -> Option<(i128, u32)>;

/// What `rust_decimal::Decimal::checked_mul` gives.
pub uninterp spec fn decimal_checked_mul(am: i128, ascale: u32, bm: i128, bscale: u32) -> Option<(i128, u32)>;

/// What `rust_decimal::Decimal::checked_div` gives.
pub uninterp spec fn decimal_checked_div(am: i128, ascale: u32, bm: i128, bscale: u32) -> Option<(i128, u32)>;

/// The exact product of `a` and `b` has at most 28 places and a mantissa that
/// fits in 96 bits.
pub open spec fn product_fits(a: (i128, u32), b: (i128, u32)) -> bool {
    &&& a.1 + b.1 <= max_scale()
    &&& abs(a.0 * b.0) <= max_mantissa()
}

/// The exact product as parts: the product of the mantissas at the sum of the
/// scales, and plain zero when it is zero.
pub open spec fn exact_product(a: (i128, u32), b: (i128, u32)) -> (i128, u32) {
    if a.0 * b.0 == 0 {
        (0, 0)
    } else {
        ((a.0 * b.0) as i128, (a.1 + b.1) as u32)
    }
}

/// `m / p` (for `m >= 0` and `p >= 1`) rounded to the nearest integer, a half
/// to the even one.
pub open spec fn half_even_quotient(m: int, p: int) -> int {
    let q = m / p;
    let r = m % p;
    if 2 * r > p || (2 * r == p && q % 2 == 1) {
        q + 1
    } else {
        q
    }
}

/// A decimal as its (mantissa, scale) parts.
pub type DecView = (i128, u32);

pub open spec fn spec_add(a: (i128, u32), b: (i128, u32)) -> Option<(i128, u32)> {
    decimal_checked_add(a.0, a.1, b.0, b.1)
}

pub open spec fn spec_sub(a: (i128, u32), b: (i128, u32)) -> Option<(i128, u32)> {
    decimal_checked_sub(a.0, a.1, b.0, b.1)
}

pub open spec fn spec_mul(a: (i128, u32), b: (i128, u32)) -> Option<(i128, u32)> {
    decimal_checked_mul(a.0, a.1, b.0, b.1)
}

pub open spec fn spec_div(a: (i128, u32), b: (i128, u32)) -> Option<(i128, u32)> {
    decimal_checked_div(a.0, a.1, b.0, b.1)
}

/// `a` rounded to `dp` decimal places, a half to the even neighbour (the sign
/// kept apart); `a` itself when it has at most `dp` places.
pub open spec fn spec_round_dp(a: (i128, u32), dp: u32) -> (i128, u32) {
    if a.1 <= dp {
        a
    } else {
        let p = pow10((a.1 - dp) as nat);
        let q = if a.0 >= 0 {
            half_even_quotient(a.0 as int, p)
        } else {
            -half_even_quotient(-(a.0 as int), p)
        };
        (q as i128, dp)
    }
}

pub open spec fn spec_zero() -> (i128, u32) {
    (0, 0)
}

pub open spec fn spec_int(n: int) -> (i128, u32) {
    (n as i128, 0)
}

/// `a <= b` as numbers.
pub open spec fn spec_le(a: (i128, u32), b: (i128, u32)) -> bool {
    units(a) <= units(b)
}

/// A decimal number: `mantissa / 10^scale`.
#[derive(Clone, Copy, Debug)]
pub struct Dec {
    mantissa: i128,
    scale: u32,
}

impl View for Dec {
    type V = (i128, u32);

    closed spec fn view(&self) -> (i128, u32) {
        (self.mantissa, self.scale)
    }
}

impl Dec {
    #[verifier::type_invariant]
    closed spec fn inv(self) -> bool {
        dec_valid((self.mantissa, self.scale))
    }

    /// The decimal `mantissa / 10^scale`, if those parts fit.
    pub fn new(mantissa: i128, scale: u32) -> (r: Option<Dec>)
        ensures
            r is Some <==> dec_valid((mantissa, scale)),
            r matches Some(d) ==> d@ == (mantissa, scale),
    {
        if scale <= 28 && -0xFFFF_FFFF_FFFF_FFFF_FFFF_FFFFi128 <= mantissa
            && mantissa <= 0xFFFF_FFFF_FFFF_FFFF_FFFF_FFFFi128 {
            Some(Dec { mantissa, scale })
        } else {
            None
        }
    }

    pub fn zero() -> (r: Dec)
        ensures
            r@ == spec_zero(),
    {
        Dec { mantissa: 0, scale: 0 }
    }

    /// The integer `n` as a decimal (scale 0), as `Decimal::from` gives it.
    pub fn from_i64(n: i64) -> (r: Dec)
        ensures
            r@ == spec_int(n as int),
    {
        Dec { mantissa: n as i128, scale: 0 }
    }

    /// The mantissa and scale, which always denote a valid decimal.
    pub fn parts(&self) -> (r: (i128, u32))
        ensures
            r == self@,
            dec_valid(r),
    {
        proof {
            use_type_invariant(self);
        }
        (self.mantissa, self.scale)
    }
}

pub proof fn lemma_pow10_positive(n: nat)
    ensures
        pow10(n) >= 1,
    decreases n,
{
    if n > 0 {
        lemma_pow10_positive((n - 1) as nat);
    }
}

pub proof fn lemma_pow10_add(a: nat, b: nat)
    ensures
        pow10(a + b) == pow10(a) * pow10(b),
    decreases a,
{
    if a > 0 {
        lemma_pow10_add((a - 1) as nat, b);
        assert(pow10(a + b) == 10 * pow10((a - 1 + b) as nat));
        assert(10 * (pow10((a - 1) as nat) * pow10(b)) == (10 * pow10((a - 1) as nat)) * pow10(b))
            by (nonlinear_arith);
    }
}

pub proof fn lemma_pow10_monotone(a: nat, b: nat)
    requires
        a <= b,
    ensures
        pow10(a) <= pow10(b),
    decreases b,
{
    if a < b {
        lemma_pow10_monotone(a, (b - 1) as nat);
        lemma_pow10_positive((b - 1) as nat);
    }
}

/// Bringing a decimal to a larger scale `s` goes through any scale `m` between.
pub proof fn lemma_at_scale_step(v: (i128, u32), m: nat, s: nat)
    requires
        v.1 <= m <= s,
    ensures
        at_scale(v, s) == at_scale(v, m) * pow10((s - m) as nat),
{
    lemma_pow10_add((m - v.1) as nat, (s - m) as nat);
    assert((s - v.1) as nat == ((m - v.1) as nat + (s - m) as nat) as nat);
    let x = v.0 as int;
    let p = pow10((m - v.1) as nat);
    let q = pow10((s - m) as nat);
    assert(x * (p * q) == (x * p) * q) by (nonlinear_arith);
}

/// The value in units of 10^-28 is the mantissa at scale `s`, scaled up.
pub proof fn lemma_units_at_scale(v: (i128, u32), s: nat)
    requires
        v.1 <= s <= max_scale(),
    ensures
        units(v) == at_scale(v, s) * pow10((max_scale() - s) as nat),
{
    lemma_at_scale_step(v, s, max_scale());
}

/// At a common scale `s`, a relation between values is one between mantissas.
pub proof fn lemma_units_to_scale(r: (i128, u32), a: (i128, u32), b: (i128, u32), s: nat, sign: int)
    requires
        r.1 <= s,
        a.1 <= s,
        b.1 <= s,
        s <= max_scale(),
        sign == 1 || sign == -1,
        units(r) == units(a) + sign * units(b),
    ensures
        at_scale(r, s) == at_scale(a, s) + sign * at_scale(b, s),
{
    lemma_units_at_scale(r, s);
    lemma_units_at_scale(a, s);
    lemma_units_at_scale(b, s);
    let p = pow10((max_scale() - s) as nat);
    lemma_pow10_positive((max_scale() - s) as nat);
    let x = at_scale(r, s);
    let y = at_scale(a, s) + sign * at_scale(b, s);
    assert(x * p == at_scale(a, s) * p + sign * (at_scale(b, s) * p)) by (nonlinear_arith)
        requires
            x * p == units(r),
            units(r) == units(a) + sign * units(b),
            units(a) == at_scale(a, s) * p,
            units(b) == at_scale(b, s) * p,
    ;
    assert(x * p == y * p) by (nonlinear_arith)
        requires
            x * p == at_scale(a, s) * p + sign * (at_scale(b, s) * p),
            y == at_scale(a, s) + sign * at_scale(b, s),
    ;
    assert(x == y) by (nonlinear_arith)
        requires
            x * p == y * p,
            p >= 1,
    ;
}

/// A value of `x` units of 10^-28 fits in 96 bits at scale `s`.
pub open spec fn fits_at(x: int, s: nat) -> bool {
    abs(x) <= max_mantissa() * pow10((max_scale() - s) as nat)
}

/// Operands with at most `s` places, whose values and whose sum (or
/// difference) all fit in 96 bits at scale `s`, are added (or subtracted)
/// without rounding.
pub proof fn lemma_fits_at(a: (i128, u32), b: (i128, u32), s: nat, sign: int)
    requires
        a.1 <= s <= max_scale(),
        b.1 <= s,
        sign == 1 || sign == -1,
        fits_at(units(a), s),
        fits_at(units(b), s),
        fits_at(units(a) + sign * units(b), s),
    ensures
        sign == 1 ==> sum_fits(a, b),
        sign == -1 ==> difference_fits(a, b),
{
    let m = max_u32(a.1, b.1) as nat;
    lemma_at_scale_step(a, m, s);
    lemma_at_scale_step(b, m, s);
    lemma_units_at_scale(a, s);
    lemma_units_at_scale(b, s);
    lemma_pow10_positive((s - m) as nat);
    lemma_pow10_positive((max_scale() - s) as nat);
    let p = pow10((s - m) as nat);
    let q = pow10((max_scale() - s) as nat);
    let x = at_scale(a, m);
    let y = at_scale(b, m);
    let mm = max_mantissa();
    assert(abs(x) <= mm) by (nonlinear_arith)
        requires
            abs(x * p * q) <= mm * q,
            p >= 1,
            q >= 1,
    {
        assert(abs(x * p * q) == abs(x) * p * q);
        assert(abs(x) * q <= abs(x) * p * q);
    }
    assert(abs(y) <= mm) by (nonlinear_arith)
        requires
            abs(y * p * q) <= mm * q,
            p >= 1,
            q >= 1,
    {
        assert(abs(y * p * q) == abs(y) * p * q);
        assert(abs(y) * q <= abs(y) * p * q);
    }
    assert(abs(x + sign * y) <= mm) by (nonlinear_arith)
        requires
            abs(x * p * q + sign * (y * p * q)) <= mm * q,
            p >= 1,
            q >= 1,
    {
        assert(x * p * q + sign * (y * p * q) == (x + sign * y) * p * q);
        assert(abs((x + sign * y) * p * q) == abs(x + sign * y) * p * q);
        assert(abs(x + sign * y) * q <= abs(x + sign * y) * p * q);
    }
}

/// Operands with at most `s` places whose magnitudes at scale `s` are bounded
/// as given can be added and subtracted exactly.
pub proof fn lemma_fits_within(a: (i128, u32), b: (i128, u32), s: nat, ba: int, bb: int)
    requires
        a.1 <= s,
        b.1 <= s,
        abs(at_scale(a, s)) <= ba,
        abs(at_scale(b, s)) <= bb,
        ba + bb <= max_mantissa(),
        ba >= 0,
        bb >= 0,
    ensures
        sum_fits(a, b),
        difference_fits(a, b),
{
    let m = max_u32(a.1, b.1) as nat;
    lemma_at_scale_step(a, m, s);
    lemma_at_scale_step(b, m, s);
    lemma_pow10_positive((s - m) as nat);
    let p = pow10((s - m) as nat);
    let x = at_scale(a, m);
    let y = at_scale(b, m);
    assert(abs(x) <= abs(x * p)) by (nonlinear_arith)
        requires
            p >= 1,
    ;
    assert(abs(y) <= abs(y * p)) by (nonlinear_arith)
        requires
            p >= 1,
    ;
}

/// `a + b` through `rust_decimal::Decimal::checked_add`.
/// Claims: the result is the one the name `decimal_checked_add` stands for, a
/// valid decimal; and where both operands and the exact sum fit in 96 bits at
/// the larger of the two scales, the sum is exact and keeps at most that scale.
#[verifier::external_body]
pub(crate) fn dec_checked_add(a: Dec, b: Dec) -> (r: Option<Dec>)
    ensures
        r is None <==> decimal_checked_add(a@.0, a@.1, b@.0, b@.1) is None,
        r matches Some(d) ==> decimal_checked_add(a@.0, a@.1, b@.0, b@.1) == Some(d@) && dec_valid(d@),
        sum_fits(a@, b@) ==> r is Some,
        r matches Some(d) ==> (sum_fits(a@, b@) ==> units(d@) == units(a@) + units(b@)
            && d@.1 <= max_u32(a@.1, b@.1)),
{
    let x = rust_decimal::Decimal::from_i128_with_scale(a.mantissa, a.scale);
    let y = rust_decimal::Decimal::from_i128_with_scale(b.mantissa, b.scale);
    match x.checked_add(y) {
        Some(d) => Some(Dec { mantissa: d.mantissa(), scale: d.scale() }),
        None => None,
    }
}

/// `a - b` through `rust_decimal::Decimal::checked_sub`.
/// Claims as for addition: the named result, valid; exact where it fits.
#[verifier::external_body]
pub(crate) fn dec_checked_sub(a: Dec, b: Dec) -> (r: Option<Dec>)
    ensures
        r is None <==> decimal_checked_sub(a@.0, a@.1, b@.0, b@.1) is None,
        r matches Some(d) ==> decimal_checked_sub(a@.0, a@.1, b@.0, b@.1) == Some(d@) && dec_valid(d@),
        difference_fits(a@, b@) ==> r is Some,
        r matches Some(d) ==> (difference_fits(a@, b@) ==> units(d@) == units(a@) - units(b@)
            && d@.1 <= max_u32(a@.1, b@.1)),
{
    let x = rust_decimal::Decimal::from_i128_with_scale(a.mantissa, a.scale);
    let y = rust_decimal::Decimal::from_i128_with_scale(b.mantissa, b.scale);
    match x.checked_sub(y) {
        Some(d) => Some(Dec { mantissa: d.mantissa(), scale: d.scale() }),
        None => None,
    }
}

/// `a * b` through `rust_decimal::Decimal::checked_mul`.
/// Claims: the named result, a valid decimal; and where the exact product has
/// at most 28 places and fits in 96 bits, that exact product (zero as plain
/// zero). Where it does not fit, the rounded result is left to the name.
#[verifier::external_body]
pub(crate) fn dec_checked_mul(a: Dec, b: Dec) -> (r: Option<Dec>)
    ensures
        r is None <==> decimal_checked_mul(a@.0, a@.1, b@.0, b@.1) is None,
        r matches Some(d) ==> decimal_checked_mul(a@.0, a@.1, b@.0, b@.1) == Some(d@) && dec_valid(d@),
        product_fits(a@, b@) ==> r is Some,
        r matches Some(d) ==> (product_fits(a@, b@) ==> d@ == exact_product(a@, b@)),
{
    let x = rust_decimal::Decimal::from_i128_with_scale(a.mantissa, a.scale);
    let y = rust_decimal::Decimal::from_i128_with_scale(b.mantissa, b.scale);
    match x.checked_mul(y) {
        Some(d) => Some(Dec { mantissa: d.mantissa(), scale: d.scale() }),
        None => None,
    }
}

/// `a / b` has an exact decimal value with at most 28 places and a mantissa
/// that fits in 96 bits (`q` units of 10^-28 with `q * b == a * 10^28`), and
/// `b`'s mantissa is nonzero and fits in 32 bits.
pub open spec fn quotient_fits(a: (i128, u32), b: (i128, u32)) -> bool {
    &&& b.0 != 0
    &&& abs(b.0 as int) < 0x1_0000_0000
    &&& exists|m: int, s: nat|
        s <= max_scale() && abs(m) <= max_mantissa() && #[trigger] (m * pow10((max_scale() - s) as nat))
            * units(b) == units(a) * pow10(max_scale())
}

/// `a / b` through `rust_decimal::Decimal::checked_div`.
/// Claims: the named result, a valid decimal; `None` when `b` is zero; and,
/// for a divisor whose mantissa fits in 32 bits, the exact quotient wherever it
/// fits (the division's remainder loop scales the quotient up until the
/// remainder is zero). Other quotients, rounded at 28 places, are left to the
/// name.
#[verifier::external_body]
pub(crate) fn dec_checked_div(a: Dec, b: Dec) -> (r: Option<Dec>)
    ensures
        r is None <==> decimal_checked_div(a@.0, a@.1, b@.0, b@.1) is None,
        r matches Some(d) ==> decimal_checked_div(a@.0, a@.1, b@.0, b@.1) == Some(d@) && dec_valid(d@),
        b@.0 == 0 ==> r is None,
        quotient_fits(a@, b@) ==> r is Some,
        r matches Some(d) ==> (quotient_fits(a@, b@) ==> units(d@) * units(b@) == units(a@) * pow10(max_scale())),
{
    let x = rust_decimal::Decimal::from_i128_with_scale(a.mantissa, a.scale);
    let y = rust_decimal::Decimal::from_i128_with_scale(b.mantissa, b.scale);
    match x.checked_div(y) {
        Some(d) => Some(Dec { mantissa: d.mantissa(), scale: d.scale() }),
        None => None,
    }
}

/// `a.round_dp(dp)` through `rust_decimal::Decimal::round_dp`, which rounds a
/// half to the even neighbour. Claims: the result is `a` when it has at most
/// `dp` places, else the mantissa divided by 10^(scale - dp) and rounded half
/// to even, at scale `dp`.
#[verifier::external_body]
pub(crate) fn dec_round_dp(a: Dec, dp: u32) -> (r: Dec)
    ensures
        r@ == spec_round_dp(a@, dp),
        dec_valid(r@),
{
    let x = rust_decimal::Decimal::from_i128_with_scale(a.mantissa, a.scale);
    let d = x.round_dp(dp);
    Dec { mantissa: d.mantissa(), scale: d.scale() }
}

/// `a <= b` through `rust_decimal::Decimal`'s ordering, which compares values.
#[verifier::external_body]
pub(crate) fn dec_le(a: Dec, b: Dec) -> (r: bool)
    ensures
        r == (units(a@) <= units(b@)),
{
    let x = rust_decimal::Decimal::from_i128_with_scale(a.mantissa, a.scale);
    let y = rust_decimal::Decimal::from_i128_with_scale(b.mantissa, b.scale);
    x <= y
}

/// `a == b` through `rust_decimal::Decimal`'s equality, which compares values.
#[verifier::external_body]
pub(crate) fn dec_eq(a: Dec, b: Dec) -> (r: bool)
    ensures
        r == (units(a@) == units(b@)),
{
    let x = rust_decimal::Decimal::from_i128_with_scale(a.mantissa, a.scale);
    let y = rust_decimal::Decimal::from_i128_with_scale(b.mantissa, b.scale);
    x == y
}

impl PartialEq for Dec {
    fn eq(&self, other: &Dec) -> (r: bool) {
        dec_eq(*self, *other)
    }
}

impl vstd::std_specs::cmp::PartialEqSpecImpl for Dec {
    open spec fn obeys_eq_spec() -> bool {
        true
    }

    open spec fn eq_spec(&self, other: &Dec) -> bool {
        units(self@) == units(other@)
    }
}

} // verus!
