//! Exact rational numbers with 64-bit numerator and denominator.
//!
//! The arithmetic itself is done by `num_rational::Ratio<i64>`; the library
//! holds a value as a plain numerator/denominator pair and reasons about it
//! through the cross-multiplied integer relations below.
use num_traits::{CheckedAdd, CheckedDiv, CheckedMul, CheckedSub};
use num_rational::Ratio;
use vstd::prelude::*;

verus! {

/// A rational number `num / den`.  Every value produced by this library has
/// a positive denominator and is in lowest terms.
#[derive(Clone, Copy, Debug, PartialEq, Eq, Structural)]
pub struct Rat {
    pub num: i64,
    pub den: i64,
}

impl Rat {
    /// The denominator is positive.
    pub open spec fn wf(self) -> bool {
        self.den > 0
    }

    /// The integer `n` as a rational number (`n / 1`).
    pub fn from_integer(n: i64) -> (r: Rat)
        ensures
            r.num == n,
            r.den == 1,
            r.wf(),
            is_reduced(r),
    {
        let r = Rat { num: n, den: 1 };
        proof {
            reveal(is_reduced);
            assert forall|k: int| #![trigger (r.num as int) % k, (r.den as int) % k] 1 < k implies !((r.num as int) % k == 0 && (r.den as int) % k == 0) by {
                vstd::arithmetic::div_mod::lemma_small_mod(1, k as nat);
            }
        }
        r
    }

    /// The rational number `numer / denom` in lowest terms.
    pub fn new(numer: i64, denom: i64) -> (r: Rat)
        requires
            denom > 0,
        ensures
            r.wf(),
            is_reduced(r),
            r.num * denom == numer * r.den,
            r.den <= denom,
            magnitude(r.num as int) <= magnitude(numer as int),
    {
        ratio_new(numer, denom)
    }
}

/// `r` is in lowest terms with a positive denominator.
#[verifier::opaque]
pub open spec fn is_reduced(r: Rat) -> bool {
    &&& r.den > 0
    &&& forall|k: int| #![trigger (r.num as int) % k, (r.den as int) % k] 1 < k ==> !((r.num as int) % k == 0 && (r.den as int) % k == 0)
}

/// `a` and `b` denote the same number.
pub open spec fn eqv(a: Rat, b: Rat) -> bool {
    a.num * b.den == b.num * a.den
}

/// `a` is smaller than `b`.
pub open spec fn lt(a: Rat, b: Rat) -> bool {
    a.num * b.den < b.num * a.den
}

/// `a` is at most `b`.
pub open spec fn le(a: Rat, b: Rat) -> bool {
    a.num * b.den <= b.num * a.den
}

/// `c == a + b`.
pub open spec fn is_sum(a: Rat, b: Rat, c: Rat) -> bool {
    c.num * (a.den * b.den) == (a.num * b.den + b.num * a.den) * c.den
}

/// `c == a - b`.
pub open spec fn is_diff(a: Rat, b: Rat, c: Rat) -> bool {
    c.num * (a.den * b.den) == (a.num * b.den - b.num * a.den) * c.den
}

/// `c == a * b`.
pub open spec fn is_prod(a: Rat, b: Rat, c: Rat) -> bool {
    c.num * (a.den * b.den) == (a.num * b.num) * c.den
}

/// The size of the integer `x`.
pub open spec fn magnitude(x: int) -> int {
    if x < 0 {
        -x
    } else {
        x
    }
}

/// The sizes of the cross products of `a` and `b` added up: a bound on the
/// numerator of their sum or difference over `a.den * b.den`.
pub open spec fn cross_size(a: Rat, b: Rat) -> int {
    magnitude(a.num as int) * b.den + magnitude(b.num as int) * a.den
}

/// `a + b` and `a - b` can be computed in `i64`: the product of the
/// denominators and the cross products, added up, fit.
pub open spec fn add_fits(a: Rat, b: Rat) -> bool {
    &&& a.den * b.den <= i64::MAX
    &&& cross_size(a, b) <= i64::MAX
}

/// `a * b` can be computed in `i64`: both products of terms fit.
pub open spec fn mul_fits(a: Rat, b: Rat) -> bool {
    &&& a.den * b.den <= i64::MAX
    &&& magnitude(a.num * b.num) <= i64::MAX
}

/// `a / b` can be computed in `i64`: `b` is not zero and both cross products
/// fit.
pub open spec fn div_fits(a: Rat, b: Rat) -> bool {
    &&& b.num != 0
    &&& magnitude(a.num * b.den) <= i64::MAX
    &&& magnitude(a.den * b.num) <= i64::MAX
}

/// `c == a / b` (and `b` is not zero).
pub open spec fn is_quot(a: Rat, b: Rat, c: Rat) -> bool {
    &&& b.num != 0
    &&& c.num * (a.den * b.num) == (a.num * b.den) * c.den
}

/// `Ratio::new`: the fraction `numer / denom` reduced to lowest terms.
/// The contract claims that the result has a positive denominator, is in
/// lowest terms and denotes the same number, and that the reduction (a
/// division of both terms by their positive gcd) makes neither term larger;
/// with a positive denominator it performs no negation and cannot panic.
#[verifier::external_body]
fn ratio_new(numer: i64, denom: i64) -> (r: Rat)
    requires
        denom > 0,
    ensures
        r.wf(),
        is_reduced(r),
        r.num * denom == numer * r.den,
        r.den <= denom,
        magnitude(r.num as int) <= magnitude(numer as int),
{
    let x = Ratio::new(numer, denom);
    Rat { num: *x.numer(), den: *x.denom() }
}

/// `<Ratio<i64> as CheckedAdd>::checked_add`.  The source computes
/// `lcm = (a.den / g) * b.den` (`g` the gcd of the denominators), the two
/// numerators scaled to `lcm`, their sum, and reduces `sum / lcm`, each step
/// checked.  The contract claims that a returned value is the exact sum in
/// lowest terms with a denominator at most `a.den * b.den` and a numerator
/// at most the sum of the cross products in size, and that `add_fits`
/// (which bounds every checked step) gives a value.  When else `None` comes
/// back is not characterised.
#[verifier::external_body]
pub(crate) fn checked_add(a: Rat, b: Rat) -> (r: Option<Rat>)
    requires
        a.wf(),
        b.wf(),
    ensures
        r matches Some(c) ==> c.wf() && is_reduced(c) && is_sum(a, b, c),
        r matches Some(c) ==> c.den <= a.den * b.den && magnitude(c.num as int) <= cross_size(a, b),
        add_fits(a, b) ==> r is Some,
{
    let x = Ratio::new_raw(a.num, a.den);
    let y = Ratio::new_raw(b.num, b.den);
    match x.checked_add(&y) {
        Some(z) => Some(Rat { num: *z.numer(), den: *z.denom() }),
        None => None,
    }
}

/// `<Ratio<i64> as CheckedSub>::checked_sub`, computed as `checked_add`
/// with a checked difference of the scaled numerators.  The contract claims
/// that a returned value is the exact difference in lowest terms, bounded as
/// for `checked_add`, and that `add_fits` gives a value.  When else `None`
/// comes back is not characterised.
#[verifier::external_body]
pub(crate) fn checked_sub(a: Rat, b: Rat) -> (r: Option<Rat>)
    requires
        a.wf(),
        b.wf(),
    ensures
        r matches Some(c) ==> c.wf() && is_reduced(c) && is_diff(a, b, c),
        r matches Some(c) ==> c.den <= a.den * b.den && magnitude(c.num as int) <= cross_size(a, b),
        add_fits(a, b) ==> r is Some,
{
    let x = Ratio::new_raw(a.num, a.den);
    let y = Ratio::new_raw(b.num, b.den);
    match x.checked_sub(&y) {
        Some(z) => Some(Rat { num: *z.numer(), den: *z.denom() }),
        None => None,
    }
}

/// `<Ratio<i64> as CheckedMul>::checked_mul`.  The source divides each
/// numerator and denominator by a positive gcd, multiplies them crosswise
/// with checks and reduces.  The contract claims that a returned value is the
/// exact product in lowest terms whose terms are at most the products of the
/// terms in size, and that `mul_fits` gives a value.  When else `None` comes
/// back is not characterised.
#[verifier::external_body]
pub(crate) fn checked_mul(a: Rat, b: Rat) -> (r: Option<Rat>)
    requires
        a.wf(),
        b.wf(),
    ensures
        r matches Some(c) ==> c.wf() && is_reduced(c) && is_prod(a, b, c),
        r matches Some(c) ==> c.den <= a.den * b.den && magnitude(c.num as int) <= magnitude(a.num * b.num),
        mul_fits(a, b) ==> r is Some,
{
    let x = Ratio::new_raw(a.num, a.den);
    let y = Ratio::new_raw(b.num, b.den);
    match x.checked_mul(&y) {
        Some(z) => Some(Rat { num: *z.numer(), den: *z.denom() }),
        None => None,
    }
}

/// `<Ratio<i64> as CheckedDiv>::checked_div`.  The source forms
/// `(a.num * b.den) / (a.den * b.num)` (first divided by gcds, with checked
/// products), then reduces it, negating both terms with checks when the
/// denominator is negative.  The contract claims that the result is `None`
/// when `b` is zero, that a returned value is the exact quotient in lowest
/// terms whose terms are at most those two products in size, and that
/// `div_fits` gives a value.  When else `None` comes back is not
/// characterised.  The source computes `gcd(a.num, b.num)`, whose `abs`
/// overflows for the pair `(0, i64::MIN)`; `requires` leaves that pair out.
#[verifier::external_body]
pub(crate) fn checked_div(a: Rat, b: Rat) -> (r: Option<Rat>)
    requires
        a.wf(),
        b.wf(),
        !(a.num == 0 && b.num == i64::MIN),
    ensures
        b.num == 0 ==> r is None,
        r matches Some(c) ==> c.wf() && is_reduced(c) && is_quot(a, b, c),
        r matches Some(c) ==> c.den <= magnitude(a.den * b.num) && magnitude(c.num as int) <= magnitude(a.num * b.den),
        div_fits(a, b) ==> r is Some,
{
    let x = Ratio::new_raw(a.num, a.den);
    let y = Ratio::new_raw(b.num, b.den);
    match x.checked_div(&y) {
        Some(z) => Some(Rat { num: *z.numer(), den: *z.denom() }),
        None => None,
    }
}

/// `<Ratio<i64> as PartialOrd>::lt`: whether `a` denotes a smaller number
/// than `b` (the source compares floored quotients and remainders, which
/// cannot overflow for positive denominators).
#[verifier::external_body]
pub(crate) fn less_than(a: Rat, b: Rat) -> (r: bool)
    requires
        a.wf(),
        b.wf(),
    ensures
        r == lt(a, b),
{
    Ratio::new_raw(a.num, a.den) < Ratio::new_raw(b.num, b.den)
}

/// `<Ratio<i64> as PartialEq>::eq`: whether `a` and `b` denote the same
/// number.
#[verifier::external_body]
pub(crate) fn same_value(a: Rat, b: Rat) -> (r: bool)
    requires
        a.wf(),
        b.wf(),
    ensures
        r == eqv(a, b),
{
    Ratio::new_raw(a.num, a.den) == Ratio::new_raw(b.num, b.den)
}

/// The smaller of `a` and `b`, `a` when they are equal (as `std::cmp::min`).
pub fn min_of(a: Rat, b: Rat) -> (r: Rat)
    requires
        a.wf(),
        b.wf(),
    ensures
        r == (if lt(b, a) { b } else { a }),
        le(r, a),
        le(r, b),
{
    proof {
        lemma_lt_total(a, b);
    }
    if less_than(b, a) {
        b
    } else {
        a
    }
}

/// `r` denotes the number `n / d`.
pub open spec fn has_value(r: Rat, n: int, d: int) -> bool {
    r.num * d == n * r.den
}

// ---------------------------------------------------------------------------
// Arithmetic lemmas
// ---------------------------------------------------------------------------

/// Cancel a non-zero factor: `u * k == v * k` with `k != 0` gives `u == v`.
pub proof fn lemma_cancel(u: int, v: int, k: int)
    requires
        k != 0,
        u * k == v * k,
    ensures
        u == v,
{
    assert((u - v) * k == 0) by (nonlinear_arith)
        requires
            u * k == v * k,
    ;
    assert(u - v == 0) by (nonlinear_arith)
        requires
            (u - v) * k == 0,
            k != 0,
    ;
}

/// Products of positive denominators are positive.
pub proof fn lemma_pos_mul(u: int, v: int)
    requires
        u > 0,
        v > 0,
    ensures
        u * v > 0,
{
    assert(u * v > 0) by (nonlinear_arith)
        requires
            u > 0,
            v > 0,
    ;
}

/// The sum of `x / d` and `y / d` is `(x + y) / d`.
pub proof fn lemma_sum_value(a: Rat, b: Rat, c: Rat, x: int, y: int, d: int)
    requires
        a.wf(),
        b.wf(),
        c.wf(),
        has_value(a, x, d),
        has_value(b, y, d),
        is_sum(a, b, c),
    ensures
        has_value(c, x + y, d),
{
    let an = a.num as int;
    let ad = a.den as int;
    let bn = b.num as int;
    let bd = b.den as int;
    let cn = c.num as int;
    let cd = c.den as int;
    let ab = ad * bd;
    lemma_pos_mul(ad, bd);
    assert(cn * ab * d == (an * bd + bn * ad) * cd * d);
    let u = an * bd;
    let v = bn * ad;
    assert((u + v) * cd * d == u * cd * d + v * cd * d) by (nonlinear_arith);
    assert(u * cd * d == ((an * d) * bd) * cd) by (nonlinear_arith)
        requires
            u == an * bd,
    ;
    assert(v * cd * d == ((bn * d) * ad) * cd) by (nonlinear_arith)
        requires
            v == bn * ad,
    ;
    assert(((an * d) * bd + (bn * d) * ad) * cd == ((an * d) * bd) * cd + ((bn * d) * ad) * cd) by (nonlinear_arith);
    assert(((an * d) * bd + (bn * d) * ad) * cd == ((x * ad) * bd + (y * bd) * ad) * cd);
    assert(((x * ad) * bd + (y * bd) * ad) * cd == ((x + y) * cd) * ab) by (nonlinear_arith)
        requires
            ab == ad * bd,
    ;
    assert(cn * ab * d == (cn * d) * ab) by (nonlinear_arith);
    lemma_cancel(cn * d, (x + y) * cd, ab);
}

/// The product of `x / p` and `y / q` is `(x * y) / (p * q)`.
pub proof fn lemma_prod_value(a: Rat, b: Rat, c: Rat, x: int, p: int, y: int, q: int)
    requires
        a.wf(),
        b.wf(),
        c.wf(),
        has_value(a, x, p),
        has_value(b, y, q),
        is_prod(a, b, c),
    ensures
        has_value(c, x * y, p * q),
{
    let an = a.num as int;
    let ad = a.den as int;
    let bn = b.num as int;
    let bd = b.den as int;
    let cn = c.num as int;
    let cd = c.den as int;
    let ab = ad * bd;
    lemma_pos_mul(ad, bd);
    assert(cn * ab * (p * q) == (an * bn) * cd * (p * q));
    assert((an * bn) * cd * (p * q) == ((an * p) * (bn * q)) * cd) by (nonlinear_arith);
    assert(((an * p) * (bn * q)) * cd == ((x * ad) * (y * bd)) * cd);
    assert(((x * ad) * (y * bd)) * cd == ((x * y) * cd) * ab) by (nonlinear_arith)
        requires
            ab == ad * bd,
    ;
    assert(cn * ab * (p * q) == (cn * (p * q)) * ab) by (nonlinear_arith);
    lemma_cancel(cn * (p * q), (x * y) * cd, ab);
}

/// The quotient of `x / p` and `y / q` is `(x * q) / (p * y)`.
pub proof fn lemma_quot_value(a: Rat, b: Rat, c: Rat, x: int, p: int, y: int, q: int)
    requires
        a.wf(),
        b.wf(),
        c.wf(),
        q != 0,
        has_value(a, x, p),
        has_value(b, y, q),
        is_quot(a, b, c),
    ensures
        has_value(c, x * q, p * y),
{
    let an = a.num as int;
    let ad = a.den as int;
    let bn = b.num as int;
    let bd = b.den as int;
    let cn = c.num as int;
    let cd = c.den as int;
    // c * (ad * bn) == (an * bd) * cd; multiply both sides by p * q.
    assert(cn * (ad * bn) * (p * q) == (an * bd) * cd * (p * q));
    assert(cn * (ad * bn) * (p * q) == (cn * ad) * (bn * q) * p) by (nonlinear_arith);
    assert((cn * ad) * (bn * q) * p == (cn * ad) * (y * bd) * p);
    assert((an * bd) * cd * (p * q) == (an * p) * bd * cd * q) by (nonlinear_arith);
    assert((an * p) * bd * cd * q == (x * ad) * bd * cd * q);
    assert((cn * ad) * (y * bd) * p == (cn * (p * y)) * (ad * bd)) by (nonlinear_arith);
    assert((x * ad) * bd * cd * q == ((x * q) * cd) * (ad * bd)) by (nonlinear_arith);
    lemma_pos_mul(ad, bd);
    lemma_cancel(cn * (p * y), (x * q) * cd, ad * bd);
}

/// Scaling a fraction by a factor keeps its value.
pub proof fn lemma_value_scale(r: Rat, n: int, d: int, k: int)
    requires
        has_value(r, n, d),
    ensures
        has_value(r, n * k, d * k),
{
    assert(r.num * (d * k) == (n * k) * r.den) by (nonlinear_arith)
        requires
            r.num * d == n * r.den,
    ;
}

/// Equal numbers have the same values.
pub proof fn lemma_value_eqv(r: Rat, s: Rat, n: int, d: int)
    requires
        r.wf(),
        s.wf(),
        has_value(r, n, d),
        eqv(r, s),
    ensures
        has_value(s, n, d),
{
    let rn = r.num as int;
    let rd = r.den as int;
    let sn = s.num as int;
    let sd = s.den as int;
    assert(sn * d * rd == (rn * d) * sd) by (nonlinear_arith)
        requires
            rn * sd == sn * rd,
    ;
    assert((rn * d) * sd == (n * sd) * rd) by (nonlinear_arith)
        requires
            rn * d == n * rd,
    ;
    lemma_cancel(sn * d, n * sd, rd);
}

/// The sum of `x / p` and `y / q` is `(x * q + y * p) / (p * q)`.
pub proof fn lemma_sum_value_gen(a: Rat, b: Rat, c: Rat, x: int, p: int, y: int, q: int)
    requires
        a.wf(),
        b.wf(),
        c.wf(),
        has_value(a, x, p),
        has_value(b, y, q),
        is_sum(a, b, c),
    ensures
        has_value(c, x * q + y * p, p * q),
{
    lemma_value_scale(a, x, p, q);
    lemma_value_scale(b, y, q, p);
    assert(q * p == p * q) by (nonlinear_arith);
    lemma_sum_value(a, b, c, x * q, y * p, p * q);
}

/// `a < b` in terms of values: `x / p < y / q` with positive `p`, `q`.
pub proof fn lemma_lt_values(a: Rat, b: Rat, x: int, p: int, y: int, q: int)
    requires
        a.wf(),
        b.wf(),
        p > 0,
        q > 0,
        has_value(a, x, p),
        has_value(b, y, q),
    ensures
        lt(a, b) <==> x * q < y * p,
        le(a, b) <==> x * q <= y * p,
        eqv(a, b) <==> x * q == y * p,
{
    let an = a.num as int;
    let ad = a.den as int;
    let bn = b.num as int;
    let bd = b.den as int;
    // an * bd * p * q == x * ad * bd * q and bn * ad * p * q == y * bd * ad * p.
    assert(an * bd * (p * q) == (x * q) * (ad * bd)) by (nonlinear_arith)
        requires
            an * p == x * ad,
    ;
    assert(bn * ad * (p * q) == (y * p) * (ad * bd)) by (nonlinear_arith)
        requires
            bn * q == y * bd,
    ;
    lemma_pos_mul(p, q);
    lemma_pos_mul(ad, bd);
    let pq = p * q;
    let ab = ad * bd;
    assert(an * bd < bn * ad <==> an * bd * pq < bn * ad * pq) by (nonlinear_arith)
        requires
            pq > 0,
    ;
    assert(an * bd <= bn * ad <==> an * bd * pq <= bn * ad * pq) by (nonlinear_arith)
        requires
            pq > 0,
    ;
    assert(an * bd == bn * ad <==> an * bd * pq == bn * ad * pq) by (nonlinear_arith)
        requires
            pq > 0,
    ;
    assert(x * q * ab < y * p * ab <==> x * q < y * p) by (nonlinear_arith)
        requires
            ab > 0,
    ;
    assert(x * q * ab <= y * p * ab <==> x * q <= y * p) by (nonlinear_arith)
        requires
            ab > 0,
    ;
    assert(x * q * ab == y * p * ab <==> x * q == y * p) by (nonlinear_arith)
        requires
            ab > 0,
    ;
}

/// The number zero.
pub open spec fn zero() -> Rat {
    Rat { num: 0, den: 1 }
}

/// `a + d` denotes the same number as `b`.
pub open spec fn sum_eqv(a: Rat, d: Rat, b: Rat) -> bool {
    has_value(b, a.num * d.den + d.num * a.den, a.den * d.den)
}

/// `a + d` is at most `b`.
pub open spec fn sum_le(a: Rat, d: Rat, b: Rat) -> bool {
    (a.num * d.den + d.num * a.den) * b.den <= b.num * (a.den * d.den)
}

/// `b - a == d` gives `a + d == b`, and `d` is positive when `a < b`.
pub proof fn lemma_diff_then_sum(a: Rat, b: Rat, d: Rat)
    requires
        a.wf(),
        b.wf(),
        d.wf(),
        is_diff(b, a, d),
    ensures
        sum_eqv(a, d, b),
        lt(a, b) ==> lt(zero(), d),
{
    let an = a.num as int;
    let ad = a.den as int;
    let bn = b.num as int;
    let bd = b.den as int;
    let dn = d.num as int;
    let dd = d.den as int;
    assert(dn * (bd * ad) == (bn * ad - an * bd) * dd);
    assert(dn * ad * bd == dn * (bd * ad)) by (nonlinear_arith);
    assert((bn * ad - an * bd) * dd == bn * ad * dd - an * bd * dd) by (nonlinear_arith);
    assert((an * dd + dn * ad) * bd == an * dd * bd + dn * ad * bd) by (nonlinear_arith);
    assert(an * dd * bd == an * bd * dd) by (nonlinear_arith);
    assert(bn * (ad * dd) == bn * ad * dd) by (nonlinear_arith);
    if lt(a, b) {
        lemma_pos_mul(bd, ad);
        assert((bn * ad - an * bd) * dd > 0) by (nonlinear_arith)
            requires
                bn * ad - an * bd > 0,
                dd > 0,
        ;
        assert(dn > 0) by (nonlinear_arith)
            requires
                dn * (bd * ad) > 0,
                bd * ad > 0,
        ;
    }
}

/// `r <= d` and `a + d == b` give `a + r <= b`.
pub proof fn lemma_le_sum(a: Rat, r: Rat, d: Rat, b: Rat)
    requires
        a.wf(),
        r.wf(),
        d.wf(),
        b.wf(),
        le(r, d),
        sum_eqv(a, d, b),
    ensures
        sum_le(a, r, b),
{
    let an = a.num as int;
    let ad = a.den as int;
    let rn = r.num as int;
    let rd = r.den as int;
    let dn = d.num as int;
    let dd = d.den as int;
    let bn = b.num as int;
    let bd = b.den as int;
    // (an*rd + rn*ad)*bd*dd <= bn*(ad*rd)*dd
    assert((an * rd + rn * ad) * bd * dd == an * rd * bd * dd + (rn * dd) * (ad * bd)) by (nonlinear_arith);
    lemma_pos_mul(ad, bd);
    assert((rn * dd) * (ad * bd) <= (dn * rd) * (ad * bd)) by (nonlinear_arith)
        requires
            rn * dd <= dn * rd,
            ad * bd > 0,
    ;
    let u = an * dd;
    let v = dn * ad;
    assert(rd * ((u + v) * bd) == rd * u * bd + rd * v * bd) by (nonlinear_arith);
    assert(rd * u * bd == an * rd * bd * dd) by (nonlinear_arith)
        requires
            u == an * dd,
    ;
    assert(rd * v * bd == (dn * rd) * (ad * bd)) by (nonlinear_arith)
        requires
            v == dn * ad,
    ;
    assert(rd * ((an * dd + dn * ad) * bd) == rd * (bn * (ad * dd)));
    assert(rd * (bn * (ad * dd)) == bn * (ad * rd) * dd) by (nonlinear_arith);
    assert((an * rd + rn * ad) * bd <= bn * (ad * rd)) by (nonlinear_arith)
        requires
            (an * rd + rn * ad) * bd * dd <= bn * (ad * rd) * dd,
            dd > 0,
    ;
}

/// Adding the same number to equal numbers gives equal numbers.
pub proof fn lemma_sum_congruence(a: Rat, b: Rat, x: Rat, c: Rat, d: Rat)
    requires
        a.wf(),
        b.wf(),
        x.wf(),
        c.wf(),
        d.wf(),
        eqv(a, b),
        is_sum(a, x, c),
        is_sum(b, x, d),
    ensures
        eqv(c, d),
{
    let an = a.num as int;
    let ad = a.den as int;
    let xn = x.num as int;
    let xd = x.den as int;
    lemma_value_of(a);
    lemma_value_of(x);
    lemma_value_eqv(a, b, an, ad);
    lemma_sum_value_gen(a, x, c, an, ad, xn, xd);
    lemma_sum_value_gen(b, x, d, an, ad, xn, xd);
    lemma_pos_mul(ad, xd);
    lemma_same_value_eqv(c, d, an * xd + xn * ad, ad * xd);
}

/// `c == a2 + x` with `a2 == a`, `x == y` and `a + y == b` gives `c == b`.
pub proof fn lemma_sum_reaches(a2: Rat, a: Rat, x: Rat, y: Rat, c: Rat, b: Rat)
    requires
        a2.wf(),
        a.wf(),
        x.wf(),
        y.wf(),
        c.wf(),
        b.wf(),
        eqv(a2, a),
        eqv(x, y),
        is_sum(a2, x, c),
        sum_eqv(a, y, b),
    ensures
        eqv(c, b),
{
    let an = a.num as int;
    let ad = a.den as int;
    let yn = y.num as int;
    let yd = y.den as int;
    lemma_value_of(a);
    lemma_value_of(y);
    lemma_eqv_sym(a2, a);
    lemma_value_eqv(a, a2, an, ad);
    lemma_eqv_sym(x, y);
    lemma_value_eqv(y, x, yn, yd);
    lemma_sum_value_gen(a2, x, c, an, ad, yn, yd);
    lemma_pos_mul(ad, yd);
    lemma_same_value_eqv(c, b, an * yd + yn * ad, ad * yd);
}

/// Adding a non-negative number does not decrease.
pub proof fn lemma_sum_nonneg(a: Rat, x: Rat, c: Rat)
    requires
        a.wf(),
        x.wf(),
        c.wf(),
        le(zero(), x),
        is_sum(a, x, c),
    ensures
        le(a, c),
{
    let an = a.num as int;
    let ad = a.den as int;
    let xn = x.num as int;
    let xd = x.den as int;
    lemma_value_of(a);
    lemma_value_of(x);
    lemma_sum_value_gen(a, x, c, an, ad, xn, xd);
    lemma_pos_mul(ad, xd);
    lemma_lt_values(a, c, an, ad, an * xd + xn * ad, ad * xd);
    assert(an * (ad * xd) <= (an * xd + xn * ad) * ad) by (nonlinear_arith)
        requires
            xn >= 0,
            ad > 0,
    ;
}

/// A number's value is its own fraction.
pub proof fn lemma_value_of(r: Rat)
    ensures
        has_value(r, r.num as int, r.den as int),
{
}

/// Two numbers with the same value `n / d` (for `d != 0`) are equal.
pub proof fn lemma_same_value_eqv(a: Rat, b: Rat, n: int, d: int)
    requires
        a.wf(),
        b.wf(),
        d != 0,
        has_value(a, n, d),
        has_value(b, n, d),
    ensures
        eqv(a, b),
{
    assert(a.num * b.den * d == b.num * a.den * d) by (nonlinear_arith)
        requires
            a.num * d == n * a.den,
            b.num * d == n * b.den,
    ;
    assert(a.num * b.den == b.num * a.den) by (nonlinear_arith)
        requires
            a.num * b.den * d == b.num * a.den * d,
            d != 0,
    ;
}

// ---------------------------------------------------------------------------
// Order and equality lemmas
// ---------------------------------------------------------------------------

pub proof fn lemma_eqv_refl(a: Rat)
    ensures
        eqv(a, a),
{
}

pub proof fn lemma_eqv_sym(a: Rat, b: Rat)
    requires
        eqv(a, b),
    ensures
        eqv(b, a),
{
}

pub proof fn lemma_eqv_trans(a: Rat, b: Rat, c: Rat)
    requires
        a.wf(),
        b.wf(),
        c.wf(),
        eqv(a, b),
        eqv(b, c),
    ensures
        eqv(a, c),
{
    assert(a.num * c.den * b.den == c.num * a.den * b.den) by (nonlinear_arith)
        requires
            a.num * b.den == b.num * a.den,
            b.num * c.den == c.num * b.den,
    ;
    assert(a.num * c.den == c.num * a.den) by (nonlinear_arith)
        requires
            a.num * c.den * b.den == c.num * a.den * b.den,
            b.den > 0,
    ;
}

/// `lt` and `eqv` split all pairs: exactly one of `a < b`, `a == b`, `b < a`.
pub proof fn lemma_lt_total(a: Rat, b: Rat)
    ensures
        lt(a, b) || eqv(a, b) || lt(b, a),
        !(lt(a, b) && eqv(a, b)),
        !(lt(a, b) && lt(b, a)),
        !(lt(b, a) && eqv(a, b)),
        le(a, b) <==> (lt(a, b) || eqv(a, b)),
        le(a, b) <==> !lt(b, a),
{
}

pub proof fn lemma_lt_trans(a: Rat, b: Rat, c: Rat)
    requires
        a.wf(),
        b.wf(),
        c.wf(),
        lt(a, b),
        lt(b, c),
    ensures
        lt(a, c),
{
    assert(a.num * b.den * c.den < b.num * a.den * c.den) by (nonlinear_arith)
        requires
            a.num * b.den < b.num * a.den,
            c.den > 0,
    ;
    assert(b.num * c.den * a.den < c.num * b.den * a.den) by (nonlinear_arith)
        requires
            b.num * c.den < c.num * b.den,
            a.den > 0,
    ;
    assert(a.num * c.den * b.den < c.num * a.den * b.den) by (nonlinear_arith)
        requires
            a.num * b.den * c.den < b.num * a.den * c.den,
            b.num * c.den * a.den < c.num * b.den * a.den,
    ;
    assert(a.num * c.den < c.num * a.den) by (nonlinear_arith)
        requires
            a.num * c.den * b.den < c.num * a.den * b.den,
            b.den > 0,
    ;
}

pub proof fn lemma_le_trans(a: Rat, b: Rat, c: Rat)
    requires
        a.wf(),
        b.wf(),
        c.wf(),
        le(a, b),
        le(b, c),
    ensures
        le(a, c),
{
    assert(a.num * b.den * c.den <= b.num * a.den * c.den) by (nonlinear_arith)
        requires
            a.num * b.den <= b.num * a.den,
            c.den > 0,
    ;
    assert(b.num * c.den * a.den <= c.num * b.den * a.den) by (nonlinear_arith)
        requires
            b.num * c.den <= c.num * b.den,
            a.den > 0,
    ;
    assert(a.num * c.den * b.den <= c.num * a.den * b.den) by (nonlinear_arith)
        requires
            a.num * b.den * c.den <= b.num * a.den * c.den,
            b.num * c.den * a.den <= c.num * b.den * a.den,
    ;
    assert(a.num * c.den <= c.num * a.den) by (nonlinear_arith)
        requires
            a.num * c.den * b.den <= c.num * a.den * b.den,
            b.den > 0,
    ;
}

pub proof fn lemma_lt_le_trans(a: Rat, b: Rat, c: Rat)
    requires
        a.wf(),
        b.wf(),
        c.wf(),
        lt(a, b),
        le(b, c),
    ensures
        lt(a, c),
{
    lemma_lt_total(b, c);
    if eqv(b, c) {
        lemma_lt_eqv_right(a, b, c);
    } else {
        lemma_lt_trans(a, b, c);
    }
}

pub proof fn lemma_le_lt_trans(a: Rat, b: Rat, c: Rat)
    requires
        a.wf(),
        b.wf(),
        c.wf(),
        le(a, b),
        lt(b, c),
    ensures
        lt(a, c),
{
    lemma_lt_total(a, b);
    if eqv(a, b) {
        lemma_eqv_sym(a, b);
        lemma_lt_eqv_left(b, a, c);
    } else {
        lemma_lt_trans(a, b, c);
    }
}

/// `a < b` and `b == c` give `a < c`.
pub proof fn lemma_lt_eqv_right(a: Rat, b: Rat, c: Rat)
    requires
        a.wf(),
        b.wf(),
        c.wf(),
        lt(a, b),
        eqv(b, c),
    ensures
        lt(a, c),
{
    assert(a.num * b.den * c.den < b.num * a.den * c.den) by (nonlinear_arith)
        requires
            a.num * b.den < b.num * a.den,
            c.den > 0,
    ;
    assert(b.num * c.den * a.den == c.num * b.den * a.den) by (nonlinear_arith)
        requires
            b.num * c.den == c.num * b.den,
    ;
    assert(a.num * c.den * b.den < c.num * a.den * b.den) by (nonlinear_arith)
        requires
            a.num * b.den * c.den < b.num * a.den * c.den,
            b.num * c.den * a.den == c.num * b.den * a.den,
    ;
    assert(a.num * c.den < c.num * a.den) by (nonlinear_arith)
        requires
            a.num * c.den * b.den < c.num * a.den * b.den,
            b.den > 0,
    ;
}

/// `b < a` and `b == c` give `c < a`.
pub proof fn lemma_lt_eqv_left(b: Rat, c: Rat, a: Rat)
    requires
        a.wf(),
        b.wf(),
        c.wf(),
        lt(b, a),
        eqv(b, c),
    ensures
        lt(c, a),
{
    assert(b.num * a.den * c.den < a.num * b.den * c.den) by (nonlinear_arith)
        requires
            b.num * a.den < a.num * b.den,
            c.den > 0,
    ;
    assert(b.num * c.den * a.den == c.num * b.den * a.den) by (nonlinear_arith)
        requires
            b.num * c.den == c.num * b.den,
    ;
    assert(c.num * a.den * b.den < a.num * c.den * b.den) by (nonlinear_arith)
        requires
            b.num * a.den * c.den < a.num * b.den * c.den,
            b.num * c.den * a.den == c.num * b.den * a.den,
    ;
    assert(c.num * a.den < a.num * c.den) by (nonlinear_arith)
        requires
            c.num * a.den * b.den < a.num * c.den * b.den,
            b.den > 0,
    ;
}

} // verus!
