//! The amount of water on a landscape, and its conservation: rain adds one
//! unit of water per unit of time on every segment, no more and no less.
use std::ops::Range;
use vstd::prelude::*;
use crate::rational::{
    eqv, has_value, is_diff, is_sum, le, lemma_cancel, lemma_eqv_sym, lemma_eqv_trans,
    lemma_le_lt_trans, lemma_lt_eqv_left, lemma_lt_values, lemma_pos_mul,
    lemma_sum_congruence, lemma_sum_value_gen, lemma_value_eqv, lemma_value_of, lemma_value_scale,
    lt, sum_le, zero, Rat,
};
use crate::rain::{
    all_wf, below_wall, inflow_twice, inflow_twice_sum, is_basin,
    lemma_currents_cover_landscape, max_level, range_len,
};
use crate::flood::{
    in_no_range, in_range, is_depth, is_rain_step, lemma_inflow_bounds, lemma_maxima_ordered,
    rained_in, rained_once,
};

verus! {

/// The denominator of the total height of `s` (the product of the
/// denominators).
pub open spec fn water_den(s: Seq<Rat>) -> int
    decreases s.len(),
{
    if s.len() == 0 {
        1
    } else {
        water_den(s.drop_last()) * s.last().den
    }
}

/// The numerator of the total height of `s`, over `water_den(s)`.
pub open spec fn water_num(s: Seq<Rat>) -> int
    decreases s.len(),
{
    if s.len() == 0 {
        0
    } else {
        water_num(s.drop_last()) * s.last().den + s.last().num * water_den(s.drop_last())
    }
}

/// The sum of the integers `a[lo..hi]`.
pub open spec fn isum(a: Seq<int>, lo: int, hi: int) -> int
    decreases hi - lo,
{
    if hi <= lo {
        0
    } else {
        isum(a, lo, hi - 1) + a[hi - 1]
    }
}

/// Both fractions `p / pp` and `q / qq` are values of `x`.
pub proof fn lemma_two_values(x: Rat, p: int, pp: int, q: int, qq: int)
    requires
        x.wf(),
        has_value(x, p, pp),
        has_value(x, q, qq),
    ensures
        p * qq == q * pp,
{
    assert(p * qq * x.den == q * pp * x.den) by (nonlinear_arith)
        requires
            x.num * pp == p * x.den,
            x.num * qq == q * x.den,
    ;
    lemma_cancel(p * qq, q * pp, x.den as int);
}

/// The denominator of the total height is positive.
pub proof fn lemma_water_den_pos(s: Seq<Rat>)
    requires
        all_wf(s),
    ensures
        water_den(s) > 0,
    decreases s.len(),
{
    if s.len() > 0 {
        lemma_water_den_pos(s.drop_last());
        lemma_pos_mul(water_den(s.drop_last()), s.last().den as int);
    }
}

/// Every denominator divides the denominator of the total height.
pub proof fn lemma_den_divides(s: Seq<Rat>, i: int) -> (q: int)
    requires
        0 <= i < s.len(),
    ensures
        water_den(s) == s[i].den * q,
    decreases s.len(),
{
    let t = s.drop_last();
    if i == s.len() - 1 {
        assert(water_den(s) == s[i].den * water_den(t)) by (nonlinear_arith)
            requires
                water_den(s) == water_den(t) * s.last().den,
                s.last() == s[i],
        ;
        water_den(t)
    } else {
        let q0 = lemma_den_divides(t, i);
        assert(t[i] == s[i]);
        assert(water_den(s) == s[i].den * (q0 * s.last().den)) by (nonlinear_arith)
            requires
                water_den(s) == water_den(t) * s.last().den,
                water_den(t) == s[i].den * q0,
        ;
        q0 * s.last().den
    }
}

/// When every height is `a[i] / m`, the total height is `isum(a) / m`.
pub proof fn lemma_water_scaled(s: Seq<Rat>, a: Seq<int>, m: int)
    requires
        all_wf(s),
        a.len() == s.len(),
        forall|i: int| 0 <= i < s.len() ==> has_value(#[trigger] s[i], a[i], m),
    ensures
        water_num(s) * m == isum(a, 0, s.len() as int) * water_den(s),
    decreases s.len(),
{
    if s.len() > 0 {
        let t = s.drop_last();
        let b = a.drop_last();
        let n = s.len() - 1;
        assert forall|i: int| 0 <= i < t.len() implies has_value(#[trigger] t[i], b[i], m) by {
            assert(t[i] == s[i]);
        }
        lemma_water_scaled(t, b, m);
        lemma_isum_prefix(a, b, n);
        let x = s.last();
        assert(has_value(s[n], a[n], m));
        let nt = water_num(t);
        let dt = water_den(t);
        let sb = isum(b, 0, n);
        assert(water_num(s) * m == (nt * x.den + x.num * dt) * m);
        assert((nt * x.den + x.num * dt) * m == (nt * m) * x.den + (x.num * m) * dt) by (nonlinear_arith);
        assert((nt * m) * x.den + (x.num * m) * dt == (sb * dt) * x.den + (a[n] * x.den) * dt);
        assert((sb * dt) * x.den + (a[n] * x.den) * dt == (sb + a[n]) * (dt * x.den)) by (nonlinear_arith);
    }
}

/// `isum` over a prefix only reads the prefix.
pub proof fn lemma_isum_prefix(a: Seq<int>, b: Seq<int>, n: int)
    requires
        0 <= n <= b.len(),
        b.len() <= a.len(),
        forall|i: int| 0 <= i < n ==> a[i] == b[i],
    ensures
        isum(a, 0, n) == isum(b, 0, n),
    decreases n,
{
    if n > 0 {
        lemma_isum_prefix(a, b, n - 1);
    }
}

/// `isum` splits at any point in between.
pub proof fn lemma_isum_split(a: Seq<int>, lo: int, mid: int, hi: int)
    requires
        lo <= mid <= hi,
    ensures
        isum(a, lo, hi) == isum(a, lo, mid) + isum(a, mid, hi),
    decreases hi - mid,
{
    if hi > mid {
        lemma_isum_split(a, lo, mid, hi - 1);
    }
}

/// The sum of `hi - lo` copies of `c`.
pub proof fn lemma_isum_const(a: Seq<int>, lo: int, hi: int, c: int)
    requires
        lo <= hi,
        forall|i: int| lo <= i < hi ==> a[i] == c,
    ensures
        isum(a, lo, hi) == (hi - lo) * c,
    decreases hi - lo,
{
    if hi > lo {
        lemma_isum_const(a, lo, hi - 1, c);
        assert(a[hi - 1] == c);
        assert((hi - 1 - lo) * c + c == (hi - lo) * c) by (nonlinear_arith);
    } else {
        assert((hi - lo) * c == 0) by (nonlinear_arith)
            requires
                hi == lo,
        ;
    }
}

/// `c == a + x`, with `a == p / m` and `c == q / m`, makes `x == (q - p) / m`.
pub proof fn lemma_rise_scaled(a: Rat, x: Rat, c: Rat, p: int, q: int, m: int)
    requires
        a.wf(),
        x.wf(),
        c.wf(),
        m != 0,
        is_sum(a, x, c),
        has_value(a, p, m),
        has_value(c, q, m),
    ensures
        has_value(x, q - p, m),
{
    let xn = x.num as int;
    let xd = x.den as int;
    crate::rational::lemma_value_of(x);
    lemma_sum_value_gen(a, x, c, p, m, xn, xd);
    lemma_value_scale(c, q, m, xd);
    lemma_two_values(c, p * xd + xn * m, m * xd, q * xd, m * xd);
    assert(m * xd != 0) by (nonlinear_arith)
        requires
            m != 0,
            xd > 0,
    ;
    lemma_cancel(p * xd + xn * m, q * xd, m * xd);
    assert(xn * m == (q - p) * xd) by (nonlinear_arith)
        requires
            p * xd + xn * m == q * xd,
    ;
}

/// The water held by the basins `bs[..k]`, each `range_len(bs[j])` wide and
/// raised by `delta[j]`.
pub open spec fn basin_water(bs: Seq<Range<usize>>, delta: Seq<int>, k: int) -> int
    decreases k,
{
    if k <= 0 {
        0
    } else {
        basin_water(bs, delta, k - 1) + range_len(bs[k - 1]) * delta[k - 1]
    }
}

/// Twice the water the basins `bs[..k]` receive, when each receives
/// `inflow_twice(ms, j) * s`.
proof fn lemma_basin_water_inflow(ms: Seq<Range<usize>>, bs: Seq<Range<usize>>, delta: Seq<int>, s: int, k: int)
    requires
        0 <= k <= bs.len(),
        bs.len() <= delta.len(),
        forall|j: int| 0 <= j < bs.len() ==> 2 * (range_len(#[trigger] bs[j]) * delta[j]) == inflow_twice(ms, j) * s,
    ensures
        2 * basin_water(bs, delta, k) == s * inflow_twice_sum(ms, k),
    decreases k,
{
    if k > 0 {
        lemma_basin_water_inflow(ms, bs, delta, s, k - 1);
        assert(2 * (range_len(bs[k - 1]) * delta[k - 1]) == inflow_twice(ms, k - 1) * s);
        assert(s * inflow_twice_sum(ms, k) == s * inflow_twice_sum(ms, k - 1) + s * inflow_twice(ms, k - 1)) by (nonlinear_arith)
            requires
                inflow_twice_sum(ms, k) == inflow_twice_sum(ms, k - 1) + inflow_twice(ms, k - 1),
        ;
        assert(inflow_twice(ms, k - 1) * s == s * inflow_twice(ms, k - 1)) by (nonlinear_arith);
    }
}

/// The positions from the end of the basin `bs[k - 1]` (or from `0`) to the
/// start of the basin `bs[k]` (or to `n`) lie in no basin.
proof fn lemma_gap_dry(d: Seq<int>, bs: Seq<Range<usize>>, delta: Seq<int>, n: int, k: int)
    requires
        d.len() == n,
        0 <= k <= bs.len(),
        forall|j: int| 0 <= j < bs.len() ==> (#[trigger] bs[j]).start < bs[j].end <= n,
        forall|i: int, j: int| 0 <= i < j < bs.len() ==> (#[trigger] bs[i]).end <= (#[trigger] bs[j]).start,
        forall|i: int| 0 <= i < n && in_no_range(bs, i) ==> #[trigger] d[i] == 0,
    ensures
        isum(d, if k == 0 { 0 } else { bs[k - 1].end as int }, if k == bs.len() { n } else { bs[k].start as int }) == 0,
{
    let lo: int = if k == 0 { 0 } else { bs[k - 1].end as int };
    let hi: int = if k == bs.len() { n } else { bs[k].start as int };
    assert forall|i: int| lo <= i < hi implies d[i] == 0 by {
        assert forall|j: int| 0 <= j < bs.len() implies !in_range(#[trigger] bs[j], i) by {
            if j < k - 1 {
                assert(bs[j].end <= bs[k - 1].start);
            } else if j > k {
                assert(bs[k].end <= bs[j].start);
            }
        }
        assert(in_no_range(bs, i));
    }
    if lo <= hi {
        lemma_isum_const(d, lo, hi, 0);
        assert((hi - lo) * 0 == 0) by (nonlinear_arith);
    }
}

/// The rises `d` over the whole landscape add up to the water of the basins:
/// `d` is `delta[k]` on the basin `bs[k]` and zero elsewhere.
proof fn lemma_rises_by_basin(d: Seq<int>, bs: Seq<Range<usize>>, delta: Seq<int>, n: int, k: int)
    requires
        d.len() == n,
        delta.len() == bs.len(),
        0 <= k <= bs.len(),
        forall|j: int| 0 <= j < bs.len() ==> (#[trigger] bs[j]).start < bs[j].end <= n,
        forall|i: int, j: int| 0 <= i < j < bs.len() ==> (#[trigger] bs[i]).end <= (#[trigger] bs[j]).start,
        forall|j: int, i: int| 0 <= j < bs.len() && #[trigger] in_range(bs[j], i) ==> d[i] == delta[j],
        forall|i: int| 0 <= i < n && in_no_range(bs, i) ==> #[trigger] d[i] == 0,
    ensures
        isum(d, 0, if k == 0 { 0 } else { bs[k - 1].end as int }) == basin_water(bs, delta, k),
        k == bs.len() ==> isum(d, 0, n) == basin_water(bs, delta, k),
    decreases k,
{
    let end_k: int = if k == 0 { 0 } else { bs[k - 1].end as int };
    if k > 0 {
        lemma_rises_by_basin(d, bs, delta, n, k - 1);
        lemma_gap_dry(d, bs, delta, n, k - 1);
        let s = bs[k - 1].start as int;
        let e = bs[k - 1].end as int;
        let before: int = if k == 1 { 0 } else { bs[k - 2].end as int };
        if k >= 2 {
            assert(bs[k - 2].end <= bs[k - 1].start);
        }
        assert forall|i: int| s <= i < e implies d[i] == delta[k - 1] by {
            assert(in_range(bs[k - 1], i));
        }
        lemma_isum_const(d, s, e, delta[k - 1]);
        lemma_isum_split(d, 0, before, e);
        lemma_isum_split(d, before, s, e);
        assert(range_len(bs[k - 1]) == e - s);
        assert(range_len(bs[k - 1]) * delta[k - 1] == (e - s) * delta[k - 1]);
    }
    if k == bs.len() {
        lemma_gap_dry(d, bs, delta, n, k);
        if k > 0 {
            assert(bs[k - 1].end <= n);
        }
        lemma_isum_split(d, 0, end_k, n);
    }
}

/// `b[i] == a[i] + d[i]` everywhere gives `isum(b) == isum(a) + isum(d)`.
proof fn lemma_isum_add(a: Seq<int>, b: Seq<int>, d: Seq<int>, n: int)
    requires
        0 <= n <= a.len(),
        a.len() == b.len(),
        b.len() == d.len(),
        forall|i: int| 0 <= i < a.len() ==> #[trigger] b[i] == a[i] + d[i],
    ensures
        isum(b, 0, n) == isum(a, 0, n) + isum(d, 0, n),
    decreases n,
{
    if n > 0 {
        lemma_isum_add(a, b, d, n - 1);
        assert(b[n - 1] == a[n - 1] + d[n - 1]);
    }
}

/// Conservation in a step, counted in units of `1 / m`: the heights before
/// are `a[i] / m`, after are `b[i] / m`, the step is `s / m`; when every
/// height is below the wall, the water gained is the step times the number
/// of segments.
proof fn lemma_step_water_scaled(
    l: Seq<Rat>,
    remaining: Rat,
    l2: Seq<Rat>,
    step: Rat,
    ms: Seq<Range<usize>>,
    bs: Seq<Range<usize>>,
    cs: Seq<Rat>,
    ds: Seq<Rat>,
    ts: Seq<Rat>,
    adds: Seq<Rat>,
    a: Seq<int>,
    b: Seq<int>,
    s: int,
    m: int,
)
    requires
        all_wf(l),
        all_wf(l2),
        step.wf(),
        1 <= l.len() <= usize::MAX,
        l.len() <= i64::MAX,
        below_wall(l),
        is_rain_step(l, remaining, l2, step, ms, bs, cs, ds, ts, adds),
        m > 0,
        a.len() == l.len(),
        b.len() == l.len(),
        forall|i: int| 0 <= i < l.len() ==> has_value(#[trigger] l[i], a[i], m),
        forall|i: int| 0 <= i < l.len() ==> has_value(#[trigger] l2[i], b[i], m),
        has_value(step, s, m),
    ensures
        isum(b, 0, l.len() as int) == isum(a, 0, l.len() as int) + l.len() * s,
{
    reveal(is_rain_step);
    let n = l.len() as int;
    let k = bs.len() as int;
    let d = Seq::new(l.len(), |i: int| b[i] - a[i]);
    assert forall|j: int| 0 <= j < k implies (#[trigger] bs[j]).start < bs[j].end <= n by {
        assert(is_basin(l, bs[j].start as int, bs[j].end as int));
    }
    // Inside a basin every segment rises by the rise of the basin.
    assert forall|j: int, i: int| 0 <= j < k && #[trigger] in_range(bs[j], i) implies has_value(adds[j], d[i], m) by {
        assert(is_sum(l[i], adds[j], l2[i]));
        lemma_rise_scaled(l[i], adds[j], l2[i], a[i], b[i], m);
    }
    let delta = Seq::new(bs.len(), |j: int| d[bs[j].start as int]);
    assert forall|j: int, i: int| 0 <= j < k && #[trigger] in_range(bs[j], i) implies d[i] == delta[j] by {
        assert(in_range(bs[j], bs[j].start as int));
        assert(has_value(adds[j], d[i], m));
        assert(has_value(adds[j], delta[j], m));
        lemma_two_values(adds[j], d[i], m, delta[j], m);
        lemma_cancel(d[i], delta[j], m);
    }
    // Elsewhere nothing changes.
    assert forall|i: int| 0 <= i < n && in_no_range(bs, i) implies #[trigger] d[i] == 0 by {
        assert(l2[i] == l[i]);
        lemma_two_values(l[i], a[i], m, b[i], m);
        lemma_cancel(a[i], b[i], m);
    }
    lemma_rises_by_basin(d, bs, delta, n, k);
    // Each basin receives its current for the length of the step.
    assert forall|j: int| 0 <= j < k implies 2 * (range_len(#[trigger] bs[j]) * delta[j]) == inflow_twice(ms, j) * s by {
        let c = cs[j];
        let w = range_len(bs[j]);
        let cn = c.num as int;
        let cd = c.den as int;
        let sn = step.num as int;
        let sd = step.den as int;
        let dj = delta[j];
        let inflow = inflow_twice(ms, j);
        assert(in_range(bs[j], bs[j].start as int));
        assert(has_value(adds[j], dj, m));
        assert(has_value(adds[j], cn * sn, cd * sd * w));
        lemma_two_values(adds[j], dj, m, cn * sn, cd * sd * w);
        assert(has_value(c, inflow, 2));
        assert(dj * (cd * sd * w) == (cn * sn) * m);
        assert(2 * (w * dj) * (cd * sd) == 2 * (dj * (cd * sd * w))) by (nonlinear_arith);
        assert(2 * ((cn * sn) * m) == (cn * 2) * (sn * m)) by (nonlinear_arith);
        assert((cn * 2) * (sn * m) == (inflow * cd) * (s * sd));
        assert((inflow * cd) * (s * sd) == inflow * s * (cd * sd)) by (nonlinear_arith);
        lemma_pos_mul(cd, sd);
        lemma_cancel(2 * (w * dj), inflow * s, cd * sd);
    }
    lemma_basin_water_inflow(ms, bs, delta, s, k);
    lemma_maxima_ordered(l, ms);
    lemma_currents_cover_landscape(ms, n);
    assert(k == ms.len() - 1);
    assert(s * (2 * n) == 2 * (n * s)) by (nonlinear_arith);
    assert forall|i: int| 0 <= i < a.len() implies #[trigger] b[i] == a[i] + d[i] by {}
    lemma_isum_add(a, b, d, n);
}

/// The total height of `l2` is that of `l` plus `n * x`.
pub open spec fn adds_water(l: Seq<Rat>, l2: Seq<Rat>, x: Rat, n: int) -> bool {
    water_num(l2) * (water_den(l) * x.den) == (water_num(l) * x.den + n * x.num * water_den(l)) * water_den(l2)
}

/// `(d * k) / d == k` for the common multiple built from denominators.
proof fn lemma_scale_numerators(s: Seq<Rat>, m: int, k: int) -> (a: Seq<int>)
    requires
        all_wf(s),
        m == water_den(s) * k,
        k > 0,
    ensures
        a.len() == s.len(),
        forall|i: int| 0 <= i < s.len() ==> has_value(#[trigger] s[i], a[i], m),
{
    let a = Seq::new(s.len(), |i: int| s[i].num * (m / (s[i].den as int)));
    assert forall|i: int| 0 <= i < s.len() implies has_value(#[trigger] s[i], a[i], m) by {
        let q = lemma_den_divides(s, i);
        let dn = s[i].den as int;
        assert(m == dn * (q * k)) by (nonlinear_arith)
            requires
                m == water_den(s) * k,
                water_den(s) == dn * q,
        ;
        vstd::arithmetic::div_mod::lemma_div_multiples_vanish(q * k, dn);
        assert(m / dn == q * k);
        assert(s[i].num * m == (s[i].num * (q * k)) * dn) by (nonlinear_arith)
            requires
                m == dn * (q * k),
        ;
    }
    a
}

/// Law (one step): when every height is below the wall, a step of rain of
/// length `step` adds `step` units of water on each of the `n` segments.
pub proof fn lemma_step_conserves_water(l: Seq<Rat>, remaining: Rat, l2: Seq<Rat>, step: Rat)
    requires
        all_wf(l),
        step.wf(),
        1 <= l.len() <= usize::MAX,
        l.len() <= i64::MAX,
        below_wall(l),
        rained_once(l, remaining, l2, step),
    ensures
        adds_water(l, l2, step, l.len() as int),
{
    reveal(rained_once);
    let (ms, bs, cs, ds, ts, adds) = choose|ms: Seq<Range<usize>>, bs: Seq<Range<usize>>, cs: Seq<Rat>, ds: Seq<Rat>, ts: Seq<Rat>, adds: Seq<Rat>|
        #[trigger] is_rain_step(l, remaining, l2, step, ms, bs, cs, ds, ts, adds);
    assert(all_wf(l2) && l2.len() == l.len()) by {
        reveal(is_rain_step);
    }
    let n = l.len() as int;
    let d1 = water_den(l);
    let d2 = water_den(l2);
    let sd = step.den as int;
    let sn = step.num as int;
    lemma_water_den_pos(l);
    lemma_water_den_pos(l2);
    lemma_pos_mul(d2, sd);
    lemma_pos_mul(d1, d2 * sd);
    let m = d1 * (d2 * sd);
    let a = lemma_scale_numerators(l, m, d2 * sd);
    assert(m == d2 * (d1 * sd)) by (nonlinear_arith)
        requires
            m == d1 * (d2 * sd),
    ;
    lemma_pos_mul(d1, sd);
    let b = lemma_scale_numerators(l2, m, d1 * sd);
    let sv = sn * (d1 * d2);
    assert(sn * m == sv * sd) by (nonlinear_arith)
        requires
            m == d1 * (d2 * sd),
            sv == sn * (d1 * d2),
    ;
    lemma_step_water_scaled(l, remaining, l2, step, ms, bs, cs, ds, ts, adds, a, b, sv, m);
    lemma_water_scaled(l, a, m);
    lemma_water_scaled(l2, b, m);
    let n1 = water_num(l);
    let n2 = water_num(l2);
    let sa = isum(a, 0, n);
    let sb = isum(b, 0, n);
    // n1 * d2 * sd == sa and n2 * d1 * sd == sb.
    assert(n1 * (d2 * sd) * d1 == sa * d1) by (nonlinear_arith)
        requires
            n1 * m == sa * d1,
            m == d1 * (d2 * sd),
    ;
    lemma_cancel(n1 * (d2 * sd), sa, d1);
    assert(n2 * (d1 * sd) * d2 == sb * d2) by (nonlinear_arith)
        requires
            n2 * m == sb * d2,
            m == d1 * (d2 * sd),
    ;
    lemma_cancel(n2 * (d1 * sd), sb, d2);
    let t1 = n1 * sd;
    let t2 = n * sn * d1;
    assert((t1 + t2) * d2 == t1 * d2 + t2 * d2) by (nonlinear_arith);
    assert(n1 * sd * d2 == n1 * (d2 * sd)) by (nonlinear_arith);
    assert(n * sn * d1 * d2 == n * (sn * (d1 * d2))) by (nonlinear_arith);
}

/// Chaining: `a` to `b` adds `n * x`, `b` to `c` adds `n * y`, and
/// `y == z - x`: then `a` to `c` adds `n * z`.
proof fn lemma_adds_water_chain(a: Seq<Rat>, b: Seq<Rat>, c: Seq<Rat>, x: Rat, y: Rat, z: Rat, n: int)
    requires
        all_wf(a),
        all_wf(b),
        all_wf(c),
        x.wf(),
        y.wf(),
        z.wf(),
        adds_water(a, b, x, n),
        adds_water(b, c, y, n),
        is_diff(z, x, y),
    ensures
        adds_water(a, c, z, n),
{
    let na = water_num(a);
    let da = water_den(a);
    let nb = water_num(b);
    let db = water_den(b);
    let nc = water_num(c);
    let dc = water_den(c);
    let xn = x.num as int;
    let xd = x.den as int;
    let yn = y.num as int;
    let yd = y.den as int;
    let zn = z.num as int;
    let zd = z.den as int;
    lemma_water_den_pos(a);
    lemma_water_den_pos(b);
    lemma_water_den_pos(c);
    // (1) nb * (da * xd) == (na * xd + n * xn * da) * db
    // (2) nc * (db * yd) == (nb * yd + n * yn * db) * dc
    // (3) yn * (zd * xd) == (zn * xd - xn * zd) * yd
    let lhs = nc * (da * zd);
    let rhs = (na * zd + n * zn * da) * dc;
    let k = db * yd * xd;
    assert(lhs * k == (nc * (db * yd)) * (da * zd * xd)) by (nonlinear_arith)
        requires
            lhs == nc * (da * zd),
            k == db * yd * xd,
    ;
    assert((nc * (db * yd)) * (da * zd * xd) == ((nb * yd + n * yn * db) * dc) * (da * zd * xd));
    let u = nb * yd;
    let v = n * yn * db;
    let w = da * zd * xd;
    assert(((u + v) * dc) * w == u * dc * w + v * dc * w) by (nonlinear_arith);
    assert(u * dc * w == (nb * (da * xd)) * (yd * dc * zd)) by (nonlinear_arith)
        requires
            u == nb * yd,
            w == da * zd * xd,
    ;
    assert(v * dc * w == (n * db * dc * da) * (yn * (zd * xd))) by (nonlinear_arith)
        requires
            v == n * yn * db,
            w == da * zd * xd,
    ;
    let y3 = yd * dc * zd;
    let g = n * db * dc * da;
    let p = na * xd;
    let q = n * xn * da;
    let r = zn * xd;
    let t = xn * zd;
    assert((nb * (da * xd)) * y3 == ((p + q) * db) * y3);
    assert(g * (yn * (zd * xd)) == g * ((r - t) * yd));
    assert(((p + q) * db) * y3 == p * db * y3 + q * db * y3) by (nonlinear_arith);
    assert(g * ((r - t) * yd) == g * r * yd - g * t * yd) by (nonlinear_arith);
    let big = n * da * db * dc;
    let small = xn * zd * yd;
    assert((n * xn * da) * db * (yd * dc * zd) == (n * da * db) * xn * (yd * dc * zd)) by (nonlinear_arith);
    assert((n * da * db) * xn * (yd * dc * zd) == (n * da * db * dc) * (xn * zd * yd)) by (nonlinear_arith);
    assert((n * db * dc * da) * (xn * zd) * yd == (n * da * db * dc) * (xn * zd * yd)) by (nonlinear_arith);
    assert(q * db * y3 == g * t * yd);
    let sum = na * zd + n * zn * da;
    assert(db * yd * dc * xd * sum == db * yd * dc * xd * (na * zd) + db * yd * dc * xd * (n * zn * da)) by (nonlinear_arith)
        requires
            sum == na * zd + n * zn * da,
    ;
    assert(p * db * y3 == db * yd * dc * xd * (na * zd)) by (nonlinear_arith)
        requires
            p == na * xd,
            y3 == yd * dc * zd,
    ;
    assert((n * db * dc * da) * (zn * xd) * yd == (n * da * db * dc) * (zn * xd * yd)) by (nonlinear_arith);
    assert(db * yd * dc * xd * (n * zn * da) == (db * dc * xd * yd) * (n * zn * da)) by (nonlinear_arith);
    assert((db * dc * xd * yd) * (n * zn * da) == (n * da * db * dc) * (zn * xd * yd)) by (nonlinear_arith);
    assert(g * r * yd == db * yd * dc * xd * (n * zn * da));
    assert(db * yd * dc * xd * sum == rhs * k) by (nonlinear_arith)
        requires
            rhs == sum * dc,
            k == db * yd * xd,
    ;
    lemma_pos_mul(db, yd);
    lemma_pos_mul(db * yd, xd);
    lemma_cancel(lhs, rhs, k);
}

/// Adding zero water.
proof fn lemma_adds_no_water(l: Seq<Rat>, x: Rat, n: int)
    requires
        x.num == 0,
    ensures
        adds_water(l, l, x, n),
{
    let nl = water_num(l);
    let dl = water_den(l);
    assert(nl * (dl * x.den) == (nl * x.den + n * 0 * dl) * dl) by (nonlinear_arith);
}

/// The rise of a basin is at most its depth.
pub(crate) proof fn lemma_rise_le_depth(d: Rat, c: Rat, m: int, t: Rat, step: Rat, add: Rat)
    requires
        d.wf(),
        c.wf(),
        t.wf(),
        step.wf(),
        add.wf(),
        c.num > 0,
        m > 0,
        has_value(t, d.num * m * c.den, d.den * c.num),
        le(step, t),
        has_value(add, c.num * step.num, c.den * step.den * m),
    ensures
        le(add, d),
{
    let dn = d.num as int;
    let dd = d.den as int;
    let cn = c.num as int;
    let cd = c.den as int;
    let sn = step.num as int;
    let sd = step.den as int;
    let tn = t.num as int;
    let td = t.den as int;
    lemma_pos_mul(cd, sd);
    lemma_pos_mul(cd * sd, m);
    lemma_value_of(d);
    lemma_lt_values(add, d, cn * sn, cd * sd * m, dn, dd);
    assert(sn * td * (dd * cn) <= tn * sd * (dd * cn)) by (nonlinear_arith)
        requires
            sn * td <= tn * sd,
            dd > 0,
            cn > 0,
    ;
    assert(tn * sd * (dd * cn) == (dn * m * cd) * td * sd) by (nonlinear_arith)
        requires
            tn * (dd * cn) == (dn * m * cd) * td,
    ;
    assert((cn * sn * dd) * td == sn * td * (dd * cn)) by (nonlinear_arith);
    assert((dn * (cd * sd * m)) * td == (dn * m * cd) * td * sd) by (nonlinear_arith);
    assert(cn * sn * dd <= dn * (cd * sd * m)) by (nonlinear_arith)
        requires
            (cn * sn * dd) * td <= (dn * (cd * sd * m)) * td,
            td > 0,
    ;
}

/// `c == a2 + x` with `a2 == a`, `x <= y` and `a + y <= b` gives `c <= b`.
pub(crate) proof fn lemma_sum_stays_below(a2: Rat, a: Rat, x: Rat, y: Rat, c: Rat, b: Rat)
    requires
        a2.wf(),
        a.wf(),
        x.wf(),
        y.wf(),
        c.wf(),
        b.wf(),
        eqv(a2, a),
        le(x, y),
        is_sum(a2, x, c),
        sum_le(a, y, b),
    ensures
        le(c, b),
{
    let an = a.num as int;
    let ad = a.den as int;
    let xn = x.num as int;
    let xd = x.den as int;
    let yn = y.num as int;
    let yd = y.den as int;
    let bn = b.num as int;
    let bd = b.den as int;
    lemma_value_of(a);
    lemma_value_of(x);
    lemma_value_of(b);
    lemma_eqv_sym(a2, a);
    lemma_value_eqv(a, a2, an, ad);
    lemma_sum_value_gen(a2, x, c, an, ad, xn, xd);
    lemma_pos_mul(ad, xd);
    lemma_lt_values(c, b, an * xd + xn * ad, ad * xd, bn, bd);
    assert((an * xd + xn * ad) * bd * yd == an * xd * bd * yd + (xn * yd) * (ad * bd)) by (nonlinear_arith);
    lemma_pos_mul(ad, bd);
    assert((xn * yd) * (ad * bd) <= (yn * xd) * (ad * bd)) by (nonlinear_arith)
        requires
            xn * yd <= yn * xd,
            ad * bd > 0,
    ;
    let s1 = an * yd;
    let t1 = yn * ad;
    assert((s1 + t1) * bd * xd == s1 * bd * xd + t1 * bd * xd) by (nonlinear_arith);
    assert(s1 * bd * xd == an * xd * bd * yd) by (nonlinear_arith)
        requires
            s1 == an * yd,
    ;
    assert(t1 * bd * xd == (yn * xd) * (ad * bd)) by (nonlinear_arith)
        requires
            t1 == yn * ad,
    ;
    assert((an * yd + yn * ad) * bd * xd <= bn * (ad * yd) * xd) by (nonlinear_arith)
        requires
            (an * yd + yn * ad) * bd <= bn * (ad * yd),
            xd > 0,
    ;
    assert(bn * (ad * yd) * xd == bn * (ad * xd) * yd) by (nonlinear_arith);
    assert((an * xd + xn * ad) * bd <= bn * (ad * xd)) by (nonlinear_arith)
        requires
            (an * xd + xn * ad) * bd * yd <= bn * (ad * xd) * yd,
            yd > 0,
    ;
}

/// What a step of the rain guarantees about its result.
pub(crate) proof fn lemma_rained_once_facts(l: Seq<Rat>, remaining: Rat, l2: Seq<Rat>, step: Rat)
    requires
        remaining.wf(),
        rained_once(l, remaining, l2, step),
    ensures
        step.wf(),
        le(step, remaining),
        all_wf(l2),
        l2.len() == l.len(),
        exists|s: int, e: int| is_basin(l, s, e),
{
    reveal(rained_once);
    let (ms, bs, cs, ds, ts, adds) = choose|ms: Seq<Range<usize>>, bs: Seq<Range<usize>>, cs: Seq<Rat>, ds: Seq<Rat>, ts: Seq<Rat>, adds: Seq<Rat>|
        #[trigger] is_rain_step(l, remaining, l2, step, ms, bs, cs, ds, ts, adds);
    reveal(is_rain_step);
    assert(is_basin(l, bs[0].start as int, bs[0].end as int));
    if step != remaining {
        let k = choose|k: int| 0 <= k < bs.len() && step == #[trigger] ts[k];
        assert(ts[k].wf());
    }
}

/// From a landscape below the wall, a step of rain leads to a landscape
/// below the wall, or to a flat landscape at or above it, which has no
/// basin left.
proof fn lemma_step_keeps_below(l: Seq<Rat>, remaining: Rat, l2: Seq<Rat>, step: Rat)
    requires
        all_wf(l),
        remaining.wf(),
        1 <= l.len() <= usize::MAX,
        l.len() <= i64::MAX,
        below_wall(l),
        rained_once(l, remaining, l2, step),
    ensures
        below_wall(l2) || forall|s: int, e: int| !is_basin(l2, s, e),
{
    lemma_rained_once_facts(l, remaining, l2, step);
    reveal(rained_once);
    let (ms, bs, cs, ds, ts, adds) = choose|ms: Seq<Range<usize>>, bs: Seq<Range<usize>>, cs: Seq<Rat>, ds: Seq<Rat>, ts: Seq<Rat>, adds: Seq<Rat>|
        #[trigger] is_rain_step(l, remaining, l2, step, ms, bs, cs, ds, ts, adds);
    reveal(is_rain_step);
    let n = l.len() as int;
    let w = max_level();
    lemma_maxima_ordered(l, ms);
    if !below_wall(l2) {
        let i = choose|i: int| 0 <= i < n && !lt(#[trigger] l2[i], w);
        if in_no_range(bs, i) {
            assert(l2[i] == l[i]);
            assert(lt(l[i], w));
        }
        let j = choose|j: int| 0 <= j < bs.len() && #[trigger] in_range(bs[j], i);
        let s = bs[j].start as int;
        let e = bs[j].end as int;
        let d = ds[j];
        let c = cs[j];
        assert(is_basin(l, s, e));
        assert(is_depth(l, s, e, d));
        lemma_inflow_bounds(ms, j, ms.len() - 1);
        assert(c.num * 2 == inflow_twice(ms, j) * c.den);
        assert(inflow_twice(ms, j) * c.den >= 0) by (nonlinear_arith)
            requires
                inflow_twice(ms, j) >= 0,
                c.den > 0,
        ;
        assert(ts[j].wf());
        assert(cs[j].num != 0);
        assert(le(step, ts[j]));
        assert(adds[j].wf());
        lemma_rise_le_depth(d, c, range_len(bs[j]), ts[j], step, adds[j]);
        assert(eqv(l[i], l[s]));
        assert(is_sum(l[i], adds[j], l2[i]));
        if s > 0 {
            lemma_sum_stays_below(l[i], l[s], adds[j], d, l2[i], l[s - 1]);
            lemma_le_lt_trans(l2[i], l[s - 1], w);
            assert(false);
        } else if e < n {
            lemma_sum_stays_below(l[i], l[s], adds[j], d, l2[i], l[e]);
            lemma_le_lt_trans(l2[i], l[e], w);
            assert(false);
        } else {
            // The whole landscape is one basin: it stays flat.
            assert forall|x: int| 0 <= x < n implies eqv(#[trigger] l2[x], l2[i]) by {
                assert(in_range(bs[j], x));
                assert(eqv(l[x], l[s]));
                lemma_eqv_sym(l[i], l[s]);
                lemma_eqv_trans(l[x], l[s], l[i]);
                lemma_sum_congruence(l[x], l[i], adds[j], l2[x], l2[i]);
            }
            assert forall|s2: int, e2: int| !is_basin(l2, s2, e2) by {
                if is_basin(l2, s2, e2) {
                    if s2 > 0 {
                        assert(eqv(l2[s2 - 1], l2[i]));
                        assert(eqv(l2[s2], l2[i]));
                        lemma_eqv_sym(l2[s2], l2[i]);
                        lemma_eqv_trans(l2[s2 - 1], l2[i], l2[s2]);
                    } else {
                        assert(lt(l2[0], w));
                        assert(eqv(l2[0], l2[i]));
                        lemma_lt_eqv_left(l2[0], l2[i], w);
                    }
                }
            }
        }
    }
}

/// A difference that is not negative.
proof fn lemma_diff_nonneg(r: Rat, s: Rat, r2: Rat)
    requires
        r.wf(),
        s.wf(),
        r2.wf(),
        is_diff(r, s, r2),
        le(s, r),
    ensures
        le(zero(), r2),
{
    let rn = r.num as int;
    let rd = r.den as int;
    let sn = s.num as int;
    let sd = s.den as int;
    assert(rn * sd - sn * rd >= 0);
    assert((rn * sd - sn * rd) * r2.den >= 0) by (nonlinear_arith)
        requires
            rn * sd - sn * rd >= 0,
            r2.den > 0,
    ;
    lemma_pos_mul(rd, sd);
    assert(r2.num >= 0) by (nonlinear_arith)
        requires
            r2.num * (rd * sd) == (rn * sd - sn * rd) * r2.den,
            (rn * sd - sn * rd) * r2.den >= 0,
            rd * sd > 0,
    ;
}

/// Law (the whole rain): when every height starts below the wall and the
/// rain lasts `t >= 0`, the landscape gains exactly `t` units of water on
/// each of its `n` segments.
pub proof fn lemma_rain_conserves_water(k: nat, l: Seq<Rat>, t: Rat, l2: Seq<Rat>)
    requires
        all_wf(l),
        1 <= l.len() <= usize::MAX,
        l.len() <= i64::MAX,
        t.wf(),
        le(zero(), t),
        below_wall(l),
        rained_in(k, l, t, l2),
    ensures
        all_wf(l2),
        l2.len() == l.len(),
        adds_water(l, l2, t, l.len() as int),
    decreases k,
{
    let n = l.len() as int;
    if k == 0 {
        assert(t.num == 0);
        lemma_adds_no_water(l, t, n);
    } else {
        let (l1, step, r1) = choose|l1: Seq<Rat>, step: Rat, r1: Rat|
            #![trigger rained_once(l, t, l1, step), is_diff(t, step, r1)]
            {
                &&& rained_once(l, t, l1, step)
                &&& is_diff(t, step, r1)
                &&& r1.wf()
                &&& rained_in((k - 1) as nat, l1, r1, l2)
            };
        lemma_rained_once_facts(l, t, l1, step);
        lemma_step_conserves_water(l, t, l1, step);
        lemma_step_keeps_below(l, t, l1, step);
        lemma_diff_nonneg(t, step, r1);
        if below_wall(l1) {
            lemma_rain_conserves_water((k - 1) as nat, l1, r1, l2);
        } else {
            if k - 1 > 0 {
                let (l3, step3, r3) = choose|l3: Seq<Rat>, step3: Rat, r3: Rat|
                    #![trigger rained_once(l1, r1, l3, step3), is_diff(r1, step3, r3)]
                    {
                        &&& rained_once(l1, r1, l3, step3)
                        &&& is_diff(r1, step3, r3)
                        &&& r3.wf()
                        &&& rained_in((k - 2) as nat, l3, r3, l2)
                    };
                lemma_rained_once_facts(l1, r1, l3, step3);
            }
            assert(l2 == l1);
            assert(r1.num == 0);
            lemma_adds_no_water(l1, r1, n);
        }
        lemma_adds_water_chain(l, l1, l2, step, r1, t, n);
    }
}

} // verus!
