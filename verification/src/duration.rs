//! How the rain depends on its duration: more rain never lowers a level.
use vstd::prelude::*;
use vstd::arithmetic::div_mod::{lemma_fundamental_div_mod, lemma_mod_multiples_basic};
use std::ops::Range;
use crate::rational::{eqv, has_value, is_diff, is_reduced, is_sum, le, lt, sum_eqv, sum_le, zero, Rat};
use crate::rain::{all_wf, basin_list, is_basin, is_peak, max_level, maxima_list, peak_list};
use crate::flood::{in_no_range, in_range, is_depth, is_rain_step, rained_in, rained_once};
use crate::rain::{inflow_twice, range_len};
use crate::rational::{lemma_le_trans, lemma_lt_le_trans, lemma_lt_total, lemma_same_value_eqv, lemma_sum_congruence};

verus! {

/// A positive combination `a * x + b * y` of `a > 0` and `b >= 0` that
/// divides both: `(x, y, g, a / g, b / g)`.
proof fn lemma_bezout(a: int, b: int) -> (r: (int, int, int, int, int))
    requires
        a > 0,
        b >= 0,
    ensures
        r.2 > 0,
        a * r.0 + b * r.1 == r.2,
        a == r.2 * r.3,
        b == r.2 * r.4,
    decreases b,
{
    if b == 0 {
        (1, 0, a, 1, 0)
    } else {
        lemma_fundamental_div_mod(a, b);
        vstd::arithmetic::div_mod::lemma_mod_pos_bound(a, b);
        let q = a / b;
        let m = a % b;
        let (x, y, g, ub, um) = lemma_bezout(b, m);
        assert(a * y + b * (x - q * y) == g) by (nonlinear_arith)
            requires
                b * x + m * y == g,
                a == b * q + m,
        ;
        assert(a == g * (ub * q + um)) by (nonlinear_arith)
            requires
                a == b * q + m,
                b == g * ub,
                m == g * um,
        ;
        (y, x - q * y, g, ub * q + um, ub)
    }
}

/// The denominator of a fraction in lowest terms divides the denominator of
/// any equal fraction.
proof fn lemma_den_divides(p: Rat, q: Rat) -> (w: int)
    requires
        is_reduced(p),
        q.den > 0,
        eqv(p, q),
        p.num != 0,
    ensures
        q.den == p.den * w,
{
    reveal(is_reduced);
    let d1 = p.den as int;
    let d2 = q.den as int;
    let n1 = p.num as int;
    let n2 = q.num as int;
    let a1: int = if n1 < 0 { -n1 } else { n1 };
    let (x, y, g, u, v) = lemma_bezout(d1, a1);
    if g > 1 {
        lemma_mod_multiples_basic(u, g);
        lemma_mod_multiples_basic(v, g);
        assert(d1 % g == 0) by {
            assert(d1 == u * g) by (nonlinear_arith)
                requires
                    d1 == g * u,
            ;
        }
        if n1 >= 0 {
            assert(n1 == v * g) by (nonlinear_arith)
                requires
                    a1 == g * v,
                    a1 == n1,
            ;
        } else {
            lemma_mod_multiples_basic(-v, g);
            assert(n1 == (-v) * g) by (nonlinear_arith)
                requires
                    a1 == g * v,
                    a1 == -n1,
            ;
        }
        assert(n1 % g == 0);
        assert(false);
    }
    assert(g == 1);
    // d2 = d2 * (d1 * x + a1 * y) and a1 * d2 = (+/-) n2 * d1.
    let s: int = if n1 < 0 { -1 } else { 1 };
    assert(a1 * d2 == s * n2 * d1) by (nonlinear_arith)
        requires
            n1 * d2 == n2 * d1,
            a1 == s * n1,
            s * s == 1,
    ;
    let w = d2 * x + s * n2 * y;
    assert(d2 == d1 * w) by (nonlinear_arith)
        requires
            d1 * x + a1 * y == 1,
            a1 * d2 == s * n2 * d1,
            w == d2 * x + s * n2 * y,
    ;
    w
}

/// A number has one representation in lowest terms.
pub proof fn lemma_reduced_unique(p: Rat, q: Rat)
    requires
        is_reduced(p),
        is_reduced(q),
        eqv(p, q),
    ensures
        p == q,
{
    reveal(is_reduced);
    let d1 = p.den as int;
    let d2 = q.den as int;
    if p.num == 0 {
        assert(q.num * d1 == 0);
        assert(q.num == 0) by (nonlinear_arith)
            requires
                q.num * d1 == 0,
                d1 > 0,
        ;
        if d1 > 1 {
            lemma_mod_multiples_basic(0, d1);
            lemma_mod_multiples_basic(1, d1);
            assert((p.num as int) % d1 == 0 && (p.den as int) % d1 == 0);
        }
        if d2 > 1 {
            lemma_mod_multiples_basic(0, d2);
            lemma_mod_multiples_basic(1, d2);
            assert((q.num as int) % d2 == 0 && (q.den as int) % d2 == 0);
        }
    } else {
        assert(q.num != 0) by (nonlinear_arith)
            requires
                p.num * d2 == q.num * d1,
                p.num != 0,
                d2 > 0,
        ;
        let w1 = lemma_den_divides(p, q);
        let w2 = lemma_den_divides(q, p);
        assert(d1 == d2) by (nonlinear_arith)
            requires
                d2 == d1 * w1,
                d1 == d2 * w2,
                d1 > 0,
                d2 > 0,
        ;
        assert(p.num == q.num) by (nonlinear_arith)
            requires
                p.num * d2 == q.num * d1,
                d1 == d2,
                d1 > 0,
        ;
    }
}


/// Non-empty ranges, in order and without overlap.
#[verifier::opaque]
pub open spec fn sorted_ranges(rs: Seq<Range<usize>>) -> bool {
    &&& forall|k: int| 0 <= k < rs.len() ==> (#[trigger] rs[k]).start < rs[k].end
    &&& forall|i: int, j: int| 0 <= i < j < rs.len() ==> (#[trigger] rs[i]).end <= (#[trigger] rs[j]).start
}

/// `x` is one of the ranges of `b`.
pub open spec fn range_in(b: Seq<Range<usize>>, x: Range<usize>) -> bool {
    exists|j: int| 0 <= j < b.len() && #[trigger] b[j] == x
}

/// Every range of `a` is one of `b`.
pub open spec fn ranges_within(a: Seq<Range<usize>>, b: Seq<Range<usize>>) -> bool {
    forall|i: int| 0 <= i < a.len() ==> range_in(b, #[trigger] a[i])
}

/// In a sorted list, an earlier range ends before a later one starts.
proof fn lemma_sorted_at(rs: Seq<Range<usize>>, i: int, j: int)
    requires
        sorted_ranges(rs),
        0 <= i < j < rs.len(),
    ensures
        rs[i].start < rs[i].end <= rs[j].start < rs[j].end,
{
    reveal(sorted_ranges);
    assert(rs[i].start < rs[i].end);
    assert(rs[j].start < rs[j].end);
}

/// Where the `i`-th range of `a` stands in `b`.
proof fn lemma_within_at(a: Seq<Range<usize>>, b: Seq<Range<usize>>, i: int) -> (j: int)
    requires
        ranges_within(a, b),
        0 <= i < a.len(),
    ensures
        0 <= j < b.len(),
        b[j] == a[i],
{
    assert(range_in(b, a[i]));
    choose|j: int| 0 <= j < b.len() && b[j] == a[i]
}

/// Two sorted lists that hold each other's ranges agree on their first `k`.
proof fn lemma_sorted_prefix(a: Seq<Range<usize>>, b: Seq<Range<usize>>, k: int)
    requires
        sorted_ranges(a),
        sorted_ranges(b),
        ranges_within(a, b),
        ranges_within(b, a),
        0 <= k <= a.len(),
        k <= b.len(),
    ensures
        forall|i: int| 0 <= i < k ==> #[trigger] a[i] == b[i],
    decreases k,
{
    if k > 0 {
        let m = k - 1;
        lemma_sorted_prefix(a, b, m);
        let j = lemma_within_at(a, b, m);
        let j2 = lemma_within_at(b, a, m);
        if j < m {
            assert(a[j] == b[j]);
            lemma_sorted_at(a, j, m);
        }
        if j2 < m {
            assert(a[j2] == b[j2]);
            lemma_sorted_at(b, j2, m);
        }
        if j > m && j2 > m {
            lemma_sorted_at(b, m, j);
            lemma_sorted_at(a, m, j2);
        }
    }
}

/// Two sorted lists that hold each other's ranges are equal.
pub proof fn lemma_sorted_unique(a: Seq<Range<usize>>, b: Seq<Range<usize>>)
    requires
        sorted_ranges(a),
        sorted_ranges(b),
        ranges_within(a, b),
        ranges_within(b, a),
    ensures
        a == b,
{
    let k = if a.len() <= b.len() { a.len() as int } else { b.len() as int };
    lemma_sorted_prefix(a, b, k);
    if a.len() > b.len() {
        let j = lemma_within_at(a, b, k);
        assert(a[j] == b[j]);
        lemma_sorted_at(a, j, k);
    } else if a.len() < b.len() {
        let j = lemma_within_at(b, a, k);
        assert(a[j] == b[j]);
        lemma_sorted_at(b, j, k);
    }
    assert(a =~= b);
}

/// The basin list of a landscape is unique.
pub proof fn lemma_basin_list_unique(l: Seq<Rat>, a: Seq<Range<usize>>, b: Seq<Range<usize>>)
    requires
        basin_list(l, a, l.len() as int),
        basin_list(l, b, l.len() as int),
    ensures
        a == b,
{
    reveal(sorted_ranges);
    assert forall|k: int| 0 <= k < a.len() implies (#[trigger] a[k]).start < a[k].end by {
        assert(is_basin(l, a[k].start as int, a[k].end as int));
    }
    assert forall|k: int| 0 <= k < b.len() implies (#[trigger] b[k]).start < b[k].end by {
        assert(is_basin(l, b[k].start as int, b[k].end as int));
    }
    assert forall|i: int| 0 <= i < a.len() implies range_in(b, #[trigger] a[i]) by {
        assert(is_basin(l, a[i].start as int, a[i].end as int));
        let j = choose|j: int| 0 <= j < b.len() && (#[trigger] b[j]).start == a[i].start && b[j].end == a[i].end;
        assert(b[j] == a[i]);
    }
    assert forall|i: int| 0 <= i < b.len() implies range_in(a, #[trigger] b[i]) by {
        assert(is_basin(l, b[i].start as int, b[i].end as int));
        let j = choose|j: int| 0 <= j < a.len() && (#[trigger] a[j]).start == b[i].start && a[j].end == b[i].end;
        assert(a[j] == b[i]);
    }
    lemma_sorted_unique(a, b);
}

/// The maxima list of a landscape is unique.
pub proof fn lemma_maxima_list_unique(l: Seq<Rat>, a: Seq<Range<usize>>, b: Seq<Range<usize>>)
    requires
        maxima_list(l, a),
        maxima_list(l, b),
    ensures
        a == b,
{
    let pa = a.subrange(1, a.len() - 1);
    let pb = b.subrange(1, b.len() - 1);
    let n = l.len() as int;
    assert(peak_list(l, pa, n));
    assert(peak_list(l, pb, n));
    reveal(sorted_ranges);
    assert forall|k: int| 0 <= k < pa.len() implies (#[trigger] pa[k]).start < pa[k].end by {
        assert(is_peak(l, pa[k].start as int, pa[k].end as int));
    }
    assert forall|k: int| 0 <= k < pb.len() implies (#[trigger] pb[k]).start < pb[k].end by {
        assert(is_peak(l, pb[k].start as int, pb[k].end as int));
    }
    assert forall|i: int| 0 <= i < pa.len() implies range_in(pb, #[trigger] pa[i]) by {
        assert(is_peak(l, pa[i].start as int, pa[i].end as int));
        let j = choose|j: int| 0 <= j < pb.len() && (#[trigger] pb[j]).start == pa[i].start && pb[j].end == pa[i].end;
        assert(pb[j] == pa[i]);
    }
    assert forall|i: int| 0 <= i < pb.len() implies range_in(pa, #[trigger] pb[i]) by {
        assert(is_peak(l, pb[i].start as int, pb[i].end as int));
        let j = choose|j: int| 0 <= j < pa.len() && (#[trigger] pa[j]).start == pb[i].start && pa[j].end == pb[i].end;
        assert(pa[j] == pb[i]);
    }
    lemma_sorted_unique(pa, pb);
    assert forall|k: int| 0 <= k < a.len() implies #[trigger] a[k] == b[k] by {
        if 0 < k < a.len() - 1 {
            assert(a[k] == pa[k - 1]);
            assert(b[k] == pb[k - 1]);
        }
    }
    assert(a =~= b);
}

/// A tight bound `a + x == c` is above every `y` with `a + y <= c`.
proof fn lemma_sum_tight(a: Rat, x: Rat, y: Rat, c: Rat)
    requires
        a.wf(),
        x.wf(),
        y.wf(),
        c.wf(),
        sum_eqv(a, x, c),
        sum_le(a, y, c),
    ensures
        le(y, x),
{
    let (an, ad, xn, xd, yn, yd, cn, cd) = (a.num as int, a.den as int, x.num as int, x.den as int, y.num as int,
        y.den as int, c.num as int, c.den as int);
    assert(cn * (ad * xd) == (an * xd + xn * ad) * cd);
    assert((an * yd + yn * ad) * cd <= cn * (ad * yd));
    assert((an * yd + yn * ad) * cd * xd <= cn * (ad * yd) * xd) by (nonlinear_arith)
        requires
            (an * yd + yn * ad) * cd <= cn * (ad * yd),
            xd > 0,
    ;
    assert(cn * (ad * yd) * xd == (an * xd + xn * ad) * cd * yd) by (nonlinear_arith)
        requires
            cn * (ad * xd) == (an * xd + xn * ad) * cd,
    ;
    assert((an * yd + yn * ad) * cd * xd == an * yd * cd * xd + yn * xd * (ad * cd)) by (nonlinear_arith);
    let p1 = an * xd;
    let p2 = xn * ad;
    assert((p1 + p2) * cd * yd == p1 * cd * yd + p2 * cd * yd) by (nonlinear_arith);
    assert(p1 * cd * yd == an * yd * cd * xd) by (nonlinear_arith)
        requires
            p1 == an * xd,
    ;
    assert(p2 * cd * yd == xn * yd * (ad * cd)) by (nonlinear_arith)
        requires
            p2 == xn * ad,
    ;
    assert((an * xd + xn * ad) * cd * yd == an * yd * cd * xd + xn * yd * (ad * cd));
    assert(yn * xd * (ad * cd) <= xn * yd * (ad * cd));
    assert(yn * xd <= xn * yd) by (nonlinear_arith)
        requires
            yn * xd * (ad * cd) <= xn * yd * (ad * cd),
            ad > 0,
            cd > 0,
    ;
}

/// The depth of a basin is one number.
proof fn lemma_depth_le(l: Seq<Rat>, s: int, e: int, d1: Rat, d2: Rat)
    requires
        all_wf(l),
        is_basin(l, s, e),
        is_depth(l, s, e, d1),
        is_depth(l, s, e, d2),
    ensures
        le(d2, d1),
{
    if d1 == max_level() && (s == 0 || e == l.len()) {
    } else if s > 0 && sum_eqv(l[s], d1, l[s - 1]) {
        lemma_sum_tight(l[s], d1, d2, l[s - 1]);
    } else {
        lemma_sum_tight(l[s], d1, d2, l[e]);
    }
}

/// A larger step makes a larger rise.
proof fn lemma_rise_mono(c: Rat, s1: Rat, s2: Rat, m: int, x: Rat, y: Rat)
    requires
        c.wf(),
        s1.wf(),
        s2.wf(),
        x.wf(),
        y.wf(),
        c.num >= 0,
        m >= 1,
        le(s1, s2),
        has_value(x, c.num * s1.num, c.den * s1.den * m),
        has_value(y, c.num * s2.num, c.den * s2.den * m),
    ensures
        le(x, y),
{
    let (cn, cd, an, ad, bn, bd, xn, xd, yn, yd) = (c.num as int, c.den as int, s1.num as int, s1.den as int,
        s2.num as int, s2.den as int, x.num as int, x.den as int, y.num as int, y.den as int);
    let k1 = cd * ad * m;
    let k2 = cd * bd * m;
    assert(xn * k1 == cn * an * xd);
    assert(yn * k2 == cn * bn * yd);
    assert(an * bd <= bn * ad);
    assert(cn * an * bd * cd * m <= cn * bn * ad * cd * m) by (nonlinear_arith)
        requires
            an * bd <= bn * ad,
            cn >= 0,
            cd > 0,
            m >= 1,
    ;
    let t0 = xn * k1;
    assert(xn * yd * k1 * k2 == t0 * yd * k2) by (nonlinear_arith)
        requires
            t0 == xn * k1,
    ;
    assert(t0 * yd * k2 == (cn * an * xd) * yd * k2);
    let w0 = cn * an;
    assert((cn * an * xd) * yd * k2 == w0 * (xd * yd) * k2) by (nonlinear_arith)
        requires
            w0 == cn * an,
    ;
    assert(w0 * (xd * yd) * k2 == (w0 * bd * cd * m) * (xd * yd)) by (nonlinear_arith)
        requires
            k2 == cd * bd * m,
    ;
    assert(w0 * bd * cd * m == cn * an * bd * cd * m) by (nonlinear_arith)
        requires
            w0 == cn * an,
    ;
    let t = yn * k2;
    assert(yn * xd * k1 * k2 == t * xd * k1) by (nonlinear_arith)
        requires
            t == yn * k2,
    ;
    assert(t * xd * k1 == (cn * bn * yd) * xd * k1);
    let w = cn * bn;
    assert((cn * bn * yd) * xd * k1 == w * (yd * xd) * k1) by (nonlinear_arith)
        requires
            w == cn * bn,
    ;
    assert(w * (yd * xd) * k1 == (w * ad * cd * m) * (xd * yd)) by (nonlinear_arith)
        requires
            k1 == cd * ad * m,
    ;
    assert(w * ad * cd * m == cn * bn * ad * cd * m) by (nonlinear_arith)
        requires
            w == cn * bn,
    ;
    assert((cn * an * bd * cd * m) * (xd * yd) <= (cn * bn * ad * cd * m) * (xd * yd)) by (nonlinear_arith)
        requires
            cn * an * bd * cd * m <= cn * bn * ad * cd * m,
            xd > 0,
            yd > 0,
    ;
    assert(k1 * k2 > 0) by (nonlinear_arith)
        requires
            k1 == cd * ad * m,
            k2 == cd * bd * m,
            cd > 0,
            ad > 0,
            bd > 0,
            m >= 1,
    ;
    assert(xn * yd <= yn * xd) by (nonlinear_arith)
        requires
            xn * yd * k1 * k2 <= yn * xd * k1 * k2,
            k1 * k2 > 0,
    ;
}

/// Adding more to the same number gives more.
proof fn lemma_sum_mono(a: Rat, p: Rat, q: Rat, u: Rat, v: Rat)
    requires
        a.wf(),
        p.wf(),
        q.wf(),
        u.wf(),
        v.wf(),
        le(p, q),
        is_sum(a, p, u),
        is_sum(a, q, v),
    ensures
        le(u, v),
{
    let (an, ad, pn, pd, qn, qd, un, ud, vn, vd) = (a.num as int, a.den as int, p.num as int, p.den as int,
        q.num as int, q.den as int, u.num as int, u.den as int, v.num as int, v.den as int);
    assert(un * (ad * pd) == (an * pd + pn * ad) * ud);
    assert(vn * (ad * qd) == (an * qd + qn * ad) * vd);
    assert(pn * qd <= qn * pd);
    // u * (ad pd) / ud and v * (ad qd) / vd, compared over ad * pd * qd.
    assert(un * vd * (ad * pd * qd) == (an * pd + pn * ad) * ud * vd * qd) by (nonlinear_arith)
        requires
            un * (ad * pd) == (an * pd + pn * ad) * ud,
    ;
    assert(vn * ud * (ad * pd * qd) == (an * qd + qn * ad) * vd * ud * pd) by (nonlinear_arith)
        requires
            vn * (ad * qd) == (an * qd + qn * ad) * vd,
    ;
    assert(pn * qd * ad <= qn * pd * ad) by (nonlinear_arith)
        requires
            pn * qd <= qn * pd,
            ad > 0,
    ;
    assert((an * pd + pn * ad) * qd == an * pd * qd + pn * qd * ad) by (nonlinear_arith);
    assert((an * qd + qn * ad) * pd == an * pd * qd + qn * pd * ad) by (nonlinear_arith);
    assert((an * pd + pn * ad) * ud * vd * qd <= (an * qd + qn * ad) * vd * ud * pd) by (nonlinear_arith)
        requires
            (an * pd + pn * ad) * qd <= (an * qd + qn * ad) * pd,
            ud > 0,
            vd > 0,
    ;
    assert(un * vd <= vn * ud) by (nonlinear_arith)
        requires
            un * vd * (ad * pd * qd) <= vn * ud * (ad * pd * qd),
            ad > 0,
            pd > 0,
            qd > 0,
    ;
}

/// Taking the same amount from less leaves less.
proof fn lemma_diff_mono(r1: Rat, r2: Rat, s: Rat, q1: Rat, q2: Rat)
    requires
        r1.wf(),
        r2.wf(),
        s.wf(),
        q1.wf(),
        q2.wf(),
        le(r1, r2),
        is_diff(r1, s, q1),
        is_diff(r2, s, q2),
    ensures
        le(q1, q2),
{
    let (an, ad, bn, bd, sn, sd, un, ud, vn, vd) = (r1.num as int, r1.den as int, r2.num as int, r2.den as int,
        s.num as int, s.den as int, q1.num as int, q1.den as int, q2.num as int, q2.den as int);
    assert(un * (ad * sd) == (an * sd - sn * ad) * ud);
    assert(vn * (bd * sd) == (bn * sd - sn * bd) * vd);
    assert(an * bd <= bn * ad);
    assert(un * vd * (ad * bd * sd) == (an * sd - sn * ad) * ud * vd * bd) by (nonlinear_arith)
        requires
            un * (ad * sd) == (an * sd - sn * ad) * ud,
    ;
    assert(vn * ud * (ad * bd * sd) == (bn * sd - sn * bd) * vd * ud * ad) by (nonlinear_arith)
        requires
            vn * (bd * sd) == (bn * sd - sn * bd) * vd,
    ;
    assert((an * sd - sn * ad) * bd <= (bn * sd - sn * bd) * ad) by (nonlinear_arith)
        requires
            an * bd <= bn * ad,
            sd > 0,
    ;
    assert((an * sd - sn * ad) * ud * vd * bd <= (bn * sd - sn * bd) * vd * ud * ad) by (nonlinear_arith)
        requires
            (an * sd - sn * ad) * bd <= (bn * sd - sn * bd) * ad,
            ud > 0,
            vd > 0,
    ;
    assert(un * vd <= vn * ud) by (nonlinear_arith)
        requires
            un * vd * (ad * bd * sd) <= vn * ud * (ad * bd * sd),
            ad > 0,
            bd > 0,
            sd > 0,
    ;
}

/// Taking all of `r` leaves no time.
proof fn lemma_diff_none_left(r: Rat, s: Rat, q: Rat)
    requires
        r.wf(),
        s.wf(),
        q.wf(),
        le(r, s),
        is_diff(r, s, q),
    ensures
        !lt(zero(), q),
{
    let (rn, rd, sn, sd, qn, qd) = (r.num as int, r.den as int, s.num as int, s.den as int, q.num as int, q.den as int);
    assert(qn * (rd * sd) == (rn * sd - sn * rd) * qd);
    assert(rn * sd - sn * rd <= 0);
    assert((rn * sd - sn * rd) * qd <= 0) by (nonlinear_arith)
        requires
            rn * sd - sn * rd <= 0,
            qd > 0,
    ;
    assert(qn <= 0) by (nonlinear_arith)
        requires
            qn * (rd * sd) <= 0,
            rd > 0,
            sd > 0,
    ;
}

/// Two steps of the rain on the same landscape `l`, with `r1 <= r2` time
/// left: the first is no longer and leaves no level higher; when it ends
/// before its time is up (a basin is full), the two steps are the same.
pub proof fn lemma_step_compare(l: Seq<Rat>, r1: Rat, a: Seq<Rat>, s1: Rat, r2: Rat, b: Seq<Rat>, s2: Rat)
    requires
        all_wf(l),
        r1.wf(),
        r2.wf(),
        le(r1, r2),
        rained_once(l, r1, a, s1),
        rained_once(l, r2, b, s2),
    ensures
        a.len() == l.len(),
        b.len() == l.len(),
        all_wf(a),
        all_wf(b),
        s1.wf(),
        le(s1, r1),
        le(s1, s2),
        forall|i: int| 0 <= i < l.len() ==> le(#[trigger] a[i], b[i]),
        lt(s1, r1) ==> s1 == s2 && a == b,
{
    reveal(rained_once);
    let (ms, bs, cs, ds, ts, adds) = choose|ms: Seq<Range<usize>>, bs: Seq<Range<usize>>, cs: Seq<Rat>, ds: Seq<Rat>, ts: Seq<Rat>, adds: Seq<Rat>|
        #[trigger] is_rain_step(l, r1, a, s1, ms, bs, cs, ds, ts, adds);
    let (ms2, bs2, cs2, ds2, ts2, adds2) = choose|ms: Seq<Range<usize>>, bs: Seq<Range<usize>>, cs: Seq<Rat>, ds: Seq<Rat>, ts: Seq<Rat>, adds: Seq<Rat>|
        #[trigger] is_rain_step(l, r2, b, s2, ms, bs, cs, ds, ts, adds);
    reveal(is_rain_step);
    lemma_maxima_list_unique(l, ms, ms2);
    lemma_basin_list_unique(l, bs, bs2);
    assert forall|k: int| 0 <= k < cs.len() implies #[trigger] cs[k] == cs2[k] by {
        lemma_same_value_eqv(cs[k], cs2[k], inflow_twice(ms, k), 2);
        lemma_reduced_unique(cs[k], cs2[k]);
    }
    assert forall|k: int| 0 <= k < bs.len() implies #[trigger] ds[k] == ds2[k] by {
        let st = bs[k].start as int;
        let en = bs[k].end as int;
        assert(is_basin(l, st, en));
        assert(is_depth(l, st, en, ds[k]));
        assert(is_depth(l, st, en, ds2[k]));
        lemma_depth_le(l, st, en, ds[k], ds2[k]);
        lemma_depth_le(l, st, en, ds2[k], ds[k]);
        lemma_reduced_unique(ds[k], ds2[k]);
    }
    assert forall|k: int| 0 <= k < bs.len() implies #[trigger] ts[k] == ts2[k] by {
        assert(cs[k] == cs2[k]);
        assert(ds[k] == ds2[k]);
        let den = ds[k].den * cs[k].num;
        assert(den != 0) by (nonlinear_arith)
            requires
                den == ds[k].den * cs[k].num,
                ds[k].den > 0,
                cs[k].num != 0,
        ;
        lemma_same_value_eqv(ts[k], ts2[k], ds[k].num * range_len(bs[k]) * cs[k].den, den);
        lemma_reduced_unique(ts[k], ts2[k]);
    }
    // The first step is no longer than the second.
    if s2 == r2 {
        lemma_le_trans(s1, r1, r2);
    } else {
        let k2 = choose|k: int| 0 <= k < ts2.len() && s2 == #[trigger] ts2[k];
        assert(ts[k2] == ts2[k2]);
        assert(le(s1, ts[k2]));
    }
    // Rises and new levels.
    assert forall|i: int| 0 <= i < l.len() implies le(#[trigger] a[i], b[i]) by {
        if exists|k: int| 0 <= k < bs.len() && #[trigger] in_range(bs[k], i) {
            let k = choose|k: int| 0 <= k < bs.len() && #[trigger] in_range(bs[k], i);
            assert(cs[k] == cs2[k]);
            assert(is_basin(l, bs[k].start as int, bs[k].end as int));
            lemma_rise_mono(cs[k], s1, s2, range_len(bs[k]), adds[k], adds2[k]);
            lemma_sum_mono(l[i], adds[k], adds2[k], a[i], b[i]);
        } else {
            assert(in_no_range(bs, i));
            assert(a[i] == l[i]);
            assert(b[i] == l[i]);
        }
    }
    if lt(s1, r1) {
        let k1 = choose|k: int| 0 <= k < ts.len() && s1 == #[trigger] ts[k];
        assert(ts[k1] == ts2[k1]);
        assert(le(s2, ts2[k1]));
        if s2 == r2 {
            lemma_lt_le_trans(s1, r1, r2);
        } else {
            let k2 = choose|k: int| 0 <= k < ts2.len() && s2 == #[trigger] ts2[k];
            lemma_reduced_unique(ts[k1], ts2[k2]);
        }
        assert(s1 == s2);
        assert forall|k: int| 0 <= k < bs.len() implies #[trigger] adds[k] == adds2[k] by {
            assert(cs[k] == cs2[k]);
            assert(is_basin(l, bs[k].start as int, bs[k].end as int));
            let den = cs[k].den * s1.den * range_len(bs[k]);
            assert(den != 0) by (nonlinear_arith)
                requires
                    den == cs[k].den * s1.den * range_len(bs[k]),
                    cs[k].den > 0,
                    s1.den > 0,
                    range_len(bs[k]) >= 1,
            ;
            lemma_same_value_eqv(adds[k], adds2[k], cs[k].num * s1.num, den);
            lemma_reduced_unique(adds[k], adds2[k]);
        }
        assert forall|i: int| 0 <= i < l.len() implies #[trigger] a[i] == b[i] by {
            if exists|k: int| 0 <= k < bs.len() && #[trigger] in_range(bs[k], i) {
                let k = choose|k: int| 0 <= k < bs.len() && #[trigger] in_range(bs[k], i);
                assert(adds[k] == adds2[k]);
                lemma_sum_congruence(l[i], l[i], adds[k], a[i], b[i]);
                lemma_reduced_unique(a[i], b[i]);
            } else {
                assert(in_no_range(bs, i));
                assert(a[i] == l[i]);
                assert(b[i] == l[i]);
            }
        }
        assert(a =~= b);
    }
}

/// A rain leaves every segment at least as high as it was.
pub proof fn lemma_rained_in_rises(n: nat, l: Seq<Rat>, remaining: Rat, l2: Seq<Rat>)
    requires
        all_wf(l),
        rained_in(n, l, remaining, l2),
    ensures
        l2.len() == l.len(),
        all_wf(l2),
        forall|i: int| 0 <= i < l.len() ==> le(#[trigger] l[i], l2[i]),
    decreases n,
{
    if n > 0 {
        let (l1, step, r1) = choose|l1: Seq<Rat>, step: Rat, r1: Rat| {
            &&& #[trigger] rained_once(l, remaining, l1, step)
            &&& #[trigger] is_diff(remaining, step, r1)
            &&& r1.wf()
            &&& rained_in((n - 1) as nat, l1, r1, l2)
        };
        reveal(rained_once);
        let (ms, bs, cs, ds, ts, adds) = choose|ms: Seq<Range<usize>>, bs: Seq<Range<usize>>, cs: Seq<Rat>, ds: Seq<Rat>, ts: Seq<Rat>, adds: Seq<Rat>|
            #[trigger] is_rain_step(l, remaining, l1, step, ms, bs, cs, ds, ts, adds);
        reveal(is_rain_step);
        lemma_rained_in_rises((n - 1) as nat, l1, r1, l2);
        assert forall|i: int| 0 <= i < l.len() implies le(#[trigger] l[i], l2[i]) by {
            lemma_le_trans(l[i], l1[i], l2[i]);
        }
    }
}

/// Law: more rain never lowers a level.  Two rains on the same landscape,
/// the first no longer than the second (as `calculate` states its results
/// with `rained_in`), leave every segment of the first at most as high as in
/// the second.  With no first rain this is: levels never drop.
pub proof fn lemma_more_rain_not_lower(
    n1: nat,
    n2: nat,
    l: Seq<Rat>,
    t1: Rat,
    a: Seq<Rat>,
    t2: Rat,
    b: Seq<Rat>,
)
    requires
        all_wf(l),
        t1.wf(),
        t2.wf(),
        le(t1, t2),
        rained_in(n1, l, t1, a),
        rained_in(n2, l, t2, b),
    ensures
        a.len() == l.len(),
        b.len() == l.len(),
        forall|i: int| 0 <= i < l.len() ==> le(#[trigger] a[i], b[i]),
    decreases n1,
{
    lemma_rained_in_rises(n1, l, t1, a);
    lemma_rained_in_rises(n2, l, t2, b);
    if n1 == 0 {
        assert(a == l);
    } else {
        lemma_lt_total(zero(), t1);
        lemma_lt_le_trans(zero(), t1, t2);
        assert(n2 > 0);
        let (a1, s1, q1) = choose|l1: Seq<Rat>, step: Rat, r1: Rat| {
            &&& #[trigger] rained_once(l, t1, l1, step)
            &&& #[trigger] is_diff(t1, step, r1)
            &&& r1.wf()
            &&& rained_in((n1 - 1) as nat, l1, r1, a)
        };
        let (b1, s2, q2) = choose|l1: Seq<Rat>, step: Rat, r1: Rat| {
            &&& #[trigger] rained_once(l, t2, l1, step)
            &&& #[trigger] is_diff(t2, step, r1)
            &&& r1.wf()
            &&& rained_in((n2 - 1) as nat, l1, r1, b)
        };
        lemma_step_compare(l, t1, a1, s1, t2, b1, s2);
        lemma_rained_in_rises((n2 - 1) as nat, b1, q2, b);
        if lt(s1, t1) {
            assert(s1 == s2 && a1 == b1);
            lemma_diff_mono(t1, t2, s1, q1, q2);
            lemma_more_rain_not_lower((n1 - 1) as nat, (n2 - 1) as nat, a1, q1, a, q2, b);
        } else {
            lemma_lt_total(s1, t1);
            lemma_diff_none_left(t1, s1, q1);
            assert((n1 - 1) as nat == 0);
            assert(a == a1);
            assert forall|i: int| 0 <= i < l.len() implies le(#[trigger] a[i], b[i]) by {
                lemma_le_trans(a1[i], b1[i], b[i]);
            }
        }
    }
}

} // verus!
