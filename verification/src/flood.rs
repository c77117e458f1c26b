//! One step of the rain: every basin fills at the rate of the water that
//! reaches it, until the first basin is full or the time is up.
use std::ops::Range;
use vstd::prelude::*;
use vstd::set_lib::{lemma_int_range, lemma_len_subset, set_int_range};
use crate::rational::{
    add_fits, checked_add, checked_div, checked_mul, checked_sub, div_fits, eqv, has_value, is_diff,
    is_reduced, is_sum, le, magnitude, mul_fits,
    lemma_diff_then_sum, lemma_eqv_sym, lemma_eqv_trans, lemma_le_sum, lemma_lt_eqv_left,
    lemma_lt_total, lemma_pos_mul, lemma_prod_value, lemma_quot_value, lemma_same_value_eqv,
    lemma_sum_congruence, lemma_sum_nonneg, lemma_sum_reaches, lemma_value_of, less_than, lt,
    min_of, sum_eqv, sum_le, zero, Rat,
};
use crate::water::{adds_water, lemma_rain_conserves_water};
use crate::pools::{lemma_rain_leaves_water_low, lemma_step_keeps_water_low, risen_stay_low};
use crate::rain::{
    all_wf, basin_list, below_wall, calculate_extremes, calculate_water_currents, inflow_twice,
    inflow_twice_sum, is_basin, is_peak, left_height, lemma_currents_cover_landscape, max_level,
    max_level_value, maxima_list, ordered_ranges, range_len, small_ranges,
};

verus! {

/// Why a step of the rain could not be computed.
#[derive(Clone, Copy, Debug, PartialEq, Eq, Structural)]
pub enum RainError {
    /// An intermediate rational number left the range of `i64`.
    Overflow,
    /// The landscape has no basin to collect the water: no plateau lies
    /// below both of its sides.
    NoBasin,
}

/// `d` is the depth of the basin `[s, e)`: how high it can fill before its
/// water reaches the lower of its sides (the walls count as `max_level()`).
pub open spec fn is_depth(l: Seq<Rat>, s: int, e: int, d: Rat) -> bool {
    &&& d.wf()
    &&& lt(zero(), d)
    &&& (s > 0 ==> sum_le(l[s], d, l[s - 1]))
    &&& (e < l.len() ==> sum_le(l[s], d, l[e]))
    &&& ((s == 0 || e == l.len()) ==> le(d, max_level()))
    &&& ((d == max_level() && (s == 0 || e == l.len())) || (s > 0 && sum_eqv(l[s], d, l[s - 1])) || (e
        < l.len() && sum_eqv(l[s], d, l[e])))
}

/// The depth of the basin `[s, e)`; `None` when a difference of heights
/// left the `i64` range, which cannot happen when the differences with its
/// sides fit (`add_fits`), nor for a basin that spans the landscape.
fn basin_depth(landscape: &Vec<Rat>, s: usize, e: usize) -> (r: Option<Rat>)
    requires
        all_wf(landscape@),
        is_basin(landscape@, s as int, e as int),
    ensures
        r matches Some(d) ==> is_depth(landscape@, s as int, e as int, d) && is_reduced(d),
        (s > 0 ==> add_fits(landscape@[s - 1], landscape@[s as int]))
            && (e < landscape.len() ==> add_fits(landscape@[e as int], landscape@[s as int])) ==> r is Some,
{
    let ghost l = landscape@;
    let len = landscape.len();
    let min_val = landscape[s];
    let left_depth = if s > 0 {
        match checked_sub(landscape[s - 1], min_val) {
            Some(x) => x,
            None => return None,
        }
    } else {
        max_level_value()
    };
    let right_depth = if e < len {
        match checked_sub(landscape[e], min_val) {
            Some(x) => x,
            None => return None,
        }
    } else {
        max_level_value()
    };
    proof {
        if s > 0 {
            lemma_diff_then_sum(l[s as int], l[s - 1], left_depth);
        }
        if e < len {
            lemma_diff_then_sum(l[s as int], l[e as int], right_depth);
        }
    }
    let d = min_of(left_depth, right_depth);
    proof {
        if s > 0 {
            lemma_le_sum(l[s as int], d, left_depth, l[s - 1]);
        }
        if e < len {
            lemma_le_sum(l[s as int], d, right_depth, l[e as int]);
        }
    }
    Some(d)
}

/// The time the basin of width `m` with depth `depth` needs to fill at rate
/// `current`: `depth * m / current`.  `None` when the rate is zero or a
/// product left the `i64` range; a positive rate for which the products
/// `depth.num * m * current.den` and `depth.den * current.num` fit gives a
/// time.
fn flood_time(depth: Rat, m: usize, current: Rat) -> (r: Option<Rat>)
    requires
        depth.wf(),
        current.wf(),
        current.num >= 0,
        1 <= m <= i64::MAX,
    ensures
        current.num == 0 ==> r is None,
        current.num > 0 && magnitude(depth.num * m * current.den) <= i64::MAX && depth.den * current.num <= i64::MAX
            ==> r is Some,
        r matches Some(t) ==> {
            &&& t.wf()
            &&& is_reduced(t)
            &&& current.num != 0
            &&& has_value(t, depth.num * m * current.den, depth.den * current.num)
        },
{
    let width = Rat::from_integer(m as i64);
    let ghost fits = current.num > 0 && magnitude(depth.num * m * current.den) <= i64::MAX && depth.den * current.num
        <= i64::MAX;
    proof {
        if fits {
            let p = depth.num * m;
            assert(magnitude(p) <= magnitude(p * current.den)) by (nonlinear_arith)
                requires
                    current.den >= 1,
            ;
            assert(depth.den * 1 <= i64::MAX);
            assert(mul_fits(depth, width));
        }
    }
    let x = match checked_mul(depth, width) {
        Some(x) => x,
        None => return None,
    };
    proof {
        if fits {
            let p = depth.num * m;
            let q = x.num as int;
            assert(magnitude(q * current.den) <= magnitude(p * current.den)) by (nonlinear_arith)
                requires
                    magnitude(q) <= magnitude(p),
                    current.den >= 1,
            ;
            assert(magnitude(x.den * current.num) <= depth.den * current.num) by (nonlinear_arith)
                requires
                    1 <= x.den <= depth.den * 1,
                    current.num > 0,
            ;
            assert(div_fits(x, current));
        }
    }
    let r = checked_div(x, current);
    proof {
        if let Some(t) = r {
            lemma_value_of(depth);
            lemma_value_of(current);
            lemma_prod_value(depth, width, x, depth.num as int, depth.den as int, m as int, 1);
            lemma_quot_value(x, current, t, depth.num * m, depth.den * 1, current.num as int, current.den as int);
        }
    }
    r
}

/// The rise of a basin of width `m` during `step` at rate `current`:
/// `current * step / m`.  `None` when a product left the `i64` range; when
/// `current.num * step.num` and `current.den * step.den * m` fit, it gives
/// the rise.
fn flood_rise(current: Rat, step: Rat, m: usize) -> (r: Option<Rat>)
    requires
        current.wf(),
        step.wf(),
        1 <= m <= i64::MAX,
    ensures
        r matches Some(a) ==> a.wf() && is_reduced(a) && has_value(a, current.num * step.num, current.den * step.den * m),
        magnitude(current.num * step.num) <= i64::MAX && current.den * step.den * m <= i64::MAX ==> r is Some,
{
    let ghost fits = magnitude(current.num * step.num) <= i64::MAX && current.den * step.den * m <= i64::MAX;
    proof {
        if fits {
            assert(current.den * step.den <= current.den * step.den * m) by (nonlinear_arith)
                requires
                    current.den >= 1,
                    step.den >= 1,
                    m >= 1,
            ;
            assert(mul_fits(current, step));
        }
    }
    let y = match checked_mul(current, step) {
        Some(y) => y,
        None => return None,
    };
    let width = Rat::from_integer(m as i64);
    proof {
        if fits {
            assert(y.den * m <= current.den * step.den * m) by (nonlinear_arith)
                requires
                    1 <= y.den <= current.den * step.den,
                    m >= 1,
            ;
            assert(magnitude(y.num * 1) <= i64::MAX);
            assert(magnitude(y.den * width.num) <= i64::MAX);
            assert(div_fits(y, width));
        }
    }
    let r = checked_div(y, width);
    proof {
        if let Some(a) = r {
            lemma_value_of(current);
            lemma_value_of(step);
            lemma_prod_value(current, step, y, current.num as int, current.den as int, step.num as int, step.den as int);
            lemma_quot_value(y, width, a, current.num * step.num, current.den * step.den, m as int, 1);
        }
    }
    r
}

/// Position `i` lies in `r`.
pub open spec fn in_range(r: Range<usize>, i: int) -> bool {
    r.start <= i < r.end
}

/// Position `i` lies in none of the ranges `rs`.
pub open spec fn in_no_range(rs: Seq<Range<usize>>, i: int) -> bool {
    forall|k: int| 0 <= k < rs.len() ==> !in_range(#[trigger] rs[k], i)
}

/// The ranges are non-empty, within `[0, n)`, and in order without overlap.
pub open spec fn disjoint_ranges(rs: Seq<Range<usize>>, n: int) -> bool {
    &&& forall|k: int| 0 <= k < rs.len() ==> (#[trigger] rs[k]).start < rs[k].end <= n
    &&& forall|i: int, j: int| 0 <= i < j < rs.len() ==> (#[trigger] rs[i]).end <= (#[trigger] rs[j]).start
}

/// `l2` is `l` with `adds[k]` added to every segment of the range `rs[k]`.
pub open spec fn poured(l: Seq<Rat>, l2: Seq<Rat>, rs: Seq<Range<usize>>, adds: Seq<Rat>) -> bool {
    &&& l2.len() == l.len()
    &&& forall|k: int, i: int| 0 <= k < rs.len() && #[trigger] in_range(rs[k], i) ==> is_sum(l[i], adds[k], l2[i])
    &&& forall|i: int| 0 <= i < l.len() && in_no_range(rs, i) ==> #[trigger] l2[i] == l[i]
}

/// Some height `l[i]` of a range `rs[k]` and its rise `adds[k]` cannot be
/// added in `i64`.
pub open spec fn pour_overflows(l: Seq<Rat>, rs: Seq<Range<usize>>, adds: Seq<Rat>) -> bool {
    exists|k: int, i: int| 0 <= k < rs.len() && #[trigger] in_range(rs[k], i) && !add_fits(l[i], adds[k])
}

/// Adds `adds[k]` to every segment of `rs[k]`.  On `Err` an addition left the
/// `i64` range (`pour_overflows`) and the landscape is partly updated.
fn pour(landscape: &mut Vec<Rat>, rs: &Vec<Range<usize>>, adds: &Vec<Rat>) -> (res: Result<(), RainError>)
    requires
        all_wf(old(landscape)@),
        rs.len() == adds.len(),
        forall|k: int| 0 <= k < adds.len() ==> (#[trigger] adds[k]).wf(),
        disjoint_ranges(rs@, old(landscape).len() as int),
    ensures
        final(landscape).len() == old(landscape).len(),
        all_wf(final(landscape)@),
        res is Ok ==> poured(old(landscape)@, final(landscape)@, rs@, adds@),
        res is Ok ==> forall|k: int, i: int| 0 <= k < rs.len() && #[trigger] in_range(rs@[k], i) ==> is_reduced(final(landscape)@[i]),
        res is Err ==> res == Err::<(), RainError>(RainError::Overflow),
        res is Err ==> pour_overflows(old(landscape)@, rs@, adds@),
{
    let ghost l0 = landscape@;
    let mut k: usize = 0;
    while k < rs.len()
        invariant
            0 <= k <= rs.len(),
            rs.len() == adds.len(),
            forall|k2: int| 0 <= k2 < adds.len() ==> (#[trigger] adds[k2]).wf(),
            disjoint_ranges(rs@, l0.len() as int),
            landscape.len() == l0.len(),
            l0 == old(landscape)@,
            all_wf(l0),
            all_wf(landscape@),
            forall|k2: int, j: int| 0 <= k2 < k && #[trigger] in_range(rs@[k2], j) ==> is_sum(l0[j], adds@[k2], landscape@[j]),
            forall|k2: int, j: int| 0 <= k2 < k && #[trigger] in_range(rs@[k2], j) ==> is_reduced(landscape@[j]),
            forall|j: int| 0 <= j < l0.len() && (forall|k2: int| 0 <= k2 < k ==> !in_range(#[trigger] rs@[k2], j)) ==> #[trigger] landscape@[j] == l0[j],
        decreases rs.len() - k,
    {
        let b = rs[k].start;
        let e = rs[k].end;
        let mut i = b;
        while i < e
            invariant
                0 <= k < rs.len(),
                rs.len() == adds.len(),
                forall|k2: int| 0 <= k2 < adds.len() ==> (#[trigger] adds[k2]).wf(),
                disjoint_ranges(rs@, l0.len() as int),
                b == rs@[k as int].start,
                e == rs@[k as int].end,
                b <= i <= e,
                landscape.len() == l0.len(),
                l0 == old(landscape)@,
                all_wf(l0),
                all_wf(landscape@),
                forall|k2: int, j: int| 0 <= k2 < k && #[trigger] in_range(rs@[k2], j) ==> is_sum(l0[j], adds@[k2], landscape@[j]),
                forall|k2: int, j: int| 0 <= k2 < k && #[trigger] in_range(rs@[k2], j) ==> is_reduced(landscape@[j]),
                forall|j: int| b <= j < i ==> is_sum(l0[j], adds@[k as int], #[trigger] landscape@[j]),
                forall|j: int| b <= j < i ==> is_reduced(#[trigger] landscape@[j]),
                forall|j: int| 0 <= j < l0.len() && !(b <= j < i) && (forall|k2: int| 0 <= k2 < k ==> !in_range(#[trigger] rs@[k2], j)) ==> #[trigger] landscape@[j] == l0[j],
            decreases e - i,
        {
            proof {
                assert forall|k2: int| 0 <= k2 < k implies !in_range(#[trigger] rs@[k2], i as int) by {
                    assert(rs@[k2].end <= rs@[k as int].start);
                }
            }
            let x = match checked_add(landscape[i], adds[k]) {
                Some(x) => x,
                None => {
                    proof {
                        assert(landscape@[i as int] == l0[i as int]);
                        assert(in_range(rs@[k as int], i as int));
                    }
                    return Err(RainError::Overflow);
                },
            };
            landscape.set(i, x);
            i = i + 1;
        }
        proof {
            assert forall|k2: int, j: int| 0 <= k2 < k + 1 && #[trigger] in_range(rs@[k2], j) implies is_sum(
                l0[j],
                adds@[k2],
                landscape@[j],
            ) && is_reduced(landscape@[j]) by {
                if k2 == k {
                    assert(b <= j < e);
                }
            }
            assert forall|j: int| 0 <= j < l0.len() && (forall|k2: int| 0 <= k2 < k + 1 ==> !in_range(#[trigger] rs@[k2], j)) implies #[trigger] landscape@[j] == l0[j] by {
                assert(!in_range(rs@[k as int], j));
            }
        }
        k = k + 1;
    }
    Ok(())
}

// ---------------------------------------------------------------------------
// Plateau boundaries
// ---------------------------------------------------------------------------

/// Segments `i - 1` and `i` have different heights.
pub open spec fn is_boundary(l: Seq<Rat>, i: int) -> bool {
    1 <= i < l.len() && !eqv(l[i - 1], l[i])
}

/// The positions where the height changes.
pub open spec fn boundary_set(l: Seq<Rat>) -> Set<int> {
    Set::new(|i: int| is_boundary(l, i))
}

/// The number of positions where the height changes.
pub open spec fn boundary_count(l: Seq<Rat>) -> nat {
    boundary_set(l).len()
}

proof fn lemma_boundary_finite(l: Seq<Rat>)
    ensures
        boundary_set(l).finite(),
        boundary_set(l).subset_of(set_int_range(0, l.len() as int)),
{
    lemma_int_range(0, l.len() as int);
    assert(boundary_set(l).subset_of(set_int_range(0, l.len() as int)));
    lemma_len_subset(boundary_set(l), set_int_range(0, l.len() as int));
}

/// Filling whole basins never creates a new change of height.
proof fn lemma_pour_keeps_boundaries(l: Seq<Rat>, l2: Seq<Rat>, rs: Seq<Range<usize>>, adds: Seq<Rat>)
    requires
        all_wf(l),
        all_wf(l2),
        rs.len() == adds.len(),
        forall|k: int| 0 <= k < adds.len() ==> (#[trigger] adds[k]).wf(),
        basin_list(l, rs, l.len() as int),
        poured(l, l2, rs, adds),
    ensures
        boundary_set(l2).subset_of(boundary_set(l)),
{
    assert forall|i: int| #[trigger] boundary_set(l2).contains(i) implies boundary_set(l).contains(i) by {
        assert(is_boundary(l2, i));
        if eqv(l[i - 1], l[i]) {
            if exists|k: int| 0 <= k < rs.len() && #[trigger] in_range(rs[k], i) {
                let k = choose|k: int| 0 <= k < rs.len() && #[trigger] in_range(rs[k], i);
                let s = rs[k].start as int;
                assert(is_basin(l, s, rs[k].end as int));
                if s < i {
                    assert(in_range(rs[k], i - 1));
                    lemma_sum_congruence(l[i - 1], l[i], adds[k], l2[i - 1], l2[i]);
                } else {
                    assert(!eqv(l[s - 1], l[s]));
                }
            } else {
                assert(in_no_range(rs, i));
                if exists|k: int| 0 <= k < rs.len() && #[trigger] in_range(rs[k], i - 1) {
                    let k = choose|k: int| 0 <= k < rs.len() && #[trigger] in_range(rs[k], i - 1);
                    let s = rs[k].start as int;
                    let e = rs[k].end as int;
                    assert(is_basin(l, s, e));
                    assert(!in_range(rs[k], i));
                    assert(i == e);
                    assert(eqv(l[e - 1], l[s]));
                    lemma_eqv_sym(l[i - 1], l[i]);
                    lemma_eqv_trans(l[i], l[i - 1], l[s]);
                } else {
                    assert(in_no_range(rs, i - 1));
                    assert(l2[i - 1] == l[i - 1]);
                    assert(l2[i] == l[i]);
                }
            }
        }
    }
}

/// The segment just left of the basin `rs[a]` lies in no basin.
pub(crate) proof fn lemma_left_of_basin_dry(l: Seq<Rat>, rs: Seq<Range<usize>>, a: int)
    requires
        all_wf(l),
        basin_list(l, rs, l.len() as int),
        0 <= a < rs.len(),
        rs[a].start > 0,
    ensures
        in_no_range(rs, rs[a].start - 1),
{
    let s = rs[a].start as int;
    assert(is_basin(l, s, rs[a].end as int));
    assert forall|k: int| 0 <= k < rs.len() implies !in_range(#[trigger] rs[k], s - 1) by {
        if k < a {
            assert(rs[k].end <= rs[a].start);
            if in_range(rs[k], s - 1) {
                let sk = rs[k].start as int;
                assert(is_basin(l, sk, rs[k].end as int));
                assert(rs[k].end == s);
                assert(lt(l[sk], l[s]));
                assert(eqv(l[s - 1], l[sk]));
                lemma_eqv_sym(l[s - 1], l[sk]);
                lemma_lt_eqv_left(l[sk], l[s - 1], l[s]);
                lemma_lt_total(l[s], l[s - 1]);
            }
        } else if k > a {
            assert(rs[a].end <= rs[k].start);
        }
    }
}

/// The segment just right of the basin `rs[a]` lies in no basin.
pub(crate) proof fn lemma_right_of_basin_dry(l: Seq<Rat>, rs: Seq<Range<usize>>, a: int)
    requires
        all_wf(l),
        basin_list(l, rs, l.len() as int),
        0 <= a < rs.len(),
        rs[a].end < l.len(),
    ensures
        in_no_range(rs, rs[a].end as int),
{
    let s = rs[a].start as int;
    let e = rs[a].end as int;
    assert(is_basin(l, s, e));
    assert forall|k: int| 0 <= k < rs.len() implies !in_range(#[trigger] rs[k], e) by {
        if k < a {
            assert(rs[k].end <= rs[a].start);
        } else if k > a {
            assert(rs[a].end <= rs[k].start);
            if in_range(rs[k], e) {
                let sk = rs[k].start as int;
                assert(is_basin(l, sk, rs[k].end as int));
                assert(sk == e);
                assert(lt(l[e], left_height(l, e)));
                assert(eqv(l[e - 1], l[s]));
                lemma_eqv_sym(l[e - 1], l[s]);
                lemma_lt_eqv_left(l[s], l[e - 1], l[e]);
                lemma_lt_total(l[e], l[e - 1]);
            }
        }
    }
}

/// A basin that fills exactly to one of its sides merges with it: one change
/// of height disappears.
proof fn lemma_pour_merges(l: Seq<Rat>, l2: Seq<Rat>, rs: Seq<Range<usize>>, adds: Seq<Rat>, a: int, d: Rat)
    requires
        all_wf(l),
        all_wf(l2),
        d.wf(),
        rs.len() == adds.len(),
        forall|k: int| 0 <= k < adds.len() ==> (#[trigger] adds[k]).wf(),
        basin_list(l, rs, l.len() as int),
        poured(l, l2, rs, adds),
        0 <= a < rs.len(),
        eqv(adds[a], d),
        (rs[a].start > 0 && sum_eqv(l[rs[a].start as int], d, l[rs[a].start - 1])) || (rs[a].end < l.len()
            && sum_eqv(l[rs[a].start as int], d, l[rs[a].end as int])),
    ensures
        boundary_count(l2) < boundary_count(l),
{
    let s = rs[a].start as int;
    let e = rs[a].end as int;
    assert(is_basin(l, s, e));
    lemma_pour_keeps_boundaries(l, l2, rs, adds);
    lemma_boundary_finite(l);
    lemma_boundary_finite(l2);
    let gone: int = if s > 0 && sum_eqv(l[s], d, l[s - 1]) {
        lemma_left_of_basin_dry(l, rs, a);
        assert(in_range(rs[a], s));
        lemma_eqv_sym(l[s], l[s]);
        lemma_sum_reaches(l[s], l[s], adds[a], d, l2[s], l[s - 1]);
        assert(l2[s - 1] == l[s - 1]);
        lemma_eqv_sym(l2[s], l[s - 1]);
        s
    } else {
        lemma_right_of_basin_dry(l, rs, a);
        assert(in_range(rs[a], e - 1));
        assert(eqv(l[e - 1], l[s]));
        lemma_sum_reaches(l[e - 1], l[s], adds[a], d, l2[e - 1], l[e]);
        assert(l2[e] == l[e]);
        if eqv(l[e - 1], l[e]) {
            lemma_eqv_sym(l[e - 1], l[s]);
            lemma_eqv_trans(l[s], l[e - 1], l[e]);
            lemma_eqv_sym(l[s], l[e]);
        }
        e
    };
    assert(boundary_set(l).contains(gone));
    assert(!boundary_set(l2).contains(gone));
    assert(boundary_set(l2).subset_of(boundary_set(l).remove(gone)));
    lemma_len_subset(boundary_set(l2), boundary_set(l).remove(gone));
}

// ---------------------------------------------------------------------------
// Facts about the extremes and the currents
// ---------------------------------------------------------------------------

/// The maxima of a landscape are ordered ranges.
pub proof fn lemma_maxima_ordered(l: Seq<Rat>, ms: Seq<Range<usize>>)
    requires
        l.len() <= i64::MAX,
        l.len() <= usize::MAX,
        maxima_list(l, ms),
    ensures
        ordered_ranges(ms),
{
    let n = ms.len();
    let p = ms.subrange(1, n - 1);
    assert forall|k: int| 1 <= k < n - 1 implies is_peak(l, (#[trigger] ms[k]).start as int, ms[k].end as int) by {
        assert(ms[k] == p[k - 1]);
    }
    assert forall|k: int| 0 <= k < n implies (#[trigger] ms[k]).start <= ms[k].end by {
        if 1 <= k < n - 1 {
            assert(is_peak(l, ms[k].start as int, ms[k].end as int));
        }
    }
    assert forall|k: int| 0 <= k < n - 1 implies (#[trigger] ms[k]).end <= ms[k + 1].start by {
        if k == 0 {
            assert(ms[0].end == 0);
        } else if k + 1 < n - 1 {
            assert(ms[k] == p[k - 1]);
            assert(ms[k + 1] == p[k]);
            assert(p[k - 1].end <= p[k].start);
        } else {
            assert(k == n - 2);
            assert(ms[k + 1].start == l.len());
            assert(is_peak(l, ms[k].start as int, ms[k].end as int));
        }
    }
    assert forall|k: int| 0 <= k < n implies (#[trigger] ms[k]).end <= i64::MAX by {
        if 1 <= k < n - 1 {
            assert(is_peak(l, ms[k].start as int, ms[k].end as int));
        }
    }
    assert forall|k: int| 0 <= k < n implies (#[trigger] ms[k]).start <= i64::MAX by {
        if 1 <= k < n - 1 {
            assert(is_peak(l, ms[k].start as int, ms[k].end as int));
        }
    }
}

/// Every inflow is non-negative and at most the sum of all inflows.
pub proof fn lemma_inflow_bounds(ms: Seq<Range<usize>>, k: int, m: int)
    requires
        ordered_ranges(ms),
        0 <= k < m <= ms.len() - 1,
    ensures
        0 <= inflow_twice(ms, k) <= inflow_twice_sum(ms, m),
    decreases m,
{
    assert(ms[k].end <= ms[k + 1].start);
    assert(ms[k + 1].start <= ms[k + 1].end);
    assert(ms[k].start <= ms[k].end);
    let j = m - 1;
    assert(ms[j].end <= ms[j + 1].start);
    assert(ms[j + 1].start <= ms[j + 1].end);
    assert(ms[j].start <= ms[j].end);
    assert(inflow_twice(ms, j) >= 0);
    if j > k {
        lemma_inflow_bounds(ms, k, j);
    } else {
        lemma_inflow_sum_nonneg(ms, j);
    }
}

/// The sums of inflows are non-negative.
proof fn lemma_inflow_sum_nonneg(ms: Seq<Range<usize>>, m: int)
    requires
        ordered_ranges(ms),
        0 <= m <= ms.len() - 1,
    ensures
        inflow_twice_sum(ms, m) >= 0,
    decreases m,
{
    if m > 0 {
        lemma_inflow_sum_nonneg(ms, m - 1);
        let k = m - 1;
        assert(ms[k].end <= ms[k + 1].start);
        assert(ms[k + 1].start <= ms[k + 1].end);
        assert(ms[k].start <= ms[k].end);
    }
}

/// Filling for exactly the time a basin needs raises it by its depth.
proof fn lemma_rise_is_depth(d: Rat, c: Rat, m: int, step: Rat, add: Rat)
    requires
        d.wf(),
        c.wf(),
        step.wf(),
        add.wf(),
        c.num != 0,
        m > 0,
        has_value(step, d.num * m * c.den, d.den * c.num),
        has_value(add, c.num * step.num, c.den * step.den * m),
    ensures
        eqv(add, d),
{
    let dn = d.num as int;
    let dd = d.den as int;
    let cn = c.num as int;
    let cd = c.den as int;
    let sn = step.num as int;
    let sd = step.den as int;
    assert(sn * (dd * cn) == (dn * m * cd) * sd);
    assert(dn * (cd * sd * m) == (dn * m * cd) * sd) by (nonlinear_arith);
    assert(sn * (dd * cn) == (cn * sn) * dd) by (nonlinear_arith);
    lemma_pos_mul(cd, sd);
    lemma_pos_mul(cd * sd, m);
    lemma_same_value_eqv(add, d, cn * sn, cd * sd * m);
}

/// Filling a basin whose depth is the wall height takes at least
/// `max_level() / n` for a landscape of `n` segments.
proof fn lemma_big_step(c: Rat, m: int, step: Rat, n: int, inflow: int)
    requires
        c.wf(),
        step.wf(),
        c.num > 0,
        m >= 1,
        has_value(step, 8589934590 * m * c.den, 1 * c.num),
        c.num * 2 == inflow * c.den,
        0 <= inflow <= 2 * n,
    ensures
        step.num * n >= 8589934590 * step.den,
{
    let cn = c.num as int;
    let cd = c.den as int;
    let sn = step.num as int;
    let sd = step.den as int;
    let w: int = 8589934590;
    assert(sn * cn == w * m * cd * sd) by (nonlinear_arith)
        requires
            sn * (1 * cn) == (w * m * cd) * sd,
    ;
    assert(inflow * cd <= 2 * (n * cd)) by (nonlinear_arith)
        requires
            inflow <= 2 * n,
            cd > 0,
    ;
    assert(cn <= n * cd);
    assert(w * m * cd * sd > 0) by (nonlinear_arith)
        requires
            w > 0,
            m >= 1,
            cd > 0,
            sd > 0,
    ;
    assert(sn > 0) by (nonlinear_arith)
        requires
            sn * cn > 0,
            cn > 0,
    ;
    assert(sn * n * cd >= sn * cn) by (nonlinear_arith)
        requires
            sn > 0,
            cn <= n * cd,
    ;
    assert(w * m * cd * sd >= w * cd * sd) by (nonlinear_arith)
        requires
            w > 0,
            m >= 1,
            cd > 0,
            sd > 0,
    ;
    assert(sn * n >= w * sd) by (nonlinear_arith)
        requires
            sn * n * cd >= w * cd * sd,
            cd > 0,
    ;
}

/// A time computed by `flood_time` from a positive depth is positive.
proof fn lemma_time_positive(t: Rat, d: Rat, c: Rat, m: int)
    requires
        t.wf(),
        d.wf(),
        c.wf(),
        lt(zero(), d),
        c.num > 0,
        m >= 1,
        has_value(t, d.num * m * c.den, d.den * c.num),
    ensures
        lt(zero(), t),
{
    let dn = d.num as int;
    let dd = d.den as int;
    let cn = c.num as int;
    let cd = c.den as int;
    assert(dn * m * cd * t.den > 0) by (nonlinear_arith)
        requires
            dn > 0,
            m >= 1,
            cd > 0,
            t.den > 0,
    ;
    assert(t.num > 0) by (nonlinear_arith)
        requires
            t.num * (dd * cn) == (dn * m * cd) * t.den,
            dn * m * cd * t.den > 0,
            dd > 0,
            cn > 0,
    ;
}

/// A rise computed by `flood_rise` from a non-negative current and a positive
/// step is not negative.
proof fn lemma_rise_nonneg(a: Rat, c: Rat, step: Rat, m: int)
    requires
        a.wf(),
        c.wf(),
        step.wf(),
        c.num >= 0,
        step.num > 0,
        m >= 1,
        has_value(a, c.num * step.num, c.den * step.den * m),
    ensures
        le(zero(), a),
{
    let k = c.den * step.den * m;
    assert(k > 0) by (nonlinear_arith)
        requires
            c.den > 0,
            step.den > 0,
            m >= 1,
            k == c.den * step.den * m,
    ;
    assert(c.num * step.num * a.den >= 0) by (nonlinear_arith)
        requires
            c.num >= 0,
            step.num > 0,
            a.den > 0,
    ;
    assert(a.num >= 0) by (nonlinear_arith)
        requires
            a.num * k == (c.num * step.num) * a.den,
            c.num * step.num * a.den >= 0,
            k > 0,
    ;
}

/// One step of the rain on the landscape `l` with `remaining` time left: the
/// extremes `ms` (maxima) and `bs` (basins), the currents `cs` towards the
/// basins, their depths `ds`, the times `ts` they need to fill, the step
/// length `step` (the least of these times and `remaining`), the rises
/// `adds` of the basins, and the landscape `l2` after the step.
#[verifier::opaque]
pub open spec fn is_rain_step(
    l: Seq<Rat>,
    remaining: Rat,
    l2: Seq<Rat>,
    step: Rat,
    ms: Seq<Range<usize>>,
    bs: Seq<Range<usize>>,
    cs: Seq<Rat>,
    ds: Seq<Rat>,
    ts: Seq<Rat>,
    adds: Seq<Rat>,
) -> bool {
    &&& maxima_list(l, ms)
    &&& basin_list(l, bs, l.len() as int)
    &&& bs.len() < ms.len()
    &&& (below_wall(l) ==> bs.len() + 1 == ms.len())
    &&& cs.len() == ms.len() - 1
    &&& forall|k: int| 0 <= k < cs.len() ==> (#[trigger] cs[k]).wf() && has_value(cs[k], inflow_twice(ms, k), 2)
    &&& bs.len() >= 1
    &&& ds.len() == bs.len()
    &&& ts.len() == bs.len()
    &&& adds.len() == bs.len()
    &&& forall|k: int| 0 <= k < bs.len() ==> is_depth(l, (#[trigger] bs[k]).start as int, bs[k].end as int, ds[k])
    &&& forall|k: int| 0 <= k < bs.len() ==> {
        &&& (#[trigger] ts[k]).wf()
        &&& cs[k].num != 0
        &&& has_value(ts[k], ds[k].num * range_len(bs[k]) * cs[k].den, ds[k].den * cs[k].num)
    }
    &&& forall|k: int| 0 <= k < bs.len() ==> {
        &&& (#[trigger] adds[k]).wf()
        &&& has_value(adds[k], cs[k].num * step.num, cs[k].den * step.den * range_len(bs[k]))
    }
    &&& forall|k: int| 0 <= k < bs.len() ==> is_reduced(#[trigger] ds[k]) && is_reduced(ts[k])
    &&& forall|k: int| 0 <= k < cs.len() ==> is_reduced(#[trigger] cs[k]) && cs[k].num >= 0
    &&& forall|k: int| 0 <= k < bs.len() ==> is_reduced(#[trigger] adds[k])
    &&& forall|k: int, i: int| 0 <= k < bs.len() && #[trigger] in_range(bs[k], i) ==> is_reduced(l2[i])
    &&& lt(zero(), step)
    &&& forall|i: int| 0 <= i < l.len() ==> le(#[trigger] l[i], l2[i])
    &&& forall|k: int| 0 <= k < bs.len() ==> le(step, #[trigger] ts[k])
    &&& le(step, remaining)
    &&& (step == remaining || exists|k: int| 0 <= k < bs.len() && step == #[trigger] ts[k])
    &&& poured(l, l2, bs, adds)
    &&& all_wf(l2)
}

/// `ms` and `bs` are the maxima and the basins of `l`.
pub open spec fn extremes_of(l: Seq<Rat>, ms: Seq<Range<usize>>, bs: Seq<Range<usize>>) -> bool {
    &&& maxima_list(l, ms)
    &&& basin_list(l, bs, l.len() as int)
}

/// `cs` are the currents towards the gaps between the maxima `ms`, in lowest
/// terms.
pub open spec fn currents_of(ms: Seq<Range<usize>>, cs: Seq<Rat>) -> bool {
    &&& cs.len() == ms.len() - 1
    &&& forall|k: int| 0 <= k < cs.len() ==> {
        &&& (#[trigger] cs[k]).wf()
        &&& is_reduced(cs[k])
        &&& has_value(cs[k], inflow_twice(ms, k), 2)
    }
}

/// `ds` and `ts` are the depths of the basins `bs` of `l` and the times they
/// need to fill at the rates `cs`, in lowest terms.
pub open spec fn times_of(l: Seq<Rat>, bs: Seq<Range<usize>>, cs: Seq<Rat>, ds: Seq<Rat>, ts: Seq<Rat>) -> bool {
    &&& ds.len() == bs.len()
    &&& ts.len() == bs.len()
    &&& forall|k: int| 0 <= k < bs.len() ==> {
        &&& is_depth(l, (#[trigger] bs[k]).start as int, bs[k].end as int, ds[k])
        &&& is_reduced(ds[k])
        &&& ts[k].wf()
        &&& is_reduced(ts[k])
        &&& cs[k].num != 0
        &&& has_value(ts[k], ds[k].num * range_len(bs[k]) * cs[k].den, ds[k].den * cs[k].num)
    }
}

/// `step` is the least of the times `ts` and `remaining`.
pub open spec fn least_time(ts: Seq<Rat>, remaining: Rat, step: Rat) -> bool {
    &&& forall|k: int| 0 <= k < ts.len() ==> le(step, #[trigger] ts[k])
    &&& le(step, remaining)
    &&& (step == remaining || exists|k: int| 0 <= k < ts.len() && step == #[trigger] ts[k])
}

/// `adds` are the rises of the basins `bs` during `step` at the rates `cs`,
/// in lowest terms.
pub open spec fn rises_of(bs: Seq<Range<usize>>, cs: Seq<Rat>, step: Rat, adds: Seq<Rat>) -> bool {
    &&& adds.len() == bs.len()
    &&& forall|k: int| 0 <= k < bs.len() ==> {
        &&& (#[trigger] adds[k]).wf()
        &&& is_reduced(adds[k])
        &&& has_value(adds[k], cs[k].num * step.num, cs[k].den * step.den * range_len(bs[k]))
    }
}

/// The depth of the basin `[s, e)` cannot be computed in `i64`: the
/// difference of its height with one of its sides does not fit.
pub open spec fn depth_overflows(l: Seq<Rat>, s: int, e: int) -> bool {
    ||| (s > 0 && !add_fits(l[s - 1], l[s]))
    ||| (e < l.len() && !add_fits(l[e], l[s]))
}

/// The time a basin of width `m` and depth `d` needs to fill at the rate `c`
/// cannot be computed in `i64` (or the rate is zero).
pub open spec fn time_overflows(d: Rat, m: int, c: Rat) -> bool {
    ||| c.num == 0
    ||| magnitude(d.num * m * c.den) > i64::MAX
    ||| d.den * c.num > i64::MAX
}

/// The rise of a basin of width `m` during `step` at the rate `c` cannot be
/// computed in `i64`.
pub open spec fn rise_overflows(c: Rat, step: Rat, m: int) -> bool {
    ||| magnitude(c.num * step.num) > i64::MAX
    ||| c.den * step.den * m > i64::MAX
}

/// A step of the rain on `l` with `remaining` time left needs a number that
/// does not fit in `i64`: with the extremes `ms` and `bs` of `l`, a range
/// bound of `ms` is above `2^59`, or the depth of a basin, its fill time, its
/// rise, or the new height of one of its segments cannot be computed (each
/// value taken in lowest terms, as the arithmetic produces it).
pub open spec fn step_overflows(l: Seq<Rat>, remaining: Rat) -> bool {
    exists|ms: Seq<Range<usize>>, bs: Seq<Range<usize>>| #[trigger] extremes_of(l, ms, bs) && {
        ||| !small_ranges(ms)
        ||| exists|k: int| 0 <= k < bs.len() && #[trigger] depth_overflows(l, bs[k].start as int, bs[k].end as int)
        ||| exists|cs: Seq<Rat>, k: int, d: Rat| {
            &&& #[trigger] currents_of(ms, cs)
            &&& 0 <= k < bs.len()
            &&& is_depth(l, bs[k].start as int, bs[k].end as int, d)
            &&& is_reduced(d)
            &&& #[trigger] time_overflows(d, range_len(bs[k]), cs[k])
        }
        ||| exists|cs: Seq<Rat>, ds: Seq<Rat>, ts: Seq<Rat>, step: Rat, k: int| {
            &&& #[trigger] currents_of(ms, cs)
            &&& #[trigger] times_of(l, bs, cs, ds, ts)
            &&& #[trigger] least_time(ts, remaining, step)
            &&& 0 <= k < bs.len()
            &&& #[trigger] rise_overflows(cs[k], step, range_len(bs[k]))
        }
        ||| exists|cs: Seq<Rat>, ds: Seq<Rat>, ts: Seq<Rat>, step: Rat, adds: Seq<Rat>| {
            &&& #[trigger] currents_of(ms, cs)
            &&& #[trigger] times_of(l, bs, cs, ds, ts)
            &&& #[trigger] least_time(ts, remaining, step)
            &&& #[trigger] rises_of(bs, cs, step, adds)
            &&& pour_overflows(l, bs, adds)
        }
    }
}

/// `l2` is the landscape `l` after one step of the rain of length `step`,
/// with `remaining` time left before it (see `is_rain_step`).
#[verifier::opaque]
pub open spec fn rained_once(l: Seq<Rat>, remaining: Rat, l2: Seq<Rat>, step: Rat) -> bool {
    exists|ms: Seq<Range<usize>>, bs: Seq<Range<usize>>, cs: Seq<Rat>, ds: Seq<Rat>, ts: Seq<Rat>, adds: Seq<Rat>|
        #[trigger] is_rain_step(l, remaining, l2, step, ms, bs, cs, ds, ts, adds)
}

/// One step of the rain: the basins of `landscape` fill at the rate of the
/// water that reaches them, for the least of `remaining` and the time the
/// first basin needs to fill up to one of its sides.  Returns the length of
/// the step.
///
/// On `Err(NoBasin)` the landscape has no basin; on `Err(Overflow)` an
/// intermediate rational number left the `i64` range (the landscape may then
/// be partly updated).
pub fn rain_step(remaining: Rat, landscape: &mut Vec<Rat>) -> (res: Result<Rat, RainError>)
    requires
        1 <= old(landscape).len() <= i64::MAX,
        all_wf(old(landscape)@),
        remaining.wf(),
        lt(zero(), remaining),
    ensures
        final(landscape).len() == old(landscape).len(),
        all_wf(final(landscape)@),
        res == Err::<Rat, RainError>(RainError::NoBasin) ==> forall|s: int, e: int| !is_basin(old(landscape)@, s, e),
        res == Err::<Rat, RainError>(RainError::NoBasin) ==> final(landscape)@ == old(landscape)@,
        res == Err::<Rat, RainError>(RainError::Overflow) ==> step_overflows(old(landscape)@, remaining),
        (forall|s: int, e: int| !is_basin(old(landscape)@, s, e)) ==> res is Err,
        res matches Ok(step) ==> step.wf() && lt(zero(), step) && le(step, remaining),
        res matches Ok(step) ==> rained_once(old(landscape)@, remaining, final(landscape)@, step),
        res is Ok ==> forall|i: int| 0 <= i < old(landscape).len() ==> le(#[trigger] old(landscape)@[i], final(landscape)@[i]),
        res is Ok ==> risen_stay_low(old(landscape)@, final(landscape)@),
        res is Ok ==> boundary_count(final(landscape)@) <= boundary_count(old(landscape)@),
        res matches Ok(step) ==> (lt(step, remaining) ==> (boundary_count(final(landscape)@) < boundary_count(old(landscape)@)
            || step.num * old(landscape).len() >= 8589934590 * step.den)),
{
    let ghost l = landscape@;
    let len = landscape.len();
    let (maximas, minimas) = calculate_extremes(landscape);
    proof {
        lemma_maxima_ordered(l, maximas@);
    }
    let currents = match calculate_water_currents(&maximas) {
        Some(c) => c,
        None => {
            proof {
                assert(extremes_of(l, maximas@, minimas@));
            }
            return Err(RainError::Overflow);
        },
    };
    let n = minimas.len();
    proof {
        lemma_no_basin_iff_empty(l, minimas@);
    }
    if n == 0 {
        return Err(RainError::NoBasin);
    }
    proof {
        assert forall|k: int| 0 <= k < currents.len() implies (#[trigger] currents@[k]).num >= 0 by {
            lemma_inflow_bounds(maximas@, k, maximas.len() - 1);
            let c = currents@[k];
            assert(c.num * 2 == inflow_twice(maximas@, k) * c.den);
            assert(inflow_twice(maximas@, k) * c.den >= 0) by (nonlinear_arith)
                requires
                    inflow_twice(maximas@, k) >= 0,
                    c.den > 0,
            ;
        }
    }
    let mut depths: Vec<Rat> = Vec::new();
    let mut times: Vec<Rat> = Vec::new();
    let mut min_time = Rat::from_integer(0);
    let ghost mut arg: int = 0;
    let mut k: usize = 0;
    while k < n
        invariant
            n == minimas.len(),
            1 <= n < maximas.len(),
            currents.len() == maximas.len() - 1,
            l == landscape@,
            len == l.len(),
            len <= i64::MAX,
            all_wf(l),
            basin_list(l, minimas@, len as int),
            extremes_of(l, maximas@, minimas@),
            currents_of(maximas@, currents@),
            forall|j: int| 0 <= j < currents.len() ==> (#[trigger] currents@[j]).wf() && currents@[j].num >= 0,
            0 <= k <= n,
            depths.len() == k,
            forall|j: int| 0 <= j < k ==> is_reduced(#[trigger] depths@[j]) && is_reduced(times@[j]),
            times.len() == k,
            min_time.wf(),
            forall|j: int| 0 <= j < k ==> is_depth(l, (#[trigger] minimas@[j]).start as int, minimas@[j].end as int, depths@[j]),
            forall|j: int| 0 <= j < k ==> {
                &&& (#[trigger] times@[j]).wf()
                &&& currents@[j].num != 0
                &&& has_value(times@[j], depths@[j].num * range_len(minimas@[j]) * currents@[j].den, depths@[j].den * currents@[j].num)
            },
            k > 0 ==> 0 <= arg < k && min_time == times@[arg],
            forall|j: int| 0 <= j < k ==> le(min_time, #[trigger] times@[j]),
        decreases n - k,
    {
        let s = minimas[k].start;
        let e = minimas[k].end;
        proof {
            assert(is_basin(l, s as int, e as int));
        }
        let d = match basin_depth(landscape, s, e) {
            Some(d) => d,
            None => {
                proof {
                    assert(depth_overflows(l, minimas@[k as int].start as int, minimas@[k as int].end as int));
                }
                return Err(RainError::Overflow);
            },
        };
        let t = match flood_time(d, e - s, currents[k]) {
            Some(t) => t,
            None => {
                proof {
                    assert(range_len(minimas@[k as int]) == e - s);
                    assert(time_overflows(d, range_len(minimas@[k as int]), currents@[k as int]));
                }
                return Err(RainError::Overflow);
            },
        };
        depths.push(d);
        times.push(t);
        if k == 0 || less_than(t, min_time) {
            proof {
                if k > 0 {
                    assert forall|j: int| 0 <= j < k implies le(t, #[trigger] times@[j]) by {
                        crate::rational::lemma_lt_le_trans(t, min_time, times@[j]);
                    }
                }
                arg = k as int;
            }
            min_time = t;
        } else {
            proof {
                lemma_lt_total(t, min_time);
            }
        }
        k = k + 1;
    }
    let step = min_of(min_time, remaining);
    proof {
        lemma_lt_total(remaining, min_time);
        assert forall|j: int| 0 <= j < times.len() implies le(step, #[trigger] times@[j]) by {
            crate::rational::lemma_le_trans(step, min_time, times@[j]);
        }
        assert(step == remaining || step == times@[arg]);
        assert(least_time(times@, remaining, step));
        assert(times_of(l, minimas@, currents@, depths@, times@));
    }
    let mut adds: Vec<Rat> = Vec::new();
    let mut k: usize = 0;
    while k < n
        invariant
            n == minimas.len(),
            1 <= n < maximas.len(),
            currents.len() == maximas.len() - 1,
            len <= i64::MAX,
            l == landscape@,
            all_wf(l),
            basin_list(l, minimas@, len as int),
            len == l.len(),
            forall|j: int| 0 <= j < currents.len() ==> (#[trigger] currents@[j]).wf() && currents@[j].num >= 0,
            step.wf(),
            extremes_of(l, maximas@, minimas@),
            currents_of(maximas@, currents@),
            times_of(l, minimas@, currents@, depths@, times@),
            least_time(times@, remaining, step),
            0 <= k <= n,
            adds.len() == k,
            forall|j: int| 0 <= j < k ==> is_reduced(#[trigger] adds@[j]),
            forall|j: int| 0 <= j < k ==> {
                &&& (#[trigger] adds@[j]).wf()
                &&& has_value(adds@[j], currents@[j].num * step.num, currents@[j].den * step.den * range_len(minimas@[j]))
            },
        decreases n - k,
    {
        let s = minimas[k].start;
        let e = minimas[k].end;
        proof {
            assert(is_basin(l, s as int, e as int));
        }
        let a = match flood_rise(currents[k], step, e - s) {
            Some(a) => a,
            None => {
                proof {
                    assert(range_len(minimas@[k as int]) == e - s);
                    assert(rise_overflows(currents@[k as int], step, range_len(minimas@[k as int])));
                }
                return Err(RainError::Overflow);
            },
        };
        adds.push(a);
        k = k + 1;
    }
    proof {
        assert forall|j: int| 0 <= j < minimas.len() implies (#[trigger] minimas@[j]).start < minimas@[j].end <= l.len() by {
            assert(is_basin(l, minimas@[j].start as int, minimas@[j].end as int));
        }
    }
    proof {
        assert(rises_of(minimas@, currents@, step, adds@));
    }
    match pour(landscape, &minimas, &adds) {
        Ok(()) => {},
        Err(e) => {
            proof {
                assert(pour_overflows(l, minimas@, adds@));
            }
            return Err(e);
        },
    }
    proof {
        let l2 = landscape@;
        lemma_step_outcome(l, l2, remaining, step, min_time, arg, maximas@, minimas@, currents@, depths@, times@, adds@);
        assert forall|i: int| 0 <= i < l.len() implies le(#[trigger] l[i], l[i]) by {
            lemma_lt_total(l[i], l[i]);
        }
        lemma_step_keeps_water_low(l, l, remaining, l2, step);
    }
    Ok(step)
}

/// What a step of the rain achieves, from the values computed by `rain_step`.
proof fn lemma_step_outcome(
    l: Seq<Rat>,
    l2: Seq<Rat>,
    remaining: Rat,
    step: Rat,
    min_time: Rat,
    arg: int,
    ms: Seq<Range<usize>>,
    bs: Seq<Range<usize>>,
    cs: Seq<Rat>,
    ds: Seq<Rat>,
    ts: Seq<Rat>,
    adds: Seq<Rat>,
)
    requires
        all_wf(l),
        all_wf(l2),
        1 <= l.len() <= i64::MAX,
        l.len() <= usize::MAX,
        remaining.wf(),
        lt(zero(), remaining),
        min_time.wf(),
        step.wf(),
        maxima_list(l, ms),
        ordered_ranges(ms),
        basin_list(l, bs, l.len() as int),
        below_wall(l) ==> bs.len() + 1 == ms.len(),
        cs.len() == ms.len() - 1,
        forall|k: int| 0 <= k < cs.len() ==> (#[trigger] cs[k]).wf() && has_value(cs[k], inflow_twice(ms, k), 2) && cs[k].num >= 0,
        1 <= bs.len() < ms.len(),
        ds.len() == bs.len(),
        ts.len() == bs.len(),
        adds.len() == bs.len(),
        forall|k: int| 0 <= k < bs.len() ==> is_depth(l, (#[trigger] bs[k]).start as int, bs[k].end as int, ds[k]),
        forall|k: int| 0 <= k < bs.len() ==> {
            &&& (#[trigger] ts[k]).wf()
            &&& cs[k].num != 0
            &&& has_value(ts[k], ds[k].num * range_len(bs[k]) * cs[k].den, ds[k].den * cs[k].num)
        },
        forall|k: int| 0 <= k < bs.len() ==> is_reduced(#[trigger] ds[k]) && is_reduced(ts[k]),
        forall|k: int| 0 <= k < cs.len() ==> is_reduced(#[trigger] cs[k]),
        forall|k: int| 0 <= k < bs.len() ==> is_reduced(#[trigger] adds[k]),
        forall|k: int, i: int| 0 <= k < bs.len() && #[trigger] in_range(bs[k], i) ==> is_reduced(l2[i]),
        forall|k: int| 0 <= k < bs.len() ==> {
            &&& (#[trigger] adds[k]).wf()
            &&& has_value(adds[k], cs[k].num * step.num, cs[k].den * step.den * range_len(bs[k]))
        },
        0 <= arg < bs.len(),
        min_time == ts[arg],
        forall|j: int| 0 <= j < bs.len() ==> le(min_time, #[trigger] ts[j]),
        step == (if lt(remaining, min_time) { remaining } else { min_time }),
        poured(l, l2, bs, adds),
    ensures
        lt(zero(), step),
        le(step, remaining),
        is_rain_step(l, remaining, l2, step, ms, bs, cs, ds, ts, adds),
        rained_once(l, remaining, l2, step),
        forall|i: int| 0 <= i < l.len() ==> le(#[trigger] l[i], l2[i]),
        boundary_count(l2) <= boundary_count(l),
        lt(step, remaining) ==> (boundary_count(l2) < boundary_count(l) || step.num * l.len() >= 8589934590 * step.den),
{
    let n = bs.len();
    assert(is_basin(l, bs[arg].start as int, bs[arg].end as int));
    lemma_lt_total(remaining, min_time);
    lemma_time_positive(min_time, ds[arg], cs[arg], range_len(bs[arg]));
    assert(lt(zero(), step));
    assert forall|j: int| 0 <= j < bs.len() implies le(step, #[trigger] ts[j]) by {
        crate::rational::lemma_le_trans(step, min_time, ts[j]);
    }
    assert(step == remaining || (0 <= arg < bs.len() && step == ts[arg]));
    reveal(is_rain_step);
    reveal(rained_once);
    // Rises are not negative, so no segment goes down.
    assert forall|j: int| 0 <= j < bs.len() implies le(zero(), #[trigger] adds[j]) by {
        lemma_rise_nonneg(adds[j], cs[j], step, range_len(bs[j]));
    }
    assert forall|i: int| 0 <= i < l.len() implies le(#[trigger] l[i], l2[i]) by {
        if exists|j: int| 0 <= j < bs.len() && #[trigger] in_range(bs[j], i) {
            let j = choose|j: int| 0 <= j < bs.len() && #[trigger] in_range(bs[j], i);
            lemma_sum_nonneg(l[i], adds[j], l2[i]);
        } else {
            assert(in_no_range(bs, i));
            assert(l2[i] == l[i]);
        }
    }
    assert(is_rain_step(l, remaining, l2, step, ms, bs, cs, ds, ts, adds));
    lemma_pour_keeps_boundaries(l, l2, bs, adds);
    lemma_boundary_finite(l);
    lemma_len_subset(boundary_set(l2), boundary_set(l));
    if lt(step, remaining) {
        assert(step == min_time);
        let d = ds[arg];
        let c = cs[arg];
        let m = range_len(bs[arg]);
        let sa = bs[arg].start as int;
        let ea = bs[arg].end as int;
        assert(is_depth(l, sa, ea, d));
        if d == max_level() && (sa == 0 || ea == l.len()) {
            lemma_currents_cover_landscape(ms, l.len() as int);
            lemma_inflow_bounds(ms, arg, ms.len() - 1);
            lemma_big_step(c, m, step, l.len() as int, inflow_twice(ms, arg));
        } else {
            lemma_rise_is_depth(d, c, m, step, adds[arg]);
            lemma_pour_merges(l, l2, bs, adds, arg, d);
        }
    }
}

/// Every segment of `[s, e)` rises by `add` from `l` to `l2`.
pub open spec fn rises_by(l: Seq<Rat>, l2: Seq<Rat>, s: int, e: int, add: Rat) -> bool {
    forall|j: int| s <= j < e ==> is_sum(l[j], add, #[trigger] l2[j])
}

/// Law: water stands only in basins.  A step of the rain changes the height
/// of a segment only where that segment lies in a basin of the landscape
/// before the step, and all segments of that basin rise together: they get
/// the same rise.
pub proof fn lemma_rain_fills_only_basins(l: Seq<Rat>, remaining: Rat, l2: Seq<Rat>, step: Rat, i: int)
    requires
        rained_once(l, remaining, l2, step),
        0 <= i < l.len(),
        l2[i] != l[i],
    ensures
        exists|s: int, e: int, add: Rat| {
            &&& #[trigger] is_basin(l, s, e)
            &&& s <= i < e
            &&& #[trigger] rises_by(l, l2, s, e, add)
        },
{
    reveal(rained_once);
    let (ms, bs, cs, ds, ts, adds) = choose|ms: Seq<Range<usize>>, bs: Seq<Range<usize>>, cs: Seq<Rat>, ds: Seq<Rat>, ts: Seq<Rat>, adds: Seq<Rat>|
        #[trigger] is_rain_step(l, remaining, l2, step, ms, bs, cs, ds, ts, adds);
    reveal(is_rain_step);
    if in_no_range(bs, i) {
        assert(l2[i] == l[i]);
    } else {
        let k = choose|k: int| 0 <= k < bs.len() && #[trigger] in_range(bs[k], i);
        let s = bs[k].start as int;
        let e = bs[k].end as int;
        assert(is_basin(l, s, e));
        assert forall|j: int| s <= j < e implies is_sum(l[j], adds[k], #[trigger] l2[j]) by {
            assert(in_range(bs[k], j));
        }
        assert(rises_by(l, l2, s, e, adds[k]));
    }
}

/// A landscape has no basin exactly when its basin list is empty.
proof fn lemma_no_basin_iff_empty(l: Seq<Rat>, bs: Seq<Range<usize>>)
    requires
        basin_list(l, bs, l.len() as int),
    ensures
        bs.len() == 0 <==> forall|s: int, e: int| !is_basin(l, s, e),
{
    if bs.len() > 0 {
        assert(is_basin(l, bs[0].start as int, bs[0].end as int));
    } else {
        assert forall|s: int, e: int| !is_basin(l, s, e) by {
            if is_basin(l, s, e) {
                assert(s < l.len());
            }
        }
    }
}

// ---------------------------------------------------------------------------
// The whole rain
// ---------------------------------------------------------------------------

/// `l2` results from `l` after `n` steps of rain with `remaining` time left:
/// the rain stops when no time is left.
pub open spec fn rained_in(n: nat, l: Seq<Rat>, remaining: Rat, l2: Seq<Rat>) -> bool
    decreases n,
{
    if n == 0 {
        !lt(zero(), remaining) && l2 == l
    } else {
        &&& lt(zero(), remaining)
        &&& exists|l1: Seq<Rat>, step: Rat, r1: Rat|
            #![trigger rained_once(l, remaining, l1, step), is_diff(remaining, step, r1)]
            {
                &&& rained_once(l, remaining, l1, step)
                &&& is_diff(remaining, step, r1)
                &&& r1.wf()
                &&& rained_in((n - 1) as nat, l1, r1, l2)
            }
    }
}

/// The landscape `l2` with `r2` time left is reached from `l` with
/// `remaining` time left after `n` steps of the rain, each taken while time
/// was left.
pub open spec fn rain_reaches(n: nat, l: Seq<Rat>, remaining: Rat, l2: Seq<Rat>, r2: Rat) -> bool
    decreases n,
{
    if n == 0 {
        l2 == l && r2 == remaining
    } else {
        exists|l1: Seq<Rat>, r1: Rat, step: Rat|
            #![trigger rained_once(l1, r1, l2, step), is_diff(r1, step, r2)]
            {
                &&& rain_reaches((n - 1) as nat, l, remaining, l1, r1)
                &&& lt(zero(), r1)
                &&& rained_once(l1, r1, l2, step)
                &&& is_diff(r1, step, r2)
                &&& r2.wf()
                &&& is_reduced(r2)
            }
    }
}

/// The rain keeps the number of segments.
proof fn lemma_reaches_len(n: nat, l: Seq<Rat>, remaining: Rat, l2: Seq<Rat>, r2: Rat)
    requires
        rain_reaches(n, l, remaining, l2, r2),
    ensures
        l2.len() == l.len(),
    decreases n,
{
    if n > 0 {
        let (l1, r1, step) = choose|l1: Seq<Rat>, r1: Rat, step: Rat| {
            &&& rain_reaches((n - 1) as nat, l, remaining, l1, r1)
            &&& lt(zero(), r1)
            &&& #[trigger] rained_once(l1, r1, l2, step)
            &&& #[trigger] is_diff(r1, step, r2)
            &&& r2.wf()
            &&& is_reduced(r2)
        };
        lemma_reaches_len((n - 1) as nat, l, remaining, l1, r1);
        reveal(rained_once);
        let (ms, bs, cs, ds, ts, adds) = choose|ms: Seq<Range<usize>>, bs: Seq<Range<usize>>, cs: Seq<Rat>, ds: Seq<Rat>, ts: Seq<Rat>, adds: Seq<Rat>|
            #[trigger] is_rain_step(l1, r1, l2, step, ms, bs, cs, ds, ts, adds);
        reveal(is_rain_step);
    }
}

/// Law: over a whole rain, water stands only in basins.  A segment whose
/// height changed lay, before one of the steps, in a basin of the landscape
/// that the rain had reached then.
pub proof fn lemma_rain_reaches_fills_only_basins(n: nat, l: Seq<Rat>, remaining: Rat, l2: Seq<Rat>, r2: Rat, i: int)
    requires
        rain_reaches(n, l, remaining, l2, r2),
        0 <= i < l.len(),
        l2[i] != l[i],
    ensures
        exists|m: nat, l1: Seq<Rat>, r1: Rat, s: int, e: int| {
            &&& m < n
            &&& #[trigger] rain_reaches(m, l, remaining, l1, r1)
            &&& #[trigger] is_basin(l1, s, e)
            &&& s <= i < e
        },
    decreases n,
{
    if n == 0 {
        assert(l2 == l);
    } else {
        let (l1, r1, step) = choose|l1: Seq<Rat>, r1: Rat, step: Rat| {
            &&& rain_reaches((n - 1) as nat, l, remaining, l1, r1)
            &&& lt(zero(), r1)
            &&& #[trigger] rained_once(l1, r1, l2, step)
            &&& #[trigger] is_diff(r1, step, r2)
            &&& r2.wf()
            &&& is_reduced(r2)
        };
        lemma_reaches_len((n - 1) as nat, l, remaining, l1, r1);
        if l2[i] != l1[i] {
            lemma_rain_fills_only_basins(l1, r1, l2, step, i);
            let (s, e, add) = choose|s: int, e: int, add: Rat| {
                &&& #[trigger] is_basin(l1, s, e)
                &&& s <= i < e
                &&& #[trigger] rises_by(l1, l2, s, e, add)
            };
            assert(rain_reaches((n - 1) as nat, l, remaining, l1, r1) && is_basin(l1, s, e));
        } else {
            lemma_rain_reaches_fills_only_basins((n - 1) as nat, l, remaining, l1, r1, i);
            let (m, la, ra, s, e) = choose|m: nat, la: Seq<Rat>, ra: Rat, s: int, e: int| {
                &&& m < n - 1
                &&& #[trigger] rain_reaches(m, l, remaining, la, ra)
                &&& #[trigger] is_basin(la, s, e)
                &&& s <= i < e
            };
            assert(rain_reaches(m, l, remaining, la, ra) && is_basin(la, s, e));
        }
    }
}

/// How many steps of at least `max_level() / n` fit in `r`.
pub open spec fn big_steps(r: Rat, n: int) -> nat {
    if r.num > 0 && r.den > 0 && n > 0 {
        ((r.num * n) / (r.den * 8589934590)) as nat
    } else {
        0
    }
}

/// A step of at least `max_level() / n` lowers `big_steps`.
proof fn lemma_big_steps_drop(r: Rat, step: Rat, r2: Rat, n: int)
    requires
        r.wf(),
        step.wf(),
        r2.wf(),
        n >= 1,
        is_diff(r, step, r2),
        lt(zero(), r),
        lt(zero(), r2),
        step.num * n >= 8589934590 * step.den,
    ensures
        big_steps(r2, n) < big_steps(r, n),
{
    let w: int = 8589934590;
    let rn = r.num as int;
    let rd = r.den as int;
    let sn = step.num as int;
    let sd = step.den as int;
    let qn = r2.num as int;
    let qd = r2.den as int;
    let x = rn * n;
    let y = rd * w;
    let x2 = qn * n;
    let y2 = qd * w;
    assert(x > 0 && y > 0 && x2 > 0 && y2 > 0) by (nonlinear_arith)
        requires
            rn > 0,
            rd > 0,
            qn > 0,
            qd > 0,
            n >= 1,
            w > 0,
            x == rn * n,
            y == rd * w,
            x2 == qn * n,
            y2 == qd * w,
    ;
    // x2 * y + y * y2 <= x * y2, first multiplied by sd.
    assert(qn * (rd * sd) == (rn * sd - sn * rd) * qd);
    assert(x2 * y * sd == n * w * (qn * (rd * sd))) by (nonlinear_arith)
        requires
            x2 == qn * n,
            y == rd * w,
    ;
    let u = rn * sd;
    let v = sn * rd;
    assert(n * w * ((u - v) * qd) == n * w * u * qd - n * w * v * qd) by (nonlinear_arith);
    assert(n * w * u * qd == x * y2 * sd) by (nonlinear_arith)
        requires
            x == rn * n,
            y2 == qd * w,
            u == rn * sd,
    ;
    assert(n * w * v * qd == w * rd * qd * (sn * n)) by (nonlinear_arith)
        requires
            v == sn * rd,
    ;
    assert(y * y2 * sd == w * rd * qd * (w * sd)) by (nonlinear_arith)
        requires
            y == rd * w,
            y2 == qd * w,
    ;
    assert(w * rd * qd * (w * sd) <= w * rd * qd * (sn * n)) by (nonlinear_arith)
        requires
            w * sd <= sn * n,
            w > 0,
            rd > 0,
            qd > 0,
    ;
    assert((x2 * y + y * y2) * sd <= x * y2 * sd) by (nonlinear_arith)
        requires
            x2 * y * sd == x * y2 * sd - w * rd * qd * (sn * n),
            y * y2 * sd <= w * rd * qd * (sn * n),
    ;
    assert(x2 * y + y * y2 <= x * y2) by (nonlinear_arith)
        requires
            (x2 * y + y * y2) * sd <= x * y2 * sd,
            sd > 0,
    ;
    // Floors.
    let f2 = x2 / y2;
    let f = x / y;
    vstd::arithmetic::div_mod::lemma_fundamental_div_mod(x2, y2);
    vstd::arithmetic::div_mod::lemma_mod_bound(x2, y2);
    vstd::arithmetic::div_mod::lemma_fundamental_div_mod(x, y);
    vstd::arithmetic::div_mod::lemma_mod_bound(x, y);
    assert(f2 * y2 <= x2) by (nonlinear_arith)
        requires
            x2 == y2 * f2 + x2 % y2,
            x2 % y2 >= 0,
    ;
    assert((f2 + 1) * y2 * y <= x * y2) by (nonlinear_arith)
        requires
            f2 * y2 <= x2,
            x2 * y + y * y2 <= x * y2,
            y > 0,
    ;
    assert((f2 + 1) * y <= x) by (nonlinear_arith)
        requires
            (f2 + 1) * y2 * y <= x * y2,
            y2 > 0,
    ;
    assert(f2 < f) by (nonlinear_arith)
        requires
            (f2 + 1) * y <= x,
            x == y * f + x % y,
            x % y < y,
            y > 0,
    ;
    vstd::arithmetic::div_mod::lemma_div_pos_is_pos(x2, y2);
}

/// A positive difference means the subtracted number was smaller.
/// Less time left never allows more big steps.
proof fn lemma_big_steps_mono(r: Rat, step: Rat, r2: Rat, n: int)
    requires
        r.wf(),
        step.wf(),
        r2.wf(),
        n >= 1,
        is_diff(r, step, r2),
        lt(zero(), step),
    ensures
        big_steps(r2, n) <= big_steps(r, n),
{
    if r2.num > 0 {
        let w: int = 8589934590;
        let rn = r.num as int;
        let rd = r.den as int;
        let sn = step.num as int;
        let sd = step.den as int;
        let qn = r2.num as int;
        let qd = r2.den as int;
        assert(sn > 0);
        assert(qn * (rd * sd) == (rn * sd - sn * rd) * qd);
        assert(qn * rd < rn * qd) by (nonlinear_arith)
            requires
                qn * (rd * sd) == (rn * sd - sn * rd) * qd,
                sn > 0,
                rd > 0,
                sd > 0,
                qd > 0,
        ;
        assert(rn > 0) by (nonlinear_arith)
            requires
                qn * rd < rn * qd,
                qn > 0,
                rd > 0,
                qd > 0,
        ;
        let x = rn * n;
        let y = rd * w;
        let x2 = qn * n;
        let y2 = qd * w;
        assert(y > 0 && y2 > 0 && x2 > 0) by (nonlinear_arith)
            requires
                y == rd * w,
                y2 == qd * w,
                x2 == qn * n,
                rd > 0,
                qd > 0,
                qn > 0,
                n >= 1,
                w > 0,
        ;
        assert(x2 * y < x * y2) by (nonlinear_arith)
            requires
                qn * rd < rn * qd,
                x == rn * n,
                y == rd * w,
                x2 == qn * n,
                y2 == qd * w,
                n >= 1,
                w > 0,
        ;
        let q = x2 / y2;
        let k = x / y;
        vstd::arithmetic::div_mod::lemma_fundamental_div_mod(x2, y2);
        vstd::arithmetic::div_mod::lemma_fundamental_div_mod(x, y);
        vstd::arithmetic::div_mod::lemma_mod_bound(x2, y2);
        vstd::arithmetic::div_mod::lemma_mod_bound(x, y);
        assert(q <= k) by (nonlinear_arith)
            requires
                x2 == y2 * q + x2 % y2,
                0 <= x2 % y2 < y2,
                x == y * k + x % y,
                0 <= x % y < y,
                x2 * y < x * y2,
                y > 0,
                y2 > 0,
        ;
    }
}

proof fn lemma_diff_positive(r: Rat, s: Rat, r2: Rat)
    requires
        r.wf(),
        s.wf(),
        r2.wf(),
        is_diff(r, s, r2),
        lt(zero(), r2),
    ensures
        lt(s, r),
{
    let rn = r.num as int;
    let rd = r.den as int;
    let sn = s.num as int;
    let sd = s.den as int;
    assert(r2.num * (rd * sd) > 0) by (nonlinear_arith)
        requires
            r2.num > 0,
            rd > 0,
            sd > 0,
    ;
    assert((rn * sd - sn * rd) * r2.den > 0);
    assert(rn * sd - sn * rd > 0) by (nonlinear_arith)
        requires
            (rn * sd - sn * rd) * r2.den > 0,
            r2.den > 0,
    ;
}

/// Lets `total_time` worth of rain fall on `landscape`: one unit of water per
/// unit of time on every segment.  Repeats `rain_step` until the time is used
/// up; on `Ok` the landscape is the one that these steps produce.
///
/// With no time to rain (`total_time <= 0`) it succeeds and changes nothing.
/// On `Err(NoBasin)` the steps taken so far reached, with time still left, a
/// landscape without a basin, which happens when the water level of the
/// whole landscape reaches `max_level()`; the landscape holds that state.  On
/// `Err(Overflow)` an intermediate rational number left the `i64` range.
pub fn calculate(total_time: Rat, landscape: &mut Vec<Rat>) -> (res: Result<(), RainError>)
    requires
        1 <= old(landscape).len() <= i64::MAX,
        all_wf(old(landscape)@),
        total_time.wf(),
    ensures
        final(landscape).len() == old(landscape).len(),
        all_wf(final(landscape)@),
        !lt(zero(), total_time) ==> res is Ok && final(landscape)@ == old(landscape)@,
        res is Ok ==> exists|n: nat| #[trigger] rained_in(n, old(landscape)@, total_time, final(landscape)@)
            && n <= boundary_count(old(landscape)@) + big_steps(total_time, old(landscape).len() as int) + 1,
        res is Ok ==> exists|n: nat, r: Rat| #[trigger] rain_reaches(n, old(landscape)@, total_time, final(landscape)@, r)
            && !lt(zero(), r),
        res == Err::<(), RainError>(RainError::NoBasin) ==> exists|n: nat, r: Rat| {
            &&& #[trigger] rain_reaches(n, old(landscape)@, total_time, final(landscape)@, r)
            &&& lt(zero(), r)
            &&& forall|s: int, e: int| !is_basin(final(landscape)@, s, e)
        },
        res == Err::<(), RainError>(RainError::Overflow) ==> exists|n: nat, l1: Seq<Rat>, r: Rat| {
            &&& #[trigger] rain_reaches(n, old(landscape)@, total_time, l1, r)
            &&& lt(zero(), r)
            &&& (step_overflows(l1, r) || exists|l2: Seq<Rat>, step: Rat|
                #[trigger] rained_once(l1, r, l2, step) && !add_fits(r, step))
        },
        res is Ok ==> forall|i: int| 0 <= i < old(landscape).len() ==> le(#[trigger] old(landscape)@[i], final(landscape)@[i]),
        res is Ok ==> risen_stay_low(old(landscape)@, final(landscape)@),
        res is Ok && below_wall(old(landscape)@) && le(zero(), total_time) ==> adds_water(
            old(landscape)@,
            final(landscape)@,
            total_time,
            old(landscape).len() as int,
        ),
{
    let ghost l0 = landscape@;
    let len = landscape.len();
    let zero_value = Rat::from_integer(0);
    let mut remaining = total_time;
    let ghost mut steps: nat = 0;
    loop
        invariant
            landscape.len() == len,
            len == l0.len(),
            1 <= len <= i64::MAX,
            l0 == old(landscape)@,
            all_wf(l0),
            all_wf(landscape@),
            remaining.wf(),
            total_time.wf(),
            zero_value == zero(),
            forall|i: int| 0 <= i < len ==> le(#[trigger] l0[i], landscape@[i]),
            forall|n: nat, l2: Seq<Rat>| #[trigger] rained_in(n, landscape@, remaining, l2) ==> rained_in(n + steps, l0, total_time, l2),
            rain_reaches(steps, l0, total_time, landscape@, remaining),
            steps == 0 ==> remaining == total_time && landscape@ == l0,
            !lt(zero(), total_time) ==> steps == 0,
            steps <= boundary_count(l0) + big_steps(total_time, len as int) + 1,
            lt(zero(), remaining) ==> steps + boundary_count(landscape@) + big_steps(remaining, len as int)
                <= boundary_count(l0) + big_steps(total_time, len as int),
        decreases (if lt(zero(), remaining) { 1int } else { 0int }), boundary_count(landscape@), big_steps(remaining, len as int),
    {
        if !less_than(zero_value, remaining) {
            proof {
                assert(rain_reaches(steps, l0, total_time, landscape@, remaining));
                assert(rained_in(0, landscape@, remaining, landscape@));
                assert(rained_in(0 + steps, l0, total_time, landscape@));
                lemma_rain_leaves_water_low(steps, l0, total_time, landscape@);
                if below_wall(l0) && le(zero(), total_time) {
                    lemma_rain_conserves_water(steps, l0, total_time, landscape@);
                }
            }
            return Ok(());
        }
        let ghost prev_l = landscape@;
        let ghost prev_r = remaining;
        let step = match rain_step(remaining, landscape) {
            Ok(s) => s,
            Err(e) => {
                proof {
                    if e == RainError::NoBasin {
                        assert(landscape@ == prev_l);
                        assert(rain_reaches(steps, l0, total_time, landscape@, remaining));
                    } else {
                        assert(rain_reaches(steps, l0, total_time, prev_l, remaining));
                        assert(step_overflows(prev_l, remaining));
                    }
                }
                return Err(e);
            },
        };
        remaining = match checked_sub(remaining, step) {
            Some(r) => r,
            None => {
                proof {
                    assert(rain_reaches(steps, l0, total_time, prev_l, prev_r));
                    assert(rained_once(prev_l, prev_r, landscape@, step));
                    assert(!add_fits(prev_r, step));
                }
                return Err(RainError::Overflow);
            },
        };
        proof {
            assert forall|i: int| 0 <= i < len implies le(#[trigger] l0[i], landscape@[i]) by {
                crate::rational::lemma_le_trans(l0[i], prev_l[i], landscape@[i]);
            }
            assert forall|n: nat, l2: Seq<Rat>| #[trigger] rained_in(n, landscape@, remaining, l2) implies rained_in(n + (steps + 1), l0, total_time, l2) by {
                assert(rained_in(n + 1, prev_l, prev_r, l2));
                assert(rained_in((n + 1) as nat + steps, l0, total_time, l2));
                assert((n + 1) as nat + steps == n + (steps + 1));
            }
            let n1: nat = steps + 1;
            assert((n1 - 1) as nat == steps);
            assert(rain_reaches((n1 - 1) as nat, l0, total_time, prev_l, prev_r));
            assert(rained_once(prev_l, prev_r, landscape@, step));
            assert(is_diff(prev_r, step, remaining));
            assert(rain_reaches(n1, l0, total_time, landscape@, remaining));
            steps = steps + 1;
            lemma_big_steps_mono(prev_r, step, remaining, len as int);
            if lt(zero(), remaining) {
                lemma_diff_positive(prev_r, step, remaining);
                if boundary_count(landscape@) == boundary_count(prev_l) {
                    lemma_big_steps_drop(prev_r, step, remaining, len as int);
                }
            }
        }
    }
}

} // verus!
