//! Water falling uniformly on a one-dimensional landscape of segments.
//!
//! Water runs down to the local minima of the landscape.  A segment that is a
//! local maximum sends half of its water to each side.  The landscape is
//! surrounded by two walls: the left one has the height `max_level()`, the
//! right one is higher than anything.
use std::ops::Range;
use vstd::prelude::*;
use crate::rational::{
    add_fits, checked_add, eqv, has_value, is_reduced, le, magnitude, lemma_eqv_sym, lemma_eqv_trans, lemma_lt_eqv_left,
    lemma_lt_eqv_right, lemma_lt_total, lemma_sum_value, less_than, lt, same_value, Rat,
};

verus! {

// ---------------------------------------------------------------------------
// Landscape shape
// ---------------------------------------------------------------------------

/// The height of the wall on the left of the landscape (twice `u32::MAX`).
pub open spec fn max_level() -> Rat {
    Rat { num: 8589934590, den: 1 }
}

/// `max_level()` as a value.
pub fn max_level_value() -> (r: Rat)
    ensures
        r == max_level(),
        is_reduced(r),
{
    Rat::from_integer(8589934590)
}

/// Every height has a positive denominator.
pub open spec fn all_wf(l: Seq<Rat>) -> bool {
    forall|i: int| 0 <= i < l.len() ==> (#[trigger] l[i]).wf()
}

/// Every height is below the left wall.
pub open spec fn below_wall(l: Seq<Rat>) -> bool {
    forall|i: int| 0 <= i < l.len() ==> lt(#[trigger] l[i], max_level())
}

/// `[s, e)` is a maximal run of segments of equal height.
pub open spec fn is_plateau(l: Seq<Rat>, s: int, e: int) -> bool {
    &&& 0 <= s < e <= l.len()
    &&& forall|i: int| s <= i < e ==> eqv(#[trigger] l[i], l[s])
    &&& (s == 0 || !eqv(l[s - 1], l[s]))
    &&& (e == l.len() || !eqv(l[e], l[s]))
}

/// The height just left of position `s`: the segment there, or the wall.
pub open spec fn left_height(l: Seq<Rat>, s: int) -> Rat {
    if s == 0 {
        max_level()
    } else {
        l[s - 1]
    }
}

/// `[s, e)` is a local minimum: a plateau lower than both of its sides.
pub open spec fn is_basin(l: Seq<Rat>, s: int, e: int) -> bool {
    &&& is_plateau(l, s, e)
    &&& lt(l[s], left_height(l, s))
    &&& (e == l.len() || lt(l[s], l[e]))
}

/// `[s, e)` is a local maximum: a plateau higher than both of its sides.
pub open spec fn is_peak(l: Seq<Rat>, s: int, e: int) -> bool {
    &&& is_plateau(l, s, e)
    &&& lt(left_height(l, s), l[s])
    &&& e < l.len()
    &&& lt(l[e], l[s])
}

/// `rs` lists, from left to right, the basins of `l` that start before `bound`.
pub open spec fn basin_list(l: Seq<Rat>, rs: Seq<Range<usize>>, bound: int) -> bool {
    &&& forall|i: int| 0 <= i < rs.len() ==> is_basin(l, (#[trigger] rs[i]).start as int, rs[i].end as int)
    &&& forall|i: int| 0 <= i < rs.len() ==> (#[trigger] rs[i]).end <= bound
    &&& forall|i: int, j: int| 0 <= i < j < rs.len() ==> (#[trigger] rs[i]).end <= (#[trigger] rs[j]).start
    &&& forall|s: int, e: int| #[trigger] is_basin(l, s, e) && s < bound ==>
        exists|i: int| 0 <= i < rs.len() && (#[trigger] rs[i]).start == s && rs[i].end == e
}

/// `rs` lists, from left to right, the peaks of `l` that start before `bound`.
pub open spec fn peak_list(l: Seq<Rat>, rs: Seq<Range<usize>>, bound: int) -> bool {
    &&& forall|i: int| 0 <= i < rs.len() ==> is_peak(l, (#[trigger] rs[i]).start as int, rs[i].end as int)
    &&& forall|i: int| 0 <= i < rs.len() ==> (#[trigger] rs[i]).end <= bound
    &&& forall|i: int, j: int| 0 <= i < j < rs.len() ==> (#[trigger] rs[i]).end <= (#[trigger] rs[j]).start
    &&& forall|s: int, e: int| #[trigger] is_peak(l, s, e) && s < bound ==>
        exists|i: int| 0 <= i < rs.len() && (#[trigger] rs[i]).start == s && rs[i].end == e
}

/// The maxima list: the empty range before the landscape, its peaks from left
/// to right, and the empty range after it.
pub open spec fn maxima_list(l: Seq<Rat>, ms: Seq<Range<usize>>) -> bool {
    &&& ms.len() >= 2
    &&& ms[0] == (Range { start: 0usize, end: 0usize })
    &&& ms[ms.len() - 1] == (Range { start: l.len() as usize, end: l.len() as usize })
    &&& peak_list(l, ms.subrange(1, ms.len() - 1), l.len() as int)
}

/// Within a run of segments of equal height starting at a plateau start, a
/// plateau starting at `s` ends where the run ends.
proof fn lemma_plateau_end(l: Seq<Rat>, s: int, j: int, e: int)
    requires
        all_wf(l),
        0 <= s < j <= l.len(),
        forall|i: int| s <= i < j ==> eqv(#[trigger] l[i], l[s]),
        j == l.len() || !eqv(l[j], l[s]),
        is_plateau(l, s, e),
    ensures
        e == j,
{
    if e < j {
        assert(eqv(l[e], l[s]));
    } else if e > j {
        assert(eqv(l[j], l[s]));
    }
}

/// No plateau starts strictly inside a run of segments of equal height.
proof fn lemma_no_plateau_inside(l: Seq<Rat>, c: int, j: int, s: int, e: int)
    requires
        all_wf(l),
        0 <= c < s < j <= l.len(),
        forall|i: int| c <= i < j ==> eqv(#[trigger] l[i], l[c]),
    ensures
        !is_plateau(l, s, e),
{
    assert(eqv(l[s - 1], l[c]));
    assert(eqv(l[s], l[c]));
    lemma_eqv_sym(l[s], l[c]);
    lemma_eqv_trans(l[s - 1], l[c], l[s]);
}

/// The local maxima and minima of `landscape`, as `(maximas, minimas)`.
///
/// `maximas` starts with `0..0`, ends with `len..len` and holds in between
/// every peak from left to right; `minimas` holds every basin from left to
/// right.  There is always at least one more maximum than minima, and when
/// every height is below the left wall the two kinds alternate, so there is
/// exactly one more.
pub fn calculate_extremes(landscape: &Vec<Rat>) -> (res: (Vec<Range<usize>>, Vec<Range<usize>>))
    requires
        landscape.len() >= 1,
        all_wf(landscape@),
    ensures
        maxima_list(landscape@, res.0@),
        basin_list(landscape@, res.1@, landscape.len() as int),
        res.1.len() < res.0.len(),
        below_wall(landscape@) ==> res.1.len() + 1 == res.0.len(),
        below_wall(landscape@) ==> interleaved(res.0@, res.1@),
{
    let ghost l = landscape@;
    let len = landscape.len();
    let mut local_maximas: Vec<Range<usize>> = Vec::new();
    let mut local_minimas: Vec<Range<usize>> = Vec::new();

    local_maximas.push(Range { start: 0, end: 0 });
    let mut prev_val = max_level_value();
    let mut cur: usize = 0;
    let mut cur_val = landscape[0];
    proof {
        assert(local_maximas@.subrange(1, local_maximas@.len() as int) =~= Seq::<Range<usize>>::empty());
        lemma_lt_total(cur_val, prev_val);
    }
    loop
        invariant
            len == landscape.len(),
            l == landscape@,
            all_wf(l),
            prev_val.wf(),
            0 <= cur < len,
            cur_val == l[cur as int],
            cur == 0 ==> prev_val == max_level(),
            cur > 0 ==> eqv(prev_val, l[cur - 1]) && !eqv(l[cur - 1], l[cur as int]),
            local_maximas.len() >= 1,
            local_maximas@[0] == (Range { start: 0usize, end: 0usize }),
            peak_list(l, local_maximas@.subrange(1, local_maximas@.len() as int), cur as int),
            basin_list(l, local_minimas@, cur as int),
            local_maximas.len() >= local_minimas.len(),
            le(cur_val, prev_val) ==> local_maximas.len() >= local_minimas.len() + 1,
            below_wall(l) ==> local_maximas.len() == local_minimas.len() + (if lt(cur_val, prev_val) { 1int } else { 0int }),
            below_wall(l) ==> interleaved(local_maximas@, local_minimas@),
            forall|k: int| 0 <= k < local_maximas.len() ==> (#[trigger] local_maximas@[k]).end <= cur,
            forall|k: int| 0 <= k < local_minimas.len() ==> (#[trigger] local_minimas@[k]).end <= cur,
        decreases len - cur,
    {
        // Find where the plateau that starts at `cur` ends.
        let mut j: usize = cur + 1;
        while j < len && same_value(landscape[j], cur_val)
            invariant
                len == landscape.len(),
                l == landscape@,
                all_wf(l),
                0 <= cur < j <= len,
                cur_val == l[cur as int],
                forall|i: int| cur <= i < j ==> eqv(#[trigger] l[i], l[cur as int]),
            decreases len - j,
        {
            proof {
                lemma_eqv_sym(l[j as int], cur_val);
            }
            j = j + 1;
        }
        let ghost old_max = local_maximas@;
        let ghost old_min = local_minimas@;
        proof {
            lemma_lt_total(cur_val, prev_val);
            if cur > 0 {
                lemma_eqv_sym(prev_val, l[cur - 1]);
            }
            // The comparison with the previous plateau is a comparison with
            // the height just left of `cur`.
            if cur > 0 {
                if lt(cur_val, prev_val) {
                    lemma_lt_eqv_right(cur_val, prev_val, l[cur - 1]);
                }
                if lt(l[cur as int], l[cur - 1]) {
                    lemma_lt_eqv_right(cur_val, l[cur - 1], prev_val);
                }
                if lt(prev_val, cur_val) {
                    lemma_lt_eqv_left(prev_val, l[cur - 1], cur_val);
                }
                if lt(l[cur - 1], cur_val) {
                    lemma_lt_eqv_left(l[cur - 1], prev_val, cur_val);
                }
            }
            assert(lt(cur_val, prev_val) <==> lt(l[cur as int], left_height(l, cur as int)));
            assert(lt(prev_val, cur_val) <==> lt(left_height(l, cur as int), l[cur as int]));
            assert(is_plateau(l, cur as int, j as int));
        }
        if j < len {
            let next_val = landscape[j];
            proof {
                lemma_lt_total(cur_val, next_val);
            }
            if less_than(cur_val, prev_val) && less_than(cur_val, next_val) {
                local_minimas.push(Range { start: cur, end: j });
                proof {
                    if below_wall(l) {
                        lemma_interleaved_push_min(old_max, old_min, Range { start: cur, end: j });
                    }
                }
            } else if less_than(prev_val, cur_val) && less_than(next_val, cur_val) {
                local_maximas.push(Range { start: cur, end: j });
                proof {
                    if below_wall(l) {
                        lemma_interleaved_push_max(old_max, old_min, Range { start: cur, end: j });
                    }
                }
            }
            proof {
                lemma_extremes_step(l, old_max, old_min, local_maximas@, local_minimas@, cur as int, j as int, prev_val, cur_val);
            }
            proof {
                assert(eqv(l[j - 1], l[cur as int]));
                lemma_eqv_sym(l[j - 1], l[cur as int]);
                if eqv(l[j - 1], l[j as int]) {
                    lemma_eqv_trans(l[cur as int], l[j - 1], l[j as int]);
                    lemma_eqv_sym(l[cur as int], l[j as int]);
                }
            }
            prev_val = cur_val;
            cur = j;
            cur_val = next_val;
        } else {
            if less_than(cur_val, prev_val) {
                local_minimas.push(Range { start: cur, end: len });
                proof {
                    if below_wall(l) {
                        lemma_interleaved_push_min(old_max, old_min, Range { start: cur, end: len });
                    }
                }
            }
            let ghost mid_min = local_minimas@;
            local_maximas.push(Range { start: len, end: len });
            proof {
                if below_wall(l) {
                    lemma_interleaved_push_max(old_max, mid_min, Range { start: len, end: len });
                }
            }
            proof {
                lemma_extremes_last(l, old_max, old_min, local_maximas@, local_minimas@, cur as int, prev_val, cur_val);
            }
            return (local_maximas, local_minimas);
        }
    }
}

/// The minima `bs` alternate with the maxima `ms`: the `k`-th minimum lies
/// after the `k`-th maximum and before the next one.
pub open spec fn interleaved(ms: Seq<Range<usize>>, bs: Seq<Range<usize>>) -> bool {
    forall|k: int|
        #![trigger bs[k]]
        0 <= k < bs.len() ==> k < ms.len() && ms[k].end <= bs[k].start && (k + 1 < ms.len() ==> bs[k].end <= ms[k + 1].start)
}

/// A minimum found after the last maximum keeps the alternation.
proof fn lemma_interleaved_push_min(ms: Seq<Range<usize>>, bs: Seq<Range<usize>>, r: Range<usize>)
    requires
        interleaved(ms, bs),
        ms.len() == bs.len() + 1,
        forall|k: int| 0 <= k < ms.len() ==> (#[trigger] ms[k]).end <= r.start,
    ensures
        interleaved(ms, bs.push(r)),
{
    let nb = bs.push(r);
    assert forall|k: int| 0 <= k < nb.len() implies k < ms.len() && ms[k].end <= nb[k].start && (k + 1 < ms.len()
        ==> nb[k].end <= ms[k + 1].start) by {
        if k < bs.len() {
            assert(nb[k] == bs[k]);
        } else {
            assert(nb[k] == r);
        }
    }
}

/// A maximum found after the last minimum keeps the alternation.
proof fn lemma_interleaved_push_max(ms: Seq<Range<usize>>, bs: Seq<Range<usize>>, r: Range<usize>)
    requires
        interleaved(ms, bs),
        ms.len() == bs.len(),
        forall|k: int| 0 <= k < bs.len() ==> (#[trigger] bs[k]).end <= r.start,
    ensures
        interleaved(ms.push(r), bs),
{
    let nm = ms.push(r);
    assert forall|k: int| 0 <= k < bs.len() implies k < nm.len() && nm[k].end <= bs[k].start && (k + 1 < nm.len()
        ==> bs[k].end <= nm[k + 1].start) by {
        assert(nm[k] == ms[k]);
        if k + 1 < ms.len() {
            assert(nm[k + 1] == ms[k + 1]);
        } else {
            assert(nm[k + 1] == r);
        }
    }
}

/// One step of the scan in `calculate_extremes`: the plateau `[c, j)` with a
/// plateau after it has been classified.
proof fn lemma_extremes_step(
    l: Seq<Rat>,
    old_max: Seq<Range<usize>>,
    old_min: Seq<Range<usize>>,
    new_max: Seq<Range<usize>>,
    new_min: Seq<Range<usize>>,
    c: int,
    j: int,
    prev_val: Rat,
    cur_val: Rat,
)
    requires
        all_wf(l),
        prev_val.wf(),
        l.len() <= usize::MAX,
        0 <= c < j < l.len(),
        cur_val == l[c],
        forall|i: int| c <= i < j ==> eqv(#[trigger] l[i], l[c]),
        !eqv(l[j], l[c]),
        is_plateau(l, c, j),
        lt(cur_val, prev_val) <==> lt(l[c], left_height(l, c)),
        lt(prev_val, cur_val) <==> lt(left_height(l, c), l[c]),
        c == 0 ==> prev_val == max_level(),
        old_max.len() >= 1,
        old_max[0] == (Range { start: 0usize, end: 0usize }),
        peak_list(l, old_max.subrange(1, old_max.len() as int), c),
        basin_list(l, old_min, c),
        old_max.len() >= old_min.len(),
        le(cur_val, prev_val) ==> old_max.len() >= old_min.len() + 1,
        below_wall(l) ==> old_max.len() == old_min.len() + (if lt(cur_val, prev_val) { 1int } else { 0int }),
        (lt(cur_val, prev_val) && lt(cur_val, l[j])) ==> new_min == old_min.push(
            Range { start: c as usize, end: j as usize },
        ) && new_max == old_max,
        !(lt(cur_val, prev_val) && lt(cur_val, l[j])) && (lt(prev_val, cur_val) && lt(l[j], cur_val))
            ==> new_max == old_max.push(Range { start: c as usize, end: j as usize }) && new_min == old_min,
        !(lt(cur_val, prev_val) && lt(cur_val, l[j])) && !(lt(prev_val, cur_val) && lt(l[j], cur_val))
            ==> new_max == old_max && new_min == old_min,
    ensures
        new_max.len() >= 1,
        new_max[0] == (Range { start: 0usize, end: 0usize }),
        peak_list(l, new_max.subrange(1, new_max.len() as int), j),
        basin_list(l, new_min, j),
        new_max.len() >= new_min.len(),
        le(l[j], cur_val) ==> new_max.len() >= new_min.len() + 1,
        below_wall(l) ==> new_max.len() == new_min.len() + (if lt(l[j], cur_val) { 1int } else { 0int }),
{
    let nv = l[j];
    lemma_lt_total(cur_val, nv);
    lemma_lt_total(cur_val, prev_val);
    let is_min = lt(cur_val, prev_val) && lt(cur_val, nv);
    let is_max = !is_min && lt(prev_val, cur_val) && lt(nv, cur_val);
    assert(is_basin(l, c, j) <==> is_min);
    assert(is_peak(l, c, j) <==> (lt(prev_val, cur_val) && lt(nv, cur_val)));
    let om = old_max.subrange(1, old_max.len() as int);
    let nm = new_max.subrange(1, new_max.len() as int);
    if is_max {
        assert(nm =~= om.push(Range { start: c as usize, end: j as usize }));
    } else {
        assert(nm =~= om);
    }
    // Plateaus that start in [c, j) are exactly [c, j).
    assert forall|s: int, e: int| #[trigger] is_basin(l, s, e) && s < j implies exists|i: int|
        0 <= i < new_min.len() && (#[trigger] new_min[i]).start == s && new_min[i].end == e by {
        if s < c {
            let i = choose|i: int| 0 <= i < old_min.len() && (#[trigger] old_min[i]).start == s && old_min[i].end == e;
            assert(new_min[i] == old_min[i]);
            assert(0 <= i < new_min.len() && new_min[i].start == s && new_min[i].end == e);
        } else if s == c {
            lemma_plateau_end(l, c, j, e);
            assert(is_min);
            let k = new_min.len() - 1;
            assert(new_min[k] == Range { start: c as usize, end: j as usize });
            assert(0 <= k < new_min.len() && new_min[k].start == s && new_min[k].end == e);
        } else {
            lemma_no_plateau_inside(l, c, j, s, e);
        }
    }
    assert forall|s: int, e: int| #[trigger] is_peak(l, s, e) && s < j implies exists|i: int|
        0 <= i < nm.len() && (#[trigger] nm[i]).start == s && nm[i].end == e by {
        if s < c {
            let i = choose|i: int| 0 <= i < om.len() && (#[trigger] om[i]).start == s && om[i].end == e;
            assert(nm[i] == om[i]);
            assert(0 <= i < nm.len() && nm[i].start == s && nm[i].end == e);
        } else if s == c {
            lemma_plateau_end(l, c, j, e);
            assert(is_max);
            let k = nm.len() - 1;
            assert(nm[k] == Range { start: c as usize, end: j as usize });
            assert(0 <= k < nm.len() && nm[k].start == s && nm[k].end == e);
        } else {
            lemma_no_plateau_inside(l, c, j, s, e);
        }
    }
    if below_wall(l) {
        if c == 0 {
            assert(lt(l[0], max_level()));
        } else {
            assert(!eqv(l[c - 1], l[c]));
            if eqv(cur_val, prev_val) {
                lemma_eqv_sym(cur_val, prev_val);
                lemma_eqv_trans(l[c - 1], prev_val, cur_val);
            }
        }
    }
    if c > 0 {
        assert(!eqv(l[c - 1], l[c]));
    }
}

/// The last step of the scan in `calculate_extremes`: the plateau `[c, len)`
/// reaches the right end of the landscape.
proof fn lemma_extremes_last(
    l: Seq<Rat>,
    old_max: Seq<Range<usize>>,
    old_min: Seq<Range<usize>>,
    new_max: Seq<Range<usize>>,
    new_min: Seq<Range<usize>>,
    c: int,
    prev_val: Rat,
    cur_val: Rat,
)
    requires
        all_wf(l),
        prev_val.wf(),
        l.len() <= usize::MAX,
        0 <= c < l.len(),
        cur_val == l[c],
        forall|i: int| c <= i < l.len() ==> eqv(#[trigger] l[i], l[c]),
        is_plateau(l, c, l.len() as int),
        lt(cur_val, prev_val) <==> lt(l[c], left_height(l, c)),
        c == 0 ==> prev_val == max_level(),
        c > 0 ==> !eqv(l[c - 1], l[c]) && eqv(prev_val, l[c - 1]),
        old_max.len() >= 1,
        old_max[0] == (Range { start: 0usize, end: 0usize }),
        peak_list(l, old_max.subrange(1, old_max.len() as int), c),
        basin_list(l, old_min, c),
        old_max.len() >= old_min.len(),
        le(cur_val, prev_val) ==> old_max.len() >= old_min.len() + 1,
        below_wall(l) ==> old_max.len() == old_min.len() + (if lt(cur_val, prev_val) { 1int } else { 0int }),
        lt(cur_val, prev_val) ==> new_min == old_min.push(
            Range { start: c as usize, end: l.len() as usize },
        ),
        !lt(cur_val, prev_val) ==> new_min == old_min,
        new_max == old_max.push(Range { start: l.len() as usize, end: l.len() as usize }),
    ensures
        maxima_list(l, new_max),
        basin_list(l, new_min, l.len() as int),
        new_min.len() < new_max.len(),
        below_wall(l) ==> new_min.len() + 1 == new_max.len(),
{
    let n = l.len() as int;
    lemma_lt_total(cur_val, prev_val);
    assert(is_basin(l, c, n) <==> lt(cur_val, prev_val));
    let om = old_max.subrange(1, old_max.len() as int);
    assert(new_max.subrange(1, new_max.len() - 1) =~= om);
    assert forall|s: int, e: int| #[trigger] is_basin(l, s, e) && s < n implies exists|i: int|
        0 <= i < new_min.len() && (#[trigger] new_min[i]).start == s && new_min[i].end == e by {
        if s < c {
            let i = choose|i: int| 0 <= i < old_min.len() && (#[trigger] old_min[i]).start == s && old_min[i].end == e;
            assert(new_min[i] == old_min[i]);
            assert(0 <= i < new_min.len() && new_min[i].start == s && new_min[i].end == e);
        } else if s == c {
            lemma_plateau_end(l, c, n, e);
            let k = new_min.len() - 1;
            assert(new_min[k] == Range { start: c as usize, end: n as usize });
            assert(0 <= k < new_min.len() && new_min[k].start == s && new_min[k].end == e);
        } else {
            lemma_no_plateau_inside(l, c, n, s, e);
        }
    }
    assert forall|s: int, e: int| #[trigger] is_peak(l, s, e) && s < n implies exists|i: int|
        0 <= i < om.len() && (#[trigger] om[i]).start == s && om[i].end == e by {
        if s == c {
            lemma_plateau_end(l, c, n, e);
        } else if s > c {
            lemma_no_plateau_inside(l, c, n, s, e);
        }
    }
    if below_wall(l) {
        if c == 0 {
            assert(lt(l[0], max_level()));
        } else if eqv(cur_val, prev_val) {
            lemma_eqv_sym(cur_val, prev_val);
            lemma_eqv_trans(l[c - 1], prev_val, cur_val);
        }
    }
}

// ---------------------------------------------------------------------------
// Water currents
// ---------------------------------------------------------------------------

/// The number of positions in `r` (zero when it is reversed).
pub open spec fn range_len(r: Range<usize>) -> int {
    if r.start <= r.end {
        r.end - r.start
    } else {
        0
    }
}

/// Twice the water that reaches the `k`-th gap between two maxima per unit of
/// time: half of each maximum around it (none from the first one) and all of
/// the segments between them.
pub open spec fn inflow_twice(ms: Seq<Range<usize>>, k: int) -> int {
    (if k == 0 { 0 } else { range_len(ms[k]) }) + range_len(ms[k + 1]) + 2 * (ms[k + 1].start - ms[k].end)
}

/// Sum of `inflow_twice(ms, k)` for `k < m`.
pub open spec fn inflow_twice_sum(ms: Seq<Range<usize>>, m: int) -> int
    decreases m,
{
    if m <= 0 {
        0
    } else {
        inflow_twice_sum(ms, m - 1) + inflow_twice(ms, m - 1)
    }
}

/// Each range ends before the next one starts, and no bound is above
/// `i64::MAX`.
pub open spec fn chained_ranges(ms: Seq<Range<usize>>) -> bool {
    &&& forall|k: int| 0 <= k < ms.len() - 1 ==> (#[trigger] ms[k]).end <= ms[k + 1].start
    &&& forall|k: int| 0 <= k < ms.len() ==> (#[trigger] ms[k]).end <= i64::MAX
    &&& forall|k: int| 0 <= k < ms.len() ==> (#[trigger] ms[k]).start <= i64::MAX
}

/// Chained ranges that are not reversed.
pub open spec fn ordered_ranges(ms: Seq<Range<usize>>) -> bool {
    &&& chained_ranges(ms)
    &&& forall|k: int| 0 <= k < ms.len() ==> (#[trigger] ms[k]).start <= ms[k].end
}

/// Every bound of the ranges is at most `2^59`.
pub open spec fn small_ranges(ms: Seq<Range<usize>>) -> bool {
    forall|k: int| 0 <= k < ms.len() ==> (#[trigger] ms[k]).end <= 0x0800_0000_0000_0000 && ms[k].start <= 0x0800_0000_0000_0000
}

/// The water currents towards the gaps between consecutive maxima: entry `k`
/// is `inflow_twice(maximas, k) / 2`.  `None` when a sum left the `i64`
/// range, which cannot happen while every bound is at most `2^59`.
pub fn calculate_water_currents(maximas: &Vec<Range<usize>>) -> (res: Option<Vec<Rat>>)
    requires
        maximas.len() >= 1,
        chained_ranges(maximas@),
    ensures
        small_ranges(maximas@) ==> res is Some,
        res matches Some(v) ==> {
            &&& v.len() == maximas.len() - 1
            &&& forall|k: int| 0 <= k < v.len() ==> (#[trigger] v[k]).wf()
            &&& forall|k: int| 0 <= k < v.len() ==> has_value(#[trigger] v[k], inflow_twice(maximas@, k), 2)
            &&& forall|k: int| 0 <= k < v.len() ==> is_reduced(#[trigger] v[k])
        },
{
    let mut ret: Vec<Rat> = Vec::new();
    let mut left: &Range<usize> = &maximas[0];
    let mut left_current = Rat::from_integer(0);
    let mut i: usize = 1;
    while i < maximas.len()
        invariant
            1 <= i <= maximas.len(),
            chained_ranges(maximas@),
            *left == maximas@[i - 1],
            left_current.wf(),
            has_value(left_current, if i == 1 { 0 } else { range_len(maximas@[i - 1]) }, 2),
            ret.len() == i - 1,
            small_ranges(maximas@) ==> left_current.den <= 2 && magnitude(left_current.num as int) <= 0x0800_0000_0000_0000,
            forall|k: int| 0 <= k < ret.len() ==> (#[trigger] ret[k]).wf(),
            forall|k: int| 0 <= k < ret.len() ==> has_value(#[trigger] ret[k], inflow_twice(maximas@, k), 2),
            forall|k: int| 0 <= k < ret.len() ==> is_reduced(#[trigger] ret[k]),
        decreases maximas.len() - i,
    {
        let right: &Range<usize> = &maximas[i];
        let right_len: usize = if right.start <= right.end { right.end - right.start } else { 0 };
        let right_current = Rat::new(right_len as i64, 2);
        let gap = Rat::from_integer((right.start - left.end) as i64);
        proof {
            if small_ranges(maximas@) {
                assert(maximas@[i as int].end <= 0x0800_0000_0000_0000);
                let n1 = magnitude(left_current.num as int);
                let n2 = magnitude(right_current.num as int);
                let d1 = left_current.den as int;
                let d2 = right_current.den as int;
                assert(n1 * d2 + n2 * d1 <= 0x2000_0000_0000_0000) by (nonlinear_arith)
                    requires
                        0 <= n1 <= 0x0800_0000_0000_0000,
                        0 <= n2 <= 0x0800_0000_0000_0000,
                        1 <= d1 <= 2,
                        1 <= d2 <= 2,
                ;
                assert(d1 * d2 <= 4) by (nonlinear_arith)
                    requires
                        1 <= d1 <= 2,
                        1 <= d2 <= 2,
                ;
                assert(add_fits(left_current, right_current));
            }
        }
        let with_right = match checked_add(left_current, right_current) {
            Some(x) => x,
            None => return None,
        };
        proof {
            if small_ranges(maximas@) {
                assert(maximas@[i as int].start <= 0x0800_0000_0000_0000);
                let n1 = magnitude(with_right.num as int);
                let d1 = with_right.den as int;
                let g = magnitude(gap.num as int);
                assert(left_current.den * right_current.den <= 4) by (nonlinear_arith)
                    requires
                        1 <= left_current.den <= 2,
                        1 <= right_current.den <= 2,
                ;
                assert(n1 * 1 + g * d1 <= 0x4000_0000_0000_0000) by (nonlinear_arith)
                    requires
                        0 <= n1 <= 0x2000_0000_0000_0000,
                        0 <= g <= 0x0800_0000_0000_0000,
                        1 <= d1 <= 4,
                ;
                assert(add_fits(with_right, gap));
            }
        }
        let current = match checked_add(with_right, gap) {
            Some(x) => x,
            None => return None,
        };
        proof {
            let lh: int = if i == 1 { 0 } else { range_len(maximas@[i - 1]) };
            let rh = range_len(maximas@[i as int]);
            let g = maximas@[i as int].start - maximas@[i - 1].end;
            assert(has_value(right_current, rh, 2));
            lemma_sum_value(left_current, right_current, with_right, lh, rh, 2);
            assert(has_value(gap, 2 * g, 2));
            lemma_sum_value(with_right, gap, current, lh + rh, 2 * g, 2);
            assert(inflow_twice(maximas@, i - 1) == lh + rh + 2 * g);
        }
        ret.push(current);
        left = right;
        left_current = right_current;
        i = i + 1;
    }
    Some(ret)
}

/// Law: the currents add up to the number of segments.  Every segment of the
/// landscape sends its water, per unit of time, to exactly one gap, or half of
/// it to each of two neighbouring gaps.
pub proof fn lemma_currents_cover_landscape(ms: Seq<Range<usize>>, n: int)
    requires
        ms.len() >= 2,
        ordered_ranges(ms),
        ms[0] == (Range { start: 0usize, end: 0usize }),
        ms[ms.len() - 1].start == n,
        ms[ms.len() - 1].end == n,
    ensures
        inflow_twice_sum(ms, ms.len() - 1) == 2 * n,
{
    lemma_inflow_prefix(ms, ms.len() - 1);
}

/// The running sum of the inflows telescopes.
proof fn lemma_inflow_prefix(ms: Seq<Range<usize>>, m: int)
    requires
        1 <= m < ms.len(),
        ordered_ranges(ms),
    ensures
        inflow_twice_sum(ms, m) == 2 * (ms[m].start - ms[0].end) + range_len(ms[m]),
    decreases m,
{
    if m > 1 {
        lemma_inflow_prefix(ms, m - 1);
        assert(ms[m - 1].start <= ms[m - 1].end);
    }
    assert(inflow_twice_sum(ms, m) == inflow_twice_sum(ms, m - 1) + inflow_twice(ms, m - 1));
}

} // verus!
