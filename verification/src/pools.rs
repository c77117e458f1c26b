//! Where rain water stands: in basins, up to the lower of their sides, and
//! never above a lower neighbour.
use std::ops::Range;
use vstd::prelude::*;
use crate::rational::{
    eqv, is_diff, is_sum, le, lemma_eqv_sym, lemma_eqv_trans, lemma_le_trans, lemma_lt_total,
    lemma_sum_congruence, lt, Rat,
};
use crate::rain::{all_wf, basin_list, is_basin, range_len};
use crate::flood::{
    in_no_range, in_range, is_depth, is_rain_step, lemma_left_of_basin_dry, lemma_right_of_basin_dry,
    rained_in, rained_once,
};
use crate::water::{lemma_rained_once_facts, lemma_rise_le_depth, lemma_sum_stays_below};

verus! {

/// Every segment that stands higher in `l` than in `l0` is no higher than
/// either of its neighbours in `l`: water never hangs above a lower
/// neighbour.
pub open spec fn risen_stay_low(l0: Seq<Rat>, l: Seq<Rat>) -> bool {
    forall|i: int|
        0 <= i < l.len() && #[trigger] lt(l0[i], l[i]) ==> (i == 0 || le(l[i], l[i - 1])) && (i == l.len() - 1
            || le(l[i], l[i + 1]))
}

/// A step of the rain keeps water from hanging above a lower neighbour.
pub(crate) proof fn lemma_step_keeps_water_low(l0: Seq<Rat>, l: Seq<Rat>, remaining: Rat, l2: Seq<Rat>, step: Rat)
    requires
        all_wf(l0),
        all_wf(l),
        l.len() == l0.len(),
        remaining.wf(),
        forall|i: int| 0 <= i < l.len() ==> le(#[trigger] l0[i], l[i]),
        risen_stay_low(l0, l),
        rained_once(l, remaining, l2, step),
    ensures
        l2.len() == l.len(),
        all_wf(l2),
        forall|i: int| 0 <= i < l.len() ==> le(#[trigger] l0[i], l2[i]),
        risen_stay_low(l0, l2),
{
    lemma_rained_once_facts(l, remaining, l2, step);
    reveal(rained_once);
    let (ms, bs, cs, ds, ts, adds) = choose|ms: Seq<Range<usize>>, bs: Seq<Range<usize>>, cs: Seq<Rat>, ds: Seq<Rat>, ts: Seq<Rat>, adds: Seq<Rat>|
        #[trigger] is_rain_step(l, remaining, l2, step, ms, bs, cs, ds, ts, adds);
    reveal(is_rain_step);
    let n = l.len() as int;
    assert forall|i: int| 0 <= i < l.len() implies le(#[trigger] l0[i], l2[i]) by {
        lemma_le_trans(l0[i], l[i], l2[i]);
    }
    assert forall|i: int| 0 <= i < l2.len() && #[trigger] lt(l0[i], l2[i]) implies (i == 0 || le(l2[i], l2[i - 1]))
        && (i == l2.len() - 1 || le(l2[i], l2[i + 1])) by {
        if exists|k: int| 0 <= k < bs.len() && #[trigger] in_range(bs[k], i) {
            let k = choose|k: int| 0 <= k < bs.len() && #[trigger] in_range(bs[k], i);
            let s = bs[k].start as int;
            let e = bs[k].end as int;
            let d = ds[k];
            let c = cs[k];
            assert(basin_list(l, bs, n));
            assert(is_basin(l, s, e));
            assert(is_depth(l, s, e, d));
            assert(c.num > 0);
            lemma_rise_le_depth(d, c, range_len(bs[k]), ts[k], step, adds[k]);
            assert(eqv(l[i], l[s]));
            assert(is_sum(l[i], adds[k], l2[i]));
            if i > 0 {
                if i > s {
                    assert(in_range(bs[k], i - 1));
                    assert(eqv(l[i - 1], l[s]));
                    lemma_eqv_sym(l[i - 1], l[s]);
                    lemma_eqv_trans(l[i], l[s], l[i - 1]);
                    lemma_sum_congruence(l[i], l[i - 1], adds[k], l2[i], l2[i - 1]);
                    lemma_lt_total(l2[i], l2[i - 1]);
                } else {
                    lemma_left_of_basin_dry(l, bs, k);
                    assert(l2[s - 1] == l[s - 1]);
                    lemma_sum_stays_below(l[i], l[s], adds[k], d, l2[i], l[s - 1]);
                }
            }
            if i < n - 1 {
                if i + 1 < e {
                    assert(in_range(bs[k], i + 1));
                    assert(eqv(l[i + 1], l[s]));
                    lemma_eqv_sym(l[i + 1], l[s]);
                    lemma_eqv_trans(l[i], l[s], l[i + 1]);
                    lemma_sum_congruence(l[i], l[i + 1], adds[k], l2[i], l2[i + 1]);
                    lemma_lt_total(l2[i], l2[i + 1]);
                } else {
                    lemma_right_of_basin_dry(l, bs, k);
                    assert(l2[e] == l[e]);
                    lemma_sum_stays_below(l[i], l[s], adds[k], d, l2[i], l[e]);
                }
            }
        } else {
            assert(in_no_range(bs, i));
            assert(l2[i] == l[i]);
            assert(lt(l0[i], l[i]));
            if i > 0 {
                lemma_le_trans(l2[i], l[i - 1], l2[i - 1]);
            }
            if i < n - 1 {
                lemma_le_trans(l2[i], l[i + 1], l2[i + 1]);
            }
        }
    }
}

/// Water that stands on `l` over `l0` keeps standing low through a rain.
proof fn lemma_rain_keeps_water_low(n: nat, l0: Seq<Rat>, l: Seq<Rat>, remaining: Rat, l2: Seq<Rat>)
    requires
        all_wf(l0),
        all_wf(l),
        l.len() == l0.len(),
        remaining.wf(),
        forall|i: int| 0 <= i < l.len() ==> le(#[trigger] l0[i], l[i]),
        risen_stay_low(l0, l),
        rained_in(n, l, remaining, l2),
    ensures
        risen_stay_low(l0, l2),
    decreases n,
{
    if n > 0 {
        let (l1, step, r1) = choose|l1: Seq<Rat>, step: Rat, r1: Rat| {
            &&& #[trigger] rained_once(l, remaining, l1, step)
            &&& #[trigger] is_diff(remaining, step, r1)
            &&& r1.wf()
            &&& rained_in((n - 1) as nat, l1, r1, l2)
        };
        lemma_step_keeps_water_low(l0, l, remaining, l1, step);
        lemma_rain_keeps_water_low((n - 1) as nat, l0, l1, r1, l2);
    }
}

/// Law: water stands only in basins.  After a rain, every segment that rose
/// is no higher than either of its neighbours: the water of a basin stops at
/// the lower of its sides, and never stands above a lower neighbour.
pub proof fn lemma_rain_leaves_water_low(n: nat, l: Seq<Rat>, remaining: Rat, l2: Seq<Rat>)
    requires
        all_wf(l),
        remaining.wf(),
        rained_in(n, l, remaining, l2),
    ensures
        risen_stay_low(l, l2),
{
    assert forall|i: int| 0 <= i < l.len() implies le(#[trigger] l[i], l[i]) by {
        lemma_lt_total(l[i], l[i]);
    }
    lemma_rain_keeps_water_low(n, l, l, remaining, l2);
}


} // verus!
