//! The branching decision procedure: a bounded search on top of best-fit.
//!
//! The largest item is tried in several bins, smallest bin first, and each
//! trial goes on with a share of the budget. A trial whose share is one or
//! less is answered by best-fit.
use vstd::prelude::*;
use vstd::slice::slice_to_vec;
use crate::C;
use crate::feasibility::{fits_into, lemma_branching_sound};
use crate::model::{
    count_ints, highest_neg, highest_pos, ints, lemma_highest_neg_below, lemma_highest_pos_below,
    lemma_match_step, lemma_volume_update, lemma_weight_bounds_entry, lemma_weight_bounds_volume,
    lemma_weight_update, magnitude, match_step, valid_counts, volume, weight,
};
use crate::packing_bestfit::{
    bestfit_spec, fits_bestfit, fits_into_bestfit_internal, lemma_scan_needs_volume, place_from,
    scan_from,
};
use crate::packing_common::{
    forced_match, highest_negative, highest_positive, item_sum, lemma_prep_diff, lemma_trimmed,
    lemma_wide_ints, may_fit, prep_diff, prep_diff_spec, trimmed,
};

verus! {

/// The indices from `lo` up to, not including, `hi` whose entry is
/// negative, in ascending order.
pub open spec fn bins_between(d: Seq<int>, lo: int, hi: int) -> Seq<int>
    decreases hi - lo,
{
    if hi <= lo {
        Seq::empty()
    } else if d[hi - 1] < 0 {
        bins_between(d, lo, hi - 1).push(hi - 1)
    } else {
        bins_between(d, lo, hi - 1)
    }
}

/// What `bins_between` lists lies in the range and is negative.
pub proof fn lemma_bins_between(d: Seq<int>, lo: int, hi: int)
    requires
        0 <= lo,
        hi <= d.len(),
    ensures
        forall|t: int|
            0 <= t < bins_between(d, lo, hi).len() ==> lo <= #[trigger] bins_between(d, lo, hi)[t]
                < hi && d[bins_between(d, lo, hi)[t]] < 0,
    decreases hi - lo,
{
    if hi > lo {
        lemma_bins_between(d, lo, hi - 1);
        let shorter = bins_between(d, lo, hi - 1);
        assert forall|t: int| 0 <= t < bins_between(d, lo, hi).len() implies lo
            <= #[trigger] bins_between(d, lo, hi)[t] < hi && d[bins_between(d, lo, hi)[t]]
            < 0 by {
            if t < shorter.len() {
                assert(bins_between(d, lo, hi)[t] == shorter[t]);
            }
        }
    }
}

/// The bins that can take the largest item: those of its size or larger.
pub open spec fn candidate_bins(d: Seq<int>) -> Seq<int> {
    bins_between(d, highest_pos(d), d.len() as int)
}

/// The number of branches that a budget of `k` opens: one for each
/// candidate bin, and no more than `k`.
pub open spec fn branch_count(d: Seq<int>, k: int) -> int {
    if k < candidate_bins(d).len() {
        k
    } else {
        candidate_bins(d).len() as int
    }
}

/// The share of the budget `k` that a branch may take: `k` divided by the
/// number of branches, rounded up.
pub open spec fn branch_share(d: Seq<int>, k: int) -> int {
    let n = branch_count(d, k);
    if k % n == 0 {
        k / n
    } else {
        k / n + 1
    }
}

/// The answer of the branching search on a difference vector with the
/// budget `k`.
///
/// A budget of one or less is answered by best-fit with trimming.
/// Otherwise the search succeeds when no item is left, fails when the
/// largest item is larger than every bin, and else tries the largest item
/// in the candidate bins.
pub open spec fn branching_spec(d: Seq<int>, k: int) -> bool
    decreases weight(d), k + 1,
{
    if k <= 1 {
        bestfit_spec(d, true)
    } else if highest_pos(d) < 0 {
        true
    } else if highest_neg(d) < highest_pos(d) {
        false
    } else {
        branches_from(d, k, 0, k)
    }
}

/// Whether one of the branches from the `j`-th on succeeds, when `left` of
/// the budget `k` is not yet given out.
///
/// The `j`-th branch puts the largest item into the `j`-th candidate bin
/// and goes on with its share of the budget, or with what is left if that
/// is less.
pub open spec fn branches_from(d: Seq<int>, k: int, j: int, left: int) -> bool
    decreases weight(d), branch_count(d, k) - j,
{
    if highest_pos(d) < 0 || j < 0 || j >= branch_count(d, k) {
        false
    } else {
        proof {
            lemma_highest_pos_below(d, d.len() as int);
            lemma_bins_between(d, highest_pos(d), d.len() as int);
            lemma_match_step(d, highest_pos(d), candidate_bins(d)[j]);
        }
        let budget = if left < branch_share(d, k) {
            left
        } else {
            branch_share(d, k)
        };
        branching_spec(match_step(d, highest_pos(d), candidate_bins(d)[j]), budget)
            || branches_from(d, k, j + 1, left - budget)
    }
}

/// The answer of the branching procedure for the items `a` and the bins
/// `b` with the budget `k`: that of the search on their difference vector.
pub open spec fn fits_branching(a: Seq<u8>, b: Seq<u8>, k: int) -> bool {
    branching_spec(prep_diff_spec(count_ints(a), count_ints(b)), k)
}

/// A vector without an item has no volume above zero.
pub proof fn lemma_no_item_volume(d: Seq<int>)
    requires
        forall|i: int| 0 <= i < d.len() ==> d[i] <= 0,
    ensures
        volume(d) <= 0,
    decreases d.len(),
{
    if d.len() > 0 {
        lemma_no_item_volume(d.drop_last());
        let i = d.len() - 1;
        let v = d.last();
        assert(i * v <= 0) by (nonlinear_arith)
            requires
                i >= 0,
                v <= 0,
        ;
    }
}

/// The search succeeds only on a vector whose bins outweigh its items.
pub proof fn lemma_search_needs_volume(d: Seq<int>, k: int)
    requires
        branching_spec(d, k),
    ensures
        volume(d) <= 0,
    decreases weight(d), k + 1,
{
    if k <= 1 {
        lemma_trimmed(d);
        lemma_scan_needs_volume(trimmed(d));
    } else if highest_pos(d) < 0 {
        lemma_highest_pos_below(d, d.len() as int);
        lemma_no_item_volume(d);
    } else {
        lemma_branches_need_volume(d, k, 0, k);
    }
}

/// A branch succeeds only on a vector whose bins outweigh its items.
pub proof fn lemma_branches_need_volume(d: Seq<int>, k: int, j: int, left: int)
    requires
        branches_from(d, k, j, left),
    ensures
        volume(d) <= 0,
    decreases weight(d), branch_count(d, k) - j,
{
    lemma_highest_pos_below(d, d.len() as int);
    lemma_bins_between(d, highest_pos(d), d.len() as int);
    let bin = candidate_bins(d)[j];
    lemma_match_step(d, highest_pos(d), bin);
    let budget = if left < branch_share(d, k) {
        left
    } else {
        branch_share(d, k)
    };
    if branching_spec(match_step(d, highest_pos(d), bin), budget) {
        lemma_search_needs_volume(match_step(d, highest_pos(d), bin), budget);
    } else {
        lemma_branches_need_volume(d, k, j + 1, left - budget);
    }
}

/// Volume is necessary for the branching procedure: when the answer is
/// `true`, the volume of the items is at most the volume of the bins.
pub proof fn lemma_branching_needs_volume(a: Seq<u8>, b: Seq<u8>, k: int)
    requires
        fits_branching(a, b, k),
    ensures
        volume(count_ints(a)) <= volume(count_ints(b)),
{
    lemma_prep_diff(a, b);
    lemma_search_needs_volume(prep_diff_spec(count_ints(a), count_ints(b)), k);
}

/// Budgets of one or less give the same answer, that of best-fit with
/// trimming: the search starts with a budget of two.
pub proof fn lemma_small_budgets_agree(a: Seq<u8>, b: Seq<u8>, k1: int, k2: int)
    requires
        k1 <= 1,
        k2 <= 1,
    ensures
        fits_branching(a, b, k1) == fits_branching(a, b, k2),
        fits_branching(a, b, k1) == fits_bestfit(a, b, true),
{
}

/// A range without a negative entry holds no bin.
proof fn lemma_no_bins(d: Seq<int>, lo: int, hi: int)
    requires
        0 <= lo,
        hi <= d.len(),
        forall|j: int| lo <= j < hi ==> d[j] >= 0,
    ensures
        bins_between(d, lo, hi) == Seq::<int>::empty(),
    decreases hi - lo,
{
    if hi > lo {
        lemma_no_bins(d, lo, hi - 1);
    }
}

/// A range with one negative entry holds that bin only.
proof fn lemma_single_bin(d: Seq<int>, lo: int, hi: int, bin: int)
    requires
        0 <= lo <= bin < hi <= d.len(),
        d[bin] < 0,
        forall|j: int| lo <= j < hi && j != bin ==> d[j] >= 0,
    ensures
        bins_between(d, lo, hi) == seq![bin],
    decreases hi - lo,
{
    if hi - 1 == bin {
        lemma_no_bins(d, lo, bin);
        assert(Seq::<int>::empty().push(bin) =~= seq![bin]);
    } else {
        lemma_single_bin(d, lo, hi - 1, bin);
    }
}

/// The search makes a forced match at no cost: the answer for a vector
/// with a forced match is the answer, with the same budget, for the vector
/// after the match.
pub proof fn lemma_search_forced_step(d: Seq<int>, k: int)
    requires
        k >= 2,
        forced_match(d),
    ensures
        branching_spec(d, k) == branching_spec(
            match_step(d, highest_pos(d), highest_neg(d)),
            k,
        ),
{
    let hp = highest_pos(d);
    let hn = highest_neg(d);
    lemma_highest_pos_below(d, d.len() as int);
    lemma_highest_neg_below(d, d.len() as int);
    assert forall|j: int| hp <= j < d.len() && j != hn implies d[j] >= 0 by {
        if j == hp {
        } else if j < hn {
        } else {
        }
    }
    lemma_single_bin(d, hp, d.len() as int, hn);
    assert(candidate_bins(d) == seq![hn]);
    assert(branch_count(d, k) == 1);
    assert(k % 1 == 0 && k / 1 == k);
    assert(branch_share(d, k) == k);
    assert(candidate_bins(d)[0] == hn);
    assert(!branches_from(d, k, 1, 0));
    assert(branches_from(d, k, 0, k) == (branching_spec(match_step(d, hp, hn), k)
        || branches_from(d, k, 1, 0)));
}

/// Whatever the budget, the search answers for a vector as it does for
/// the trimmed vector.
pub proof fn lemma_search_trims(d: Seq<int>, k: int)
    ensures
        branching_spec(d, k) == branching_spec(trimmed(d), k),
    decreases weight(d),
{
    if k <= 1 {
        lemma_trimmed(d);
    } else if forced_match(d) {
        lemma_highest_pos_below(d, d.len() as int);
        lemma_highest_neg_below(d, d.len() as int);
        lemma_match_step(d, highest_pos(d), highest_neg(d));
        lemma_search_forced_step(d, k);
        lemma_search_trims(match_step(d, highest_pos(d), highest_neg(d)), k);
    }
}

/// The scan succeeds on a vector without an item.
pub proof fn lemma_scan_without_items(d: Seq<int>, p: int)
    requires
        0 <= p,
        forall|i: int| 0 <= i < d.len() ==> d[i] <= 0,
    ensures
        scan_from(d, p),
    decreases d.len() - p,
{
    if p < d.len() {
        lemma_no_item_volume(d);
        if d[p] < 0 {
            let cleared = d.update(p, 0);
            assert(place_from(cleared, p) == scan_from(cleared, p + 1));
            lemma_scan_without_items(cleared, p + 1);
        } else {
            assert(place_from(d, p) == scan_from(d, p + 1));
            lemma_scan_without_items(d, p + 1);
        }
    }
}

/// Trimming alone decides about a vector when it leaves no item, or an
/// item that is larger than every bin.
pub open spec fn decided_by_trimming(d: Seq<int>) -> bool {
    highest_pos(trimmed(d)) < 0 || highest_neg(trimmed(d)) < highest_pos(trimmed(d))
}

/// Where trimming alone decides, every budget gives the same answer.
pub proof fn lemma_budget_is_free(a: Seq<u8>, b: Seq<u8>, k1: int, k2: int)
    requires
        decided_by_trimming(prep_diff_spec(count_ints(a), count_ints(b))),
    ensures
        fits_branching(a, b, k1) == fits_branching(a, b, k2),
        fits_branching(a, b, k1) == may_fit(trimmed(prep_diff_spec(count_ints(a), count_ints(b)))),
{
    let d = prep_diff_spec(count_ints(a), count_ints(b));
    let t = trimmed(d);
    lemma_highest_pos_below(t, t.len() as int);
    lemma_highest_neg_below(t, t.len() as int);
    if highest_pos(t) < 0 {
        lemma_scan_without_items(t, 0);
    }
    lemma_trimmed(d);
    lemma_search_trims(d, k1);
    lemma_search_trims(d, k2);
}

/// A larger budget keeps the answer `true` as long as both budgets are
/// one or less, or trimming alone decides. It need not where the search
/// has a choice: which bins a budget reaches depends on how it divides.
pub proof fn lemma_branching_monotone(a: Seq<u8>, b: Seq<u8>, k1: int, k2: int)
    requires
        k1 <= k2,
        k2 <= 1 || decided_by_trimming(prep_diff_spec(count_ints(a), count_ints(b))),
        fits_branching(a, b, k1),
    ensures
        fits_branching(a, b, k2),
{
    if k2 > 1 {
        lemma_budget_is_free(a, b, k1, k2);
    }
}

/// Checks whether the items `a` fit into the bins `b`, both given as
/// counts of the pieces of every size, by a search that tries at most
/// `branchings` alternatives and falls back on best-fit. The answer `true`
/// is never wrong; the answer `false` may be where the budget is small.
pub fn fits_into_branching(a: &[C], b: &[C], branchings: usize) -> (fits: bool)
    requires
        valid_counts(a@),
        valid_counts(b@),
    ensures
        fits == fits_branching(a@, b@, branchings as int),
        fits ==> fits_into(a@, b@),
        fits ==> volume(count_ints(a@)) <= volume(count_ints(b@)),
{
    let mut d = prep_diff(a, b);
    proof {
        if fits_branching(a@, b@, branchings as int) {
            lemma_branching_needs_volume(a@, b@, branchings as int);
            lemma_branching_sound(a@, b@, branchings as int);
        }
        lemma_prep_diff(a@, b@);
        lemma_weight_bounds_volume(ints(d@));
        lemma_wide_ints(d@);
    }
    let sd: i32 = item_sum(d.as_slice()) as i32;
    fits_into_branching_internal(d.as_mut_slice(), sd, branchings)
}

/// The candidate bins of `d` for an item of size `hp`, in ascending order.
fn collect_bins(d: &[i32], hp: usize) -> (negs: Vec<usize>)
    requires
        hp <= d@.len(),
    ensures
        negs@.len() == bins_between(ints(d@), hp as int, d@.len() as int).len(),
        forall|t: int|
            0 <= t < negs@.len() ==> negs@[t] as int == bins_between(
                ints(d@),
                hp as int,
                d@.len() as int,
            )[t],
{
    let mut negs: Vec<usize> = Vec::new();
    let mut i: usize = hp;
    while i < d.len()
        invariant
            hp <= i <= d@.len(),
            negs@.len() == bins_between(ints(d@), hp as int, i as int).len(),
            forall|t: int|
                0 <= t < negs@.len() ==> negs@[t] as int == bins_between(
                    ints(d@),
                    hp as int,
                    i as int,
                )[t],
        decreases d@.len() - i,
    {
        if d[i] < 0 {
            negs.push(i);
        }
        i = i + 1;
    }
    negs
}

/// Runs the branching search on the difference vector `d`, whose net
/// volume is `sd`, with a budget of `branchings`.
///
/// The vector is working space: with a budget of one or less best-fit uses
/// it up, and the search drops bins from it before it answers `false`.
/// Every branch works on a copy of its own, so the search leaves the vector
/// as it was when it answers `true`.
pub fn fits_into_branching_internal(d: &mut [i32], sd: i32, branchings: usize) -> (fits: bool)
    requires
        weight(ints(old(d)@)) <= i32::MAX,
        old(d)@.len() > 0 ==> old(d)@[0] <= 0,
        sd == volume(ints(old(d)@)),
    ensures
        fits == branching_spec(ints(old(d)@), branchings as int),
        final(d)@.len() == old(d)@.len(),
        fits && branchings <= 1 ==> forall|i: int| 0 <= i < final(d)@.len() ==> final(d)@[i] == 0,
        fits && branchings > 1 ==> final(d)@ == old(d)@,
    decreases weight(ints(old(d)@)),
{
    if branchings <= 1 {
        return fits_into_bestfit_internal(d, sd, true);
    }
    let ghost answer = branching_spec(ints(d@), branchings as int);
    let mut sd: i32 = sd;
    proof {
        lemma_weight_bounds_volume(ints(d@));
    }
    loop
        invariant
            d@.len() == old(d)@.len(),
            branchings > 1,
            0 <= weight(ints(d@)) <= weight(ints(old(d)@)) <= i32::MAX,
            d@.len() > 0 ==> d@[0] <= 0,
            sd == volume(ints(d@)),
            answer == branching_spec(ints(old(d)@), branchings as int),
            answer == branching_spec(ints(d@), branchings as int),
            answer ==> d@ == old(d)@,
        decreases highest_neg(ints(d@)) + 1,
    {
        let ghost now = ints(d@);
        proof {
            lemma_highest_pos_below(now, now.len() as int);
            lemma_highest_neg_below(now, now.len() as int);
        }
        let hpos = highest_positive(d);
        let hneg = highest_negative(d);
        match (hpos, hneg) {
            (None, _) => {
                return true;
            },
            (Some(_), None) => {
                return false;
            },
            (Some(hp), Some(hn)) => {
                if hp > hn {
                    proof {
                        let later = now.update(hn as int, 0);
                        lemma_volume_update(now, hn as int, 0);
                        lemma_weight_update(now, hn as int, 0);
                        lemma_weight_bounds_entry(now, hn as int);
                        lemma_weight_bounds_volume(later);
                        lemma_highest_pos_below(later, later.len() as int);
                        lemma_highest_neg_below(later, later.len() as int);
                        assert(ints(d@.update(hn as int, 0i32)) =~= later);
                        assert((hn + 1) * (magnitude(0) - magnitude(now[hn as int])) <= 0)
                            by (nonlinear_arith)
                            requires
                                magnitude(0) - magnitude(now[hn as int]) <= 0,
                                hn >= 0,
                        ;
                        assert(hn * (0 - now[hn as int]) == -(now[hn as int] * hn))
                            by (nonlinear_arith);
                        assert(-(now[hn as int] * hn) <= (hn + 1) * magnitude(now[hn as int]))
                            by (nonlinear_arith)
                            requires
                                now[hn as int] < 0,
                                magnitude(now[hn as int]) == -now[hn as int],
                                hn >= 0,
                        ;
                        assert(later[hp as int] > 0);
                        assert(highest_pos(later) >= hp);
                        assert(highest_neg(later) < hn);
                    }
                    sd = sd - d[hn] * (hn as i32);
                    d[hn] = 0;
                    if sd > 0 {
                        return false;
                    }
                } else {
                    let negs = collect_bins(d, hp);
                    proof {
                        lemma_bins_between(now, hp as int, now.len() as int);
                    }
                    let count: usize = if branchings < negs.len() {
                        branchings
                    } else {
                        negs.len()
                    };
                    proof {
                        assert(now[hn as int] < 0);
                        lemma_bin_is_candidate(now, hp as int, now.len() as int, hn as int);
                        assert(count >= 1);
                    }
                    proof {
                        if branchings % count != 0 {
                            assert(count >= 2);
                            assert(branchings / count <= branchings / 2) by (nonlinear_arith)
                                requires
                                    count >= 2,
                                    branchings >= 0,
                            ;
                        }
                    }
                    let part: usize = if branchings % count == 0 {
                        branchings / count
                    } else {
                        branchings / count + 1
                    };
                    let mut brs: usize = branchings;
                    let mut j: usize = 0;
                    while j < count
                        invariant
                            d@.len() == old(d)@.len(),
                            now == ints(d@),
                            branchings > 1,
                            answer ==> d@ == old(d)@,
                            0 <= weight(now) <= weight(ints(old(d)@)) <= i32::MAX,
                            now[0] <= 0,
                            0 < hp < now.len(),
                            hp == highest_pos(now),
                            now[hp as int] > 0,
                            sd == volume(now),
                            j <= count == branch_count(now, branchings as int),
                            part == branch_share(now, branchings as int),
                            negs@.len() == candidate_bins(now).len(),
                            forall|t: int|
                                0 <= t < negs@.len() ==> negs@[t] as int == candidate_bins(now)[t],
                            forall|t: int|
                                0 <= t < candidate_bins(now).len() ==> {
                                    &&& hp <= #[trigger] candidate_bins(now)[t] < now.len()
                                    &&& now[candidate_bins(now)[t]] < 0
                                },
                            answer == branching_spec(ints(old(d)@), branchings as int),
                            answer == branches_from(now, branchings as int, j as int, brs as int),
                        decreases count - j,
                    {
                        let neg: usize = negs[j];
                        proof {
                            assert(neg as int == candidate_bins(now)[j as int]);
                            lemma_match_step(now, hp as int, neg as int);
                            lemma_weight_bounds_entry(now, neg as int);
                            lemma_weight_bounds_entry(now, hp as int);
                            lemma_weight_bounds_entry(now, neg - hp);
                        }
                        let mut d2: Vec<i32> = slice_to_vec(d);
                        d2[neg] = d2[neg] + 1;
                        d2[hp] = d2[hp] - 1;
                        d2[neg - hp] = d2[neg - hp] - 1;
                        proof {
                            assert(ints(d2@) =~= match_step(now, hp as int, neg as int));
                        }
                        let budget: usize = if brs < part {
                            brs
                        } else {
                            part
                        };
                        if fits_into_branching_internal(d2.as_mut_slice(), sd, budget) {
                            return true;
                        }
                        brs = brs - budget;
                        j = j + 1;
                    }
                    return false;
                }
            },
        }
    }
}

/// A negative entry in the range is among what `bins_between` lists.
proof fn lemma_bin_is_candidate(d: Seq<int>, lo: int, hi: int, bin: int)
    requires
        0 <= lo <= bin < hi <= d.len(),
        d[bin] < 0,
    ensures
        bins_between(d, lo, hi).len() >= 1,
    decreases hi - lo,
{
    if bin < hi - 1 {
        lemma_bin_is_candidate(d, lo, hi - 1, bin);
    }
}

} // verus!
