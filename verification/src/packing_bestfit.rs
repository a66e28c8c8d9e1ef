//! The greedy best-fit decision procedure.
//!
//! Sizes are taken in ascending order. The items of a size go into the
//! smallest bin that is left, as many as fit; what remains of the bin is a
//! bin again if it is larger than the items, and is dropped otherwise.
//! Nothing is ever taken back, so the procedure may answer `false` for
//! items that do fit.
use vstd::prelude::*;
use crate::C;
use crate::feasibility::{fits_into, lemma_bestfit_sound};
use crate::model::{
    count_ints, ints, lemma_volume_update, lemma_weight_bounds_entry, lemma_weight_bounds_volume,
    lemma_weight_update, lemma_zero_volume, magnitude, valid_counts, volume, weight,
};
use crate::packing_common::{
    item_sum, lemma_prep_diff, lemma_trimmed, lemma_wide_ints, may_fit, prep_diff, prep_diff_spec,
    trim_upper_bins, trimmed,
};

verus! {

/// The lowest index from `from` on whose entry is negative, or the length
/// of the vector when there is none.
pub open spec fn lowest_neg_from(d: Seq<int>, from: int) -> int
    decreases d.len() - from,
{
    if from >= d.len() {
        d.len() as int
    } else if d[from] < 0 {
        from
    } else {
        lowest_neg_from(d, from + 1)
    }
}

/// What `lowest_neg_from` finds is negative, and nothing between `from` and
/// it is.
pub proof fn lemma_lowest_neg_from(d: Seq<int>, from: int)
    requires
        0 <= from <= d.len(),
    ensures
        from <= lowest_neg_from(d, from) <= d.len(),
        lowest_neg_from(d, from) < d.len() ==> d[lowest_neg_from(d, from)] < 0,
        forall|j: int| from <= j < lowest_neg_from(d, from) ==> d[j] >= 0,
    decreases d.len() - from,
{
    if from < d.len() && d[from] >= 0 {
        lemma_lowest_neg_from(d, from + 1);
    }
}

/// How many items of size `item` go into one bin of size `bin`: as many as
/// fit, and no more than there are.
pub open spec fn moved_items(d: Seq<int>, item: int, bin: int) -> int {
    if d[item] < bin / item {
        d[item]
    } else {
        bin / item
    }
}

/// The vector after one bin of size `bin` took as many items of size `item`
/// as fit. What is left of the bin stays a bin if it is larger than the
/// items.
pub open spec fn fill_bin(d: Seq<int>, item: int, bin: int) -> Seq<int> {
    let moved = moved_items(d, item, bin);
    let rest = bin - moved * item;
    let d1 = d.update(bin, d[bin] + 1).update(item, d[item] - moved);
    if rest > item {
        d1.update(rest, d1[rest] - 1)
    } else {
        d1
    }
}

/// Filling a bin moves at least one item, touches no entry below the item's
/// size, takes weight off the vector and adds to the net volume what is
/// dropped of the bin.
pub proof fn lemma_fill_bin(d: Seq<int>, item: int, bin: int)
    requires
        0 < item < bin < d.len(),
        d[item] > 0,
        d[bin] < 0,
    ensures
        1 <= moved_items(d, item, bin) <= d[item],
        moved_items(d, item, bin) * item <= bin,
        fill_bin(d, item, bin).len() == d.len(),
        fill_bin(d, item, bin)[item] == d[item] - moved_items(d, item, bin),
        forall|j: int| 0 <= j < item ==> fill_bin(d, item, bin)[j] == d[j],
        bin - moved_items(d, item, bin) * item > item ==> fill_bin(d, item, bin) == d.update(
            bin,
            d[bin] + 1,
        ).update(item, d[item] - moved_items(d, item, bin)).update(
            bin - moved_items(d, item, bin) * item,
            d[bin - moved_items(d, item, bin) * item] - 1,
        ),
        volume(fill_bin(d, item, bin)) == volume(d) + if bin - moved_items(d, item, bin) * item
            > item {
            0
        } else {
            bin - moved_items(d, item, bin) * item
        },
        0 <= weight(fill_bin(d, item, bin)) < weight(d),
{
    let q = bin / item;
    assert(q >= 1 && q * item <= bin) by (nonlinear_arith)
        requires
            0 < item < bin,
            q == bin / item,
    ;
    let moved = moved_items(d, item, bin);
    assert(moved * item <= q * item && moved * item >= item) by (nonlinear_arith)
        requires
            1 <= moved <= q,
            item > 0,
    ;
    let rest = bin - moved * item;
    let d1 = d.update(bin, d[bin] + 1);
    let d2 = d1.update(item, d[item] - moved);
    lemma_volume_update(d, bin, d[bin] + 1);
    lemma_volume_update(d1, item, d[item] - moved);
    lemma_weight_update(d, bin, d[bin] + 1);
    lemma_weight_update(d1, item, d[item] - moved);
    assert(volume(d1) == volume(d) + bin) by (nonlinear_arith)
        requires
            volume(d1) == volume(d) + bin * (d[bin] + 1 - d[bin]),
    ;
    assert(volume(d2) == volume(d1) - moved * item) by (nonlinear_arith)
        requires
            volume(d2) == volume(d1) + item * (d[item] - moved - d1[item]),
            d1[item] == d[item],
    ;
    assert(weight(d1) == weight(d) - (bin + 1)) by (nonlinear_arith)
        requires
            weight(d1) == weight(d) + (bin + 1) * (magnitude(d[bin] + 1) - magnitude(d[bin])),
            magnitude(d[bin] + 1) - magnitude(d[bin]) == -1,
    ;
    assert(weight(d2) <= weight(d1) - moved) by (nonlinear_arith)
        requires
            weight(d2) == weight(d1) + (item + 1) * (magnitude(d[item] - moved) - magnitude(
                d1[item],
            )),
            magnitude(d[item] - moved) - magnitude(d1[item]) == -moved,
            moved >= 1,
            item > 0,
    ;
    if rest > item {
        let d3 = d2.update(rest, d2[rest] - 1);
        lemma_volume_update(d2, rest, d2[rest] - 1);
        lemma_weight_update(d2, rest, d2[rest] - 1);
        assert(volume(d3) == volume(d2) - rest) by (nonlinear_arith)
            requires
                volume(d3) == volume(d2) + rest * (d2[rest] - 1 - d2[rest]),
        ;
        assert(weight(d3) <= weight(d2) + (rest + 1)) by (nonlinear_arith)
            requires
                weight(d3) == weight(d2) + (rest + 1) * (magnitude(d2[rest] - 1) - magnitude(
                    d2[rest],
                )),
                magnitude(d2[rest] - 1) - magnitude(d2[rest]) <= 1,
                rest >= 0,
        ;
        lemma_weight_bounds_volume(d3);
        assert(d2[rest] == d[rest]);
    } else {
        lemma_weight_bounds_volume(d2);
    }
}

/// The answer of the ascending scan from size `p` on, when the sizes below
/// `p` are done: `false` as soon as the items outweigh the bins, else the
/// bins of size `p` are dropped and the items of size `p` are placed.
pub open spec fn scan_from(d: Seq<int>, p: int) -> bool
    decreases d.len() - p, 1int, 0int,
{
    if p < 0 || p >= d.len() {
        true
    } else if volume(d) > 0 {
        false
    } else if d[p] < 0 {
        place_from(d.update(p, 0), p)
    } else {
        place_from(d, p)
    }
}

/// The answer of the scan once the bins of size `p` are dropped: while
/// items of size `p` are left, the smallest bin takes as many as fit, and
/// the answer is `false` when no bin is left for them. Then the scan goes
/// on with the next size. An item of size zero is never placed.
pub open spec fn place_from(d: Seq<int>, p: int) -> bool
    decreases d.len() - p, 0int, if 0 <= p < d.len() && d[p] > 0 {
        d[p]
    } else {
        0
    },
{
    if p < 0 || p >= d.len() {
        true
    } else if d[p] <= 0 {
        scan_from(d, p + 1)
    } else if p == 0 || lowest_neg_from(d, p + 1) >= d.len() {
        false
    } else {
        proof {
            lemma_lowest_neg_from(d, p + 1);
            lemma_fill_bin(d, p, lowest_neg_from(d, p + 1));
        }
        place_from(fill_bin(d, p, lowest_neg_from(d, p + 1)), p)
    }
}

/// The answer of the best-fit procedure on a difference vector, with or
/// without trimming the upper bins first.
pub open spec fn bestfit_spec(d: Seq<int>, trim_upper: bool) -> bool {
    if trim_upper {
        may_fit(trimmed(d)) && scan_from(trimmed(d), 0)
    } else {
        scan_from(d, 0)
    }
}

/// The answer of the best-fit procedure for the items `a` and the bins `b`.
pub open spec fn fits_bestfit(a: Seq<u8>, b: Seq<u8>, trim_upper: bool) -> bool {
    bestfit_spec(prep_diff_spec(count_ints(a), count_ints(b)), trim_upper)
}

/// The scan succeeds only on a vector whose bins outweigh its items.
pub proof fn lemma_scan_needs_volume(d: Seq<int>)
    requires
        scan_from(d, 0),
    ensures
        volume(d) <= 0,
{
}

/// Volume is necessary for best-fit: when the answer is `true`, the volume
/// of the items is at most the volume of the bins.
pub proof fn lemma_bestfit_needs_volume(a: Seq<u8>, b: Seq<u8>, trim_upper: bool)
    requires
        fits_bestfit(a, b, trim_upper),
    ensures
        volume(count_ints(a)) <= volume(count_ints(b)),
{
    let d = prep_diff_spec(count_ints(a), count_ints(b));
    lemma_prep_diff(a, b);
    if trim_upper {
        lemma_trimmed(d);
        lemma_scan_needs_volume(trimmed(d));
    } else {
        lemma_scan_needs_volume(d);
    }
}

/// Checks by best-fit matching whether the items `a` fit into the bins `b`,
/// both given as counts of the pieces of every size.
///
/// With `trim_upper` the forced matches among the upper bins are made
/// first, which may give the answer `false` early. The answer `true` is
/// never wrong; the answer `false` may be.
pub fn fits_into_bestfit(a: &[C], b: &[C], trim_upper: bool) -> (fits: bool)
    requires
        valid_counts(a@),
        valid_counts(b@),
    ensures
        fits == fits_bestfit(a@, b@, trim_upper),
        fits ==> fits_into(a@, b@),
        fits ==> volume(count_ints(a@)) <= volume(count_ints(b@)),
{
    let mut d = prep_diff(a, b);
    proof {
        if fits_bestfit(a@, b@, trim_upper) {
            lemma_bestfit_needs_volume(a@, b@, trim_upper);
            lemma_bestfit_sound(a@, b@, trim_upper);
        }
        lemma_prep_diff(a@, b@);
        lemma_weight_bounds_volume(ints(d@));
        lemma_wide_ints(d@);
    }
    let sd: i32 = item_sum(d.as_slice()) as i32;
    fits_into_bestfit_internal(d.as_mut_slice(), sd, trim_upper)
}

/// Runs the best-fit procedure on the difference vector `d`, whose net
/// volume is `sd`, and tells whether every item found a bin.
///
/// The vector is used up as working space; after the answer `true` it
/// holds zeros only.
pub fn fits_into_bestfit_internal(d: &mut [i32], sd: i32, trim_upper: bool) -> (fits: bool)
    requires
        weight(ints(old(d)@)) <= i32::MAX,
        old(d)@.len() > 0 ==> old(d)@[0] <= 0,
        sd == volume(ints(old(d)@)),
    ensures
        fits == bestfit_spec(ints(old(d)@), trim_upper),
        final(d)@.len() == old(d)@.len(),
        fits ==> forall|i: int| 0 <= i < final(d)@.len() ==> final(d)@[i] == 0,
{
    let ghost answer = bestfit_spec(ints(d@), trim_upper);
    if trim_upper {
        proof {
            lemma_trimmed(ints(d@));
        }
        if !trim_upper_bins(d) {
            return false;
        }
    }
    let n: usize = d.len();
    let mut ni: usize = 0;
    let mut sd: i32 = sd;
    let mut pi: usize = 0;
    while pi < n
        invariant
            n == d@.len(),
            d@.len() == old(d)@.len(),
            pi <= n,
            n > 0 ==> ni < n,
            weight(ints(d@)) <= i32::MAX,
            sd == volume(ints(d@)),
            pi == 0 && n > 0 ==> d@[0] <= 0,
            forall|j: int| 0 <= j < pi ==> d@[j] == 0,
            forall|j: int| 0 <= j < ni ==> d@[j] >= 0,
            answer == bestfit_spec(ints(old(d)@), trim_upper),
            scan_from(ints(d@), pi as int) == answer,
        decreases n - pi,
    {
        if sd > 0 {
            return false;
        }
        if d[pi] < 0 {
            proof {
                let before = ints(d@);
                lemma_volume_update(before, pi as int, 0);
                lemma_weight_update(before, pi as int, 0);
                lemma_weight_bounds_entry(before, pi as int);
                lemma_weight_bounds_volume(before.update(pi as int, 0));
                assert(ints(d@.update(pi as int, 0i32)) =~= before.update(pi as int, 0));
                assert((pi + 1) * (magnitude(0) - magnitude(before[pi as int])) <= 0)
                    by (nonlinear_arith)
                    requires
                        magnitude(0) - magnitude(before[pi as int]) <= 0,
                        pi >= 0,
                ;
                assert(pi * (0 - before[pi as int]) == -(pi * before[pi as int]))
                    by (nonlinear_arith);
                assert(-(pi * before[pi as int]) <= (pi + 1) * magnitude(before[pi as int]))
                    by (nonlinear_arith)
                    requires
                        before[pi as int] < 0,
                        magnitude(before[pi as int]) == -before[pi as int],
                        pi >= 0,
                ;
            }
            sd = sd - (pi as i32) * d[pi];
            d[pi] = 0;
        }
        while d[pi] > 0
            invariant
                n == d@.len(),
                d@.len() == old(d)@.len(),
                pi < n,
                ni < n,
                weight(ints(d@)) <= i32::MAX,
                sd == volume(ints(d@)),
                pi == 0 ==> d@[0] <= 0,
                d@[pi as int] >= 0,
                forall|j: int| 0 <= j < pi ==> d@[j] == 0,
                forall|j: int| 0 <= j < ni ==> d@[j] >= 0,
                answer == bestfit_spec(ints(old(d)@), trim_upper),
                place_from(ints(d@), pi as int) == answer,
            decreases d@[pi as int],
        {
            let ghost before = ints(d@);
            proof {
                lemma_lowest_neg_from(before, pi + 1);
            }
            while d[ni] >= 0
                invariant
                    n == d@.len(),
                    d@.len() == old(d)@.len(),
                    0 < pi < n,
                    ni < n,
                    d@[pi as int] > 0,
                    before == ints(d@),
                    forall|j: int| 0 <= j < ni ==> d@[j] >= 0,
                    answer == bestfit_spec(ints(old(d)@), trim_upper),
                    place_from(before, pi as int) == answer,
                    pi + 1 <= lowest_neg_from(before, pi + 1) <= n,
                    lowest_neg_from(before, pi + 1) < n ==> before[lowest_neg_from(
                        before,
                        pi + 1,
                    )] < 0,
                decreases n - ni,
            {
                ni = ni + 1;
                if ni >= n {
                    proof {
                        let low = lowest_neg_from(before, pi + 1);
                        if low < n {
                            assert(d@[low] >= 0);
                        }
                    }
                    return false;
                }
            }
            let ghost bin = ni as int;
            proof {
                let low = lowest_neg_from(before, pi + 1);
                assert(before[ni as int] < 0);
                if low < ni {
                    assert(d@[low] >= 0);
                }
                assert(low == ni);
                lemma_fill_bin(before, pi as int, ni as int);
                lemma_weight_bounds_entry(before, pi as int);
                lemma_weight_bounds_entry(before, ni as int);
                lemma_weight_bounds_volume(fill_bin(before, pi as int, ni as int));
            }
            let room: i32 = (ni as i32) / (pi as i32);
            let moved: i32 = if d[pi] < room {
                d[pi]
            } else {
                room
            };
            let rem: i32 = (ni as i32) - moved * (pi as i32);
            d[ni] = d[ni] + 1;
            d[pi] = d[pi] - moved;
            if rem > pi as i32 {
                proof {
                    lemma_weight_bounds_entry(before, rem as int);
                }
                d[rem as usize] = d[rem as usize] - 1;
                ni = rem as usize;
            } else {
                sd = sd + rem;
            }
            proof {
                assert(ints(d@) =~= fill_bin(before, pi as int, bin));
            }
        }
        pi = pi + 1;
    }
    proof {
        lemma_zero_volume(ints(d@));
        assert(sd == 0);
    }
    true
}

} // verus!
