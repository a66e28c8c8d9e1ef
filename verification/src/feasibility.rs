//! What it means that items fit into bins, and the proof that a `true` of
//! the decision procedures is never wrong.
//!
//! A packing is built by placements. A placement puts one item into one
//! bin that is at least as large; the bin becomes a bin of the size that
//! is left. The items fit when placements can use up all of them.
use vstd::prelude::*;
use crate::model::{
    count_ints, highest_neg, highest_pos, lemma_highest_neg_below, lemma_highest_pos_below,
    lemma_match_step, lemma_volume_update, lemma_weight_bounds_volume, lemma_weight_update,
    lemma_zero_volume, magnitude, match_step, volume, weight,
};
use crate::packing_bestfit::{
    fill_bin, fits_bestfit, lemma_fill_bin, lemma_lowest_neg_from, lowest_neg_from, moved_items,
    place_from, scan_from,
};
use crate::packing_branching::{
    branch_count, branch_share, branches_from, branching_spec, candidate_bins, fits_branching,
    lemma_bins_between,
};
use crate::packing_common::{forced_match, prep_diff_spec, trimmed};

verus! {

/// A placement: one item of size `item` goes into one bin of size `bin`.
pub struct Placement {
    pub item: int,
    pub bin: int,
}

/// Whether the placement can be made with the items `x` and the bins `y`,
/// both given as counts: an item and a bin of these sizes are there, and
/// the item is not larger than the bin.
pub open spec fn can_place(x: Seq<int>, y: Seq<int>, m: Placement) -> bool {
    &&& x.len() == y.len()
    &&& 0 < m.item <= m.bin < x.len()
    &&& x[m.item] > 0
    &&& y[m.bin] > 0
}

/// The items that are left after a placement.
pub open spec fn items_after(x: Seq<int>, m: Placement) -> Seq<int> {
    x.update(m.item, x[m.item] - 1)
}

/// The bins that are left after a placement: the bin that took the item
/// has become a bin of the remaining size.
pub open spec fn bins_after(y: Seq<int>, m: Placement) -> Seq<int> {
    let y1 = y.update(m.bin, y[m.bin] - 1);
    y1.update(m.bin - m.item, y1[m.bin - m.item] + 1)
}

/// Whether the placements can be made one after the other, starting with
/// the items `x` and the bins `y`, and leave no item.
pub open spec fn packs(x: Seq<int>, y: Seq<int>, moves: Seq<Placement>) -> bool
    decreases moves.len(),
{
    if moves.len() == 0 {
        forall|i: int| 0 <= i < x.len() ==> x[i] == 0
    } else {
        can_place(x, y, moves[0]) && packs(
            items_after(x, moves[0]),
            bins_after(y, moves[0]),
            moves.drop_first(),
        )
    }
}

/// The items `x` fit into the bins `y`: some sequence of placements uses
/// up all items.
pub open spec fn packable(x: Seq<int>, y: Seq<int>) -> bool {
    exists|moves: Seq<Placement>| packs(x, y, moves)
}

/// Items fit only into bins of at least their volume.
pub proof fn lemma_packs_needs_volume(x: Seq<int>, y: Seq<int>, moves: Seq<Placement>)
    requires
        x.len() == y.len(),
        forall|i: int| 0 <= i < y.len() ==> y[i] >= 0,
        packs(x, y, moves),
    ensures
        volume(x) <= volume(y),
    decreases moves.len(),
{
    if moves.len() == 0 {
        lemma_zero_volume(x);
        lemma_counts_volume(y);
    } else {
        let m = moves[0];
        let x1 = items_after(x, m);
        let y1 = y.update(m.bin, y[m.bin] - 1);
        let y2 = bins_after(y, m);
        lemma_packs_needs_volume(x1, y2, moves.drop_first());
        lemma_volume_update(x, m.item, x[m.item] - 1);
        lemma_volume_update(y, m.bin, y[m.bin] - 1);
        lemma_volume_update(y1, m.bin - m.item, y1[m.bin - m.item] + 1);
        assert(volume(x1) == volume(x) - m.item) by (nonlinear_arith)
            requires
                volume(x1) == volume(x) + m.item * (x[m.item] - 1 - x[m.item]),
        ;
        assert(volume(y1) == volume(y) - m.bin) by (nonlinear_arith)
            requires
                volume(y1) == volume(y) + m.bin * (y[m.bin] - 1 - y[m.bin]),
        ;
        assert(volume(y2) == volume(y1) + (m.bin - m.item)) by (nonlinear_arith)
            requires
                volume(y2) == volume(y1) + (m.bin - m.item) * (y1[m.bin - m.item] + 1 - y1[m.bin
                    - m.item]),
        ;
    }
}

/// Counts have no volume below zero.
pub proof fn lemma_counts_volume(y: Seq<int>)
    requires
        forall|i: int| 0 <= i < y.len() ==> y[i] >= 0,
    ensures
        volume(y) >= 0,
    decreases y.len(),
{
    if y.len() > 0 {
        lemma_counts_volume(y.drop_last());
        let i = y.len() - 1;
        let v = y.last();
        assert(i * v >= 0) by (nonlinear_arith)
            requires
                i >= 0,
                v >= 0,
        ;
    }
}

/// A placement followed by placements that pack what it leaves packs the
/// whole.
pub proof fn lemma_packs_after(x: Seq<int>, y: Seq<int>, m: Placement, rest: Seq<Placement>)
    requires
        can_place(x, y, m),
        packs(items_after(x, m), bins_after(y, m), rest),
    ensures
        packs(x, y, seq![m] + rest),
{
    let moves = seq![m] + rest;
    assert(moves[0] == m);
    assert(moves.drop_first() =~= rest);
}

/// Items that all have a bin of their own size fit: each goes into such a
/// bin.
pub proof fn lemma_matching_sizes_pack(x: Seq<int>, y: Seq<int>) -> (moves: Seq<Placement>)
    requires
        x.len() == y.len(),
        x.len() > 0 ==> x[0] == 0,
        forall|i: int|
            #![trigger x[i]]
            #![trigger y[i]]
            0 <= i < x.len() ==> 0 <= x[i] <= y[i],
    ensures
        packs(x, y, moves),
    decreases weight(x),
{
    lemma_highest_pos_below(x, x.len() as int);
    let s = highest_pos(x);
    if s < 0 {
        assert forall|i: int| 0 <= i < x.len() implies x[i] == 0 by {}
        Seq::empty()
    } else {
        let m = Placement { item: s, bin: s };
        let x1 = items_after(x, m);
        let y1 = bins_after(y, m);
        lemma_weight_update(x, s, x[s] - 1);
        lemma_weight_bounds_volume(x1);
        assert((s + 1) * (magnitude(x[s] - 1) - magnitude(x[s])) < 0) by (nonlinear_arith)
            requires
                s >= 0,
                magnitude(x[s] - 1) - magnitude(x[s]) == -1,
        ;
        let rest = lemma_matching_sizes_pack(x1, y1);
        lemma_packs_after(x, y, m, rest);
        seq![m] + rest
    }
}

/// The difference vector `d` accounts for the items `x` and the bins `y`:
/// it is the difference of `x` and of some of the bins of `y`, and no item
/// has size zero.
pub open spec fn covers(d: Seq<int>, x: Seq<int>, y: Seq<int>) -> bool {
    &&& d.len() == x.len()
    &&& d.len() == y.len()
    &&& x.len() > 0 ==> x[0] == 0
    &&& forall|i: int|
        #![trigger d[i]]
        #![trigger x[i]]
        #![trigger y[i]]
        0 <= i < d.len() ==> 0 <= x[i] && 0 <= y[i] && x[i] - y[i] <= d[i] <= x[i]
}

/// A match on the difference vector is a placement of the items and bins
/// that it accounts for.
pub proof fn lemma_covers_match_step(d: Seq<int>, x: Seq<int>, y: Seq<int>, item: int, bin: int)
    requires
        covers(d, x, y),
        0 < item < bin < d.len(),
        d[item] > 0,
        d[bin] < 0,
    ensures
        can_place(x, y, Placement { item, bin }),
        covers(
            match_step(d, item, bin),
            items_after(x, Placement { item, bin }),
            bins_after(y, Placement { item, bin }),
        ),
{
    let m = Placement { item, bin };
    let d1 = match_step(d, item, bin);
    let x1 = items_after(x, m);
    let y1 = bins_after(y, m);
    assert(x[item] >= d[item]);
    assert(x[bin] - y[bin] <= d[bin]);
    assert forall|i: int|
        #![trigger d1[i]]
        #![trigger x1[i]]
        #![trigger y1[i]]
        0 <= i < d1.len() implies 0 <= x1[i] && 0 <= y1[i] && x1[i] - y1[i] <= d1[i] <= x1[i] by {
        assert(0 <= x[i] && 0 <= y[i] && x[i] - y[i] <= d[i] <= x[i]);
    }
}

/// The bins after a bin of size `bin` has become a bin of size `rest`.
pub open spec fn bins_shrunk(y: Seq<int>, bin: int, rest: int) -> Seq<int> {
    let y1 = y.update(bin, y[bin] - 1);
    y1.update(rest, y1[rest] + 1)
}

/// The placements that fill one bin of size `bin` with `c` items of size
/// `item`.
pub open spec fn fill_moves(item: int, bin: int, c: int) -> Seq<Placement>
    decreases c,
{
    if c <= 0 {
        Seq::empty()
    } else {
        seq![Placement { item, bin }] + fill_moves(item, bin - item, c - 1)
    }
}

/// Filling one bin with `c` items of one size, and then packing what is
/// left, packs the whole.
pub proof fn lemma_fill_packs(
    x: Seq<int>,
    y: Seq<int>,
    item: int,
    bin: int,
    c: int,
    rest: Seq<Placement>,
)
    requires
        x.len() == y.len(),
        forall|i: int| 0 <= i < y.len() ==> y[i] >= 0,
        0 < item < x.len(),
        1 <= c <= x[item],
        c * item <= bin < x.len(),
        y[bin] >= 1,
        packs(x.update(item, x[item] - c), bins_shrunk(y, bin, bin - c * item), rest),
    ensures
        packs(x, y, fill_moves(item, bin, c) + rest),
    decreases c,
{
    let m = Placement { item, bin };
    let x1 = items_after(x, m);
    let y1 = bins_after(y, m);
    assert(item <= c * item) by (nonlinear_arith)
        requires
            c >= 1,
            item > 0,
    ;
    if c == 1 {
        assert(c * item == item) by (nonlinear_arith)
            requires
                c == 1,
        ;
        assert(bins_shrunk(y, bin, bin - c * item) =~= y1);
        lemma_packs_after(x, y, m, rest);
        assert(fill_moves(item, bin - item, 0) =~= Seq::<Placement>::empty());
        assert(fill_moves(item, bin, c) + rest =~= seq![m] + rest);
    } else {
        assert((c - 1) * item == c * item - item) by (nonlinear_arith);
        assert(x1.update(item, x1[item] - (c - 1)) =~= x.update(item, x[item] - c));
        assert(bins_shrunk(y1, bin - item, bin - item - (c - 1) * item) =~= bins_shrunk(
            y,
            bin,
            bin - c * item,
        ));
        lemma_fill_packs(x1, y1, item, bin - item, c - 1, rest);
        lemma_packs_after(x, y, m, fill_moves(item, bin - item, c - 1) + rest);
        assert(seq![m] + (fill_moves(item, bin - item, c - 1) + rest) =~= fill_moves(item, bin, c)
            + rest);
    }
}

/// Filling a bin on the difference vector is filling a bin of the items
/// and bins that it accounts for.
pub proof fn lemma_covers_fill_bin(d: Seq<int>, x: Seq<int>, y: Seq<int>, item: int, bin: int)
    requires
        covers(d, x, y),
        0 < item < bin < d.len(),
        d[item] > 0,
        d[bin] < 0,
    ensures
        1 <= moved_items(d, item, bin) <= x[item],
        moved_items(d, item, bin) * item <= bin,
        y[bin] >= 1,
        covers(
            fill_bin(d, item, bin),
            x.update(item, x[item] - moved_items(d, item, bin)),
            bins_shrunk(y, bin, bin - moved_items(d, item, bin) * item),
        ),
{
    lemma_fill_bin(d, item, bin);
    let c = moved_items(d, item, bin);
    let rest = bin - c * item;
    let f = fill_bin(d, item, bin);
    let x1 = x.update(item, x[item] - c);
    let y1 = bins_shrunk(y, bin, rest);
    assert(item <= c * item) by (nonlinear_arith)
        requires
            c >= 1,
            item > 0,
    ;
    assert(x[item] >= d[item]);
    assert(x[bin] - y[bin] <= d[bin]);
    assert forall|i: int|
        #![trigger f[i]]
        #![trigger x1[i]]
        #![trigger y1[i]]
        0 <= i < f.len() implies 0 <= x1[i] && 0 <= y1[i] && x1[i] - y1[i] <= f[i] <= x1[i] by {
        assert(0 <= x[i] && 0 <= y[i] && x[i] - y[i] <= d[i] <= x[i]);
    }
}

/// The scan answers `true` only where the items fit: what the difference
/// vector accounts for can be packed.
pub proof fn lemma_scan_packs(d: Seq<int>, p: int, x: Seq<int>, y: Seq<int>) -> (moves: Seq<
    Placement,
>)
    requires
        covers(d, x, y),
        0 <= p,
        forall|i: int| 0 <= i < p && i < d.len() ==> d[i] <= 0,
        scan_from(d, p),
    ensures
        packs(x, y, moves),
    decreases d.len() - p, 1int, 0int,
{
    if p >= d.len() {
        assert forall|i: int|
            #![trigger x[i]]
            #![trigger y[i]]
            0 <= i < x.len() implies 0 <= x[i] <= y[i] by {
            assert(x[i] - y[i] <= d[i] <= x[i]);
        }
        lemma_matching_sizes_pack(x, y)
    } else if d[p] < 0 {
        let cleared = d.update(p, 0);
        assert forall|i: int|
            #![trigger cleared[i]]
            #![trigger x[i]]
            #![trigger y[i]]
            0 <= i < cleared.len() implies 0 <= x[i] && 0 <= y[i] && x[i] - y[i] <= cleared[i]
            <= x[i] by {
            assert(0 <= x[i] && 0 <= y[i] && x[i] - y[i] <= d[i] <= x[i]);
        }
        lemma_place_packs(cleared, p, x, y)
    } else {
        lemma_place_packs(d, p, x, y)
    }
}

/// The placing of the items of one size answers `true` only where the
/// items fit.
pub proof fn lemma_place_packs(d: Seq<int>, p: int, x: Seq<int>, y: Seq<int>) -> (moves: Seq<
    Placement,
>)
    requires
        covers(d, x, y),
        0 <= p < d.len(),
        forall|i: int| 0 <= i < p ==> d[i] <= 0,
        place_from(d, p),
    ensures
        packs(x, y, moves),
    decreases d.len() - p, 0int, if d[p] > 0 {
        d[p]
    } else {
        0
    },
{
    if d[p] <= 0 {
        lemma_scan_packs(d, p + 1, x, y)
    } else {
        let bin = lowest_neg_from(d, p + 1);
        lemma_lowest_neg_from(d, p + 1);
        lemma_fill_bin(d, p, bin);
        lemma_covers_fill_bin(d, x, y, p, bin);
        let c = moved_items(d, p, bin);
        let f = fill_bin(d, p, bin);
        let x1 = x.update(p, x[p] - c);
        let y1 = bins_shrunk(y, bin, bin - c * p);
        let rest = lemma_place_packs(f, p, x1, y1);
        lemma_fill_packs(x, y, p, bin, c, rest);
        fill_moves(p, bin, c) + rest
    }
}

/// Best-fit answers `true` only where the items fit, with or without
/// trimming.
pub proof fn lemma_trim_packs(d: Seq<int>, x: Seq<int>, y: Seq<int>) -> (moves: Seq<Placement>)
    requires
        covers(d, x, y),
        scan_from(trimmed(d), 0),
    ensures
        packs(x, y, moves),
    decreases weight(d),
{
    if forced_match(d) {
        let item = highest_pos(d);
        let bin = highest_neg(d);
        lemma_highest_pos_below(d, d.len() as int);
        lemma_highest_neg_below(d, d.len() as int);
        assert(d[0] <= x[0]);
        lemma_match_step(d, item, bin);
        lemma_covers_match_step(d, x, y, item, bin);
        let m = Placement { item, bin };
        let rest = lemma_trim_packs(match_step(d, item, bin), items_after(x, m), bins_after(y, m));
        lemma_packs_after(x, y, m, rest);
        seq![m] + rest
    } else {
        lemma_scan_packs(d, 0, x, y)
    }
}

/// The search answers `true` only where the items fit.
pub proof fn lemma_search_packs(d: Seq<int>, k: int, x: Seq<int>, y: Seq<int>) -> (moves: Seq<
    Placement,
>)
    requires
        covers(d, x, y),
        branching_spec(d, k),
    ensures
        packs(x, y, moves),
    decreases weight(d), k + 1,
{
    if k <= 1 {
        lemma_trim_packs(d, x, y)
    } else if highest_pos(d) < 0 {
        lemma_highest_pos_below(d, d.len() as int);
        assert forall|i: int|
            #![trigger x[i]]
            #![trigger y[i]]
            0 <= i < x.len() implies 0 <= x[i] <= y[i] by {
            assert(x[i] - y[i] <= d[i] <= x[i]);
        }
        lemma_matching_sizes_pack(x, y)
    } else {
        lemma_branches_pack(d, k, 0, k, x, y)
    }
}

/// A branch of the search answers `true` only where the items fit.
pub proof fn lemma_branches_pack(
    d: Seq<int>,
    k: int,
    j: int,
    left: int,
    x: Seq<int>,
    y: Seq<int>,
) -> (moves: Seq<Placement>)
    requires
        covers(d, x, y),
        branches_from(d, k, j, left),
    ensures
        packs(x, y, moves),
    decreases weight(d), branch_count(d, k) - j,
{
    let item = highest_pos(d);
    lemma_highest_pos_below(d, d.len() as int);
    lemma_bins_between(d, item, d.len() as int);
    let bin = candidate_bins(d)[j];
    assert(d[0] <= x[0]);
    lemma_match_step(d, item, bin);
    let budget = if left < branch_share(d, k) {
        left
    } else {
        branch_share(d, k)
    };
    if branching_spec(match_step(d, item, bin), budget) {
        lemma_covers_match_step(d, x, y, item, bin);
        let m = Placement { item, bin };
        let rest = lemma_search_packs(
            match_step(d, item, bin),
            budget,
            items_after(x, m),
            bins_after(y, m),
        );
        lemma_packs_after(x, y, m, rest);
        seq![m] + rest
    } else {
        lemma_branches_pack(d, k, j + 1, left - budget, x, y)
    }
}

/// A counting vector as unbounded integers, taken on with zeros up to the
/// length `n`.
pub open spec fn padded(c: Seq<u8>, n: nat) -> Seq<int> {
    Seq::new(
        n,
        |i: int|
            if i < c.len() {
                c[i] as int
            } else {
                0
            },
    )
}

/// The length of the longer of two counting vectors.
pub open spec fn common_len(a: Seq<u8>, b: Seq<u8>) -> nat {
    if a.len() >= b.len() {
        a.len()
    } else {
        b.len()
    }
}

/// The items `a` fit into the bins `b`, both given as counting vectors:
/// placements can use up all items.
pub open spec fn fits_into(a: Seq<u8>, b: Seq<u8>) -> bool {
    packable(padded(a, common_len(a, b)), padded(b, common_len(a, b)))
}

/// The difference vector of two counting vectors accounts for their items
/// and bins.
pub proof fn lemma_prep_diff_covers(a: Seq<u8>, b: Seq<u8>)
    requires
        a.len() > 0 ==> a[0] == 0,
    ensures
        covers(
            prep_diff_spec(count_ints(a), count_ints(b)),
            padded(a, common_len(a, b)),
            padded(b, common_len(a, b)),
        ),
{
}

/// Best-fit is sound: when it answers `true`, the items fit into the bins.
pub proof fn lemma_bestfit_sound(a: Seq<u8>, b: Seq<u8>, trim_upper: bool)
    requires
        a.len() > 0 ==> a[0] == 0,
        fits_bestfit(a, b, trim_upper),
    ensures
        fits_into(a, b),
{
    let d = prep_diff_spec(count_ints(a), count_ints(b));
    let x = padded(a, common_len(a, b));
    let y = padded(b, common_len(a, b));
    lemma_prep_diff_covers(a, b);
    let moves = if trim_upper {
        lemma_trim_packs(d, x, y)
    } else {
        lemma_scan_packs(d, 0, x, y)
    };
    assert(packs(x, y, moves));
}

/// The branching procedure is sound: when it answers `true`, whatever the
/// budget, the items fit into the bins.
pub proof fn lemma_branching_sound(a: Seq<u8>, b: Seq<u8>, k: int)
    requires
        a.len() > 0 ==> a[0] == 0,
        fits_branching(a, b, k),
    ensures
        fits_into(a, b),
{
    let d = prep_diff_spec(count_ints(a), count_ints(b));
    let x = padded(a, common_len(a, b));
    let y = padded(b, common_len(a, b));
    lemma_prep_diff_covers(a, b);
    let moves = lemma_search_packs(d, k, x, y);
    assert(packs(x, y, moves));
}

/// Zeros at the end of a counting vector add no volume.
pub proof fn lemma_padded_volume(c: Seq<u8>, n: nat)
    requires
        n >= c.len(),
    ensures
        volume(padded(c, n)) == volume(count_ints(c)),
    decreases n,
{
    if n == c.len() {
        assert(padded(c, n) =~= count_ints(c));
    } else {
        let longer = padded(c, n);
        assert(longer.drop_last() =~= padded(c, (n - 1) as nat));
        lemma_padded_volume(c, (n - 1) as nat);
        assert((longer.len() - 1) * longer.last() == 0) by (nonlinear_arith)
            requires
                longer.last() == 0,
        ;
    }
}

/// Volume is necessary for a packing: items that fit into bins have at
/// most the volume of the bins.
pub proof fn lemma_fit_needs_volume(a: Seq<u8>, b: Seq<u8>)
    requires
        fits_into(a, b),
    ensures
        volume(count_ints(a)) <= volume(count_ints(b)),
{
    let n = common_len(a, b);
    let moves = choose|moves: Seq<Placement>| packs(padded(a, n), padded(b, n), moves);
    lemma_packs_needs_volume(padded(a, n), padded(b, n), moves);
    lemma_padded_volume(a, n);
    lemma_padded_volume(b, n);
}

} // verus!
