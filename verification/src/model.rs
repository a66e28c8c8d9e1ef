//! The mathematical model of counting vectors and difference vectors.
//!
//! Contracts speak of vectors as sequences of unbounded integers. A
//! difference vector holds, at index `s`, the number of unplaced items of
//! size `s` when positive and the number of spare bins of size `s` when
//! negative.
use vstd::prelude::*;

verus! {

/// The entries of a difference vector as unbounded integers.
pub open spec fn ints(d: Seq<i32>) -> Seq<int> {
    Seq::new(d.len(), |i: int| d[i] as int)
}

/// The entries of a counting vector as unbounded integers.
pub open spec fn count_ints(c: Seq<u8>) -> Seq<int> {
    Seq::new(c.len(), |i: int| c[i] as int)
}

/// A counting vector is valid when it is shorter than the largest value of
/// the size type and, if it is not empty, holds no piece of size zero.
pub open spec fn valid_counts(c: Seq<u8>) -> bool {
    c.len() < u8::MAX && (c.len() > 0 ==> c[0] == 0)
}

/// The absolute value of an integer.
pub open spec fn magnitude(v: int) -> int {
    if v < 0 {
        -v
    } else {
        v
    }
}

/// The net volume of a vector: the sum of `i * d[i]` over all indices.
pub open spec fn volume(d: Seq<int>) -> int
    decreases d.len(),
{
    if d.len() == 0 {
        0
    } else {
        volume(d.drop_last()) + (d.len() - 1) * d.last()
    }
}

/// The weight of a vector: the sum of `(i + 1) * |d[i]|` over all indices.
/// Every piece, item or bin, weighs its size and one more, so the weight
/// bounds the number of pieces, their sizes and the net volume at once.
pub open spec fn weight(d: Seq<int>) -> int
    decreases d.len(),
{
    if d.len() == 0 {
        0
    } else {
        weight(d.drop_last()) + d.len() * magnitude(d.last())
    }
}

/// Replacing one entry changes the net volume by the index times the change.
pub proof fn lemma_volume_update(d: Seq<int>, i: int, v: int)
    requires
        0 <= i < d.len(),
    ensures
        volume(d.update(i, v)) == volume(d) + i * (v - d[i]),
    decreases d.len(),
{
    let e = d.update(i, v);
    if i == d.len() - 1 {
        assert(e.drop_last() =~= d.drop_last());
        assert(i * v == i * d[i] + i * (v - d[i])) by (nonlinear_arith);
    } else {
        assert(e.drop_last() =~= d.drop_last().update(i, v));
        lemma_volume_update(d.drop_last(), i, v);
    }
}

/// Replacing one entry changes the weight by the change of the entry's
/// magnitude, taken once more than the index.
pub proof fn lemma_weight_update(d: Seq<int>, i: int, v: int)
    requires
        0 <= i < d.len(),
    ensures
        weight(d.update(i, v)) == weight(d) + (i + 1) * (magnitude(v) - magnitude(d[i])),
    decreases d.len(),
{
    let e = d.update(i, v);
    if i == d.len() - 1 {
        assert(e.drop_last() =~= d.drop_last());
        assert((i + 1) * magnitude(v) == (i + 1) * magnitude(d[i]) + (i + 1) * (magnitude(v)
            - magnitude(d[i]))) by (nonlinear_arith);
    } else {
        assert(e.drop_last() =~= d.drop_last().update(i, v));
        lemma_weight_update(d.drop_last(), i, v);
    }
}

/// The weight is never negative and bounds the net volume from both sides.
pub proof fn lemma_weight_bounds_volume(d: Seq<int>)
    ensures
        0 <= weight(d),
        -weight(d) <= volume(d) <= weight(d),
    decreases d.len(),
{
    if d.len() > 0 {
        lemma_weight_bounds_volume(d.drop_last());
        let i = d.len() - 1;
        let v = d.last();
        assert(0 <= (i + 1) * magnitude(v) && -((i + 1) * magnitude(v)) <= i * v <= (i + 1)
            * magnitude(v)) by (nonlinear_arith)
            requires
                0 <= i,
                magnitude(v) == v || magnitude(v) == -v,
                magnitude(v) >= 0,
        ;
    }
}

/// Every entry weighs in the weight of its vector with its index and one
/// more.
pub proof fn lemma_weight_bounds_entry(d: Seq<int>, i: int)
    requires
        0 <= i < d.len(),
    ensures
        (i + 1) * magnitude(d[i]) <= weight(d),
        magnitude(d[i]) <= weight(d),
        d[i] != 0 ==> i < weight(d),
    decreases d.len(),
{
    lemma_weight_bounds_volume(d.drop_last());
    if i < d.len() - 1 {
        lemma_weight_bounds_entry(d.drop_last(), i);
        let n = d.len() as int;
        let v = d.last();
        assert(0 <= n * magnitude(v)) by (nonlinear_arith)
            requires
                0 <= n,
                magnitude(v) >= 0,
        ;
    }
    let m = magnitude(d[i]);
    assert(m <= (i + 1) * m && (m >= 1 ==> i + 1 <= (i + 1) * m)) by (nonlinear_arith)
        requires
            0 <= i,
            m >= 0,
    ;
}

/// The weight of a prefix is at most that of the whole vector.
pub proof fn lemma_weight_prefix(d: Seq<int>, n: int)
    requires
        0 <= n <= d.len(),
    ensures
        weight(d.take(n)) <= weight(d),
    decreases d.len(),
{
    if n == d.len() {
        assert(d.take(n) =~= d);
    } else {
        assert(d.drop_last().take(n) =~= d.take(n));
        lemma_weight_prefix(d.drop_last(), n);
        let m = d.len() as int;
        let v = d.last();
        assert(0 <= m * magnitude(v)) by (nonlinear_arith)
            requires
                0 <= m,
                magnitude(v) >= 0,
        ;
    }
}

/// A vector of zeros has no volume.
pub proof fn lemma_zero_volume(d: Seq<int>)
    requires
        forall|i: int| 0 <= i < d.len() ==> d[i] == 0,
    ensures
        volume(d) == 0,
    decreases d.len(),
{
    if d.len() > 0 {
        lemma_zero_volume(d.drop_last());
        assert((d.len() - 1) * d.last() == 0) by (nonlinear_arith)
            requires
                d.last() == 0,
        ;
    }
}

/// The highest index below `n` whose entry is positive, or -1 when there is
/// none.
pub open spec fn highest_pos_below(d: Seq<int>, n: int) -> int
    decreases n,
{
    if n <= 0 {
        -1
    } else if d[n - 1] > 0 {
        n - 1
    } else {
        highest_pos_below(d, n - 1)
    }
}

/// The highest index below `n` whose entry is negative, or -1 when there is
/// none.
pub open spec fn highest_neg_below(d: Seq<int>, n: int) -> int
    decreases n,
{
    if n <= 0 {
        -1
    } else if d[n - 1] < 0 {
        n - 1
    } else {
        highest_neg_below(d, n - 1)
    }
}

/// The size of the largest unplaced item, or -1 when no item is left.
pub open spec fn highest_pos(d: Seq<int>) -> int {
    highest_pos_below(d, d.len() as int)
}

/// The size of the largest spare bin, or -1 when no bin is left.
pub open spec fn highest_neg(d: Seq<int>) -> int {
    highest_neg_below(d, d.len() as int)
}

/// What `highest_pos_below` finds is positive, and nothing above it is.
pub proof fn lemma_highest_pos_below(d: Seq<int>, n: int)
    requires
        0 <= n <= d.len(),
    ensures
        -1 <= highest_pos_below(d, n) < n,
        highest_pos_below(d, n) >= 0 ==> d[highest_pos_below(d, n)] > 0,
        forall|j: int| highest_pos_below(d, n) < j < n ==> d[j] <= 0,
    decreases n,
{
    if n > 0 && d[n - 1] <= 0 {
        lemma_highest_pos_below(d, n - 1);
    }
}

/// What `highest_neg_below` finds is negative, and nothing above it is.
pub proof fn lemma_highest_neg_below(d: Seq<int>, n: int)
    requires
        0 <= n <= d.len(),
    ensures
        -1 <= highest_neg_below(d, n) < n,
        highest_neg_below(d, n) >= 0 ==> d[highest_neg_below(d, n)] < 0,
        forall|j: int| highest_neg_below(d, n) < j < n ==> d[j] >= 0,
    decreases n,
{
    if n > 0 && d[n - 1] >= 0 {
        lemma_highest_neg_below(d, n - 1);
    }
}

/// The vector after one item of size `item` went into one bin of size
/// `bin`: the item and the bin are gone, and a bin of the remaining size
/// `bin - item` has come.
pub open spec fn match_step(d: Seq<int>, item: int, bin: int) -> Seq<int> {
    let d1 = d.update(bin, d[bin] + 1);
    let d2 = d1.update(item, d1[item] - 1);
    d2.update(bin - item, d2[bin - item] - 1)
}

/// Putting an item into a larger bin keeps the length and the net volume,
/// and takes at least one more than the item's size off the weight.
pub proof fn lemma_match_step(d: Seq<int>, item: int, bin: int)
    requires
        0 <= item < bin < d.len(),
        d[item] > 0,
        d[bin] < 0,
    ensures
        match_step(d, item, bin).len() == d.len(),
        volume(match_step(d, item, bin)) == volume(d),
        0 <= weight(match_step(d, item, bin)) <= weight(d) - (item + 1),
        item > 0 ==> match_step(d, item, bin)[0] == d[0],
{
    let d1 = d.update(bin, d[bin] + 1);
    let d2 = d1.update(item, d1[item] - 1);
    let rest = bin - item;
    let d3 = d2.update(rest, d2[rest] - 1);
    lemma_weight_bounds_volume(d3);
    lemma_volume_update(d, bin, d[bin] + 1);
    lemma_volume_update(d1, item, d1[item] - 1);
    lemma_volume_update(d2, rest, d2[rest] - 1);
    lemma_weight_update(d, bin, d[bin] + 1);
    lemma_weight_update(d1, item, d1[item] - 1);
    lemma_weight_update(d2, rest, d2[rest] - 1);
    assert(volume(d1) == volume(d) + bin) by (nonlinear_arith)
        requires
            volume(d1) == volume(d) + bin * (d[bin] + 1 - d[bin]),
    ;
    assert(volume(d2) == volume(d1) - item) by (nonlinear_arith)
        requires
            volume(d2) == volume(d1) + item * (d1[item] - 1 - d1[item]),
    ;
    assert(volume(d3) == volume(d2) - rest) by (nonlinear_arith)
        requires
            volume(d3) == volume(d2) + rest * (d2[rest] - 1 - d2[rest]),
    ;
    assert(weight(d1) == weight(d) - (bin + 1)) by (nonlinear_arith)
        requires
            weight(d1) == weight(d) + (bin + 1) * (magnitude(d[bin] + 1) - magnitude(d[bin])),
            magnitude(d[bin] + 1) - magnitude(d[bin]) == -1,
    ;
    assert(weight(d2) == weight(d1) - (item + 1)) by (nonlinear_arith)
        requires
            weight(d2) == weight(d1) + (item + 1) * (magnitude(d1[item] - 1) - magnitude(
                d1[item],
            )),
            magnitude(d1[item] - 1) - magnitude(d1[item]) == -1,
    ;
    assert(weight(d3) <= weight(d2) + (rest + 1)) by (nonlinear_arith)
        requires
            weight(d3) == weight(d2) + (rest + 1) * (magnitude(d2[rest] - 1) - magnitude(
                d2[rest],
            )),
            magnitude(d2[rest] - 1) - magnitude(d2[rest]) <= 1,
            rest >= 0,
    ;
}

} // verus!
