//! Conversions between the two representations of a multiset, volume
//! summation, difference vectors and the trimming of the upper bins.
use vstd::prelude::*;
use vstd::std_specs::convert::IntoSpec;
use crate::C;
use crate::model::{
    count_ints, highest_neg, highest_neg_below, highest_pos, highest_pos_below, ints,
    lemma_highest_neg_below, lemma_highest_pos_below, lemma_match_step, lemma_weight_bounds_entry,
    lemma_weight_bounds_volume, lemma_weight_prefix, magnitude, match_step, valid_counts, volume,
    weight,
};
use crate::round_trip::lemma_occurrences_positive;

verus! {

/// The counts of a vector as unbounded integers, each taken the way it is
/// converted to 64 bits.
pub open spec fn wide<T: Into<i64>>(counts: Seq<T>) -> Seq<int> {
    Seq::new(counts.len(), |i: int| IntoSpec::<i64>::into_spec(counts[i]) as int)
}

/// The entries of a difference vector are converted to 64 bits as they
/// are.
pub proof fn lemma_wide_ints(d: Seq<i32>)
    ensures
        wide(d) == ints(d),
        <i32 as IntoSpec<i64>>::obeys_into_spec(),
{
    assert(wide(d) =~= ints(d));
}

/// Given the counts of the pieces of every size, returns the sum of their
/// sizes. A negative count weighs negatively.
pub fn item_sum<T: Into<i64> + Copy>(counts: &[T]) -> (sum: i64)
    requires
        <T as IntoSpec<i64>>::obeys_into_spec(),
        weight(wide(counts@)) <= i64::MAX,
    ensures
        sum == volume(wide(counts@)),
{
    let ghost d = wide(counts@);
    let mut sum: i64 = 0;
    let mut i: usize = 0;
    proof {
        lemma_weight_bounds_volume(d.take(0));
    }
    while i < counts.len()
        invariant
            i <= counts.len(),
            d == wide(counts@),
            <T as IntoSpec<i64>>::obeys_into_spec(),
            weight(d) <= i64::MAX,
            sum == volume(d.take(i as int)),
        decreases counts.len() - i,
    {
        let val: i64 = counts[i].into();
        proof {
            let next = d.take(i + 1);
            assert(next.drop_last() =~= d.take(i as int));
            assert(next.last() == val as int);
            assert(next.len() - 1 == i);
            assert(volume(next) == volume(d.take(i as int)) + i * (val as int));
            if val == 0 {
                assert(i * (val as int) == 0 && (i as i64) * val == 0) by (nonlinear_arith)
                    requires
                        val == 0,
                ;
            }
            lemma_weight_prefix(d, i + 1);
            lemma_weight_bounds_volume(d.take(i + 1));
            lemma_weight_bounds_entry(d, i as int);
            lemma_weight_bounds_volume(d);
            assert(-((i + 1) * magnitude(val as int)) <= i * val <= (i + 1) * magnitude(
                val as int,
            )) by (nonlinear_arith)
                requires
                    0 <= i,
                    magnitude(val as int) == val || magnitude(val as int) == -val,
                    magnitude(val as int) >= 0,
            ;
        }
        sum = sum + (i as i64) * val;
        i = i + 1;
    }
    proof {
        assert(d.take(i as int) =~= d);
    }
    sum
}

/// How often the size `v` occurs in a sizes vector.
pub open spec fn occurrences(s: Seq<u8>, v: int) -> nat
    decreases s.len(),
{
    if s.len() == 0 {
        0
    } else {
        occurrences(s.drop_last(), v) + if s.last() as int == v {
            1nat
        } else {
            0nat
        }
    }
}

/// The largest size in a sizes vector, or -1 when the vector is empty.
pub open spec fn max_size(s: Seq<u8>) -> int
    decreases s.len(),
{
    if s.len() == 0 {
        -1
    } else if s.last() as int > max_size(s.drop_last()) {
        s.last() as int
    } else {
        max_size(s.drop_last())
    }
}

/// The shortest counting vector that holds every size of a sizes vector:
/// empty for the empty vector, else one entry longer than the largest
/// size.
pub open spec fn sizes_to_counts_spec(s: Seq<u8>) -> Seq<u8> {
    Seq::new((max_size(s) + 1) as nat, |i: int| occurrences(s, i) as u8)
}

/// The size `size`, `n` times.
pub open spec fn copies(size: int, n: nat) -> Seq<u8> {
    Seq::new(n, |j: int| size as u8)
}

/// The sizes of a counting vector in descending order: every size as often
/// as its count says, the largest size first.
pub open spec fn counts_to_sizes_spec(c: Seq<u8>) -> Seq<u8>
    decreases c.len(),
{
    if c.len() == 0 {
        Seq::empty()
    } else {
        copies(c.len() - 1, c.last() as nat) + counts_to_sizes_spec(c.drop_last())
    }
}

/// Tells whether a counting vector is valid.
pub fn is_valid_counts(counts: &[C]) -> (valid: bool)
    ensures
        valid == valid_counts(counts@),
{
    counts.len() < C::MAX as usize && (counts.len() == 0 || counts[0] == 0)
}

/// A prefix of a sizes vector holds no size more often than the whole,
/// and no larger size.
pub proof fn lemma_sizes_prefix(s: Seq<u8>, n: int, v: int)
    requires
        0 <= n <= s.len(),
    ensures
        occurrences(s.take(n), v) <= occurrences(s, v),
        max_size(s.take(n)) <= max_size(s),
    decreases s.len(),
{
    if n == s.len() {
        assert(s.take(n) =~= s);
    } else {
        assert(s.drop_last().take(n) =~= s.take(n));
        lemma_sizes_prefix(s.drop_last(), n, v);
    }
}

/// Converts a counting vector into the list of its sizes, in descending
/// order.
pub fn counts_to_sizes(counts: &[C]) -> (sizes: Vec<C>)
    requires
        valid_counts(counts@),
    ensures
        sizes@ == counts_to_sizes_spec(counts@),
{
    let mut res: Vec<C> = Vec::new();
    let mut i: usize = counts.len();
    proof {
        assert(counts@.take(i as int) =~= counts@);
    }
    while i > 0
        invariant
            i <= counts@.len() < u8::MAX,
            res@ + counts_to_sizes_spec(counts@.take(i as int)) == counts_to_sizes_spec(counts@),
        decreases i,
    {
        i = i - 1;
        let val: u8 = counts[i];
        let ghost done = res@;
        let mut k: u8 = 0;
        while k < val
            invariant
                k <= val,
                i < counts@.len() < u8::MAX,
                res@ == done + copies(i as int, k as nat),
            decreases val - k,
        {
            res.push(i as u8);
            k = k + 1;
            proof {
                assert(res@ =~= done + copies(i as int, k as nat));
            }
        }
        proof {
            let upper = counts@.take(i + 1);
            assert(upper.drop_last() =~= counts@.take(i as int));
            assert(upper.last() == val);
            assert(counts_to_sizes_spec(upper) == copies(i as int, val as nat)
                + counts_to_sizes_spec(counts@.take(i as int)));
            assert(res@ + counts_to_sizes_spec(counts@.take(i as int)) =~= done
                + counts_to_sizes_spec(upper));
        }
    }
    proof {
        assert(counts@.take(0) =~= Seq::<u8>::empty());
        assert(res@ =~= res@ + counts_to_sizes_spec(counts@.take(0)));
    }
    res
}

/// Tells whether a sizes vector has a counting vector: whether no size
/// occurs in it more often than a count can tell.
pub fn is_countable(sizes: &[C]) -> (countable: bool)
    ensures
        countable == forall|v: int| occurrences(sizes@, v) <= u8::MAX,
{
    let mut seen: Vec<usize> = Vec::new();
    let mut k: usize = 0;
    while k < 256
        invariant
            k <= 256,
            seen@.len() == k,
            forall|j: int| 0 <= j < k ==> seen@[j] == 0,
        decreases 256 - k,
    {
        seen.push(0);
        k = k + 1;
    }
    let mut i: usize = 0;
    while i < sizes.len()
        invariant
            i <= sizes@.len(),
            seen@.len() == 256,
            forall|v: int|
                0 <= v < 256 ==> seen@[v] as int == occurrences(sizes@.take(i as int), v),
            forall|v: int| 0 <= v < 256 ==> seen@[v] <= i,
        decreases sizes@.len() - i,
    {
        let s: usize = sizes[i] as usize;
        proof {
            assert(sizes@.take(i + 1).drop_last() =~= sizes@.take(i as int));
        }
        seen[s] = seen[s] + 1;
        i = i + 1;
    }
    proof {
        assert(sizes@.take(i as int) =~= sizes@);
    }
    let mut v: usize = 0;
    while v < 256
        invariant
            v <= 256,
            seen@.len() == 256,
            forall|w: int| 0 <= w < 256 ==> seen@[w] as int == occurrences(sizes@, w),
            forall|w: int| 0 <= w < v ==> occurrences(sizes@, w) <= u8::MAX,
        decreases 256 - v,
    {
        if seen[v] > C::MAX as usize {
            return false;
        }
        v = v + 1;
    }
    proof {
        assert forall|w: int| occurrences(sizes@, w) <= u8::MAX by {
            if !(0 <= w < 256) {
                lemma_occurrences_positive(sizes@, w);
            }
        }
    }
    true
}

/// Converts a list of sizes into the shortest counting vector that holds
/// them.
pub fn sizes_to_counts(sizes: &[C]) -> (res: Vec<C>)
    requires
        forall|v: int| occurrences(sizes@, v) <= u8::MAX,
    ensures
        res@ == sizes_to_counts_spec(sizes@),
{
    let mut res: Vec<C> = Vec::new();
    if sizes.len() == 0 {
        proof {
            assert(res@ =~= sizes_to_counts_spec(sizes@));
        }
        return res;
    }
    let mut m: u8 = 0;
    let mut i: usize = 0;
    while i < sizes.len()
        invariant
            i <= sizes@.len(),
            i == 0 ==> m == 0,
            i > 0 ==> m as int == max_size(sizes@.take(i as int)),
        decreases sizes@.len() - i,
    {
        proof {
            assert(sizes@.take(i + 1).drop_last() =~= sizes@.take(i as int));
        }
        if sizes[i] > m {
            m = sizes[i];
        }
        i = i + 1;
    }
    proof {
        assert(sizes@.take(i as int) =~= sizes@);
    }
    let mut k: usize = 0;
    while k < m as usize + 1
        invariant
            k <= m + 1,
            res@.len() == k,
            forall|j: int| 0 <= j < k ==> res@[j] == 0,
        decreases m + 1 - k,
    {
        res.push(0);
        k = k + 1;
    }
    let mut i: usize = 0;
    while i < sizes.len()
        invariant
            i <= sizes@.len(),
            m as int == max_size(sizes@),
            res@.len() == m + 1,
            forall|v: int| occurrences(sizes@, v) <= u8::MAX,
            forall|j: int| 0 <= j <= m ==> res@[j] as int == occurrences(sizes@.take(i as int), j),
        decreases sizes@.len() - i,
    {
        let s: usize = sizes[i] as usize;
        proof {
            lemma_sizes_prefix(sizes@, i + 1, s as int);
            assert(sizes@.take(i + 1).drop_last() =~= sizes@.take(i as int));
            assert(s <= max_size(sizes@.take(i + 1)));
        }
        res[s] = res[s] + 1;
        i = i + 1;
    }
    proof {
        assert(sizes@.take(i as int) =~= sizes@);
        assert(res@ =~= sizes_to_counts_spec(sizes@));
    }
    res
}

/// The difference of two counting vectors, entry by entry, the shorter one
/// taken as if it went on with zeros.
pub open spec fn prep_diff_spec(a: Seq<int>, b: Seq<int>) -> Seq<int> {
    Seq::new(
        if a.len() >= b.len() {
            a.len()
        } else {
            b.len()
        },
        |i: int|
            (if i < a.len() {
                a[i]
            } else {
                0
            }) - (if i < b.len() {
                b[i]
            } else {
                0
            }),
    )
}

/// Creates the difference vector of the items `a` and the bins `b`.
pub fn prep_diff(a: &[C], b: &[C]) -> (d: Vec<i32>)
    ensures
        ints(d@) == prep_diff_spec(count_ints(a@), count_ints(b@)),
{
    let n: usize = if a.len() >= b.len() {
        a.len()
    } else {
        b.len()
    };
    let mut d: Vec<i32> = Vec::new();
    let mut i: usize = 0;
    while i < n
        invariant
            i <= n,
            n == prep_diff_spec(count_ints(a@), count_ints(b@)).len(),
            d@.len() == i,
            forall|j: int|
                0 <= j < i ==> d@[j] as int == prep_diff_spec(count_ints(a@), count_ints(b@))[j],
        decreases n - i,
    {
        let x: i32 = if i < a.len() {
            a[i] as i32
        } else {
            0
        };
        let y: i32 = if i < b.len() {
            b[i] as i32
        } else {
            0
        };
        d.push(x - y);
        i = i + 1;
    }
    proof {
        assert(ints(d@) =~= prep_diff_spec(count_ints(a@), count_ints(b@)));
    }
    d
}

/// The weight of a vector whose entries are bounded in magnitude by `m` is
/// at most `m` times the square of a bound on its length.
pub proof fn lemma_weight_of_bounded(d: Seq<int>, m: int, cap: int)
    requires
        d.len() <= cap,
        forall|i: int| 0 <= i < d.len() ==> magnitude(#[trigger] d[i]) <= m,
    ensures
        weight(d) <= d.len() * (cap * m),
    decreases d.len(),
{
    if d.len() > 0 {
        lemma_weight_of_bounded(d.drop_last(), m, cap);
        let n = d.len() as int;
        let v = magnitude(d.last());
        assert(d.last() == d[n - 1]);
        assert((n - 1) * (cap * m) + n * v <= n * (cap * m)) by (nonlinear_arith)
            requires
                0 < n <= cap,
                0 <= v <= m,
        ;
    }
}

/// The net volume of a prefix of a difference vector is the difference of
/// the net volumes of the prefixes of the two vectors.
proof fn lemma_prep_diff_prefix(a: Seq<int>, b: Seq<int>, n: int)
    requires
        0 <= n <= prep_diff_spec(a, b).len(),
    ensures
        volume(prep_diff_spec(a, b).take(n)) == volume(
            a.take(
                if n < a.len() {
                    n
                } else {
                    a.len() as int
                },
            ),
        ) - volume(
            b.take(
                if n < b.len() {
                    n
                } else {
                    b.len() as int
                },
            ),
        ),
    decreases n,
{
    let d = prep_diff_spec(a, b);
    if n > 0 {
        lemma_prep_diff_prefix(a, b, n - 1);
        let k = n - 1;
        assert(d.take(n).drop_last() =~= d.take(k));
        if k < a.len() {
            assert(a.take(n).drop_last() =~= a.take(k));
        }
        if k < b.len() {
            assert(b.take(n).drop_last() =~= b.take(k));
        }
        let x = if k < a.len() {
            a[k]
        } else {
            0
        };
        let y = if k < b.len() {
            b[k]
        } else {
            0
        };
        assert(k * (x - y) == k * x - k * y) by (nonlinear_arith);
    }
}

/// The net volume of a difference vector is the volume of the items less
/// the volume of the bins. For valid counting vectors the difference
/// vector has no entry at size zero and a weight that fits 32 bits.
pub proof fn lemma_prep_diff(a: Seq<u8>, b: Seq<u8>)
    ensures
        volume(prep_diff_spec(count_ints(a), count_ints(b))) == volume(count_ints(a)) - volume(
            count_ints(b),
        ),
        valid_counts(a) && valid_counts(b) ==> {
            let d = prep_diff_spec(count_ints(a), count_ints(b));
            &&& weight(d) <= i32::MAX
            &&& d.len() > 0 ==> d[0] == 0
        },
{
    let x = count_ints(a);
    let y = count_ints(b);
    let d = prep_diff_spec(x, y);
    lemma_prep_diff_prefix(x, y, d.len() as int);
    assert(d.take(d.len() as int) =~= d);
    assert(x.take(x.len() as int) =~= x);
    assert(y.take(y.len() as int) =~= y);
    if valid_counts(a) && valid_counts(b) {
        lemma_weight_of_bounded(d, 255, 254);
        assert(d.len() * (254 * 255) <= i32::MAX) by (nonlinear_arith)
            requires
                d.len() <= 254,
        ;
    }
}

/// A match is forced when the largest item is smaller than the largest bin
/// and no other bin is large enough for it.
pub open spec fn forced_match(d: Seq<int>) -> bool {
    &&& 0 <= highest_pos(d) < highest_neg(d)
    &&& forall|j: int| highest_pos(d) < j < highest_neg(d) ==> d[j] >= 0
}

/// The vector after every forced match has been made, one after the other.
pub open spec fn trimmed(d: Seq<int>) -> Seq<int>
    decreases weight(d),
{
    if forced_match(d) {
        proof {
            lemma_highest_pos_below(d, d.len() as int);
            lemma_highest_neg_below(d, d.len() as int);
            lemma_match_step(d, highest_pos(d), highest_neg(d));
        }
        trimmed(match_step(d, highest_pos(d), highest_neg(d)))
    } else {
        d
    }
}

/// Where a cursor that starts at `ni` stands after every forced match: at
/// the smallest of `ni` and the sizes of the bins that the matches left.
pub open spec fn trimmed_cursor(d: Seq<int>, ni: int) -> int
    decreases weight(d),
{
    if forced_match(d) {
        proof {
            lemma_highest_pos_below(d, d.len() as int);
            lemma_highest_neg_below(d, d.len() as int);
            lemma_match_step(d, highest_pos(d), highest_neg(d));
        }
        let rest = highest_neg(d) - highest_pos(d);
        trimmed_cursor(
            match_step(d, highest_pos(d), highest_neg(d)),
            if rest < ni {
                rest
            } else {
                ni
            },
        )
    } else {
        ni
    }
}

/// A packing is still possible as far as the upper bins tell: no item is
/// left, or the largest item is smaller than the largest bin.
pub open spec fn may_fit(d: Seq<int>) -> bool {
    highest_pos(d) < 0 || highest_pos(d) < highest_neg(d)
}

/// Trimming keeps the length and the net volume, adds no weight, leaves a
/// vector that has no forced match, and does not touch entry zero unless an
/// item of size zero is there.
pub proof fn lemma_trimmed(d: Seq<int>)
    ensures
        trimmed(d).len() == d.len(),
        volume(trimmed(d)) == volume(d),
        0 <= weight(trimmed(d)) <= weight(d),
        !forced_match(trimmed(d)),
        d.len() > 0 && d[0] <= 0 ==> trimmed(d)[0] == d[0],
    decreases weight(d),
{
    lemma_weight_bounds_volume(d);
    if forced_match(d) {
        lemma_highest_pos_below(d, d.len() as int);
        lemma_highest_neg_below(d, d.len() as int);
        lemma_match_step(d, highest_pos(d), highest_neg(d));
        lemma_trimmed(match_step(d, highest_pos(d), highest_neg(d)));
    }
}

/// Trimming is idempotent: trimming a trimmed vector changes nothing, gives
/// the same answer and leaves a cursor where it stands.
pub proof fn lemma_trim_idempotent(d: Seq<int>, ni: int)
    ensures
        trimmed(trimmed(d)) == trimmed(d),
        may_fit(trimmed(trimmed(d))) == may_fit(trimmed(d)),
        trimmed_cursor(trimmed(d), ni) == ni,
{
    lemma_trimmed(d);
}

/// The index of the highest positive entry, if there is one.
pub(crate) fn highest_positive(d: &[i32]) -> (found: Option<usize>)
    ensures
        match found {
            Some(i) => i as int == highest_pos(ints(d@)),
            None => highest_pos(ints(d@)) == -1,
        },
{
    let mut i: usize = d.len();
    while i > 0
        invariant
            i <= d.len(),
            highest_pos(ints(d@)) == highest_pos_below(ints(d@), i as int),
        decreases i,
    {
        i = i - 1;
        if d[i] > 0 {
            return Some(i);
        }
    }
    None
}

/// The index of the highest negative entry, if there is one.
pub(crate) fn highest_negative(d: &[i32]) -> (found: Option<usize>)
    ensures
        match found {
            Some(i) => i as int == highest_neg(ints(d@)),
            None => highest_neg(ints(d@)) == -1,
        },
{
    let mut i: usize = d.len();
    while i > 0
        invariant
            i <= d.len(),
            highest_neg(ints(d@)) == highest_neg_below(ints(d@), i as int),
        decreases i,
    {
        i = i - 1;
        if d[i] < 0 {
            return Some(i);
        }
    }
    None
}

/// Whether an entry with an index from `lo` up to, not including, `hi` is
/// negative.
fn any_negative(d: &[i32], lo: usize, hi: usize) -> (found: bool)
    requires
        lo <= hi <= d@.len(),
    ensures
        found == exists|j: int| lo <= j < hi && d@[j] < 0,
{
    let mut i: usize = lo;
    while i < hi
        invariant
            lo <= i <= hi <= d@.len(),
            forall|j: int| lo <= j < i ==> d@[j] >= 0,
        decreases hi - i,
    {
        if d[i] < 0 {
            return true;
        }
        i = i + 1;
    }
    false
}

/// Makes every forced match among the upper bins of `d` and tells whether
/// a packing may still be possible.
///
/// While the largest item is smaller than the largest bin and fits no
/// other bin, it goes into that bin. The answer is `false` when an item is
/// left that is larger than every bin. The net volume of `d` stays as it
/// was.
pub fn trim_upper_bins(d: &mut [i32]) -> (fits: bool)
    requires
        weight(ints(old(d)@)) <= i32::MAX,
    ensures
        ints(final(d)@) == trimmed(ints(old(d)@)),
        fits == may_fit(trimmed(ints(old(d)@))),
        final(d)@.len() == old(d)@.len(),
        volume(ints(final(d)@)) == volume(ints(old(d)@)),
{
    let mut ni: usize = 0;
    trim_upper_bins_ni(d, &mut ni)
}

/// Does what `trim_upper_bins` does and moves the cursor `ni` down to the
/// smallest bin that a forced match left, if that is below `ni`.
pub fn trim_upper_bins_ni(d: &mut [i32], ni: &mut usize) -> (fits: bool)
    requires
        weight(ints(old(d)@)) <= i32::MAX,
    ensures
        ints(final(d)@) == trimmed(ints(old(d)@)),
        fits == may_fit(trimmed(ints(old(d)@))),
        *final(ni) == trimmed_cursor(ints(old(d)@), *old(ni) as int),
        final(d)@.len() == old(d)@.len(),
        volume(ints(final(d)@)) == volume(ints(old(d)@)),
{
    proof {
        lemma_trimmed(ints(d@));
    }
    if d.len() == 0 {
        proof {
            assert(!forced_match(ints(d@)));
        }
        return true;
    }
    loop
        invariant
            d@.len() == old(d)@.len(),
            weight(ints(d@)) <= i32::MAX,
            trimmed(ints(d@)) == trimmed(ints(old(d)@)),
            volume(trimmed(ints(old(d)@))) == volume(ints(old(d)@)),
            trimmed_cursor(ints(d@), *ni as int) == trimmed_cursor(
                ints(old(d)@),
                *old(ni) as int,
            ),
        decreases weight(ints(d@)),
    {
        let ghost before = ints(d@);
        proof {
            lemma_highest_pos_below(before, before.len() as int);
            lemma_highest_neg_below(before, before.len() as int);
        }
        let hpos = highest_positive(d);
        let hneg = highest_negative(d);
        match (hpos, hneg) {
            (None, _) => {
                return true;
            },
            (Some(_), None) => {
                return false;
            },
            (Some(hp), Some(hn)) => {
                if hp > hn {
                    return false;
                }
                if any_negative(d, hp, hn) {
                    proof {
                        let j = choose|j: int| hp <= j < hn && d@[j] < 0;
                        assert(before[j] < 0);
                    }
                    return true;
                }
                proof {
                    assert forall|j: int| hp < j < hn implies before[j] >= 0 by {
                        assert(d@[j] >= 0);
                    }
                    assert(forced_match(before));
                    lemma_match_step(before, hp as int, hn as int);
                    lemma_weight_bounds_entry(before, hn as int);
                    lemma_weight_bounds_entry(before, hp as int);
                    lemma_weight_bounds_entry(before, hn - hp);
                }
                d[hn] = d[hn] + 1;
                d[hp] = d[hp] - 1;
                d[hn - hp] = d[hn - hp] - 1;
                if hn - hp < *ni {
                    *ni = hn - hp;
                }
                proof {
                    assert(ints(d@) =~= match_step(before, hp as int, hn as int));
                }
            },
        }
    }
}

} // verus!
