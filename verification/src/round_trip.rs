//! The two representations of a multiset hold the same pieces: converting
//! there and back gives the multiset that one started with.
use vstd::prelude::*;
use vstd::seq_lib::to_multiset_build;
use crate::model::valid_counts;
use crate::packing_common::{
    copies, counts_to_sizes_spec, max_size, occurrences, sizes_to_counts_spec,
};

verus! {

/// A sizes vector is in descending order.
pub open spec fn descending(s: Seq<u8>) -> bool {
    forall|i: int, j: int| 0 <= i <= j < s.len() ==> s[i] >= s[j]
}

/// The occurrences in a concatenation are those in its two parts.
pub proof fn lemma_occurrences_concat(a: Seq<u8>, b: Seq<u8>, v: int)
    ensures
        occurrences(a + b, v) == occurrences(a, v) + occurrences(b, v),
    decreases b.len(),
{
    if b.len() == 0 {
        assert(a + b =~= a);
    } else {
        assert((a + b).drop_last() =~= a + b.drop_last());
        lemma_occurrences_concat(a, b.drop_last(), v);
    }
}

/// In `n` copies of a size, that size occurs `n` times and no other size
/// occurs.
pub proof fn lemma_occurrences_copies(size: int, n: nat, v: int)
    requires
        0 <= size <= u8::MAX,
    ensures
        occurrences(copies(size, n), v) == if v == size {
            n
        } else {
            0
        },
    decreases n,
{
    if n > 0 {
        assert(copies(size, n).drop_last() =~= copies(size, (n - 1) as nat));
        lemma_occurrences_copies(size, (n - 1) as nat, v);
    }
}

/// `occurrences` counts as the multiset of the vector does.
pub proof fn lemma_occurrences_is_count(s: Seq<u8>, v: u8)
    ensures
        occurrences(s, v as int) == s.to_multiset().count(v),
    decreases s.len(),
{
    if s.len() == 0 {
        s.to_multiset_ensures();
        assert(s.to_multiset().len() == 0);
        if s.to_multiset().count(v) > 0 {
            assert(s.contains(v));
        }
    } else {
        lemma_occurrences_is_count(s.drop_last(), v);
        to_multiset_build(s.drop_last(), s.last());
        assert(s.drop_last().push(s.last()) =~= s);
    }
}

/// No size of a vector is larger than `max_size`, and a vector that is not
/// empty holds `max_size`.
pub proof fn lemma_max_size(s: Seq<u8>)
    ensures
        -1 <= max_size(s) <= u8::MAX,
        forall|i: int| 0 <= i < s.len() ==> s[i] <= max_size(s),
        s.len() > 0 ==> exists|i: int| 0 <= i < s.len() && s[i] == max_size(s),
        s.len() == 0 <==> max_size(s) == -1,
    decreases s.len(),
{
    if s.len() > 0 {
        let t = s.drop_last();
        lemma_max_size(t);
        assert forall|i: int| 0 <= i < s.len() implies s[i] <= max_size(s) by {
            if i < t.len() {
                assert(s[i] == t[i]);
            }
        }
        if s.last() as int > max_size(t) {
            assert(s[s.len() - 1] == max_size(s));
        } else {
            let i = choose|i: int| 0 <= i < t.len() && t[i] == max_size(t);
            assert(s[i] == max_size(s));
        }
    }
}

/// A size occurs in a vector as often as it stands at some index: not at
/// all when no entry has it, and at least once when some entry has it.
pub proof fn lemma_occurrences_positive(s: Seq<u8>, v: int)
    ensures
        occurrences(s, v) > 0 <==> exists|i: int| 0 <= i < s.len() && s[i] == v,
    decreases s.len(),
{
    if s.len() > 0 {
        let t = s.drop_last();
        lemma_occurrences_positive(t, v);
        if occurrences(s, v) > 0 {
            if s.last() == v {
                assert(s[s.len() - 1] == v);
            } else {
                let i = choose|i: int| 0 <= i < t.len() && t[i] == v;
                assert(s[i] == v);
            }
        }
        if exists|i: int| 0 <= i < s.len() && s[i] == v {
            let i = choose|i: int| 0 <= i < s.len() && s[i] == v;
            if i < t.len() {
                assert(t[i] == v);
            }
        }
    }
}

/// The sizes of a counting vector: every size occurs as often as its count
/// says, every size is below the length of the counting vector, and the
/// sizes stand in descending order.
pub proof fn lemma_counts_to_sizes(c: Seq<u8>)
    requires
        c.len() <= u8::MAX + 1,
    ensures
        forall|v: int|
            #[trigger] occurrences(counts_to_sizes_spec(c), v) == if 0 <= v < c.len() {
                c[v] as int
            } else {
                0
            },
        forall|i: int|
            0 <= i < counts_to_sizes_spec(c).len() ==> #[trigger] counts_to_sizes_spec(c)[i]
                < c.len(),
        descending(counts_to_sizes_spec(c)),
    decreases c.len(),
{
    if c.len() > 0 {
        let top = c.len() - 1;
        let head = copies(top, c.last() as nat);
        let tail = counts_to_sizes_spec(c.drop_last());
        lemma_counts_to_sizes(c.drop_last());
        assert forall|v: int|
            #[trigger] occurrences(counts_to_sizes_spec(c), v) == if 0 <= v < c.len() {
                c[v] as int
            } else {
                0
            } by {
            lemma_occurrences_concat(head, tail, v);
            lemma_occurrences_copies(top, c.last() as nat, v);
            assert(occurrences(tail, v) == if 0 <= v < c.len() - 1 {
                c.drop_last()[v] as int
            } else {
                0
            });
        }
        assert forall|i: int| 0 <= i < counts_to_sizes_spec(c).len() implies #[trigger]
            counts_to_sizes_spec(c)[i] < c.len() by {
            if i >= head.len() {
                assert(counts_to_sizes_spec(c)[i] == tail[i - head.len()]);
            }
        }
        assert forall|i: int, j: int| 0 <= i <= j < counts_to_sizes_spec(c).len() implies
            counts_to_sizes_spec(c)[i] >= counts_to_sizes_spec(c)[j] by {
            if j >= head.len() {
                assert(counts_to_sizes_spec(c)[j] == tail[j - head.len()]);
                if i >= head.len() {
                    assert(counts_to_sizes_spec(c)[i] == tail[i - head.len()]);
                }
            }
        }
    }
}

/// Round trip from sizes: for a sizes vector without a zero, whose
/// counting vector is valid, the sizes of its counting vector are the same
/// multiset in descending order.
pub proof fn lemma_round_trip_sizes(s: Seq<u8>)
    requires
        forall|i: int| 0 <= i < s.len() ==> s[i] != 0,
        forall|v: int| occurrences(s, v) <= u8::MAX,
        max_size(s) < u8::MAX - 1,
    ensures
        valid_counts(sizes_to_counts_spec(s)),
        counts_to_sizes_spec(sizes_to_counts_spec(s)).to_multiset() == s.to_multiset(),
        descending(counts_to_sizes_spec(sizes_to_counts_spec(s))),
{
    let c = sizes_to_counts_spec(s);
    let t = counts_to_sizes_spec(c);
    lemma_max_size(s);
    lemma_occurrences_positive(s, 0);
    lemma_counts_to_sizes(c);
    assert forall|v: u8| t.to_multiset().count(v) == s.to_multiset().count(v) by {
        lemma_occurrences_is_count(t, v);
        lemma_occurrences_is_count(s, v);
        assert(occurrences(t, v as int) == if 0 <= v < c.len() {
            c[v as int] as int
        } else {
            0
        });
        if v >= c.len() {
            lemma_occurrences_positive(s, v as int);
        }
    }
    assert(t.to_multiset() =~= s.to_multiset());
}

/// Round trip from counts: a valid counting vector that does not end in a
/// zero is the counting vector of its sizes.
pub proof fn lemma_round_trip_counts(c: Seq<u8>)
    requires
        valid_counts(c),
        c.len() > 0 ==> c.last() != 0,
    ensures
        sizes_to_counts_spec(counts_to_sizes_spec(c)) == c,
{
    let s = counts_to_sizes_spec(c);
    lemma_counts_to_sizes(c);
    lemma_max_size(s);
    if c.len() > 0 {
        let top = c.len() - 1;
        assert(occurrences(s, top) == c[top] as int);
        lemma_occurrences_positive(s, top);
        assert(s.len() > 0);
        let i = choose|i: int| 0 <= i < s.len() && s[i] == max_size(s);
        assert(counts_to_sizes_spec(c)[i] < c.len());
        assert(max_size(s) == top);
    } else {
        assert(s.len() == 0);
    }
    assert forall|v: int| 0 <= v < c.len() implies sizes_to_counts_spec(s)[v] == c[v] by {
        assert(occurrences(s, v) == c[v] as int);
    }
    assert(sizes_to_counts_spec(s) =~= c);
}

/// The counting vector of a sizes vector does not depend on the order of
/// the sizes: two vectors with the same multiset of sizes have the same
/// counting vector.
pub proof fn lemma_counts_ignore_order(s: Seq<u8>, t: Seq<u8>)
    requires
        s.to_multiset() == t.to_multiset(),
    ensures
        sizes_to_counts_spec(s) == sizes_to_counts_spec(t),
{
    assert forall|v: int| occurrences(s, v) == occurrences(t, v) by {
        if 0 <= v <= u8::MAX {
            lemma_occurrences_is_count(s, v as u8);
            lemma_occurrences_is_count(t, v as u8);
        } else {
            lemma_occurrences_positive(s, v);
            lemma_occurrences_positive(t, v);
        }
    }
    lemma_max_size(s);
    lemma_max_size(t);
    if s.len() > 0 {
        let i = choose|i: int| 0 <= i < s.len() && s[i] == max_size(s);
        lemma_occurrences_positive(s, max_size(s));
        lemma_occurrences_positive(t, max_size(s));
    }
    if t.len() > 0 {
        let i = choose|i: int| 0 <= i < t.len() && t[i] == max_size(t);
        lemma_occurrences_positive(t, max_size(t));
        lemma_occurrences_positive(s, max_size(t));
    }
    assert(max_size(s) == max_size(t));
    assert(sizes_to_counts_spec(s) =~= sizes_to_counts_spec(t));
}

} // verus!
