//! A stored collection of multisets and the quantified questions that can
//! be asked of it.
//!
//! Every question compares each stored multiset with a given one, in one
//! of two directions and with one of the decision procedures, and reports
//! whether any, whether all, or how many of the comparisons hold. A
//! question may be evaluated on several threads; the answer is the same.
use vstd::prelude::*;
use vstd::slice::slice_to_vec;
use rayon::iter::IntoParallelRefIterator;
use rayon::iter::ParallelIterator;
use crate::C;
use crate::CVec;
use crate::feasibility::{fits_into, lemma_bestfit_sound, lemma_branching_sound};
use crate::model::valid_counts;
use crate::packing_bestfit::{fits_bestfit, fits_into_bestfit};
use crate::packing_branching::{fits_branching, fits_into_branching};
use crate::packing_common::{
    counts_to_sizes, counts_to_sizes_spec, max_size, occurrences, sizes_to_counts,
    sizes_to_counts_spec,
};
use crate::round_trip::{lemma_max_size, lemma_occurrences_positive};

verus! {

/// Which of the two multisets of a comparison are the items.
#[derive(Clone, Copy, Debug)]
pub enum Direction {
    /// The stored multiset is packed into the given one.
    StoredIntoGiven,
    /// The given multiset is packed into the stored one.
    GivenIntoStored,
}

/// The decision procedure of a comparison.
#[derive(Clone, Copy, Debug)]
pub enum Algorithm {
    /// Best-fit, with or without trimming the upper bins first.
    BestFit { trim_upper: bool },
    /// The branching search with the given budget; a budget of zero or one
    /// is best-fit with trimming.
    Branching { budget: usize },
}

/// A comparison of a stored multiset with a given one.
#[derive(Clone, Copy, Debug)]
pub struct FitRule {
    pub direction: Direction,
    pub algorithm: Algorithm,
}

impl Algorithm {
    /// The answer of the procedure for the items `items` and the bins
    /// `bins`.
    pub open spec fn fits_spec(self, items: Seq<u8>, bins: Seq<u8>) -> bool {
        match self {
            Algorithm::BestFit { trim_upper } => fits_bestfit(items, bins, trim_upper),
            Algorithm::Branching { budget } => fits_branching(items, bins, budget as int),
        }
    }

    /// Runs the procedure for the items `items` and the bins `bins`.
    pub fn fits(&self, items: &[C], bins: &[C]) -> (fits: bool)
        requires
            valid_counts(items@),
            valid_counts(bins@),
        ensures
            fits == self.fits_spec(items@, bins@),
            fits ==> fits_into(items@, bins@),
    {
        match self {
            Algorithm::BestFit { trim_upper } => fits_into_bestfit(items, bins, *trim_upper),
            Algorithm::Branching { budget } => fits_into_branching(items, bins, *budget),
        }
    }
}

impl FitRule {
    /// The stored multiset goes into the given one, by the branching
    /// search.
    pub open spec fn stored_into_given(budget: usize) -> FitRule {
        FitRule {
            direction: Direction::StoredIntoGiven,
            algorithm: Algorithm::Branching { budget },
        }
    }

    /// The given multiset goes into the stored one, by the branching
    /// search.
    pub open spec fn given_into_stored(budget: usize) -> FitRule {
        FitRule {
            direction: Direction::GivenIntoStored,
            algorithm: Algorithm::Branching { budget },
        }
    }

    /// The stored multiset goes into the given one, by best-fit.
    pub open spec fn bestfit_stored_into_given(trim_upper: bool) -> FitRule {
        FitRule {
            direction: Direction::StoredIntoGiven,
            algorithm: Algorithm::BestFit { trim_upper },
        }
    }

    /// Whether the comparison holds of a stored and a given multiset.
    pub open spec fn holds_spec(self, stored: Seq<u8>, given: Seq<u8>) -> bool {
        match self.direction {
            Direction::StoredIntoGiven => self.algorithm.fits_spec(stored, given),
            Direction::GivenIntoStored => self.algorithm.fits_spec(given, stored),
        }
    }

    /// What the comparison is after: the items fit into the bins.
    pub open spec fn packable_spec(self, stored: Seq<u8>, given: Seq<u8>) -> bool {
        match self.direction {
            Direction::StoredIntoGiven => fits_into(stored, given),
            Direction::GivenIntoStored => fits_into(given, stored),
        }
    }

    /// A comparison that holds is never wrong: the items fit into the
    /// bins.
    pub proof fn lemma_holds_is_sound(self, stored: Seq<u8>, given: Seq<u8>)
        requires
            valid_counts(stored),
            valid_counts(given),
            self.holds_spec(stored, given),
        ensures
            self.packable_spec(stored, given),
    {
        let (items, bins) = match self.direction {
            Direction::StoredIntoGiven => (stored, given),
            Direction::GivenIntoStored => (given, stored),
        };
        match self.algorithm {
            Algorithm::BestFit { trim_upper } => lemma_bestfit_sound(items, bins, trim_upper),
            Algorithm::Branching { budget } => lemma_branching_sound(items, bins, budget as int),
        }
    }

    /// Decides the comparison of a stored and a given multiset.
    pub fn holds(&self, stored: &[C], given: &[C]) -> (holds: bool)
        requires
            valid_counts(stored@),
            valid_counts(given@),
        ensures
            holds == self.holds_spec(stored@, given@),
            holds ==> self.packable_spec(stored@, given@),
    {
        match self.direction {
            Direction::StoredIntoGiven => self.algorithm.fits(stored, given),
            Direction::GivenIntoStored => self.algorithm.fits(given, stored),
        }
    }
}

/// Whether the comparison holds of some stored multiset.
pub open spec fn any_holds(stored: Seq<Seq<u8>>, given: Seq<u8>, rule: FitRule) -> bool {
    exists|i: int| 0 <= i < stored.len() && rule.holds_spec(#[trigger] stored[i], given)
}

/// Whether the comparison holds of every stored multiset.
pub open spec fn all_hold(stored: Seq<Seq<u8>>, given: Seq<u8>, rule: FitRule) -> bool {
    forall|i: int| 0 <= i < stored.len() ==> rule.holds_spec(#[trigger] stored[i], given)
}

/// Whether the items fit into the bins for some stored multiset.
pub open spec fn any_packable(stored: Seq<Seq<u8>>, given: Seq<u8>, rule: FitRule) -> bool {
    exists|i: int| 0 <= i < stored.len() && rule.packable_spec(#[trigger] stored[i], given)
}

/// Whether the items fit into the bins for every stored multiset.
pub open spec fn all_packable(stored: Seq<Seq<u8>>, given: Seq<u8>, rule: FitRule) -> bool {
    forall|i: int| 0 <= i < stored.len() ==> rule.packable_spec(#[trigger] stored[i], given)
}

/// For how many stored multisets the items fit into the bins.
pub open spec fn count_packable(stored: Seq<Seq<u8>>, given: Seq<u8>, rule: FitRule) -> nat
    decreases stored.len(),
{
    if stored.len() == 0 {
        0
    } else {
        count_packable(stored.drop_last(), given, rule) + if rule.packable_spec(
            stored.last(),
            given,
        ) {
            1nat
        } else {
            0nat
        }
    }
}

/// Of how many stored multisets the comparison holds.
pub open spec fn count_holding(stored: Seq<Seq<u8>>, given: Seq<u8>, rule: FitRule) -> nat
    decreases stored.len(),
{
    if stored.len() == 0 {
        0
    } else {
        count_holding(stored.drop_last(), given, rule) + if rule.holds_spec(stored.last(), given) {
            1nat
        } else {
            0nat
        }
    }
}

/// The multisets that a vector of counting vectors holds.
pub open spec fn contents(sets: Seq<CVec>) -> Seq<Seq<u8>> {
    Seq::new(sets.len(), |i: int| sets[i]@)
}

/// The multisets that are given by their counts, if any.
pub open spec fn from_counts(all_counts: Option<Vec<CVec>>) -> Seq<Seq<u8>> {
    match all_counts {
        Some(cs) => contents(cs@),
        None => Seq::empty(),
    }
}

/// The multisets that are given by their sizes, if any.
pub open spec fn from_sizes(all_sizes: Option<Vec<CVec>>) -> Seq<Seq<u8>> {
    match all_sizes {
        Some(ss) => Seq::new(ss@.len(), |i: int| sizes_to_counts_spec(ss@[i]@)),
        None => Seq::empty(),
    }
}

/// The count is at most the number of stored multisets.
pub proof fn lemma_count_holding_bound(stored: Seq<Seq<u8>>, given: Seq<u8>, rule: FitRule)
    ensures
        count_holding(stored, given, rule) <= stored.len(),
    decreases stored.len(),
{
    if stored.len() > 0 {
        lemma_count_holding_bound(stored.drop_last(), given, rule);
    }
}

/// The three quantifiers agree: the count is zero exactly when the
/// comparison holds of no stored multiset, and it is the number of stored
/// multisets exactly when the comparison holds of all of them.
pub proof fn lemma_quantifiers_agree(stored: Seq<Seq<u8>>, given: Seq<u8>, rule: FitRule)
    ensures
        count_holding(stored, given, rule) == 0 <==> !any_holds(stored, given, rule),
        count_holding(stored, given, rule) == stored.len() <==> all_hold(stored, given, rule),
    decreases stored.len(),
{
    if stored.len() > 0 {
        let rest = stored.drop_last();
        lemma_quantifiers_agree(rest, given, rule);
        lemma_count_holding_bound(rest, given, rule);
        if any_holds(rest, given, rule) {
            let i = choose|i: int|
                0 <= i < rest.len() && rule.holds_spec(#[trigger] rest[i], given);
            assert(rule.holds_spec(stored[i], given));
        }
        if any_holds(stored, given, rule) && !rule.holds_spec(stored.last(), given) {
            let i = choose|i: int|
                0 <= i < stored.len() && rule.holds_spec(#[trigger] stored[i], given);
            assert(rule.holds_spec(rest[i], given));
        }
        if rule.holds_spec(stored.last(), given) {
            assert(rule.holds_spec(stored[stored.len() - 1], given));
        }
        if all_hold(stored, given, rule) {
            assert forall|i: int| 0 <= i < rest.len() implies rule.holds_spec(
                #[trigger] rest[i],
                given,
            ) by {
                assert(rule.holds_spec(stored[i], given));
            }
            assert(rule.holds_spec(stored[stored.len() - 1], given));
        }
        if all_hold(rest, given, rule) && rule.holds_spec(stored.last(), given) {
            assert forall|i: int| 0 <= i < stored.len() implies rule.holds_spec(
                #[trigger] stored[i],
                given,
            ) by {
                if i < rest.len() {
                    assert(rule.holds_spec(rest[i], given));
                }
            }
        }
        if !all_hold(rest, given, rule) {
            let i = choose|i: int|
                0 <= i < rest.len() && !rule.holds_spec(#[trigger] rest[i], given);
            assert(!rule.holds_spec(stored[i], given));
        }
    }
}

/// The count never tells too much: the items fit for at least as many
/// stored multisets as the comparison holds of.
pub proof fn lemma_count_is_sound(stored: Seq<Seq<u8>>, given: Seq<u8>, rule: FitRule)
    requires
        valid_counts(given),
        forall|i: int| 0 <= i < stored.len() ==> valid_counts(#[trigger] stored[i]),
    ensures
        count_holding(stored, given, rule) <= count_packable(stored, given, rule),
    decreases stored.len(),
{
    if stored.len() > 0 {
        let rest = stored.drop_last();
        assert forall|i: int| 0 <= i < rest.len() implies valid_counts(#[trigger] rest[i]) by {
            assert(rest[i] == stored[i]);
        }
        lemma_count_is_sound(rest, given, rule);
        assert(stored.last() == stored[stored.len() - 1]);
        if rule.holds_spec(stored.last(), given) {
            rule.lemma_holds_is_sound(stored.last(), given);
        }
    }
}

/// The answers `true` of the quantifiers are never wrong: where the
/// comparison holds of some or of every stored multiset, the items fit
/// into the bins for some or for every stored multiset.
pub proof fn lemma_quantifiers_are_sound(stored: Seq<Seq<u8>>, given: Seq<u8>, rule: FitRule)
    requires
        valid_counts(given),
        forall|i: int| 0 <= i < stored.len() ==> valid_counts(#[trigger] stored[i]),
    ensures
        any_holds(stored, given, rule) ==> any_packable(stored, given, rule),
        all_hold(stored, given, rule) ==> all_packable(stored, given, rule),
{
    if any_holds(stored, given, rule) {
        let i = choose|i: int|
            0 <= i < stored.len() && rule.holds_spec(#[trigger] stored[i], given);
        rule.lemma_holds_is_sound(stored[i], given);
    }
    if all_hold(stored, given, rule) {
        assert forall|i: int| 0 <= i < stored.len() implies rule.packable_spec(
            #[trigger] stored[i],
            given,
        ) by {
            rule.lemma_holds_is_sound(stored[i], given);
        }
    }
}

/// Evaluates `any_holds` on several threads.
///
/// Calls `ParallelIterator::any` of rayon on the stored vectors with
/// `FitRule::holds` as the predicate. Rayon answers `true` exactly when
/// the predicate holds of some element.
#[verifier::external_body]
fn par_any(sets: &Vec<CVec>, given: &[C], rule: FitRule) -> (found: bool)
    requires
        valid_counts(given@),
        forall|i: int| 0 <= i < sets@.len() ==> valid_counts(#[trigger] sets@[i]@),
    ensures
        found == any_holds(contents(sets@), given@, rule),
{
    sets.par_iter().any(|sc| rule.holds(sc, given))
}

/// Evaluates `all_hold` on several threads.
///
/// Calls `ParallelIterator::all` of rayon on the stored vectors with
/// `FitRule::holds` as the predicate. Rayon answers `true` exactly when
/// the predicate holds of every element.
#[verifier::external_body]
fn par_all(sets: &Vec<CVec>, given: &[C], rule: FitRule) -> (every: bool)
    requires
        valid_counts(given@),
        forall|i: int| 0 <= i < sets@.len() ==> valid_counts(#[trigger] sets@[i]@),
    ensures
        every == all_hold(contents(sets@), given@, rule),
{
    sets.par_iter().all(|sc| rule.holds(sc, given))
}

/// Evaluates `count_holding` on several threads.
///
/// Calls `ParallelIterator::filter` of rayon on the stored vectors with
/// `FitRule::holds` as the predicate and `ParallelIterator::count` on what
/// it keeps: the number of elements of which the predicate holds.
#[verifier::external_body]
fn par_count(sets: &Vec<CVec>, given: &[C], rule: FitRule) -> (count: usize)
    requires
        valid_counts(given@),
        forall|i: int| 0 <= i < sets@.len() ==> valid_counts(#[trigger] sets@[i]@),
    ensures
        count == count_holding(contents(sets@), given@, rule),
{
    sets.par_iter().filter(|sc| rule.holds(sc, given)).count()
}

/// The number of elements that a vector has room for.
///
/// Calls `Vec::capacity` of std. The capacity depends on the allocator; std
/// keeps it at or above the length of the vector.
#[verifier::external_body]
fn capacity_of<T>(v: &Vec<T>) -> (capacity: usize)
    ensures
        capacity >= v@.len(),
{
    v.capacity()
}

/// The sum of a sequence of capacities.
pub open spec fn sum_of(caps: Seq<usize>) -> int
    decreases caps.len(),
{
    if caps.len() == 0 {
        0
    } else {
        sum_of(caps.drop_last()) + caps.last()
    }
}

/// The memory that a collection takes: one vector header for the
/// collection, one for each vector that it has room for, and the size of an
/// element for each count that the stored vectors have room for. The
/// estimate is capped at the largest `usize`.
pub open spec fn estimate_spec(header: usize, element: usize, outer: usize, inner: Seq<usize>)
    -> int {
    let exact = header + outer * header + sum_of(inner) * element;
    if exact > usize::MAX {
        usize::MAX as int
    } else {
        exact
    }
}

/// Estimates the memory of a collection from the size of a vector header,
/// the size of an element, the capacity of the collection and the
/// capacities of the stored vectors.
pub fn memory_estimate(header: usize, element: usize, outer: usize, inner: &[usize]) -> (bytes:
    usize)
    ensures
        bytes == estimate_spec(header, element, outer, inner@),
{
    let headers: usize = match outer.checked_mul(header) {
        Some(h) => h,
        None => usize::MAX,
    };
    let mut bytes: usize = header.saturating_add(headers);
    let ghost fixed: int = header + outer * header;
    let mut i: usize = 0;
    proof {
        assert(0 <= outer * header) by (nonlinear_arith)
            requires
                outer >= 0,
                header >= 0,
        ;
        assert(sum_of(inner@.take(0)) * element == 0) by (nonlinear_arith)
            requires
                sum_of(inner@.take(0)) == 0,
        ;
    }
    while i < inner.len()
        invariant
            i <= inner@.len(),
            fixed == header + outer * header,
            0 <= sum_of(inner@.take(i as int)),
            bytes == if fixed + sum_of(inner@.take(i as int)) * element > usize::MAX {
                usize::MAX as int
            } else {
                fixed + sum_of(inner@.take(i as int)) * element
            },
        decreases inner@.len() - i,
    {
        let room: usize = match inner[i].checked_mul(element) {
            Some(r) => r,
            None => usize::MAX,
        };
        proof {
            let before = sum_of(inner@.take(i as int));
            assert(inner@.take(i + 1).drop_last() =~= inner@.take(i as int));
            assert(sum_of(inner@.take(i + 1)) == before + inner@[i as int]);
            assert((before + inner@[i as int]) * element == before * element + inner@[i as int]
                * element) by (nonlinear_arith);
            assert(0 <= before * element && 0 <= inner@[i as int] * element) by (nonlinear_arith)
                requires
                    0 <= before,
                    0 <= inner@[i as int],
                    0 <= element,
            ;
        }
        bytes = bytes.saturating_add(room);
        i = i + 1;
    }
    proof {
        assert(inner@.take(i as int) =~= inner@);
    }
    bytes
}

/// Whether `outer` and `inner` can be the capacities of a collection and of
/// its stored vectors: none is below the length that it stands for.
pub open spec fn capacities_cover(stored: Seq<Seq<u8>>, outer: usize, inner: Seq<usize>) -> bool {
    &&& outer >= stored.len()
    &&& inner.len() == stored.len()
    &&& forall|i: int| 0 <= i < stored.len() ==> inner[i] >= stored[i].len()
}

/// The error of an access past the end of the collection.
#[derive(Clone, Copy, Debug, PartialEq, Eq)]
pub struct OutOfBounds {
    /// The position that was asked for.
    pub index: usize,
    /// The number of stored multisets.
    pub len: usize,
}

impl OutOfBounds {
    /// The text of the error.
    pub fn message(&self) -> (text: &'static str)
        ensures
            text@ == "Out of bounds"@,
    {
        "Out of bounds"
    }
}

/// An ordered collection of multisets, each stored as a counting vector:
/// the number of items of size `size` is the entry at index `size`.
#[derive(Debug, Clone)]
pub struct ItemSets(Vec<CVec>);

impl View for ItemSets {
    type V = Seq<Seq<u8>>;

    /// The stored multisets in the order in which they were pushed.
    closed spec fn view(&self) -> Seq<Seq<u8>> {
        contents(self.0@)
    }
}

impl Default for ItemSets {
    /// The empty collection.
    fn default() -> (sets: ItemSets)
        ensures
            sets@ == Seq::<Seq<u8>>::empty(),
            sets.wf(),
    {
        let sets = ItemSets(Vec::new());
        proof {
            assert(sets@ =~= Seq::<Seq<u8>>::empty());
        }
        sets
    }
}

impl ItemSets {
    /// Every stored vector is a valid counting vector.
    pub open spec fn wf(&self) -> bool {
        forall|i: int| 0 <= i < self@.len() ==> valid_counts(#[trigger] self@[i])
    }

    /// Creates a collection that holds the multisets given by counts,
    /// followed by those given by sizes.
    pub fn new(all_counts: Option<Vec<CVec>>, all_sizes: Option<Vec<CVec>>) -> (sets: ItemSets)
        requires
            all_counts matches Some(cs) ==> forall|i: int|
                0 <= i < cs@.len() ==> valid_counts(#[trigger] cs@[i]@),
            all_sizes matches Some(ss) ==> forall|i: int|
                0 <= i < ss@.len() ==> valid_sizes(#[trigger] ss@[i]@),
        ensures
            sets.wf(),
            sets@ == from_counts(all_counts) + from_sizes(all_sizes),
    {
        let mut s = ItemSets(Vec::new());
        let ghost from_counts = from_counts(all_counts);
        if let Some(cs) = all_counts {
            let mut i: usize = 0;
            while i < cs.len()
                invariant
                    i <= cs@.len(),
                    s.wf(),
                    s@ == contents(cs@).take(i as int),
                    forall|k: int| 0 <= k < cs@.len() ==> valid_counts(#[trigger] cs@[k]@),
                decreases cs@.len() - i,
            {
                s.push_counts(slice_to_vec(cs[i].as_slice()));
                i = i + 1;
                proof {
                    assert(s@ =~= contents(cs@).take(i as int));
                }
            }
            proof {
                assert(s@ =~= from_counts);
            }
        } else {
            proof {
                assert(s@ =~= from_counts);
            }
        }
        if let Some(ss) = all_sizes {
            let ghost from_sizes = from_sizes(Some(ss));
            let mut i: usize = 0;
            while i < ss.len()
                invariant
                    i <= ss@.len(),
                    s.wf(),
                    from_sizes == Seq::new(ss@.len(), |i: int| sizes_to_counts_spec(ss@[i]@)),
                    s@ == from_counts + from_sizes.take(i as int),
                    forall|k: int| 0 <= k < ss@.len() ==> valid_sizes(#[trigger] ss@[k]@),
                decreases ss@.len() - i,
            {
                s.push_sizes(ss[i].as_slice());
                i = i + 1;
                proof {
                    assert(s@ =~= from_counts + from_sizes.take(i as int));
                }
            }
            proof {
                assert(s@ =~= from_counts + from_sizes);
            }
        } else {
            proof {
                assert(s@ =~= from_counts + Seq::<Seq<u8>>::empty());
            }
        }
        s
    }

    /// Converts a counting vector into the list of its sizes.
    pub fn c2s(counts: &[C]) -> (sizes: Vec<C>)
        requires
            valid_counts(counts@),
        ensures
            sizes@ == counts_to_sizes_spec(counts@),
    {
        counts_to_sizes(counts)
    }

    /// Converts a list of sizes into a counting vector.
    pub fn s2c(sizes: &[C]) -> (counts: Vec<C>)
        requires
            forall|v: int| occurrences(sizes@, v) <= u8::MAX,
        ensures
            counts@ == sizes_to_counts_spec(sizes@),
    {
        sizes_to_counts(sizes)
    }

    /// Appends the multiset given by its counts.
    pub fn push_counts(&mut self, counts: Vec<C>)
        requires
            old(self).wf(),
            valid_counts(counts@),
        ensures
            final(self).wf(),
            final(self)@ == old(self)@.push(counts@),
    {
        self.0.push(counts);
        proof {
            assert(self@ =~= old(self)@.push(counts@));
        }
    }

    /// Appends the multiset given by the sizes of its items.
    pub fn push_sizes(&mut self, sizes: &[C])
        requires
            old(self).wf(),
            valid_sizes(sizes@),
        ensures
            final(self).wf(),
            final(self)@ == old(self)@.push(sizes_to_counts_spec(sizes@)),
    {
        proof {
            lemma_valid_sizes(sizes@);
        }
        let cs = sizes_to_counts(sizes);
        self.0.push(cs);
        proof {
            assert(self@ =~= old(self)@.push(sizes_to_counts_spec(sizes@)));
        }
    }

    /// The counting vectors of all stored multisets.
    pub fn all_counts(&self) -> (all: Vec<Vec<C>>)
        ensures
            contents(all@) == self@,
    {
        let mut all: Vec<Vec<C>> = Vec::new();
        let mut i: usize = 0;
        while i < self.0.len()
            invariant
                i <= self.0@.len(),
                all@.len() == i,
                forall|k: int| 0 <= k < i ==> all@[k]@ == self.0@[k]@,
            decreases self.0@.len() - i,
        {
            all.push(slice_to_vec(self.0[i].as_slice()));
            i = i + 1;
        }
        proof {
            assert(contents(all@) =~= self@);
        }
        all
    }

    /// The sizes of all stored multisets, each list in descending order.
    pub fn all_sizes(&self) -> (all: Vec<Vec<C>>)
        requires
            self.wf(),
        ensures
            contents(all@) == Seq::new(self@.len(), |i: int| counts_to_sizes_spec(self@[i])),
    {
        let mut all: Vec<Vec<C>> = Vec::new();
        let mut i: usize = 0;
        while i < self.0.len()
            invariant
                i <= self.0@.len(),
                self.wf(),
                all@.len() == i,
                forall|k: int| 0 <= k < i ==> all@[k]@ == counts_to_sizes_spec(self.0@[k]@),
            decreases self.0@.len() - i,
        {
            proof {
                assert(valid_counts(self@[i as int]));
            }
            all.push(counts_to_sizes(self.0[i].as_slice()));
            i = i + 1;
        }
        proof {
            assert(contents(all@) =~= Seq::new(
                self@.len(),
                |i: int| counts_to_sizes_spec(self@[i]),
            ));
        }
        all
    }

    /// The number of stored multisets.
    pub fn __len__(&self) -> (len: usize)
        ensures
            len == self@.len(),
    {
        self.0.len()
    }

    /// The counting vector of the multiset at position `idx`, or the error
    /// when the collection is not that long.
    pub fn __getitem__(&self, idx: usize) -> (item: Result<Vec<C>, OutOfBounds>)
        ensures
            idx < self@.len() ==> (item matches Ok(v) && v@ == self@[idx as int]),
            idx >= self@.len() ==> item == Err::<Vec<C>, OutOfBounds>(
                OutOfBounds { index: idx, len: self@.len() as usize },
            ),
    {
        if idx < self.0.len() {
            Ok(slice_to_vec(self.0[idx].as_slice()))
        } else {
            Err(OutOfBounds { index: idx, len: self.0.len() })
        }
    }

    /// An estimate of the memory that the collection takes, room that is
    /// not in use included and padding left out: `estimate_spec` of the
    /// capacities that the allocator gave.
    pub fn memory_used(&self) -> (bytes: usize)
        ensures
            exists|outer: usize, inner: Seq<usize>| #[trigger]
                capacities_cover(self@, outer, inner) && bytes == estimate_spec(
                    vstd::layout::size_of_as_usize::<Vec<C>>(),
                    vstd::layout::size_of_as_usize::<C>(),
                    outer,
                    inner,
                ),
    {
        let vs: usize = core::mem::size_of::<Vec<C>>();
        let unit: usize = core::mem::size_of::<C>();
        let outer: usize = capacity_of(&self.0);
        let mut inner: Vec<usize> = Vec::new();
        let mut i: usize = 0;
        while i < self.0.len()
            invariant
                i <= self.0@.len(),
                inner@.len() == i,
                forall|k: int| 0 <= k < i ==> inner@[k] >= self.0@[k]@.len(),
            decreases self.0@.len() - i,
        {
            inner.push(capacity_of(&self.0[i]));
            i = i + 1;
        }
        let bytes = memory_estimate(vs, unit, outer, inner.as_slice());
        proof {
            assert(capacities_cover(self@, outer, inner@));
        }
        bytes
    }

    /// Checks whether any of the stored multisets fits into the given one.
    ///
    /// `par` asks for evaluation on several threads. A `branching` of zero
    /// means best-fit; a higher value allows that many alternatives in the
    /// search before best-fit takes over.
    pub fn any_fit_into_given(&self, counts: &[C], par: bool, branching: usize) -> (found: bool)
        requires
            self.wf(),
            valid_counts(counts@),
        ensures
            found == any_holds(self@, counts@, FitRule::stored_into_given(branching)),
            found ==> any_packable(self@, counts@, FitRule::stored_into_given(branching)),
    {
        self.any_f_helper(
            counts,
            par,
            FitRule {
                direction: Direction::StoredIntoGiven,
                algorithm: Algorithm::Branching { budget: branching },
            },
        )
    }

    /// Checks whether the given multiset fits into any of the stored ones.
    pub fn given_fits_into_any(&self, counts: &[C], par: bool, branching: usize) -> (found: bool)
        requires
            self.wf(),
            valid_counts(counts@),
        ensures
            found == any_holds(self@, counts@, FitRule::given_into_stored(branching)),
            found ==> any_packable(self@, counts@, FitRule::given_into_stored(branching)),
    {
        self.any_f_helper(
            counts,
            par,
            FitRule {
                direction: Direction::GivenIntoStored,
                algorithm: Algorithm::Branching { budget: branching },
            },
        )
    }

    /// Checks whether all of the stored multisets fit into the given one.
    pub fn all_fit_into_given(&self, counts: &[C], par: bool, branching: usize) -> (every: bool)
        requires
            self.wf(),
            valid_counts(counts@),
        ensures
            every == all_hold(self@, counts@, FitRule::stored_into_given(branching)),
            every ==> all_packable(self@, counts@, FitRule::stored_into_given(branching)),
    {
        self.all_f_helper(
            counts,
            par,
            FitRule {
                direction: Direction::StoredIntoGiven,
                algorithm: Algorithm::Branching { budget: branching },
            },
        )
    }

    /// Checks whether the given multiset fits into all of the stored ones.
    pub fn given_fits_into_all(&self, counts: &[C], par: bool, branching: usize) -> (every: bool)
        requires
            self.wf(),
            valid_counts(counts@),
        ensures
            every == all_hold(self@, counts@, FitRule::given_into_stored(branching)),
            every ==> all_packable(self@, counts@, FitRule::given_into_stored(branching)),
    {
        self.all_f_helper(
            counts,
            par,
            FitRule {
                direction: Direction::GivenIntoStored,
                algorithm: Algorithm::Branching { budget: branching },
            },
        )
    }

    /// Counts how many of the stored multisets fit into the given one.
    pub fn how_many_fit_into_given(&self, counts: &[C], par: bool, branching: usize) -> (count:
        usize)
        requires
            self.wf(),
            valid_counts(counts@),
        ensures
            count == count_holding(self@, counts@, FitRule::stored_into_given(branching)),
            count <= count_packable(self@, counts@, FitRule::stored_into_given(branching)),
    {
        self.count_f_helper(
            counts,
            par,
            FitRule {
                direction: Direction::StoredIntoGiven,
                algorithm: Algorithm::Branching { budget: branching },
            },
        )
    }

    /// Counts into how many of the stored multisets the given one fits.
    pub fn given_fits_into_how_many(&self, counts: &[C], par: bool, branching: usize) -> (count:
        usize)
        requires
            self.wf(),
            valid_counts(counts@),
        ensures
            count == count_holding(self@, counts@, FitRule::given_into_stored(branching)),
            count <= count_packable(self@, counts@, FitRule::given_into_stored(branching)),
    {
        self.count_f_helper(
            counts,
            par,
            FitRule {
                direction: Direction::GivenIntoStored,
                algorithm: Algorithm::Branching { budget: branching },
            },
        )
    }

    /// Checks by plain best-fit whether any of the stored multisets fits
    /// into the given one. With `trim_upper` the forced matches of the
    /// largest items are made first.
    pub fn bestfit_any_fit_into_given(&self, counts: &[C], par: bool, trim_upper: bool) -> (found:
        bool)
        requires
            self.wf(),
            valid_counts(counts@),
        ensures
            found == any_holds(self@, counts@, FitRule::bestfit_stored_into_given(trim_upper)),
            found ==> any_packable(self@, counts@, FitRule::bestfit_stored_into_given(trim_upper)),
    {
        self.any_f_helper(
            counts,
            par,
            FitRule {
                direction: Direction::StoredIntoGiven,
                algorithm: Algorithm::BestFit { trim_upper },
            },
        )
    }

    /// The number of stored multisets of which the rule holds.
    fn count_f_helper(&self, gc: &[C], par: bool, rule: FitRule) -> (count: usize)
        requires
            self.wf(),
            valid_counts(gc@),
        ensures
            count == count_holding(self@, gc@, rule),
            count <= count_packable(self@, gc@, rule),
    {
        proof {
            lemma_count_is_sound(self@, gc@, rule);
            assert forall|i: int| 0 <= i < self.0@.len() implies valid_counts(
                #[trigger] self.0@[i]@,
            ) by {
                assert(valid_counts(self@[i]));
            }
        }
        if par {
            par_count(&self.0, gc, rule)
        } else {
            let mut count: usize = 0;
            let mut i: usize = 0;
            while i < self.0.len()
                invariant
                    i <= self.0@.len(),
                    self.wf(),
                    valid_counts(gc@),
                    count == count_holding(self@.take(i as int), gc@, rule),
                    count <= i,
                decreases self.0@.len() - i,
            {
                proof {
                    assert(valid_counts(self@[i as int]));
                    assert(self@.take(i + 1).drop_last() =~= self@.take(i as int));
                }
                if rule.holds(self.0[i].as_slice(), gc) {
                    count = count + 1;
                }
                i = i + 1;
            }
            proof {
                assert(self@.take(i as int) =~= self@);
            }
            count
        }
    }

    /// Whether the rule holds of some stored multiset.
    fn any_f_helper(&self, gc: &[C], par: bool, rule: FitRule) -> (found: bool)
        requires
            self.wf(),
            valid_counts(gc@),
        ensures
            found == any_holds(self@, gc@, rule),
            found ==> any_packable(self@, gc@, rule),
    {
        proof {
            lemma_quantifiers_are_sound(self@, gc@, rule);
            assert forall|i: int| 0 <= i < self.0@.len() implies valid_counts(
                #[trigger] self.0@[i]@,
            ) by {
                assert(valid_counts(self@[i]));
            }
        }
        if par {
            par_any(&self.0, gc, rule)
        } else {
            let mut i: usize = 0;
            while i < self.0.len()
                invariant
                    i <= self.0@.len(),
                    self.wf(),
                    valid_counts(gc@),
                    forall|k: int| 0 <= k < i ==> !rule.holds_spec(#[trigger] self@[k], gc@),
                decreases self.0@.len() - i,
            {
                proof {
                    assert(valid_counts(self@[i as int]));
                }
                if rule.holds(self.0[i].as_slice(), gc) {
                    proof {
                        assert(rule.holds_spec(self@[i as int], gc@));
                    }
                    return true;
                }
                i = i + 1;
            }
            false
        }
    }

    /// Whether the rule holds of every stored multiset.
    fn all_f_helper(&self, gc: &[C], par: bool, rule: FitRule) -> (every: bool)
        requires
            self.wf(),
            valid_counts(gc@),
        ensures
            every == all_hold(self@, gc@, rule),
            every ==> all_packable(self@, gc@, rule),
    {
        proof {
            lemma_quantifiers_are_sound(self@, gc@, rule);
            assert forall|i: int| 0 <= i < self.0@.len() implies valid_counts(
                #[trigger] self.0@[i]@,
            ) by {
                assert(valid_counts(self@[i]));
            }
        }
        if par {
            par_all(&self.0, gc, rule)
        } else {
            let mut i: usize = 0;
            while i < self.0.len()
                invariant
                    i <= self.0@.len(),
                    self.wf(),
                    valid_counts(gc@),
                    forall|k: int| 0 <= k < i ==> rule.holds_spec(#[trigger] self@[k], gc@),
                decreases self.0@.len() - i,
            {
                proof {
                    assert(valid_counts(self@[i as int]));
                }
                if !rule.holds(self.0[i].as_slice(), gc) {
                    proof {
                        assert(!rule.holds_spec(self@[i as int], gc@));
                    }
                    return false;
                }
                i = i + 1;
            }
            true
        }
    }
}

/// A sizes vector that can be stored: it has fewer entries than the
/// largest value of the size type, and its counting vector is valid, so it
/// names no size zero and no size too large for a counting vector.
pub open spec fn valid_sizes(s: Seq<u8>) -> bool {
    s.len() < u8::MAX && valid_counts(sizes_to_counts_spec(s))
}

/// Tells whether a sizes vector can be stored.
pub fn is_valid_sizes(sizes: &[C]) -> (valid: bool)
    ensures
        valid == valid_sizes(sizes@),
{
    proof {
        lemma_max_size(sizes@);
        lemma_occurrences_positive(sizes@, 0);
        lemma_occurrences_bound(sizes@, 0);
    }
    if sizes.len() >= C::MAX as usize {
        return false;
    }
    let mut i: usize = 0;
    while i < sizes.len()
        invariant
            i <= sizes@.len() < u8::MAX,
            forall|j: int| 0 <= j < i ==> sizes@[j] != 0 && sizes@[j] < u8::MAX - 1,
            -1 <= max_size(sizes@) <= u8::MAX,
            forall|j: int| 0 <= j < sizes@.len() ==> sizes@[j] <= max_size(sizes@),
            occurrences(sizes@, 0) <= sizes@.len(),
            occurrences(sizes@, 0) > 0 <==> exists|j: int|
                0 <= j < sizes@.len() && sizes@[j] == 0,
        decreases sizes@.len() - i,
    {
        if sizes[i] == 0 || sizes[i] >= C::MAX - 1 {
            proof {
                assert(sizes@[i as int] <= max_size(sizes@));
            }
            return false;
        }
        i = i + 1;
    }
    proof {
        if sizes@.len() > 0 {
            let j = choose|j: int| 0 <= j < sizes@.len() && sizes@[j] == max_size(sizes@);
            assert(sizes@[j] < u8::MAX - 1);
        }
        if occurrences(sizes@, 0) > 0 {
            let j = choose|j: int| 0 <= j < sizes@.len() && sizes@[j] == 0;
            assert(sizes@[j] != 0);
        }
    }
    true
}

/// A sizes vector that can be stored holds no size more often than a count
/// can tell.
pub proof fn lemma_valid_sizes(s: Seq<u8>)
    requires
        s.len() < u8::MAX,
    ensures
        forall|v: int| occurrences(s, v) <= u8::MAX,
{
    assert forall|v: int| occurrences(s, v) <= u8::MAX by {
        lemma_occurrences_bound(s, v);
    }
}

/// No size occurs more often than the vector is long.
pub proof fn lemma_occurrences_bound(s: Seq<u8>, v: int)
    ensures
        occurrences(s, v) <= s.len(),
    decreases s.len(),
{
    if s.len() > 0 {
        lemma_occurrences_bound(s.drop_last(), v);
    }
}

} // verus!
