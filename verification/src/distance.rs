//! The distance metric: what a delta between two values is, what it costs,
//! and how the metric is computed for single attestations, for attestation
//! lists, and for blocks.

use vstd::prelude::*;

use crate::delta::{
    delta_cost, deltas_cost, deltas_sorted, invert_delta, invert_one, is_min_cost,
    lemma_deltas_cost_push, lemma_valid_permutation, sort_deltas, valid_deltas, Delta,
    MAX_ATTESTATIONS,
};
use crate::matching::{compute_matching_att_deltas, lemma_valid_cost_bound};
use crate::sums::lemma_seq_sum_prefix_le;
use crate::types::{atts_wf, bits_dist, Attestation, Block};

verus! {

/// A type whose values can be compared by a structural distance.
///
/// The distance is a metric on comparable values: zero exactly between
/// equivalent values, symmetric, and obeying the triangle inequality.
pub trait Distance: Sized {
    /// The type of intermediate data when computing the distance (mostly
    /// useful for diagnostics).
    type Delta;

    /// Are the two values comparable, i.e. is a delta defined between them?
    spec fn comparable(&self, other: &Self) -> bool;

    /// Is `d` a correct delta between the two values?
    spec fn delta_ok(&self, other: &Self, d: Self::Delta) -> bool;

    /// The scalar cost of a delta.
    spec fn cost_of(d: Self::Delta) -> int;

    /// The inputs the executable methods accept.
    spec fn wf(&self) -> bool;

    /// Does `r` describe `d` with its left and right sides swapped?
    spec fn inverted(d: Self::Delta, r: Self::Delta) -> bool;

    /// Distance between `self` and `other`, or `None` if incomparable.
    fn distance(&self, other: &Self) -> (r: Option<usize>)
        requires
            self.wf(),
            other.wf(),
        ensures
            r.is_some() == self.comparable(other),
            r matches Some(c) ==> exists|d: Self::Delta|
                self.delta_ok(other, d) && #[trigger] Self::cost_of(d) == c,
    ;

    /// Detailed delta between `self` and `other`, or `None` if incomparable.
    fn delta(&self, other: &Self) -> (r: Option<Self::Delta>)
        requires
            self.wf(),
            other.wf(),
        ensures
            r.is_some() == self.comparable(other),
            r matches Some(d) ==> self.delta_ok(other, d),
    ;

    /// Convert a delta for this type to a distance.
    fn delta_to_distance(d: &Self::Delta) -> (c: usize)
        requires
            0 <= Self::cost_of(*d) <= usize::MAX,
        ensures
            c as int == Self::cost_of(*d),
    ;

    /// Invert a delta, converting it from left-right to right-left form.
    fn invert_delta(d: Self::Delta) -> (r: Self::Delta)
        ensures
            Self::inverted(d, r),
    ;
}

impl Distance for Attestation {
    type Delta = usize;

    /// Two attestations are comparable exactly when their vote data agree.
    open spec fn comparable(&self, other: &Self) -> bool {
        self.data == other.data
    }

    /// The delta is the number of positions where the bitfields disagree.
    open spec fn delta_ok(&self, other: &Self, d: usize) -> bool {
        &&& self.data == other.data
        &&& d as int == bits_dist(self.aggregation_bits.bits@, other.aggregation_bits.bits@)
    }

    open spec fn cost_of(d: usize) -> int {
        d as int
    }

    open spec fn wf(&self) -> bool {
        true
    }

    /// An attestation delta has no handedness.
    open spec fn inverted(d: usize, r: usize) -> bool {
        r == d
    }

    fn distance(&self, other: &Self) -> (r: Option<usize>) {
        let r = self.delta(other);
        proof {
            if r is Some {
                let d = r.unwrap();
                assert(self.delta_ok(other, d) && Self::cost_of(d) == d);
            }
        }
        r
    }

    fn delta(&self, other: &Self) -> (r: Option<usize>) {
        if self.data == other.data {
            Some(self.aggregation_bits.distance(&other.aggregation_bits))
        } else {
            None
        }
    }

    fn delta_to_distance(d: &usize) -> (c: usize) {
        *d
    }

    fn invert_delta(d: usize) -> (r: usize) {
        d
    }
}

impl Distance for Vec<Attestation> {
    type Delta = Vec<Delta>;

    /// Any two attestation lists are comparable: unmatched attestations are
    /// carried by insertions.
    open spec fn comparable(&self, other: &Self) -> bool {
        true
    }

    /// A correct delta: a truthful matching covering each position exactly
    /// once, sorted canonically, and of minimal cost.
    open spec fn delta_ok(&self, other: &Self, ds: Vec<Delta>) -> bool {
        &&& valid_deltas(self@, other@, ds@)
        &&& deltas_sorted(ds@)
        &&& is_min_cost(self@, other@, deltas_cost(ds@))
    }

    open spec fn cost_of(ds: Vec<Delta>) -> int {
        deltas_cost(ds@)
    }

    /// Block bodies hold at most `MAX_ATTESTATIONS` attestations, each with
    /// a bitfield no longer than a committee.
    open spec fn wf(&self) -> bool {
        &&& self@.len() <= MAX_ATTESTATIONS
        &&& atts_wf(self@)
    }

    /// The inverse holds the side-swapped deltas, re-sorted.
    open spec fn inverted(d: Vec<Delta>, r: Vec<Delta>) -> bool {
        &&& r@.to_multiset() == d@.map_values(|x: Delta| invert_one(x)).to_multiset()
        &&& deltas_sorted(r@)
    }

    fn distance(&self, other: &Self) -> (r: Option<usize>) {
        let ds = self.delta(other).unwrap();
        proof {
            lemma_valid_cost_bound(self@, other@, ds@);
        }
        let c = Self::delta_to_distance(&ds);
        proof {
            assert(self.delta_ok(other, ds) && Self::cost_of(ds) == c);
        }
        Some(c)
    }

    fn delta(&self, other: &Self) -> (r: Option<Vec<Delta>>) {
        let mut ds = compute_matching_att_deltas(self, other);
        let ghost pre = ds@;
        sort_deltas(&mut ds);
        proof {
            lemma_valid_permutation(self@, other@, pre, ds@);
        }
        Some(ds)
    }

    fn delta_to_distance(ds: &Vec<Delta>) -> (c: usize) {
        let mut c: usize = 0;
        let mut k: usize = 0;
        proof {
            crate::delta::lemma_deltas_cost_nonneg(ds@);
        }
        while k < ds.len()
            invariant
                0 <= k <= ds@.len(),
                0 <= deltas_cost(ds@) <= usize::MAX,
                c as int == deltas_cost(ds@.take(k as int)),
                c <= usize::MAX,
            decreases ds@.len() - k,
        {
            proof {
                let costs = ds@.map_values(|d: Delta| delta_cost(d));
                assert(ds@.take(k + 1) =~= ds@.take(k as int).push(ds@[k as int]));
                lemma_deltas_cost_push(ds@.take(k as int), ds@[k as int]);
                assert(ds@.take(k + 1).map_values(|d: Delta| delta_cost(d)) =~= costs.take(
                    k + 1,
                ));
                lemma_seq_sum_prefix_le(costs, k + 1);
                crate::delta::lemma_deltas_cost_nonneg(ds@.take(k as int));
            }
            c = c + ds[k].total_distance();
            k = k + 1;
        }
        proof {
            assert(ds@.take(ds@.len() as int) =~= ds@);
        }
        c
    }

    fn invert_delta(ds: Vec<Delta>) -> (r: Vec<Delta>) {
        invert_delta(ds)
    }
}

impl Distance for Block {
    type Delta = Vec<Delta>;

    /// Any two blocks are comparable.
    open spec fn comparable(&self, other: &Self) -> bool {
        true
    }

    /// A block's delta is the delta of its attestation list; other body
    /// fields are ignored by this metric.
    open spec fn delta_ok(&self, other: &Self, ds: Vec<Delta>) -> bool {
        &&& valid_deltas(self.attestations@, other.attestations@, ds@)
        &&& deltas_sorted(ds@)
        &&& is_min_cost(self.attestations@, other.attestations@, deltas_cost(ds@))
    }

    open spec fn cost_of(ds: Vec<Delta>) -> int {
        deltas_cost(ds@)
    }

    open spec fn wf(&self) -> bool {
        &&& self.attestations@.len() <= MAX_ATTESTATIONS
        &&& atts_wf(self.attestations@)
    }

    open spec fn inverted(d: Vec<Delta>, r: Vec<Delta>) -> bool {
        &&& r@.to_multiset() == d@.map_values(|x: Delta| invert_one(x)).to_multiset()
        &&& deltas_sorted(r@)
    }

    fn distance(&self, other: &Self) -> (r: Option<usize>) {
        let r = self.attestations.distance(&other.attestations);
        proof {
            let c = r.unwrap();
            let d = choose|d: Vec<Delta>|
                self.attestations.delta_ok(&other.attestations, d)
                    && #[trigger] <Vec<Attestation> as Distance>::cost_of(d) == c;
            assert(self.delta_ok(other, d) && Self::cost_of(d) == c);
        }
        r
    }

    fn delta(&self, other: &Self) -> (r: Option<Vec<Delta>>) {
        self.attestations.delta(&other.attestations)
    }

    fn delta_to_distance(ds: &Vec<Delta>) -> (c: usize) {
        <Vec<Attestation> as Distance>::delta_to_distance(ds)
    }

    fn invert_delta(ds: Vec<Delta>) -> (r: Vec<Delta>) {
        invert_delta(ds)
    }
}

} // verus!
