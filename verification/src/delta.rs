//! Deltas: the edit operations an attestation-list comparison produces, the
//! cost of a delta list, and what it means for a delta list to describe a
//! correct matching of two attestation lists.

use vstd::prelude::*;

use crate::sums::{lemma_seq_sum_permutation, seq_sum};
use crate::types::{bits_dist, popcount, Attestation};

verus! {

/// Cost of insertions and deletions (indels).
///
/// This is calibrated to equal the maximum possible position distance in
/// lists of at most `MAX_ATTESTATIONS` attestations, so an indel is never
/// cheaper than any legal modification between comparable attestations.
pub const INDEL_COST: usize = 128;

/// The most attestations a block body can carry.
pub const MAX_ATTESTATIONS: usize = 128;

/// One edit operation of a delta between two attestation lists.
#[derive(Clone, Copy, PartialEq, Eq, Structural, Debug)]
pub enum Delta {
    /// Mutate the attestation at `left` on the LHS into the one at `right`
    /// on the RHS (a matched pair).
    Modify {
        /// The index of the attestation on the LHS.
        left: usize,
        /// The index of the closest matching attestation on the RHS.
        right: usize,
        /// `|left - right|`.
        pos_distance: usize,
        /// The bitfield distance between the two attestations.
        bit_distance: usize,
    },
    /// An attestation on the left matched against nothing on the right.
    InsertLeft { index: usize, num_set_bits: usize },
    /// An attestation on the right matched against nothing on the left.
    InsertRight { index: usize, num_set_bits: usize },
}

/// `|x - y|` over mathematical integers.
pub open spec fn abs_of(v: int) -> int {
    if v < 0 {
        -v
    } else {
        v
    }
}

/// Compute `|x - y|`.
pub fn abs_diff(x: usize, y: usize) -> (d: usize)
    ensures
        d == abs_of(x - y),
{
    if x >= y {
        x - y
    } else {
        y - x
    }
}

/// The cost one delta contributes to the total distance.
pub open spec fn delta_cost(d: Delta) -> int {
    match d {
        Delta::Modify { pos_distance, bit_distance, .. } => pos_distance + bit_distance,
        Delta::InsertLeft { num_set_bits, .. } => num_set_bits + INDEL_COST,
        Delta::InsertRight { num_set_bits, .. } => num_set_bits + INDEL_COST,
    }
}

/// Total cost of a delta list.
pub open spec fn deltas_cost(ds: Seq<Delta>) -> int {
    seq_sum(ds.map_values(|d: Delta| delta_cost(d)))
}

/// Every delta costs at least the difference it records; no cost is negative.
pub proof fn lemma_deltas_cost_nonneg(ds: Seq<Delta>)
    ensures
        deltas_cost(ds) >= 0,
{
    crate::sums::lemma_seq_sum_nonneg(ds.map_values(|d: Delta| delta_cost(d)));
}

/// Appending one delta adds its cost.
pub proof fn lemma_deltas_cost_push(ds: Seq<Delta>, d: Delta)
    ensures
        deltas_cost(ds.push(d)) == deltas_cost(ds) + delta_cost(d),
{
    let f = |d: Delta| delta_cost(d);
    assert(ds.push(d).map_values(f).drop_last() =~= ds.map_values(f));
    assert(ds.push(d).map_values(f).last() == delta_cost(d));
}

impl Delta {
    /// The cost this delta contributes to the total distance.
    pub fn total_distance(&self) -> (c: usize)
        requires
            delta_cost(*self) <= usize::MAX,
        ensures
            c == delta_cost(*self),
    {
        match self {
            Delta::Modify { pos_distance, bit_distance, .. } => *pos_distance + *bit_distance,
            Delta::InsertLeft { num_set_bits, .. } => *num_set_bits + INDEL_COST,
            Delta::InsertRight { num_set_bits, .. } => *num_set_bits + INDEL_COST,
        }
    }
}

/// The left-list index a delta accounts for, if any.
pub open spec fn left_use(d: Delta) -> Option<int> {
    match d {
        Delta::Modify { left, .. } => Some(left as int),
        Delta::InsertLeft { index, .. } => Some(index as int),
        Delta::InsertRight { .. } => None,
    }
}

/// The right-list index a delta accounts for, if any.
pub open spec fn right_use(d: Delta) -> Option<int> {
    match d {
        Delta::Modify { right, .. } => Some(right as int),
        Delta::InsertLeft { .. } => None,
        Delta::InsertRight { index, .. } => Some(index as int),
    }
}

/// A delta's fields are truthful about the two lists it compares: indices in
/// range, matched pairs comparable (equal vote data), and the recorded
/// distances and popcounts the real ones.
pub open spec fn delta_consistent(x: Seq<Attestation>, y: Seq<Attestation>, d: Delta) -> bool {
    match d {
        Delta::Modify { left, right, pos_distance, bit_distance } => {
            &&& 0 <= left < x.len()
            &&& 0 <= right < y.len()
            &&& x[left as int].data == y[right as int].data
            &&& pos_distance == abs_of(left - right)
            &&& bit_distance == bits_dist(
                x[left as int].aggregation_bits.bits@,
                y[right as int].aggregation_bits.bits@,
            )
        },
        Delta::InsertLeft { index, num_set_bits } => {
            &&& 0 <= index < x.len()
            &&& num_set_bits == popcount(x[index as int].aggregation_bits.bits@)
        },
        Delta::InsertRight { index, num_set_bits } => {
            &&& 0 <= index < y.len()
            &&& num_set_bits == popcount(y[index as int].aggregation_bits.bits@)
        },
    }
}

/// No two deltas account for the same left index.
pub open spec fn left_injective(ds: Seq<Delta>) -> bool {
    forall|k1: int, k2: int|
        0 <= k1 < ds.len() && 0 <= k2 < ds.len() && left_use(ds[k1]).is_some() && left_use(
            ds[k1],
        ) == left_use(ds[k2]) ==> k1 == k2
}

/// No two deltas account for the same right index.
pub open spec fn right_injective(ds: Seq<Delta>) -> bool {
    forall|k1: int, k2: int|
        0 <= k1 < ds.len() && 0 <= k2 < ds.len() && right_use(ds[k1]).is_some() && right_use(
            ds[k1],
        ) == right_use(ds[k2]) ==> k1 == k2
}

/// Some delta accounts for left index `i`.
pub open spec fn covers_left(ds: Seq<Delta>, i: int) -> bool {
    exists|k: int| 0 <= k < ds.len() && left_use(#[trigger] ds[k]) == Some(i)
}

/// Some delta accounts for right index `j`.
pub open spec fn covers_right(ds: Seq<Delta>, j: int) -> bool {
    exists|k: int| 0 <= k < ds.len() && right_use(#[trigger] ds[k]) == Some(j)
}

/// Every left index is accounted for by some delta.
pub open spec fn left_covered(x: Seq<Attestation>, ds: Seq<Delta>) -> bool {
    forall|i: int| 0 <= i < x.len() ==> #[trigger] covers_left(ds, i)
}

/// Every right index is accounted for by some delta.
pub open spec fn right_covered(y: Seq<Attestation>, ds: Seq<Delta>) -> bool {
    forall|j: int| 0 <= j < y.len() ==> #[trigger] covers_right(ds, j)
}

/// A delta list describes a correct matching between the two lists: each
/// delta is truthful, and each position of either list is accounted for by
/// exactly one delta.
pub open spec fn valid_deltas(x: Seq<Attestation>, y: Seq<Attestation>, ds: Seq<Delta>) -> bool {
    &&& forall|k: int| 0 <= k < ds.len() ==> delta_consistent(x, y, #[trigger] ds[k])
    &&& left_covered(x, ds)
    &&& right_covered(y, ds)
    &&& left_injective(ds)
    &&& right_injective(ds)
}

/// `c` is the cost of a cheapest correct matching between `x` and `y`.
pub open spec fn is_min_cost(x: Seq<Attestation>, y: Seq<Attestation>, c: int) -> bool {
    &&& exists|ds: Seq<Delta>| #[trigger] valid_deltas(x, y, ds) && deltas_cost(ds) == c
    &&& forall|ds: Seq<Delta>| #[trigger] valid_deltas(x, y, ds) ==> deltas_cost(ds) >= c
}

/// There is only one minimal cost.
pub proof fn lemma_min_cost_unique(x: Seq<Attestation>, y: Seq<Attestation>, c1: int, c2: int)
    requires
        is_min_cost(x, y, c1),
        is_min_cost(x, y, c2),
    ensures
        c1 == c2,
{
}

/// Appending a delta keeps every covered index covered and covers the new
/// delta's own indices.
pub proof fn lemma_covers_push(ds: Seq<Delta>, d: Delta)
    ensures
        forall|i: int| #[trigger] covers_left(ds, i) ==> covers_left(ds.push(d), i),
        forall|j: int| #[trigger] covers_right(ds, j) ==> covers_right(ds.push(d), j),
        left_use(d).is_some() ==> covers_left(ds.push(d), left_use(d).unwrap()),
        right_use(d).is_some() ==> covers_right(ds.push(d), right_use(d).unwrap()),
{
    assert forall|i: int| #[trigger] covers_left(ds, i) implies covers_left(ds.push(d), i) by {
        let k = choose|k: int| 0 <= k < ds.len() && left_use(#[trigger] ds[k]) == Some(i);
        assert(left_use(ds.push(d)[k]) == Some(i));
    }
    assert forall|j: int| #[trigger] covers_right(ds, j) implies covers_right(ds.push(d), j) by {
        let k = choose|k: int| 0 <= k < ds.len() && right_use(#[trigger] ds[k]) == Some(j);
        assert(right_use(ds.push(d)[k]) == Some(j));
    }
    if left_use(d).is_some() {
        assert(left_use(ds.push(d)[ds.len() as int]) == left_use(d));
    }
    if right_use(d).is_some() {
        assert(right_use(ds.push(d)[ds.len() as int]) == right_use(d));
    }
}

/// Appending a delta whose indices are fresh preserves injectivity.
pub proof fn lemma_injective_push(ds: Seq<Delta>, d: Delta)
    requires
        left_injective(ds),
        right_injective(ds),
        forall|k: int|
            0 <= k < ds.len() && left_use(#[trigger] ds[k]).is_some() ==> left_use(ds[k])
                != left_use(d) || left_use(d).is_none(),
        forall|k: int|
            0 <= k < ds.len() && right_use(#[trigger] ds[k]).is_some() ==> right_use(ds[k])
                != right_use(d) || right_use(d).is_none(),
    ensures
        left_injective(ds.push(d)),
        right_injective(ds.push(d)),
{
    let ds2 = ds.push(d);
    assert forall|k1: int, k2: int|
        0 <= k1 < ds2.len() && 0 <= k2 < ds2.len() && left_use(ds2[k1]).is_some() && left_use(
            ds2[k1],
        ) == left_use(ds2[k2]) implies k1 == k2 by {
        if k1 < ds.len() && k2 < ds.len() {
            assert(ds2[k1] == ds[k1] && ds2[k2] == ds[k2]);
        } else if k1 < ds.len() {
            assert(ds2[k1] == ds[k1] && ds2[k2] == d);
        } else if k2 < ds.len() {
            assert(ds2[k1] == d && ds2[k2] == ds[k2]);
        }
    }
    assert forall|k1: int, k2: int|
        0 <= k1 < ds2.len() && 0 <= k2 < ds2.len() && right_use(ds2[k1]).is_some() && right_use(
            ds2[k1],
        ) == right_use(ds2[k2]) implies k1 == k2 by {
        if k1 < ds.len() && k2 < ds.len() {
            assert(ds2[k1] == ds[k1] && ds2[k2] == ds[k2]);
        } else if k1 < ds.len() {
            assert(ds2[k1] == ds[k1] && ds2[k2] == d);
        } else if k2 < ds.len() {
            assert(ds2[k1] == d && ds2[k2] == ds[k2]);
        }
    }
}

/// The sort key: (left index, right index, handedness), an `InsertLeft`
/// preceding an `InsertRight` at equal indices.
pub open spec fn delta_key(d: Delta) -> (int, int, int) {
    match d {
        Delta::Modify { left, right, .. } => (left as int, right as int, 0),
        Delta::InsertLeft { index, .. } => (index as int, index as int, 0),
        Delta::InsertRight { index, .. } => (index as int, index as int, 1),
    }
}

/// Lexicographic order on delta keys.
pub open spec fn key_le(a: Delta, b: Delta) -> bool {
    let ka = delta_key(a);
    let kb = delta_key(b);
    ||| ka.0 < kb.0
    ||| (ka.0 == kb.0 && ka.1 < kb.1)
    ||| (ka.0 == kb.0 && ka.1 == kb.1 && ka.2 <= kb.2)
}

/// The delta list is sorted by `(left index, right index, handedness)`.
pub open spec fn deltas_sorted(ds: Seq<Delta>) -> bool {
    forall|k1: int, k2: int| 0 <= k1 < k2 < ds.len() ==> key_le(#[trigger] ds[k1], #[trigger] ds[k2])
}

/// Does `a` sort at or before `b`?
fn delta_key_le(a: &Delta, b: &Delta) -> (r: bool)
    ensures
        r == key_le(*a, *b),
{
    let (a0, a1, a2) = delta_key_exec(a);
    let (b0, b1, b2) = delta_key_exec(b);
    a0 < b0 || (a0 == b0 && a1 < b1) || (a0 == b0 && a1 == b1 && a2 <= b2)
}

/// The sort key of one delta.
fn delta_key_exec(d: &Delta) -> (k: (usize, usize, u8))
    ensures
        k.0 as int == delta_key(*d).0,
        k.1 as int == delta_key(*d).1,
        k.2 as int == delta_key(*d).2,
{
    match d {
        Delta::Modify { left, right, .. } => (*left, *right, 0u8),
        Delta::InsertLeft { index, .. } => (*index, *index, 0u8),
        Delta::InsertRight { index, .. } => (*index, *index, 1u8),
    }
}

/// Inserting an element anywhere in a sequence adds it to the multiset.
pub proof fn lemma_to_multiset_insert<T>(s: Seq<T>, i: int, v: T)
    requires
        0 <= i <= s.len(),
    ensures
        s.insert(i, v).to_multiset() == s.to_multiset().insert(v),
{
    broadcast use vstd::seq_lib::group_to_multiset_ensures;

    let s2 = s.insert(i, v);
    assert(s2.remove(i) =~= s);
    assert(s2.remove(i).to_multiset() =~= s2.to_multiset().remove(s2[i]));
    assert(s2.to_multiset().count(v) > 0) by {
        assert(s2.contains(v));
    }
    assert(s2.to_multiset() =~= s2.to_multiset().remove(v).insert(v));
}

/// Sort a delta list by `(left index, right index, handedness)`.
pub fn sort_deltas(deltas: &mut Vec<Delta>)
    ensures
        final(deltas)@.to_multiset() == old(deltas)@.to_multiset(),
        deltas_sorted(final(deltas)@),
{
    if deltas.len() <= 1 {
        return ;
    }
    let mut i: usize = 1;
    while i < deltas.len()
        invariant
            1 <= i <= deltas@.len(),
            deltas@.to_multiset() == old(deltas)@.to_multiset(),
            deltas_sorted(deltas@.take(i as int)),
        decreases deltas@.len() - i,
    {
        // Find where the element at `i` belongs within the sorted prefix.
        let mut j: usize = 0;
        while j < i && delta_key_le(&deltas[j], &deltas[i])
            invariant
                0 <= j <= i < deltas@.len(),
                forall|k: int| 0 <= k < j ==> key_le(#[trigger] deltas@[k], deltas@[i as int]),
            decreases i - j,
        {
            j = j + 1;
        }
        if j < i {
            let ghost pre = deltas@;
            let v = deltas.remove(i);
            proof {
                broadcast use vstd::seq_lib::group_to_multiset_ensures;

                assert(pre.remove(i as int).to_multiset() =~= pre.to_multiset().remove(v));
            }
            deltas.insert(j, v);
            proof {
                broadcast use vstd::seq_lib::group_to_multiset_ensures;

                lemma_to_multiset_insert(pre.remove(i as int), j as int, v);
                assert(pre.to_multiset().count(v) > 0) by {
                    assert(pre.contains(v));
                }
                assert(deltas@.to_multiset() =~= pre.to_multiset());
                let now = deltas@;
                assert forall|k1: int, k2: int| 0 <= k1 < k2 < i + 1 implies key_le(
                    #[trigger] now[k1],
                    #[trigger] now[k2],
                ) by {
                    assert(!key_le(pre[j as int], pre[i as int]));
                    assert(forall|k: int| 0 <= k < j ==> now[k] == pre[k]);
                    assert(now[j as int] == pre[i as int]);
                    assert(forall|k: int| j < k <= i ==> now[k] == pre[k - 1]);
                    assert forall|k1: int, k2: int| 0 <= k1 < k2 < i implies key_le(
                        #[trigger] pre[k1],
                        #[trigger] pre[k2],
                    ) by {
                        assert(pre.take(i as int)[k1] == pre[k1]);
                        assert(pre.take(i as int)[k2] == pre[k2]);
                        assert(key_le(pre.take(i as int)[k1], pre.take(i as int)[k2]));
                    }
                }
                assert(deltas@.take(i + 1) =~= now.subrange(0, i + 1));
                assert(deltas_sorted(deltas@.take(i + 1))) by {
                    assert(forall|k: int| 0 <= k < i + 1 ==> deltas@.take(i + 1)[k] == now[k]);
                }
            }
        } else {
            proof {
                let now = deltas@;
                assert(deltas_sorted(now.take(i + 1))) by {
                    assert(forall|k: int|
                        0 <= k < i ==> now.take(i + 1)[k] == now.take(i as int)[k]);
                    assert(forall|k: int| 0 <= k < i ==> key_le(#[trigger] now[k], now[i as int]));
                }
            }
        }
        i = i + 1;
    }
    proof {
        if deltas@.len() > 0 {
            assert(deltas@.take(deltas@.len() as int) =~= deltas@);
        } else {
            assert(deltas_sorted(deltas@));
        }
    }
}

/// Swap a delta's sides: left insertions become right insertions and vice
/// versa, and a modification swaps its endpoints.
pub open spec fn invert_one(d: Delta) -> Delta {
    match d {
        Delta::Modify { left, right, pos_distance, bit_distance } => Delta::Modify {
            left: right,
            right: left,
            pos_distance,
            bit_distance,
        },
        Delta::InsertLeft { index, num_set_bits } => Delta::InsertRight { index, num_set_bits },
        Delta::InsertRight { index, num_set_bits } => Delta::InsertLeft { index, num_set_bits },
    }
}

/// Invert a delta, converting it from left-right to right-left form, and
/// re-sort it.
pub fn invert_delta(deltas: Vec<Delta>) -> (out: Vec<Delta>)
    ensures
        out@.to_multiset() == deltas@.map_values(|d: Delta| invert_one(d)).to_multiset(),
        deltas_sorted(out@),
{
    let mut out: Vec<Delta> = Vec::new();
    let mut i: usize = 0;
    while i < deltas.len()
        invariant
            0 <= i <= deltas@.len(),
            out@ =~= deltas@.take(i as int).map_values(|d: Delta| invert_one(d)),
        decreases deltas@.len() - i,
    {
        let d = deltas[i];
        let inv = match d {
            Delta::Modify { left, right, pos_distance, bit_distance } => Delta::Modify {
                left: right,
                right: left,
                pos_distance,
                bit_distance,
            },
            Delta::InsertLeft { index, num_set_bits } => Delta::InsertRight {
                index,
                num_set_bits,
            },
            Delta::InsertRight { index, num_set_bits } => Delta::InsertLeft {
                index,
                num_set_bits,
            },
        };
        out.push(inv);
        proof {
            assert(out@ =~= deltas@.take(i + 1).map_values(|d: Delta| invert_one(d)));
        }
        i = i + 1;
    }
    proof {
        assert(deltas@.take(deltas@.len() as int) =~= deltas@);
    }
    sort_deltas(&mut out);
    out
}

/// Inversion swaps the roles of the two lists: a correct matching of `x`
/// against `y` becomes a correct matching of `y` against `x`, at the same
/// cost.
pub proof fn lemma_invert_valid(x: Seq<Attestation>, y: Seq<Attestation>, ds: Seq<Delta>)
    requires
        valid_deltas(x, y, ds),
    ensures
        valid_deltas(y, x, ds.map_values(|d: Delta| invert_one(d))),
        deltas_cost(ds.map_values(|d: Delta| invert_one(d))) == deltas_cost(ds),
{
    let inv = ds.map_values(|d: Delta| invert_one(d));
    assert forall|k: int| 0 <= k < inv.len() implies delta_consistent(y, x, #[trigger] inv[k]) by {
        assert(delta_consistent(x, y, ds[k]));
        match ds[k] {
            Delta::Modify { left, right, .. } => {
                crate::types::lemma_bits_dist_sym(
                    x[left as int].aggregation_bits.bits@,
                    y[right as int].aggregation_bits.bits@,
                );
            },
            _ => {},
        }
    }
    assert forall|i: int| 0 <= i < y.len() implies #[trigger] covers_left(inv, i) by {
        assert(covers_right(ds, i));
        let k = choose|k: int| 0 <= k < ds.len() && right_use(#[trigger] ds[k]) == Some(i);
        assert(left_use(inv[k]) == Some(i));
    }
    assert forall|j: int| 0 <= j < x.len() implies #[trigger] covers_right(inv, j) by {
        assert(covers_left(ds, j));
        let k = choose|k: int| 0 <= k < ds.len() && left_use(#[trigger] ds[k]) == Some(j);
        assert(right_use(inv[k]) == Some(j));
    }
    assert forall|k1: int, k2: int|
        0 <= k1 < inv.len() && 0 <= k2 < inv.len() && left_use(inv[k1]).is_some() && left_use(
            inv[k1],
        ) == left_use(inv[k2]) implies k1 == k2 by {
        assert(right_use(ds[k1]) == left_use(inv[k1]));
        assert(right_use(ds[k2]) == left_use(inv[k2]));
    }
    assert forall|k1: int, k2: int|
        0 <= k1 < inv.len() && 0 <= k2 < inv.len() && right_use(inv[k1]).is_some() && right_use(
            inv[k1],
        ) == right_use(inv[k2]) implies k1 == k2 by {
        assert(left_use(ds[k1]) == right_use(inv[k1]));
        assert(left_use(ds[k2]) == right_use(inv[k2]));
    }
    assert(inv.map_values(|d: Delta| delta_cost(d)) =~= ds.map_values(|d: Delta| delta_cost(d)));
}

/// A correct matching never accounts for one index twice, so its delta list
/// holds no duplicate element.
pub proof fn lemma_valid_no_duplicates(x: Seq<Attestation>, y: Seq<Attestation>, ds: Seq<Delta>)
    requires
        valid_deltas(x, y, ds),
    ensures
        ds.no_duplicates(),
{
    assert forall|k1: int, k2: int|
        0 <= k1 < ds.len() && 0 <= k2 < ds.len() && k1 != k2 implies ds[k1] != ds[k2] by {
        if ds[k1] == ds[k2] {
            match ds[k1] {
                Delta::Modify { .. } => {
                    assert(left_use(ds[k1]).is_some() && left_use(ds[k1]) == left_use(ds[k2]));
                },
                Delta::InsertLeft { .. } => {
                    assert(left_use(ds[k1]).is_some() && left_use(ds[k1]) == left_use(ds[k2]));
                },
                Delta::InsertRight { .. } => {
                    assert(right_use(ds[k1]).is_some() && right_use(ds[k1]) == right_use(ds[k2]));
                },
            }
        }
    }
}

/// An element of a sequence is an element of any reordering of it.
proof fn lemma_contains_transfer<T>(a: Seq<T>, b: Seq<T>, v: T)
    requires
        a.to_multiset() == b.to_multiset(),
        a.contains(v),
    ensures
        b.contains(v),
{
    broadcast use vstd::seq_lib::group_to_multiset_ensures;

    assert(a.to_multiset().count(v) > 0);
    assert(b.to_multiset().count(v) > 0);
}

/// Validity of a delta list depends only on which deltas it holds, not on
/// their order.
pub proof fn lemma_valid_permutation(
    x: Seq<Attestation>,
    y: Seq<Attestation>,
    ds1: Seq<Delta>,
    ds2: Seq<Delta>,
)
    requires
        valid_deltas(x, y, ds1),
        ds1.to_multiset() == ds2.to_multiset(),
    ensures
        valid_deltas(x, y, ds2),
        deltas_cost(ds2) == deltas_cost(ds1),
{
    broadcast use vstd::seq_lib::group_to_multiset_ensures;

    lemma_valid_no_duplicates(x, y, ds1);
    ds1.lemma_multiset_has_no_duplicates();
    ds2.lemma_multiset_has_no_duplicates_conv();
    assert(ds2.no_duplicates());
    assert forall|k: int| 0 <= k < ds2.len() implies delta_consistent(x, y, #[trigger] ds2[k]) by {
        assert(ds2.contains(ds2[k]));
        lemma_contains_transfer(ds2, ds1, ds2[k]);
        let k1 = choose|k1: int| 0 <= k1 < ds1.len() && ds1[k1] == ds2[k];
        assert(delta_consistent(x, y, ds1[k1]));
    }
    assert forall|i: int| 0 <= i < x.len() implies #[trigger] covers_left(ds2, i) by {
        assert(covers_left(ds1, i));
        let k1 = choose|k1: int| 0 <= k1 < ds1.len() && left_use(#[trigger] ds1[k1]) == Some(i);
        assert(ds1.contains(ds1[k1]));
        lemma_contains_transfer(ds1, ds2, ds1[k1]);
        let k = choose|k: int| 0 <= k < ds2.len() && ds2[k] == ds1[k1];
        assert(left_use(ds2[k]) == Some(i));
    }
    assert forall|j: int| 0 <= j < y.len() implies #[trigger] covers_right(ds2, j) by {
        assert(covers_right(ds1, j));
        let k1 = choose|k1: int| 0 <= k1 < ds1.len() && right_use(#[trigger] ds1[k1]) == Some(j);
        assert(ds1.contains(ds1[k1]));
        lemma_contains_transfer(ds1, ds2, ds1[k1]);
        let k = choose|k: int| 0 <= k < ds2.len() && ds2[k] == ds1[k1];
        assert(right_use(ds2[k]) == Some(j));
    }
    assert forall|k1: int, k2: int|
        0 <= k1 < ds2.len() && 0 <= k2 < ds2.len() && left_use(ds2[k1]).is_some() && left_use(
            ds2[k1],
        ) == left_use(ds2[k2]) implies k1 == k2 by {
        if k1 != k2 {
            assert(ds2[k1] != ds2[k2]);
            assert(ds2.contains(ds2[k1]) && ds2.contains(ds2[k2]));
            lemma_contains_transfer(ds2, ds1, ds2[k1]);
            lemma_contains_transfer(ds2, ds1, ds2[k2]);
            let j1 = choose|j1: int| 0 <= j1 < ds1.len() && ds1[j1] == ds2[k1];
            let j2 = choose|j2: int| 0 <= j2 < ds1.len() && ds1[j2] == ds2[k2];
            assert(j1 != j2);
            assert(left_use(ds1[j1]).is_some() && left_use(ds1[j1]) == left_use(ds1[j2]));
        }
    }
    assert forall|k1: int, k2: int|
        0 <= k1 < ds2.len() && 0 <= k2 < ds2.len() && right_use(ds2[k1]).is_some() && right_use(
            ds2[k1],
        ) == right_use(ds2[k2]) implies k1 == k2 by {
        if k1 != k2 {
            assert(ds2[k1] != ds2[k2]);
            assert(ds2.contains(ds2[k1]) && ds2.contains(ds2[k2]));
            lemma_contains_transfer(ds2, ds1, ds2[k1]);
            lemma_contains_transfer(ds2, ds1, ds2[k2]);
            let j1 = choose|j1: int| 0 <= j1 < ds1.len() && ds1[j1] == ds2[k1];
            let j2 = choose|j2: int| 0 <= j2 < ds1.len() && ds1[j2] == ds2[k2];
            assert(j1 != j2);
            assert(right_use(ds1[j1]).is_some() && right_use(ds1[j1]) == right_use(ds1[j2]));
        }
    }
    lemma_map_multiset(ds1, ds2, |d: Delta| delta_cost(d));
    lemma_seq_sum_permutation(
        ds1.map_values(|d: Delta| delta_cost(d)),
        ds2.map_values(|d: Delta| delta_cost(d)),
    );
}

/// Mapping a function over two sequences with the same elements yields
/// sequences with the same elements.
proof fn lemma_map_multiset<T, U>(a: Seq<T>, b: Seq<T>, f: spec_fn(T) -> U)
    requires
        a.to_multiset() == b.to_multiset(),
    ensures
        a.map_values(f).to_multiset() == b.map_values(f).to_multiset(),
    decreases a.len(),
{
    broadcast use vstd::seq_lib::group_to_multiset_ensures;

    if a.len() == 0 {
        assert(b.to_multiset().len() == 0);
        assert(a.map_values(f).to_multiset() =~= b.map_values(f).to_multiset());
    } else {
        let v = a.last();
        assert(a.to_multiset().count(v) > 0) by {
            assert(a.contains(v));
        }
        assert(b.contains(v));
        let i = choose|i: int| 0 <= i < b.len() && b[i] == v;
        assert(a.drop_last().push(v) =~= a);
        assert(a.drop_last().to_multiset().insert(v) =~= a.to_multiset());
        assert(b.remove(i).to_multiset() =~= b.to_multiset().remove(v));
        assert(a.drop_last().to_multiset() =~= b.remove(i).to_multiset()) by {
            assert(a.to_multiset().remove(v) =~= a.drop_last().to_multiset());
        }
        lemma_map_multiset(a.drop_last(), b.remove(i), f);
        assert(a.map_values(f) =~= a.drop_last().map_values(f).push(f(v)));
        assert(a.map_values(f).to_multiset() =~= a.drop_last().map_values(f).to_multiset().insert(
            f(v),
        ));
        assert(b.map_values(f).remove(i) =~= b.remove(i).map_values(f));
        assert(b.map_values(f).remove(i).to_multiset() =~= b.map_values(f).to_multiset().remove(
            f(v),
        ));
        assert(b.map_values(f).to_multiset().count(f(v)) > 0) by {
            assert(b.map_values(f)[i] == f(v));
            assert(b.map_values(f).contains(f(v)));
        }
        assert(b.map_values(f).to_multiset() =~= b.map_values(f).to_multiset().remove(f(v)).insert(
            f(v),
        ));
        assert(a.map_values(f).to_multiset() =~= b.map_values(f).to_multiset());
    }
}

} // verus!
