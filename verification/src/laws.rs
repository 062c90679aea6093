//! The metric laws of the attestation-list distance: zero exactly between
//! equivalent lists, symmetry, the triangle inequality, invertibility of
//! deltas, reduction of deltas to distances, and the indel calibration.

use vstd::prelude::*;

use crate::delta::{
    abs_of, covers_left, covers_right, delta_consistent, delta_cost, deltas_cost, invert_one,
    is_min_cost, left_use, lemma_deltas_cost_nonneg, lemma_invert_valid, lemma_min_cost_unique,
    lemma_valid_permutation, right_use, valid_deltas, Delta, INDEL_COST, MAX_ATTESTATIONS,
};
use crate::matching::pc_att;
use crate::counting::{
    cnt, lemma_cnt_bounds, lemma_cnt_monotone, lemma_nth_where, lemma_nth_where_distinct,
    nth_where,
};
use crate::matching::{col_matched, is_modify, is_modify_to, modify_left, modify_right};
use crate::sums::{
    lemma_opt_picks_sum_le, lemma_seq_sum_bounded, lemma_seq_sum_element_le, lemma_seq_sum_nonneg,
    lemma_seq_sum_pointwise_add, lemma_seq_sum_pointwise_le, opt_picks_vals, seq_sum,
};
use crate::types::{
    att_wf, atts_wf, bits_dist, bits_equiv, lemma_bits_dist_le_popcounts, lemma_bits_dist_zero,
    lemma_popcount_bound, max_len, xor_upto, Attestation,
};

verus! {

/// Two attestation lists are pointwise equivalent: the same length, the same
/// vote data at each position, and equivalent aggregation bits at each
/// position. (Bitfields differing only in trailing clear bits are
/// equivalent, so this is slightly coarser than plain equality.)
pub open spec fn lists_equiv(x: Seq<Attestation>, y: Seq<Attestation>) -> bool {
    &&& x.len() == y.len()
    &&& forall|i: int| 0 <= i < x.len() ==> (#[trigger] x[i]).data == y[i].data
    &&& forall|i: int|
        0 <= i < x.len() ==> bits_equiv(
            (#[trigger] x[i]).aggregation_bits.bits@,
            y[i].aggregation_bits.bits@,
        )
}

/// The identity matching: each position modified into itself at no cost.
pub open spec fn ident_deltas(x: Seq<Attestation>) -> Seq<Delta> {
    Seq::new(
        x.len(),
        |i: int|
            Delta::Modify {
                left: i as usize,
                right: i as usize,
                pos_distance: 0,
                bit_distance: 0,
            },
    )
}

/// Between equivalent lists the identity matching is correct and free.
proof fn lemma_ident_deltas(x: Seq<Attestation>, y: Seq<Attestation>)
    requires
        x.len() <= MAX_ATTESTATIONS,
        lists_equiv(x, y),
    ensures
        valid_deltas(x, y, ident_deltas(x)),
        deltas_cost(ident_deltas(x)) == 0,
{
    let ds = ident_deltas(x);
    assert forall|k: int| 0 <= k < ds.len() implies delta_consistent(x, y, #[trigger] ds[k]) by {
        lemma_bits_dist_zero(x[k].aggregation_bits.bits@, y[k].aggregation_bits.bits@);
    }
    assert forall|i: int| 0 <= i < x.len() implies #[trigger] covers_left(ds, i) by {
        assert(left_use(ds[i]) == Some(i));
    }
    assert forall|j: int| 0 <= j < y.len() implies #[trigger] covers_right(ds, j) by {
        assert(right_use(ds[j]) == Some(j));
    }
    let costs = ds.map_values(|d: Delta| delta_cost(d));
    assert forall|k: int| 0 <= k < costs.len() implies #[trigger] costs[k] <= 0 && costs[k]
        >= 0 by {
        assert(costs[k] == delta_cost(ds[k]));
    }
    lemma_seq_sum_bounded(costs, 0);
    lemma_seq_sum_nonneg(costs);
}

/// Identity of indiscernibles: the distance between two lists is zero
/// exactly when they are pointwise equivalent.
pub proof fn lemma_identity_of_indiscernibles(x: Seq<Attestation>, y: Seq<Attestation>, c: int)
    requires
        x.len() <= MAX_ATTESTATIONS,
        y.len() <= MAX_ATTESTATIONS,
        is_min_cost(x, y, c),
    ensures
        (c == 0) <==> lists_equiv(x, y),
{
    if lists_equiv(x, y) {
        lemma_ident_deltas(x, y);
        let ds0 = choose|ds: Seq<Delta>| #[trigger] valid_deltas(x, y, ds) && deltas_cost(ds) == c;
        lemma_deltas_cost_nonneg(ds0);
        assert(deltas_cost(ident_deltas(x)) >= c);
    }
    if c == 0 {
        let ds = choose|ds: Seq<Delta>| #[trigger] valid_deltas(x, y, ds) && deltas_cost(ds) == c;
        let costs = ds.map_values(|d: Delta| delta_cost(d));
        // a zero total of non-negative costs means every delta is free
        assert forall|k: int| 0 <= k < ds.len() implies delta_cost(#[trigger] ds[k]) == 0 by {
            assert forall|t: int| 0 <= t < costs.len() implies #[trigger] costs[t] >= 0 by {
                assert(costs[t] == delta_cost(ds[t]));
            }
            lemma_seq_sum_element_le(costs, k);
            assert(costs[k] == delta_cost(ds[k]));
        }
        // so every delta is a modification of a position into itself
        assert forall|k: int| 0 <= k < ds.len() implies matches_free_modify(x, y, ds[k]) by {
            assert(delta_consistent(x, y, ds[k]));
            assert(delta_cost(ds[k]) == 0);
            match ds[k] {
                Delta::Modify { .. } => {},
                Delta::InsertLeft { .. } => {},
                Delta::InsertRight { .. } => {},
            }
        }
        assert forall|i: int| 0 <= i < x.len() implies (#[trigger] x[i]).data == y[i].data
            && bits_equiv(x[i].aggregation_bits.bits@, y[i].aggregation_bits.bits@) && i
            < y.len() by {
            assert(covers_left(ds, i));
            let k = choose|k: int| 0 <= k < ds.len() && left_use(#[trigger] ds[k]) == Some(i);
            assert(matches_free_modify(x, y, ds[k]));
            lemma_bits_dist_zero(x[i].aggregation_bits.bits@, y[i].aggregation_bits.bits@);
        }
        assert forall|j: int| 0 <= j < y.len() implies #[trigger] covers_right(ds, j) && j
            < x.len() by {
            assert(covers_right(ds, j));
            let k = choose|k: int| 0 <= k < ds.len() && right_use(#[trigger] ds[k]) == Some(j);
            assert(matches_free_modify(x, y, ds[k]));
        }
        assert(x.len() <= y.len()) by {
            if x.len() > y.len() {
                let i = y.len() as int;
                assert(covers_left(ds, i));
                let k = choose|k: int| 0 <= k < ds.len() && left_use(#[trigger] ds[k]) == Some(i);
                assert(matches_free_modify(x, y, ds[k]));
            }
        }
        assert(y.len() <= x.len()) by {
            if y.len() > x.len() {
                let j = x.len() as int;
                assert(covers_right(ds, j));
                let k = choose|k: int| 0 <= k < ds.len() && right_use(#[trigger] ds[k]) == Some(j);
                assert(matches_free_modify(x, y, ds[k]));
            }
        }
    }
}

/// A free delta between the lists: a modification of a position into the
/// same position, with equal data and equivalent bits.
spec fn matches_free_modify(x: Seq<Attestation>, y: Seq<Attestation>, d: Delta) -> bool {
    match d {
        Delta::Modify { left, right, pos_distance, bit_distance } => {
            &&& left == right
            &&& pos_distance == 0
            &&& bit_distance == 0
            &&& 0 <= left < x.len()
            &&& (right as int) < y.len()
            &&& x[left as int].data == y[right as int].data
            &&& bits_dist(
                x[left as int].aggregation_bits.bits@,
                y[right as int].aggregation_bits.bits@,
            ) == 0
        },
        _ => false,
    }
}

/// A list is at distance zero from itself.
pub proof fn lemma_distance_self_zero(x: Seq<Attestation>, c: int)
    requires
        x.len() <= MAX_ATTESTATIONS,
        is_min_cost(x, x, c),
    ensures
        c == 0,
{
    lemma_identity_of_indiscernibles(x, x, c);
}

/// Symmetry: the two directions of the distance agree, because inverting a
/// correct matching swaps the lists and keeps the cost.
pub proof fn lemma_distance_symmetry(x: Seq<Attestation>, y: Seq<Attestation>, c1: int, c2: int)
    requires
        is_min_cost(x, y, c1),
        is_min_cost(y, x, c2),
    ensures
        c1 == c2,
{
    let ds1 = choose|ds: Seq<Delta>| #[trigger] valid_deltas(x, y, ds) && deltas_cost(ds) == c1;
    lemma_invert_valid(x, y, ds1);
    assert(deltas_cost(ds1.map_values(|d: Delta| invert_one(d))) >= c2);
    let ds2 = choose|ds: Seq<Delta>| #[trigger] valid_deltas(y, x, ds) && deltas_cost(ds) == c2;
    lemma_invert_valid(y, x, ds2);
    assert(deltas_cost(ds2.map_values(|d: Delta| invert_one(d))) >= c1);
}

/// Delta invertibility: any reordering of the side-swapped deltas of a
/// cheapest correct matching for x→y — which is what inverting a delta
/// produces — is a cheapest correct matching for y→x, at the same cost.
pub proof fn lemma_delta_invertibility(
    x: Seq<Attestation>,
    y: Seq<Attestation>,
    ds: Seq<Delta>,
    inv: Seq<Delta>,
)
    requires
        valid_deltas(x, y, ds),
        is_min_cost(x, y, deltas_cost(ds)),
        inv.to_multiset() == ds.map_values(|d: Delta| invert_one(d)).to_multiset(),
    ensures
        valid_deltas(y, x, inv),
        deltas_cost(inv) == deltas_cost(ds),
        is_min_cost(y, x, deltas_cost(inv)),
{
    lemma_invert_valid(x, y, ds);
    lemma_valid_permutation(y, x, ds.map_values(|d: Delta| invert_one(d)), inv);
    assert forall|ds2: Seq<Delta>| #[trigger] valid_deltas(y, x, ds2) implies deltas_cost(ds2)
        >= deltas_cost(inv) by {
        lemma_invert_valid(y, x, ds2);
        assert(deltas_cost(ds2.map_values(|d: Delta| invert_one(d))) >= deltas_cost(ds));
    }
}


/// The matching that modifies nothing: every position of either list is an
/// insertion.
spec fn all_indel_deltas(x: Seq<Attestation>, y: Seq<Attestation>) -> Seq<Delta> {
    Seq::new(
        x.len(),
        |i: int| Delta::InsertLeft { index: i as usize, num_set_bits: pc_att(x[i]) as usize },
    ) + Seq::new(
        y.len(),
        |j: int| Delta::InsertRight { index: j as usize, num_set_bits: pc_att(y[j]) as usize },
    )
}

/// The all-indel matching is always correct.
proof fn lemma_all_indel_valid(x: Seq<Attestation>, y: Seq<Attestation>)
    requires
        x.len() <= MAX_ATTESTATIONS,
        y.len() <= MAX_ATTESTATIONS,
        crate::types::atts_wf(x),
        crate::types::atts_wf(y),
    ensures
        valid_deltas(x, y, all_indel_deltas(x, y)),
{
    let ds = all_indel_deltas(x, y);
    assert forall|k: int| 0 <= k < ds.len() implies delta_consistent(x, y, #[trigger] ds[k]) by {
        if k < x.len() {
            assert(crate::types::att_wf(x[k]));
            crate::types::lemma_popcount_bound(x[k].aggregation_bits.bits@);
        } else {
            let j = k - x.len();
            assert(crate::types::att_wf(y[j]));
            crate::types::lemma_popcount_bound(y[j].aggregation_bits.bits@);
        }
    }
    assert forall|i: int| 0 <= i < x.len() implies #[trigger] covers_left(ds, i) by {
        assert(left_use(ds[i]) == Some(i));
    }
    assert forall|j: int| 0 <= j < y.len() implies #[trigger] covers_right(ds, j) by {
        assert(right_use(ds[x.len() + j]) == Some(j));
    }
    assert forall|k: int| 0 <= k < ds.len() && k < x.len() implies left_use(#[trigger] ds[k])
        == Some(k) by {}
    assert forall|k: int| 0 <= k < ds.len() && k >= x.len() implies right_use(#[trigger] ds[k])
        == Some(k - x.len()) && left_use(ds[k]).is_none() by {}
}

/// Among matchings of bounded cost a cheapest one exists.
proof fn lemma_min_from_bound(x: Seq<Attestation>, y: Seq<Attestation>, b: int)
    requires
        b >= 0,
        exists|ds: Seq<Delta>| #[trigger] valid_deltas(x, y, ds) && deltas_cost(ds) <= b,
    ensures
        exists|c: int| #[trigger] is_min_cost(x, y, c),
    decreases b,
{
    let ds0 = choose|ds: Seq<Delta>| #[trigger] valid_deltas(x, y, ds) && deltas_cost(ds) <= b;
    lemma_deltas_cost_nonneg(ds0);
    if b == 0 {
        assert(valid_deltas(x, y, ds0) && deltas_cost(ds0) == 0);
        assert(is_min_cost(x, y, 0)) by {
            assert forall|ds: Seq<Delta>| #[trigger] valid_deltas(x, y, ds) implies deltas_cost(ds)
                >= 0 by {
                lemma_deltas_cost_nonneg(ds);
            }
        }
    } else if exists|ds: Seq<Delta>| #[trigger] valid_deltas(x, y, ds) && deltas_cost(ds) <= b
        - 1 {
        lemma_min_from_bound(x, y, b - 1);
    } else {
        // every matching costs at least `b`, and one costs exactly `b`
        assert(deltas_cost(ds0) == b);
        assert(is_min_cost(x, y, b)) by {
            assert forall|ds: Seq<Delta>| #[trigger] valid_deltas(x, y, ds) implies deltas_cost(ds)
                >= b by {
                lemma_deltas_cost_nonneg(ds);
                if deltas_cost(ds) < b {
                    assert(valid_deltas(x, y, ds) && deltas_cost(ds) <= b - 1);
                }
            }
        }
    }
}

/// The metric is total: any two well-formed lists are some distance apart.
pub proof fn lemma_distance_total(x: Seq<Attestation>, y: Seq<Attestation>)
    requires
        x.len() <= MAX_ATTESTATIONS,
        y.len() <= MAX_ATTESTATIONS,
        crate::types::atts_wf(x),
        crate::types::atts_wf(y),
    ensures
        exists|c: int| #[trigger] is_min_cost(x, y, c),
{
    lemma_all_indel_valid(x, y);
    let ds = all_indel_deltas(x, y);
    crate::matching::lemma_valid_cost_bound(x, y, ds);
    assert(valid_deltas(x, y, ds) && deltas_cost(ds) <= 0x10_0000);
    lemma_min_from_bound(x, y, 0x10_0000);
}

/// Triangle inequality: composing a cheapest matching x-to-y with a cheapest
/// matching y-to-z gives a correct matching x-to-z that costs at most the
/// two together, so the cheapest matching x-to-z costs no more either.
#[verifier::rlimit(100)]
pub proof fn lemma_distance_triangle(
    x: Seq<Attestation>,
    y: Seq<Attestation>,
    z: Seq<Attestation>,
    cxy: int,
    cyz: int,
    cxz: int,
)
    requires
        x.len() <= MAX_ATTESTATIONS,
        y.len() <= MAX_ATTESTATIONS,
        z.len() <= MAX_ATTESTATIONS,
        atts_wf(x),
        atts_wf(y),
        atts_wf(z),
        is_min_cost(x, y, cxy),
        is_min_cost(y, z, cyz),
        is_min_cost(x, z, cxz),
    ensures
        cxz <= cxy + cyz,
{
    let ds1 = choose|ds: Seq<Delta>| #[trigger] valid_deltas(x, y, ds) && deltas_cost(ds) == cxy;
    let ds2 = choose|ds: Seq<Delta>| #[trigger] valid_deltas(y, z, ds) && deltas_cost(ds) == cyz;

    // The delta covering each position of each list.
    let cover_l1 = |i: int|
        choose|k: int| 0 <= k < ds1.len() && left_use(#[trigger] ds1[k]) == Some(i);
    let cover_r1 = |j: int|
        choose|k: int| 0 <= k < ds1.len() && right_use(#[trigger] ds1[k]) == Some(j);
    let cover_l2 = |j: int|
        choose|k: int| 0 <= k < ds2.len() && left_use(#[trigger] ds2[k]) == Some(j);
    let cover_r2 = |l: int|
        choose|k: int| 0 <= k < ds2.len() && right_use(#[trigger] ds2[k]) == Some(l);

    assert forall|i: int| 0 <= i < x.len() implies 0 <= #[trigger] cover_l1(i) < ds1.len()
        && left_use(ds1[cover_l1(i)]) == Some(i) by {
        assert(covers_left(ds1, i));
        let k0 = choose|k: int| 0 <= k < ds1.len() && left_use(#[trigger] ds1[k]) == Some(i);
        assert(0 <= k0 < ds1.len() && left_use(ds1[k0]) == Some(i));
    }
    assert forall|j: int| 0 <= j < y.len() implies 0 <= #[trigger] cover_r1(j) < ds1.len()
        && right_use(ds1[cover_r1(j)]) == Some(j) by {
        assert(covers_right(ds1, j));
        let k0 = choose|k: int| 0 <= k < ds1.len() && right_use(#[trigger] ds1[k]) == Some(j);
        assert(0 <= k0 < ds1.len() && right_use(ds1[k0]) == Some(j));
    }
    assert forall|j: int| 0 <= j < y.len() implies 0 <= #[trigger] cover_l2(j) < ds2.len()
        && left_use(ds2[cover_l2(j)]) == Some(j) by {
        assert(covers_left(ds2, j));
        let k0 = choose|k: int| 0 <= k < ds2.len() && left_use(#[trigger] ds2[k]) == Some(j);
        assert(0 <= k0 < ds2.len() && left_use(ds2[k0]) == Some(j));
    }
    assert forall|l: int| 0 <= l < z.len() implies 0 <= #[trigger] cover_r2(l) < ds2.len()
        && right_use(ds2[cover_r2(l)]) == Some(l) by {
        assert(covers_right(ds2, l));
        let k0 = choose|k: int| 0 <= k < ds2.len() && right_use(#[trigger] ds2[k]) == Some(l);
        assert(0 <= k0 < ds2.len() && right_use(ds2[k0]) == Some(l));
    }

    // The composed matching: follow each x-position through y into z.
    let comp = |i: int|
        {
            let k1 = cover_l1(i);
            if is_modify(ds1[k1]) && is_modify(ds2[cover_l2(modify_right(ds1[k1]))]) {
                let l = modify_right(ds2[cover_l2(modify_right(ds1[k1]))]);
                Delta::Modify {
                    left: i as usize,
                    right: l as usize,
                    pos_distance: abs_of(i - l) as usize,
                    bit_distance: bits_dist(
                        x[i].aggregation_bits.bits@,
                        z[l].aggregation_bits.bits@,
                    ) as usize,
                }
            } else {
                Delta::InsertLeft { index: i as usize, num_set_bits: pc_att(x[i]) as usize }
            }
        };
    let part1 = Seq::new(x.len(), comp);

    // A z-position is hit when a modification chain reaches it.
    let hit = |l: int| is_modify(ds2[cover_r2(l)]) && col_matched(
        ds1,
        modify_left(ds2[cover_r2(l)]),
    );
    let uz = |l: int| 0 <= l < z.len() && !hit(l);
    let zn = z.len() as int;
    let uu = cnt(uz, zn);
    lemma_cnt_bounds(uz, zn);
    let part2 = Seq::new(
        uu as nat,
        |t: int|
            Delta::InsertRight {
                index: nth_where(uz, t) as usize,
                num_set_bits: pc_att(z[nth_where(uz, t)]) as usize,
            },
    );
    let composed = part1 + part2;
    let nn = x.len() + uu;
    assert(composed.len() == nn);

    assert forall|t: int| 0 <= t < uu implies 0 <= #[trigger] nth_where(uz, t) < zn && uz(
        nth_where(uz, t),
    ) && cnt(uz, nth_where(uz, t)) == t by {
        lemma_nth_where(uz, t, zn);
    }

    // What each composed element looks like.
    assert forall|i: int| 0 <= i < x.len() implies left_use(#[trigger] comp(i)) == Some(i) by {}

    // A modification in the composition means its z-position is hit, and the
    // chain that built it is uniquely determined.
    assert forall|i: int| 0 <= i < x.len() && is_modify(#[trigger] comp(i)) implies {
        &&& 0 <= modify_right(comp(i)) < z.len()
        &&& hit(modify_right(comp(i)))
    } by {
        let k1 = cover_l1(i);
        let j = modify_right(ds1[k1]);
        assert(delta_consistent(x, y, ds1[k1]));
        let k2 = cover_l2(j);
        assert(delta_consistent(y, z, ds2[k2]));
        let l = modify_right(ds2[k2]);
        assert(0 <= l < z.len());
        assert(right_use(ds2[cover_r2(l)]) == Some(l));
        assert(right_use(ds2[k2]) == Some(l));
        assert(cover_r2(l) == k2);
        assert(is_modify_to(ds1[k1], j));
        assert(col_matched(ds1, j));
    }

    // Each composed delta is truthful about x and z.
    assert forall|t: int| 0 <= t < nn implies delta_consistent(x, z, #[trigger] composed[t]) by {
        if t < x.len() {
            assert(composed[t] == comp(t));
            let i = t;
            let k1 = cover_l1(i);
            assert(delta_consistent(x, y, ds1[k1]));
            assert(att_wf(x[i]));
            lemma_popcount_bound(x[i].aggregation_bits.bits@);
            if is_modify(ds1[k1]) && is_modify(ds2[cover_l2(modify_right(ds1[k1]))]) {
                let j = modify_right(ds1[k1]);
                let k2 = cover_l2(j);
                assert(delta_consistent(y, z, ds2[k2]));
                let l = modify_right(ds2[k2]);
                assert(left_use(ds2[k2]) == Some(j));
                assert(x[i].data == y[j].data && y[j].data == z[l].data);
                assert(att_wf(z[l]));
                lemma_popcount_bound(
                    xor_upto(
                        x[i].aggregation_bits.bits@,
                        z[l].aggregation_bits.bits@,
                        max_len(x[i].aggregation_bits.bits@, z[l].aggregation_bits.bits@),
                    ),
                );
                crate::types::lemma_bits_dist_nonneg(
                    x[i].aggregation_bits.bits@,
                    z[l].aggregation_bits.bits@,
                );
            }
        } else {
            let l = nth_where(uz, t - x.len());
            assert(composed[t] == part2[t - x.len()]);
            assert(att_wf(z[l]));
            lemma_popcount_bound(z[l].aggregation_bits.bits@);
        }
    }

    // Who pays for each composed delta.
    let costs1 = ds1.map_values(|d: Delta| delta_cost(d));
    let costs2 = ds2.map_values(|d: Delta| delta_cost(d));
    assert forall|k: int| 0 <= k < costs1.len() implies #[trigger] costs1[k] >= 0 by {
        assert(costs1[k] == delta_cost(ds1[k]));
    }
    assert forall|k: int| 0 <= k < costs2.len() implies #[trigger] costs2[k] >= 0 by {
        assert(costs2[k] == delta_cost(ds2[k]));
    }
    let pick_a = |t: int|
        if 0 <= t < x.len() {
            cover_l1(t)
        } else if x.len() <= t < nn {
            if is_modify(ds2[cover_r2(nth_where(uz, t - x.len()))]) {
                cover_r1(modify_left(ds2[cover_r2(nth_where(uz, t - x.len()))]))
            } else {
                -1
            }
        } else {
            -1
        };
    let pick_b = |t: int|
        if 0 <= t < x.len() {
            if is_modify(ds1[cover_l1(t)]) {
                cover_l2(modify_right(ds1[cover_l1(t)]))
            } else {
                -1
            }
        } else if x.len() <= t < nn {
            cover_r2(nth_where(uz, t - x.len()))
        } else {
            -1
        };
    let pa = Seq::new(nn as nat, pick_a);
    let pb = Seq::new(nn as nat, pick_b);
    let vals_a = opt_picks_vals(costs1, pa);
    let vals_b = opt_picks_vals(costs2, pb);

    // Each composed delta costs at most what its payers charge.
    assert forall|t: int| 0 <= t < nn implies delta_cost(#[trigger] composed[t]) <= vals_a[t]
        + vals_b[t] by {
        if t < x.len() {
            let i = t;
            assert(composed[t] == comp(i));
            let k1 = cover_l1(i);
            assert(delta_consistent(x, y, ds1[k1]));
            assert(vals_a[t] == costs1[k1] && costs1[k1] == delta_cost(ds1[k1]));
            if is_modify(ds1[k1]) {
                let j = modify_right(ds1[k1]);
                let k2 = cover_l2(j);
                assert(delta_consistent(y, z, ds2[k2]));
                assert(vals_b[t] == costs2[k2] && costs2[k2] == delta_cost(ds2[k2]));
                assert(left_use(ds2[k2]) == Some(j));
                if is_modify(ds2[k2]) {
                    let l = modify_right(ds2[k2]);
                    crate::types::lemma_bits_dist_triangle(
                        x[i].aggregation_bits.bits@,
                        y[j].aggregation_bits.bits@,
                        z[l].aggregation_bits.bits@,
                    );
                } else {
                    // the y-position is deleted on the way to z
                    crate::types::lemma_popcount_le_dist(
                        x[i].aggregation_bits.bits@,
                        y[j].aggregation_bits.bits@,
                    );
                }
            } else {
                assert(vals_b[t] == 0);
            }
        } else {
            let l = nth_where(uz, t - x.len());
            assert(composed[t] == part2[t - x.len()]);
            let k2 = cover_r2(l);
            assert(delta_consistent(y, z, ds2[k2]));
            assert(vals_b[t] == costs2[k2] && costs2[k2] == delta_cost(ds2[k2]));
            if is_modify(ds2[k2]) {
                let j = modify_left(ds2[k2]);
                assert(right_use(ds2[k2]) == Some(l));
                assert(is_modify_to(ds2[k2], l));
                assert(0 <= j < y.len());
                let k1 = cover_r1(j);
                assert(delta_consistent(x, y, ds1[k1]));
                assert(vals_a[t] == costs1[k1] && costs1[k1] == delta_cost(ds1[k1]));
                // the covering delta of j in ds1 is an insertion: otherwise
                // the chain would hit l
                assert(!is_modify(ds1[k1])) by {
                    if is_modify(ds1[k1]) {
                        assert(is_modify_to(ds1[k1], j));
                        assert(col_matched(ds1, j));
                        assert(hit(l));
                    }
                }
                match ds1[k1] {
                    Delta::Modify { .. } => {},
                    Delta::InsertLeft { .. } => {
                        assert(right_use(ds1[k1]).is_none());
                    },
                    Delta::InsertRight { .. } => {},
                }
                crate::types::lemma_popcount_le_dist(
                    z[l].aggregation_bits.bits@,
                    y[j].aggregation_bits.bits@,
                );
                crate::types::lemma_bits_dist_sym(
                    z[l].aggregation_bits.bits@,
                    y[j].aggregation_bits.bits@,
                );
            } else {
                assert(vals_a[t] == 0);
            }
        }
    }

    // No delta of either matching pays twice.
    assert forall|t: int| 0 <= t < pa.len() implies #[trigger] pa[t] < costs1.len() by {
        assert(pa[t] == pick_a(t));
    }
    assert forall|t: int| 0 <= t < pb.len() implies #[trigger] pb[t] < costs2.len() by {
        assert(pb[t] == pick_b(t));
    }
    assert forall|t1: int, t2: int|
        0 <= t1 < pa.len() && 0 <= t2 < pa.len() && t1 != t2 && #[trigger] pa[t1] >= 0 implies pa[t1]
        != #[trigger] pa[t2] by {
        if pa[t1] == pa[t2] {
            let k = pa[t1];
            if t1 < x.len() && t2 < x.len() {
                assert(left_use(ds1[k]) == Some(t1) && left_use(ds1[k]) == Some(t2));
            } else if t1 >= x.len() && t2 >= x.len() {
                let l1 = nth_where(uz, t1 - x.len());
                let l2 = nth_where(uz, t2 - x.len());
                lemma_nth_where_distinct(uz, t1 - x.len(), t2 - x.len(), zn);
                let j1 = modify_left(ds2[cover_r2(l1)]);
                let j2 = modify_left(ds2[cover_r2(l2)]);
                assert(right_use(ds2[cover_r2(l1)]) == Some(l1));
                assert(right_use(ds2[cover_r2(l2)]) == Some(l2));
                assert(cover_r2(l1) != cover_r2(l2));
                assert(left_use(ds2[cover_r2(l1)]) == Some(j1));
                assert(left_use(ds2[cover_r2(l2)]) == Some(j2));
                assert(j1 != j2);
                assert(right_use(ds1[k]) == Some(j1) && right_use(ds1[k]) == Some(j2));
            } else {
                let tr = if t1 < x.len() { t1 } else { t2 };
                let tc = if t1 < x.len() { t2 } else { t1 };
                let l = nth_where(uz, tc - x.len());
                assert(uz(l) && !hit(l));
                assert(is_modify(ds2[cover_r2(l)]));
                let j = modify_left(ds2[cover_r2(l)]);
                assert(left_use(ds1[k]) == Some(tr));
                assert(right_use(ds1[k]) == Some(j));
                assert(is_modify(ds1[k])) by {
                    match ds1[k] {
                        Delta::Modify { .. } => {},
                        Delta::InsertLeft { .. } => {
                            assert(right_use(ds1[k]).is_none());
                        },
                        Delta::InsertRight { .. } => {
                            assert(left_use(ds1[k]).is_none());
                        },
                    }
                }
                assert(is_modify_to(ds1[k], j));
                assert(col_matched(ds1, j));
                assert(hit(l));
            }
        }
    }
    assert forall|t1: int, t2: int|
        0 <= t1 < pb.len() && 0 <= t2 < pb.len() && t1 != t2 && #[trigger] pb[t1] >= 0 implies pb[t1]
        != #[trigger] pb[t2] by {
        if pb[t1] == pb[t2] {
            let k = pb[t1];
            if t1 < x.len() && t2 < x.len() {
                let ka = cover_l1(t1);
                let kb = cover_l1(t2);
                assert(left_use(ds1[ka]) == Some(t1) && left_use(ds1[kb]) == Some(t2));
                assert(ka != kb);
                let j1 = modify_right(ds1[ka]);
                let j2 = modify_right(ds1[kb]);
                assert(right_use(ds1[ka]) == Some(j1) && right_use(ds1[kb]) == Some(j2));
                assert(j1 != j2);
                assert(left_use(ds2[k]) == Some(j1) && left_use(ds2[k]) == Some(j2));
            } else if t1 >= x.len() && t2 >= x.len() {
                let l1 = nth_where(uz, t1 - x.len());
                let l2 = nth_where(uz, t2 - x.len());
                lemma_nth_where_distinct(uz, t1 - x.len(), t2 - x.len(), zn);
                assert(right_use(ds2[k]) == Some(l1) && right_use(ds2[k]) == Some(l2));
            } else {
                let tr = if t1 < x.len() { t1 } else { t2 };
                let tc = if t1 < x.len() { t2 } else { t1 };
                let l = nth_where(uz, tc - x.len());
                assert(uz(l) && !hit(l));
                let ka = cover_l1(tr);
                let j = modify_right(ds1[ka]);
                assert(left_use(ds2[k]) == Some(j));
                assert(right_use(ds2[k]) == Some(l));
                assert(is_modify(ds2[k])) by {
                    match ds2[k] {
                        Delta::Modify { .. } => {},
                        Delta::InsertLeft { .. } => {
                            assert(right_use(ds2[k]).is_none());
                        },
                        Delta::InsertRight { .. } => {
                            assert(left_use(ds2[k]).is_none());
                        },
                    }
                }
                assert(cover_r2(l) == k) by {
                    assert(right_use(ds2[cover_r2(l)]) == Some(l));
                }
                assert(is_modify_to(ds1[ka], j));
                assert(col_matched(ds1, j));
                assert(modify_left(ds2[k]) == j);
                assert(hit(l));
            }
        }
    }

    // The composition is a correct matching of x against z.
    assert(valid_deltas(x, z, composed)) by {
        assert forall|i: int| 0 <= i < x.len() implies #[trigger] covers_left(composed, i) by {
            assert(left_use(composed[i]) == Some(i));
        }
        assert forall|l: int| 0 <= l < z.len() implies #[trigger] covers_right(composed, l) by {
            if hit(l) {
                let k2 = cover_r2(l);
                assert(right_use(ds2[k2]) == Some(l));
                assert(is_modify_to(ds2[k2], l));
                let j = modify_left(ds2[k2]);
                assert(delta_consistent(y, z, ds2[k2]));
                assert(col_matched(ds1, j));
                let k1 = choose|k: int| 0 <= k < ds1.len() && is_modify_to(#[trigger] ds1[k], j);
                assert(0 <= k1 < ds1.len() && is_modify_to(ds1[k1], j));
                let i = modify_left(ds1[k1]);
                assert(delta_consistent(x, y, ds1[k1]));
                assert(0 <= i < x.len());
                assert(cover_l1(i) == k1) by {
                    assert(left_use(ds1[cover_l1(i)]) == Some(i));
                    assert(left_use(ds1[k1]) == Some(i));
                }
                assert(cover_l2(j) == k2) by {
                    assert(left_use(ds2[cover_l2(j)]) == Some(j));
                    assert(left_use(ds2[k2]) == Some(j));
                }
                assert(right_use(composed[i]) == Some(l));
            } else {
                let r = cnt(uz, l);
                assert(uz(l));
                lemma_cnt_bounds(uz, l);
                assert(cnt(uz, l + 1) == r + 1);
                lemma_cnt_monotone(uz, l + 1, zn);
                let l2 = nth_where(uz, r);
                if l2 < l {
                    assert(cnt(uz, l2 + 1) == r + 1);
                    lemma_cnt_monotone(uz, l2 + 1, l);
                }
                if l < l2 {
                    lemma_cnt_monotone(uz, l + 1, l2);
                }
                assert(l2 == l);
                assert(right_use(composed[x.len() + r]) == Some(l));
            }
        }
        assert forall|k1: int, k2: int|
            0 <= k1 < composed.len() && 0 <= k2 < composed.len() && left_use(
                composed[k1],
            ).is_some() && left_use(composed[k1]) == left_use(composed[k2]) implies k1 == k2 by {
            if k1 < x.len() {
                assert(left_use(composed[k1]) == Some(k1));
            }
            if k2 < x.len() {
                assert(left_use(composed[k2]) == Some(k2));
            }
        }
        assert forall|k1: int, k2: int|
            0 <= k1 < composed.len() && 0 <= k2 < composed.len() && right_use(
                composed[k1],
            ).is_some() && right_use(composed[k1]) == right_use(composed[k2]) implies k1 == k2 by {
            if k1 != k2 {
                let l = right_use(composed[k1]).unwrap();
                if k1 < x.len() && k2 < x.len() {
                    assert(is_modify(comp(k1)) && is_modify(comp(k2)));
                    let ka = cover_l1(k1);
                    let kb = cover_l1(k2);
                    let ja = modify_right(ds1[ka]);
                    let jb = modify_right(ds1[kb]);
                    let k2a = cover_l2(ja);
                    let k2b = cover_l2(jb);
                    assert(right_use(ds2[k2a]) == Some(l) && right_use(ds2[k2b]) == Some(l));
                    assert(k2a == k2b);
                    assert(left_use(ds2[k2a]) == Some(ja) && left_use(ds2[k2b]) == Some(jb));
                    assert(ja == jb);
                    assert(right_use(ds1[ka]) == Some(ja) && right_use(ds1[kb]) == Some(jb));
                    assert(ka == kb);
                    assert(left_use(ds1[ka]) == Some(k1) && left_use(ds1[kb]) == Some(k2));
                } else if k1 >= x.len() && k2 >= x.len() {
                    lemma_nth_where_distinct(uz, k1 - x.len(), k2 - x.len(), zn);
                } else {
                    let tm = if k1 < x.len() { k1 } else { k2 };
                    let tu = if k1 < x.len() { k2 } else { k1 };
                    assert(is_modify(comp(tm)));
                    assert(hit(modify_right(comp(tm))));
                    assert(right_use(composed[tm]) == Some(modify_right(comp(tm))));
                    let lu = nth_where(uz, tu - x.len());
                    assert(right_use(composed[tu]) == Some(lu));
                    assert(uz(lu) && !hit(lu));
                }
            }
        }
    }
    assert(deltas_cost(composed) >= cxz);

    // Chain the sums together.
    let costseq = composed.map_values(|d: Delta| delta_cost(d));
    assert forall|t: int| 0 <= t < nn implies #[trigger] costseq[t] <= Seq::new(
        nn as nat,
        |t2: int| vals_a[t2] + vals_b[t2],
    )[t] by {
        assert(costseq[t] == delta_cost(composed[t]));
    }
    lemma_seq_sum_pointwise_le(costseq, Seq::new(nn as nat, |t2: int| vals_a[t2] + vals_b[t2]));
    assert(Seq::new(nn as nat, |t2: int| vals_a[t2] + vals_b[t2]) =~= Seq::new(
        vals_a.len(),
        |t2: int| vals_a[t2] + vals_b[t2],
    ));
    lemma_seq_sum_pointwise_add(vals_a, vals_b);
    lemma_opt_picks_sum_le(costs1, pa);
    lemma_opt_picks_sum_le(costs2, pb);
    assert(deltas_cost(composed) == seq_sum(costseq));
    assert(seq_sum(costs1) == cxy && seq_sum(costs2) == cyz);
}

/// Reduction: every correct delta of minimal cost reduces to the one
/// distance between the lists.
pub proof fn lemma_reduction(x: Seq<Attestation>, y: Seq<Attestation>, ds: Seq<Delta>, c: int)
    requires
        valid_deltas(x, y, ds),
        is_min_cost(x, y, deltas_cost(ds)),
        is_min_cost(x, y, c),
    ensures
        deltas_cost(ds) == c,
{
    lemma_min_cost_unique(x, y, deltas_cost(ds), c);
}

/// Indel calibration: between comparable attestations whose positions are
/// within the calibration range, a modification never costs more than
/// deleting one side and inserting the other.
pub proof fn lemma_indel_calibration(x: Seq<Attestation>, y: Seq<Attestation>, i: int, j: int)
    requires
        0 <= i < x.len(),
        0 <= j < y.len(),
        x[i].data == y[j].data,
        abs_of(i - j) <= INDEL_COST,
    ensures
        abs_of(i - j) + bits_dist(x[i].aggregation_bits.bits@, y[j].aggregation_bits.bits@) <= (
        pc_att(x[i]) + INDEL_COST) + (pc_att(y[j]) + INDEL_COST),
{
    lemma_bits_dist_le_popcounts(x[i].aggregation_bits.bits@, y[j].aggregation_bits.bits@);
}

} // verus!
