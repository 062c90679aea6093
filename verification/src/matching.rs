//! The optimal matching between two attestation lists: a square cost matrix
//! over their positions is handed to an assignment solver, and the solution
//! is read back as a delta list that is proved to be a cheapest correct
//! matching.

use vstd::prelude::*;

use crate::counting::{
    lemma_cnt_full,
    cnt, lemma_cnt_bounds, lemma_cnt_complement, lemma_cnt_injection, lemma_cnt_monotone,
    lemma_nth_where, nth_where,
};
use crate::delta::{
    abs_diff, abs_of, covers_left, covers_right, delta_consistent, delta_cost, deltas_cost,
    is_min_cost, left_injective, left_use, lemma_covers_push, lemma_deltas_cost_nonneg,
    lemma_deltas_cost_push, lemma_injective_push, right_injective, right_use, valid_deltas, Delta,
    INDEL_COST, MAX_ATTESTATIONS,
};
use crate::sums::{
    lemma_opt_picks_sum_le, lemma_seq_sum_concat, lemma_seq_sum_pointwise_add, opt_picks_vals,
    seq_sum,
};
use crate::types::{
    att_wf, atts_wf, bits_dist, lemma_bits_dist_le_popcounts, lemma_popcount_bound, max_len,
    popcount, xor_upto, Attestation,
};

verus! {

/// The largest value a cost-matrix cell can take: two full committee
/// bitfields plus two indel charges.
pub const CELL_MAX: usize = 4608;

/// Number of set bits of an attestation's aggregation bitfield.
pub open spec fn pc_att(a: Attestation) -> int {
    popcount(a.aggregation_bits.bits@)
}

/// The longer of the two lists: the side of the square cost matrix.
pub open spec fn list_max(x: Seq<Attestation>, y: Seq<Attestation>) -> int {
    if x.len() >= y.len() {
        x.len() as int
    } else {
        y.len() as int
    }
}

/// The cost of assigning row `i` to column `j` of the square matrix over
/// the positions of `x` and `y`: a comparable pair costs its modification,
/// an incomparable pair a deletion plus an insertion, and a pairing with a
/// virtual (out-of-list) position a single indel.
pub open spec fn pair_cost(x: Seq<Attestation>, y: Seq<Attestation>, i: int, j: int) -> int {
    if i < x.len() && j < y.len() {
        if x[i].data == y[j].data {
            abs_of(i - j) + bits_dist(x[i].aggregation_bits.bits@, y[j].aggregation_bits.bits@)
        } else {
            pc_att(x[i]) + pc_att(y[j]) + 2 * INDEL_COST
        }
    } else if i < x.len() {
        pc_att(x[i]) + INDEL_COST
    } else if j < y.len() {
        pc_att(y[j]) + INDEL_COST
    } else {
        0
    }
}

/// The integer matrix a vector of weight rows holds.
pub open spec fn mat_of(w: Seq<Vec<i64>>) -> Seq<Seq<int>> {
    w.map_values(|r: Vec<i64>| r@.map_values(|c: i64| c as int))
}

/// `a` assigns each of `n` rows its own column.
pub open spec fn is_assignment(a: Seq<int>, n: int) -> bool {
    &&& a.len() == n
    &&& forall|i: int| 0 <= i < n ==> 0 <= #[trigger] a[i] < n
    &&& forall|i1: int, i2: int|
        0 <= i1 < n && 0 <= i2 < n && #[trigger] a[i1] == #[trigger] a[i2] ==> i1 == i2
}

/// Total weight of an assignment.
pub open spec fn assignment_sum(m: Seq<Seq<int>>, a: Seq<int>) -> int {
    seq_sum(Seq::new(a.len(), |i: int| m[i][a[i]]))
}

/// Some row of `v` is assigned column `j`.
pub open spec fn assigns_to(v: Seq<usize>, n: int, j: int) -> bool {
    exists|i: int| 0 <= i < n && #[trigger] v[i] == j as usize
}

/// `v` holds each of the `n` columns exactly once.
pub open spec fn is_permutation_vec(v: Seq<usize>, n: int) -> bool {
    &&& v.len() == n
    &&& forall|i: int| 0 <= i < n ==> #[trigger] v[i] < n
    &&& forall|i1: int, i2: int|
        0 <= i1 < n && 0 <= i2 < n && #[trigger] v[i1] == #[trigger] v[i2] ==> i1 == i2
    &&& forall|j: int| 0 <= j < n ==> #[trigger] assigns_to(v, n, j)
}

/// No assignment on `m` weighs less than `c`.
pub open spec fn min_assignment_total(m: Seq<Seq<int>>, c: int) -> bool {
    forall|a: Seq<int>| is_assignment(a, m.len() as int) ==> #[trigger] assignment_sum(m, a) >= c
}

/// Relies on pathfinding's `kuhn_munkres_min`: on a square weight matrix it
/// returns the columns assigned to the rows by a minimum-weight perfect
/// matching — each row one column, no column twice — together with that
/// matching's total weight.
#[verifier::external_body]
fn solve_min_assignment(w: &Vec<Vec<i64>>) -> (r: (i64, Vec<usize>))
    requires
        w@.len() >= 1,
        forall|i: int| 0 <= i < w@.len() ==> #[trigger] w@[i]@.len() == w@.len(),
        forall|i: int, j: int|
            0 <= i < w@.len() && 0 <= j < w@.len() ==> 0 <= #[trigger] w@[i]@[j] as int
                <= CELL_MAX as int,
    ensures
        is_permutation_vec(r.1@, w@.len() as int),
        r.0 as int == assignment_sum(mat_of(w@), r.1@.map_values(|u: usize| u as int)),
        min_assignment_total(mat_of(w@), r.0 as int),
{
    let m = pathfinding::matrix::Matrix::from_rows(w.iter().cloned()).unwrap();
    let (total, assignment) = pathfinding::kuhn_munkres::kuhn_munkres_min(&m);
    (total, assignment)
}

/// One cell of the cost matrix.
fn pair_cost_exec(x: &Vec<Attestation>, y: &Vec<Attestation>, i: usize, j: usize) -> (c: usize)
    requires
        x@.len() <= MAX_ATTESTATIONS,
        y@.len() <= MAX_ATTESTATIONS,
        atts_wf(x@),
        atts_wf(y@),
        (i as int) < list_max(x@, y@),
        (j as int) < list_max(x@, y@),
    ensures
        c as int == pair_cost(x@, y@, i as int, j as int),
        c <= CELL_MAX,
{
    proof {
        if (i as int) < x@.len() {
            assert(att_wf(x@[i as int]));
            lemma_popcount_bound(x@[i as int].aggregation_bits.bits@);
        }
        if (j as int) < y@.len() {
            assert(att_wf(y@[j as int]));
            lemma_popcount_bound(y@[j as int].aggregation_bits.bits@);
        }
    }
    if i < x.len() && j < y.len() {
        if x[i].data == y[j].data {
            let pd = abs_diff(i, j);
            let bd = x[i].aggregation_bits.distance(&y[j].aggregation_bits);
            proof {
                let a = x@[i as int].aggregation_bits.bits@;
                let b = y@[j as int].aggregation_bits.bits@;
                lemma_popcount_bound(xor_upto(a, b, max_len(a, b)));
            }
            pd + bd
        } else {
            let nl = x[i].aggregation_bits.num_set_bits();
            let nr = y[j].aggregation_bits.num_set_bits();
            nl + nr + 2 * INDEL_COST
        }
    } else if i < x.len() {
        x[i].aggregation_bits.num_set_bits() + INDEL_COST
    } else {
        y[j].aggregation_bits.num_set_bits() + INDEL_COST
    }
}

/// Match two attestation lists position by position: build the square cost
/// matrix, solve the assignment, and read the solution back as deltas. The
/// result is a correct matching, and no correct matching costs less.
#[verifier::loop_isolation(false)]
pub fn compute_matching_att_deltas(x: &Vec<Attestation>, y: &Vec<Attestation>) -> (out: Vec<
    Delta,
>)
    requires
        x@.len() <= MAX_ATTESTATIONS,
        y@.len() <= MAX_ATTESTATIONS,
        atts_wf(x@),
        atts_wf(y@),
    ensures
        valid_deltas(x@, y@, out@),
        is_min_cost(x@, y@, deltas_cost(out@)),
{
    let p = x.len();
    let q = y.len();
    let n = if p >= q {
        p
    } else {
        q
    };
    let mut out: Vec<Delta> = Vec::new();
    if n == 0 {
        proof {
            assert(valid_deltas(x@, y@, out@));
            assert(out@.map_values(|d: Delta| delta_cost(d)) =~= Seq::<int>::empty());
            assert(deltas_cost(out@) == 0);
            assert forall|ds: Seq<Delta>| #[trigger]
                valid_deltas(x@, y@, ds) implies deltas_cost(ds) >= 0 by {
                lemma_deltas_cost_nonneg(ds);
            }
        }
        return out;
    }
    // The square cost matrix over positions of both lists.
    let mut w: Vec<Vec<i64>> = Vec::new();
    let mut i: usize = 0;
    while i < n
        invariant
            w@.len() == i,
            0 <= i <= n,
            forall|i2: int| 0 <= i2 < i ==> #[trigger] w@[i2]@.len() == n,
            forall|i2: int, j2: int|
                0 <= i2 < i && 0 <= j2 < n ==> #[trigger] w@[i2]@[j2] as int == pair_cost(
                    x@,
                    y@,
                    i2,
                    j2,
                ) && 0 <= w@[i2]@[j2] as int <= CELL_MAX as int,
        decreases n - i,
    {
        let mut row: Vec<i64> = Vec::new();
        let mut j: usize = 0;
        while j < n
            invariant
                row@.len() == j,
                0 <= j <= n,
                forall|j2: int|
                    0 <= j2 < j ==> #[trigger] row@[j2] as int == pair_cost(x@, y@, i as int, j2)
                        && 0 <= row@[j2] as int <= CELL_MAX as int,
            decreases n - j,
        {
            let c = pair_cost_exec(x, y, i, j);
            row.push(c as i64);
            j += 1;
        }
        w.push(row);
        i += 1;
    }
    let ghost mat = mat_of(w@);
    proof {
        assert(forall|i2: int| 0 <= i2 < n ==> #[trigger] mat[i2].len() == n);
        assert(forall|i2: int, j2: int|
            0 <= i2 < n && 0 <= j2 < n ==> #[trigger] mat[i2][j2] == pair_cost(x@, y@, i2, j2));
    }
    let (total, assign) = solve_min_assignment(&w);
    let ghost aseq = assign@.map_values(|u: usize| u as int);
    proof {
        assert(is_assignment(aseq, n as int)) by {
            assert forall|i1: int, i2: int|
                0 <= i1 < n && 0 <= i2 < n && #[trigger] aseq[i1] == #[trigger] aseq[i2] implies i1
                == i2 by {
                assert(assign@[i1] == assign@[i2]);
            }
        }
    }
    // Read the assignment back as deltas.
    let mut i: usize = 0;
    while i < n
        invariant
            0 <= i <= n,
            forall|k: int| 0 <= k < out@.len() ==> delta_consistent(x@, y@, #[trigger] out@[k]),
            forall|k: int|
                0 <= k < out@.len() && left_use(#[trigger] out@[k]).is_some() ==> 0 <= left_use(
                    out@[k],
                ).unwrap() < i && left_use(out@[k]).unwrap() < p,
            forall|i2: int| 0 <= i2 < i && i2 < p ==> #[trigger] covers_left(out@, i2),
            forall|k: int|
                0 <= k < out@.len() && right_use(#[trigger] out@[k]).is_some() ==> exists|t: int|
                    0 <= t < i && right_use(out@[k]).unwrap() == #[trigger] aseq[t] && aseq[t] < q,
            forall|t: int| 0 <= t < i && aseq[t] < q ==> #[trigger] covers_right(out@, aseq[t]),
            left_injective(out@),
            right_injective(out@),
            deltas_cost(out@) == assignment_sum(mat, aseq.take(i as int)),
        decreases n - i,
    {
        let j = assign[i];
        let ghost pre = out@;
        proof {
            assert(aseq[i as int] == j as int);
            assert(mat[i as int][j as int] == pair_cost(x@, y@, i as int, j as int));
            // no delta so far uses the fresh column `j`
            assert forall|k: int|
                0 <= k < pre.len() && right_use(#[trigger] pre[k]).is_some() implies right_use(
                pre[k],
            ) != Some(j as int) by {
                let t = choose|t: int|
                    0 <= t < i && right_use(pre[k]).unwrap() == #[trigger] aseq[t] && aseq[t] < q;
                assert(aseq[t] != aseq[i as int]);
            }
        }
        if i < p && j < q {
            if x[i].data == y[j].data {
                let pd = abs_diff(i, j);
                let bd = x[i].aggregation_bits.distance(&y[j].aggregation_bits);
                let d = Delta::Modify { left: i, right: j, pos_distance: pd, bit_distance: bd };
                out.push(d);
                proof {
                    lemma_deltas_cost_push(pre, d);
                    lemma_covers_push(pre, d);
                    lemma_injective_push(pre, d);
                    assert(covers_left(out@, i as int));
                    assert(covers_right(out@, j as int));
                    assert(delta_cost(d) == mat[i as int][j as int]);
                }
            } else {
                let nl = x[i].aggregation_bits.num_set_bits();
                let nr = y[j].aggregation_bits.num_set_bits();
                let dl = Delta::InsertLeft { index: i, num_set_bits: nl };
                let dr = Delta::InsertRight { index: j, num_set_bits: nr };
                out.push(dl);
                proof {
                    lemma_deltas_cost_push(pre, dl);
                    lemma_covers_push(pre, dl);
                    lemma_injective_push(pre, dl);
                }
                let ghost mid = out@;
                out.push(dr);
                proof {
                    assert forall|k: int|
                        0 <= k < mid.len() && right_use(#[trigger] mid[k]).is_some() implies
                        right_use(mid[k]) != Some(j as int) by {
                        assert(mid[k] == pre[k]);
                    }
                    lemma_deltas_cost_push(mid, dr);
                    lemma_covers_push(mid, dr);
                    lemma_injective_push(mid, dr);
                    assert(covers_left(mid, i as int));
                    assert(covers_left(out@, i as int));
                    assert(covers_right(out@, j as int));
                    assert(delta_cost(dl) + delta_cost(dr) == mat[i as int][j as int]);
                }
            }
        } else if i < p {
            let nl = x[i].aggregation_bits.num_set_bits();
            let d = Delta::InsertLeft { index: i, num_set_bits: nl };
            out.push(d);
            proof {
                assert(j >= q);
                lemma_deltas_cost_push(pre, d);
                lemma_covers_push(pre, d);
                lemma_injective_push(pre, d);
                assert(covers_left(out@, i as int));
                assert(delta_cost(d) == mat[i as int][j as int]);
            }
        } else {
            proof {
                assert(q == n && (j as int) < q);
            }
            let nr = y[j].aggregation_bits.num_set_bits();
            let d = Delta::InsertRight { index: j, num_set_bits: nr };
            out.push(d);
            proof {
                lemma_deltas_cost_push(pre, d);
                lemma_covers_push(pre, d);
                lemma_injective_push(pre, d);
                assert(covers_right(out@, j as int));
                assert(delta_cost(d) == mat[i as int][j as int]);
            }
        }
        proof {
            assert(Seq::new((i + 1) as nat, |t: int| mat[t][aseq[t]]).drop_last() =~= Seq::new(
                i as nat,
                |t: int| mat[t][aseq[t]],
            ));
            assert(aseq.take(i + 1).len() == i + 1);
            assert(Seq::new(aseq.take(i + 1).len(), |t: int| mat[t][aseq.take(i + 1)[t]]) =~= Seq::new(
                (i + 1) as nat,
                |t: int| mat[t][aseq[t]],
            ));
            assert(Seq::new(aseq.take(i as int).len(), |t: int| mat[t][aseq.take(i as int)[t]])
                =~= Seq::new(i as nat, |t: int| mat[t][aseq[t]]));
            assert(deltas_cost(out@) == assignment_sum(mat, aseq.take(i + 1)));
            assert forall|i2: int| 0 <= i2 < i + 1 && i2 < p implies #[trigger] covers_left(
                out@,
                i2,
            ) by {
                if i2 < i {
                    assert(covers_left(pre, i2));
                } else {
                    assert(covers_left(out@, i as int));
                }
            }
            assert forall|t: int| 0 <= t < i + 1 && aseq[t] < q implies #[trigger] covers_right(
                out@,
                aseq[t],
            ) by {
                if t < i {
                    assert(covers_right(pre, aseq[t]));
                } else {
                    assert(covers_right(out@, j as int));
                }
            }
            assert forall|k: int|
                0 <= k < out@.len() && left_use(#[trigger] out@[k]).is_some() implies 0 <= left_use(
                out@[k],
            ).unwrap() < i + 1 && left_use(out@[k]).unwrap() < p by {
                if k < pre.len() {
                    assert(out@[k] == pre[k]);
                }
            }
            assert forall|k: int|
                0 <= k < out@.len() && right_use(#[trigger] out@[k]).is_some() implies exists|
                t: int,
            |
                0 <= t < i + 1 && right_use(out@[k]).unwrap() == #[trigger] aseq[t] && aseq[t]
                    < q by {
                if k < pre.len() {
                    assert(out@[k] == pre[k]);
                    let t = choose|t: int|
                        0 <= t < i && right_use(pre[k]).unwrap() == #[trigger] aseq[t] && aseq[t]
                            < q;
                    assert(0 <= t < i + 1 && right_use(out@[k]).unwrap() == aseq[t] && aseq[t]
                        < q);
                } else {
                    assert(right_use(out@[k]).unwrap() == aseq[i as int] && aseq[i as int] < q);
                }
            }
        }
        i += 1;
    }
    proof {
        assert(aseq.take(n as int) =~= aseq);
        assert(deltas_cost(out@) == total as int);
        assert(valid_deltas(x@, y@, out@)) by {
            assert forall|i2: int| 0 <= i2 < x@.len() implies #[trigger] covers_left(out@, i2) by {
                assert(i2 < p);
            }
            assert forall|j2: int| 0 <= j2 < y@.len() implies #[trigger] covers_right(
                out@,
                j2,
            ) by {
                assert(assigns_to(assign@, n as int, j2));
                let t = choose|t: int|
                    0 <= t < n as int && #[trigger] assign@[t] == j2 as usize;
                assert(aseq[t] == j2);
                assert(covers_right(out@, aseq[t]));
            }
        }
        assert forall|ds: Seq<Delta>| #[trigger] valid_deltas(x@, y@, ds) implies deltas_cost(ds)
            >= deltas_cost(out@) by {
            lemma_valid_lower_bound(x@, y@, mat, n as int, ds);
            let a = choose|a: Seq<int>|
                is_assignment(a, n as int) && #[trigger] assignment_sum(mat, a) <= deltas_cost(ds);
            assert(assignment_sum(mat, a) >= total as int);
        }
    }
    out
}

/// A correct matching holds at most one delta per position of either list.
pub proof fn lemma_valid_len_bound(x: Seq<Attestation>, y: Seq<Attestation>, ds: Seq<Delta>)
    requires
        valid_deltas(x, y, ds),
    ensures
        ds.len() <= x.len() + y.len(),
{
    let p = x.len() as int;
    let q = y.len() as int;
    let len = ds.len() as int;
    let everyk = |k: int| true;
    let inrange = |v: int| true;
    let f = |k: int|
        if left_use(ds[k]).is_some() {
            left_use(ds[k]).unwrap()
        } else {
            p + right_use(ds[k]).unwrap()
        };
    assert forall|k: int| 0 <= k < len && #[trigger] everyk(k) implies 0 <= f(k) < p + q
        && inrange(f(k)) by {
        assert(delta_consistent(x, y, ds[k]));
        match ds[k] {
            Delta::Modify { .. } => {},
            Delta::InsertLeft { .. } => {},
            Delta::InsertRight { .. } => {},
        }
    }
    assert forall|k1: int, k2: int|
        0 <= k1 < len && 0 <= k2 < len && everyk(k1) && everyk(k2) && #[trigger] f(k1)
            == #[trigger] f(k2) implies k1 == k2 by {
        assert(delta_consistent(x, y, ds[k1]));
        assert(delta_consistent(x, y, ds[k2]));
        if left_use(ds[k1]).is_some() && left_use(ds[k2]).is_some() {
            assert(left_use(ds[k1]) == left_use(ds[k2]));
        } else if !left_use(ds[k1]).is_some() && !left_use(ds[k2]).is_some() {
            assert(right_use(ds[k1]) == right_use(ds[k2]));
        }
    }
    lemma_cnt_injection(everyk, inrange, f, len, p + q);
    lemma_cnt_full(everyk, len);
    lemma_cnt_bounds(inrange, p + q);
}

/// What one delta can cost, on well-formed lists.
pub proof fn lemma_valid_delta_cost_bound(
    x: Seq<Attestation>,
    y: Seq<Attestation>,
    d: Delta,
)
    requires
        x.len() <= MAX_ATTESTATIONS,
        y.len() <= MAX_ATTESTATIONS,
        atts_wf(x),
        atts_wf(y),
        delta_consistent(x, y, d),
    ensures
        0 <= delta_cost(d) <= crate::types::MAX_COMMITTEE_BITS + 2 * INDEL_COST,
{
    match d {
        Delta::Modify { left, right, .. } => {
            let a = x[left as int].aggregation_bits.bits@;
            let b = y[right as int].aggregation_bits.bits@;
            assert(att_wf(x[left as int]));
            assert(att_wf(y[right as int]));
            lemma_popcount_bound(xor_upto(a, b, max_len(a, b)));
        },
        Delta::InsertLeft { index, .. } => {
            assert(att_wf(x[index as int]));
            lemma_popcount_bound(x[index as int].aggregation_bits.bits@);
        },
        Delta::InsertRight { index, .. } => {
            assert(att_wf(y[index as int]));
            lemma_popcount_bound(y[index as int].aggregation_bits.bits@);
        },
    }
}

/// What a correct matching can cost in all, on well-formed lists: far below
/// what a machine word holds.
pub proof fn lemma_valid_cost_bound(x: Seq<Attestation>, y: Seq<Attestation>, ds: Seq<Delta>)
    requires
        x.len() <= MAX_ATTESTATIONS,
        y.len() <= MAX_ATTESTATIONS,
        atts_wf(x),
        atts_wf(y),
        valid_deltas(x, y, ds),
    ensures
        0 <= deltas_cost(ds) <= 0x10_0000,
{
    lemma_valid_len_bound(x, y, ds);
    lemma_deltas_cost_nonneg(ds);
    let costs = ds.map_values(|d: Delta| delta_cost(d));
    let per = crate::types::MAX_COMMITTEE_BITS + 2 * INDEL_COST;
    assert forall|k: int| 0 <= k < costs.len() implies #[trigger] costs[k] <= per as int by {
        lemma_valid_delta_cost_bound(x, y, ds[k]);
    }
    crate::sums::lemma_seq_sum_bounded(costs, per as int);
    assert((per as int) * costs.len() <= (per as int) * (x.len() + y.len())) by (nonlinear_arith)
        requires
            costs.len() <= x.len() + y.len(),
            per == 2304,
    ;
}

/// Is the delta a modification?
pub open spec fn is_modify(d: Delta) -> bool {
    match d {
        Delta::Modify { .. } => true,
        _ => false,
    }
}

/// Is `d` a modification whose left index is `i`?
pub open spec fn is_modify_of(d: Delta, i: int) -> bool {
    match d {
        Delta::Modify { left, .. } => left as int == i,
        _ => false,
    }
}

/// Is `d` a modification whose right index is `j`?
pub open spec fn is_modify_to(d: Delta, j: int) -> bool {
    match d {
        Delta::Modify { right, .. } => right as int == j,
        _ => false,
    }
}

/// The left index of a modification.
pub open spec fn modify_left(d: Delta) -> int {
    match d {
        Delta::Modify { left, .. } => left as int,
        _ => -1,
    }
}

/// The right index of a modification.
pub open spec fn modify_right(d: Delta) -> int {
    match d {
        Delta::Modify { right, .. } => right as int,
        _ => -1,
    }
}

/// Some modification pairs left index `i`.
pub open spec fn row_matched(ds: Seq<Delta>, i: int) -> bool {
    exists|k: int| 0 <= k < ds.len() && is_modify_of(#[trigger] ds[k], i)
}

/// Some modification pairs right index `j`.
pub open spec fn col_matched(ds: Seq<Delta>, j: int) -> bool {
    exists|k: int| 0 <= k < ds.len() && is_modify_to(#[trigger] ds[k], j)
}

/// The right index paired with matched left index `i`.
pub open spec fn match_col(ds: Seq<Delta>, i: int) -> int {
    let k = choose|k: int| 0 <= k < ds.len() && is_modify_of(#[trigger] ds[k], i);
    modify_right(ds[k])
}

/// Any correct matching pays at least what some whole-matrix assignment
/// pays: its modifications give the matched rows' columns, and its indels
/// pay for pairing the unmatched rows and columns off by rank.
proof fn lemma_valid_lower_bound(
    x: Seq<Attestation>,
    y: Seq<Attestation>,
    m: Seq<Seq<int>>,
    n: int,
    ds: Seq<Delta>,
)
    requires
        x.len() <= MAX_ATTESTATIONS,
        y.len() <= MAX_ATTESTATIONS,
        n == list_max(x, y),
        n >= 1,
        m.len() == n,
        forall|i: int| 0 <= i < n ==> #[trigger] m[i].len() == n,
        forall|i: int, j: int|
            0 <= i < n && 0 <= j < n ==> #[trigger] m[i][j] == pair_cost(x, y, i, j),
        valid_deltas(x, y, ds),
    ensures
        exists|a: Seq<int>|
            is_assignment(a, n) && #[trigger] assignment_sum(m, a) <= deltas_cost(ds),
{
    let p = x.len() as int;
    let q = y.len() as int;
    let len = ds.len() as int;
    let mrow = |i: int| row_matched(ds, i);
    let urow = |i: int| !row_matched(ds, i);
    let mcol = |j: int| col_matched(ds, j);
    let ucol = |j: int| !col_matched(ds, j);
    let dm = |k: int| 0 <= k < ds.len() && is_modify(ds[k]);

    // A modification's endpoints are in range and comparable.
    assert forall|k: int| 0 <= k < ds.len() implies delta_consistent(
        x,
        y,
        #[trigger] ds[k],
    ) by {}

    // Matched rows, matched columns, and modifications are equinumerous.
    assert(cnt(mrow, n) <= cnt(dm, len)) by {
        let f = |i: int| choose|k: int| 0 <= k < ds.len() && is_modify_of(#[trigger] ds[k], i);
        assert forall|i: int| 0 <= i < n && #[trigger] mrow(i) implies 0 <= f(i) < len && dm(
            f(i),
        ) by {
            assert(row_matched(ds, i));
            let k = f(i);
            assert(0 <= k < ds.len() && is_modify_of(ds[k], i));
        }
        assert forall|i1: int, i2: int|
            0 <= i1 < n && 0 <= i2 < n && mrow(i1) && mrow(i2) && #[trigger] f(i1) == #[trigger] f(
                i2,
            ) implies i1 == i2 by {
            assert(is_modify_of(ds[f(i1)], i1));
            assert(is_modify_of(ds[f(i2)], i2));
        }
        lemma_cnt_injection(mrow, dm, f, n, len);
    }
    assert(cnt(dm, len) <= cnt(mrow, n)) by {
        let g = |k: int| modify_left(ds[k]);
        assert forall|k: int| 0 <= k < len && #[trigger] dm(k) implies 0 <= g(k) < n && mrow(
            g(k),
        ) by {
            assert(delta_consistent(x, y, ds[k]));
            assert(is_modify_of(ds[k], g(k)));
        }
        assert forall|k1: int, k2: int|
            0 <= k1 < len && 0 <= k2 < len && dm(k1) && dm(k2) && #[trigger] g(k1) == #[trigger] g(
                k2,
            ) implies k1 == k2 by {
            assert(left_use(ds[k1]).is_some() && left_use(ds[k1]) == left_use(ds[k2]));
        }
        lemma_cnt_injection(dm, mrow, g, len, n);
    }
    assert(cnt(mcol, n) <= cnt(dm, len)) by {
        let f = |j: int| choose|k: int| 0 <= k < ds.len() && is_modify_to(#[trigger] ds[k], j);
        assert forall|j: int| 0 <= j < n && #[trigger] mcol(j) implies 0 <= f(j) < len && dm(
            f(j),
        ) by {
            assert(col_matched(ds, j));
            let k = f(j);
            assert(0 <= k < ds.len() && is_modify_to(ds[k], j));
        }
        assert forall|j1: int, j2: int|
            0 <= j1 < n && 0 <= j2 < n && mcol(j1) && mcol(j2) && #[trigger] f(j1) == #[trigger] f(
                j2,
            ) implies j1 == j2 by {
            assert(is_modify_to(ds[f(j1)], j1));
            assert(is_modify_to(ds[f(j2)], j2));
        }
        lemma_cnt_injection(mcol, dm, f, n, len);
    }
    assert(cnt(dm, len) <= cnt(mcol, n)) by {
        let g = |k: int| modify_right(ds[k]);
        assert forall|k: int| 0 <= k < len && #[trigger] dm(k) implies 0 <= g(k) < n && mcol(
            g(k),
        ) by {
            assert(delta_consistent(x, y, ds[k]));
            assert(is_modify_to(ds[k], g(k)));
        }
        assert forall|k1: int, k2: int|
            0 <= k1 < len && 0 <= k2 < len && dm(k1) && dm(k2) && #[trigger] g(k1) == #[trigger] g(
                k2,
            ) implies k1 == k2 by {
            assert(right_use(ds[k1]).is_some() && right_use(ds[k1]) == right_use(ds[k2]));
        }
        lemma_cnt_injection(dm, mcol, g, len, n);
    }
    lemma_cnt_complement(mrow, urow, n);
    lemma_cnt_complement(mcol, ucol, n);
    assert(cnt(urow, n) == cnt(ucol, n));

    // The assignment: matched rows keep their column; unmatched rows take
    // the unmatched column of the same rank.
    let a = Seq::new(
        n as nat,
        |i: int|
            if row_matched(ds, i) {
                match_col(ds, i)
            } else {
                nth_where(ucol, cnt(urow, i))
            },
    );

    // Facts about matched rows.
    assert forall|i: int| 0 <= i < n && row_matched(ds, i) implies {
        let k = choose|k: int| 0 <= k < ds.len() && is_modify_of(#[trigger] ds[k], i);
        &&& 0 <= k < ds.len()
        &&& is_modify_of(ds[k], i)
        &&& 0 <= a[i] < q
        &&& is_modify_to(ds[k], a[i])
        &&& col_matched(ds, a[i])
        &&& i < p
    } by {
        let k = choose|k: int| 0 <= k < ds.len() && is_modify_of(#[trigger] ds[k], i);
        assert(0 <= k < ds.len() && is_modify_of(ds[k], i));
        assert(delta_consistent(x, y, ds[k]));
        assert(a[i] == modify_right(ds[k]));
        assert(is_modify_to(ds[k], a[i]));
    }

    // Facts about unmatched rows.
    assert forall|i: int| 0 <= i < n && !row_matched(ds, i) implies {
        &&& 0 <= a[i] < n
        &&& !col_matched(ds, a[i])
        &&& cnt(ucol, a[i]) == cnt(urow, i)
    } by {
        let kk = cnt(urow, i);
        lemma_cnt_bounds(urow, i);
        assert(cnt(urow, i + 1) == kk + 1);
        lemma_cnt_monotone(urow, i + 1, n);
        assert(kk < cnt(ucol, n));
        lemma_nth_where(ucol, kk, n);
        assert(ucol(a[i]));
    }

    // The assignment is injective.
    assert(is_assignment(a, n)) by {
        assert forall|i1: int, i2: int|
            0 <= i1 < n && 0 <= i2 < n && #[trigger] a[i1] == #[trigger] a[i2] implies i1 == i2 by {
            if row_matched(ds, i1) && row_matched(ds, i2) {
                let k1 = choose|k: int|
                    0 <= k < ds.len() && is_modify_of(#[trigger] ds[k], i1);
                let k2 = choose|k: int|
                    0 <= k < ds.len() && is_modify_of(#[trigger] ds[k], i2);
                assert(is_modify_to(ds[k1], a[i1]));
                assert(is_modify_to(ds[k2], a[i2]));
                assert(right_use(ds[k1]).is_some() && right_use(ds[k1]) == right_use(ds[k2]));
                assert(k1 == k2);
                assert(is_modify_of(ds[k1], i1) && is_modify_of(ds[k1], i2));
            } else if row_matched(ds, i1) && !row_matched(ds, i2) {
                assert(col_matched(ds, a[i1]) && !col_matched(ds, a[i2]));
            } else if !row_matched(ds, i1) && row_matched(ds, i2) {
                assert(!col_matched(ds, a[i1]) && col_matched(ds, a[i2]));
            } else {
                if i1 != i2 {
                    if i1 < i2 {
                        assert(cnt(urow, i1 + 1) == cnt(urow, i1) + 1);
                        lemma_cnt_monotone(urow, i1 + 1, i2);
                        assert(cnt(ucol, a[i1]) != cnt(ucol, a[i2]));
                    } else {
                        assert(cnt(urow, i2 + 1) == cnt(urow, i2) + 1);
                        lemma_cnt_monotone(urow, i2 + 1, i1);
                        assert(cnt(ucol, a[i1]) != cnt(ucol, a[i2]));
                    }
                }
            }
        }
    }

    // Who pays for each row: the delta owning the row's left index, and,
    // where the row leans on an insertion on the right, that insertion.
    let costs = ds.map_values(|d: Delta| delta_cost(d));
    let rowpick = |i: int|
        if 0 <= i < p {
            choose|k: int| 0 <= k < ds.len() && left_use(#[trigger] ds[k]) == Some(i)
        } else {
            -1
        };
    let colpick = |i: int|
        if 0 <= i < n && !row_matched(ds, i) && a[i] < q {
            choose|k: int| 0 <= k < ds.len() && right_use(#[trigger] ds[k]) == Some(a[i])
        } else {
            -1
        };

    assert forall|t: int| 0 <= t < costs.len() implies #[trigger] costs[t] >= 0 by {
        assert(costs[t] == delta_cost(ds[t]));
    }

    // The row payer exists and owns the row.
    assert forall|i: int| 0 <= i < p implies 0 <= #[trigger] rowpick(i) < ds.len() && left_use(
        ds[rowpick(i)],
    ) == Some(i) by {
        assert(covers_left(ds, i));
        let k0 = choose|k: int| 0 <= k < ds.len() && left_use(#[trigger] ds[k]) == Some(i);
        assert(0 <= k0 < ds.len() && left_use(ds[k0]) == Some(i));
    }

    // The column payer exists and owns the column, and is an insertion.
    assert forall|i: int| 0 <= i < n && !row_matched(ds, i) && a[i] < q implies 0 <= #[trigger] colpick(
        i,
    ) < ds.len() && right_use(ds[colpick(i)]) == Some(a[i]) && costs[colpick(i)] == pc_att(
        y[a[i]],
    ) + INDEL_COST by {
        assert(covers_right(ds, a[i]));
        let k0 = choose|k: int| 0 <= k < ds.len() && right_use(#[trigger] ds[k]) == Some(a[i]);
        assert(0 <= k0 < ds.len() && right_use(ds[k0]) == Some(a[i]));
        let k = colpick(i);
        assert(0 <= k < ds.len() && right_use(ds[k]) == Some(a[i]));
        if is_modify(ds[k]) {
            assert(is_modify_to(ds[k], a[i]));
            assert(col_matched(ds, a[i]));
        }
        assert(delta_consistent(x, y, ds[k]));
        assert(costs[k] == delta_cost(ds[k]));
    }

    let cellseq = Seq::new(n as nat, |i: int| m[i][a[i]]);
    let rv = Seq::new(
        n as nat,
        |i: int|
            if rowpick(i) < 0 {
                0int
            } else {
                costs[rowpick(i)]
            },
    );
    let cv = Seq::new(
        n as nat,
        |i: int|
            if colpick(i) < 0 {
                0int
            } else {
                costs[colpick(i)]
            },
    );

    // Each row's cell is covered by what its payers charge.
    assert forall|i: int| 0 <= i < n implies #[trigger] cellseq[i] <= rv[i] + cv[i] by {
        if row_matched(ds, i) {
            let km = choose|k: int| 0 <= k < ds.len() && is_modify_of(#[trigger] ds[k], i);
            assert(is_modify_of(ds[km], i));
            assert(delta_consistent(x, y, ds[km]));
            assert(i < p);
            let k = rowpick(i);
            assert(left_use(ds[k]) == Some(i));
            assert(left_use(ds[km]) == Some(i));
            assert(k == km);
            let j = a[i];
            assert(is_modify_to(ds[km], j));
            assert(m[i][j] == pair_cost(x, y, i, j));
            assert(x[i].data == y[j].data);
            assert(pair_cost(x, y, i, j) == delta_cost(ds[km]));
            assert(rv[i] == costs[km]);
            assert(cv[i] == 0);
        } else if i < p {
            let k = rowpick(i);
            assert(left_use(ds[k]) == Some(i));
            if is_modify(ds[k]) {
                assert(is_modify_of(ds[k], i));
                assert(row_matched(ds, i));
            }
            assert(delta_consistent(x, y, ds[k]));
            assert(costs[k] == pc_att(x[i]) + INDEL_COST);
            assert(rv[i] == pc_att(x[i]) + INDEL_COST);
            let j = a[i];
            if j < q {
                assert(cv[i] == pc_att(y[j]) + INDEL_COST);
                lemma_bits_dist_le_popcounts(
                    x[i].aggregation_bits.bits@,
                    y[j].aggregation_bits.bits@,
                );
                assert(abs_of(i - j) <= 2 * INDEL_COST);
                assert(m[i][j] == pair_cost(x, y, i, j));
                assert(pair_cost(x, y, i, j) <= rv[i] + cv[i]);
            } else {
                assert(m[i][j] == pc_att(x[i]) + INDEL_COST);
                assert(cv[i] == 0);
            }
        } else {
            // a virtual row: only possible when the right list is longer
            assert(q == n);
            assert(!row_matched(ds, i));
            let j = a[i];
            assert(j < q);
            assert(rv[i] == 0);
            assert(cv[i] == pc_att(y[j]) + INDEL_COST);
            assert(m[i][j] == pair_cost(x, y, i, j));
        }
    }

    // No delta pays twice.
    let picks = Seq::new(n as nat, |i: int| rowpick(i)) + Seq::new(n as nat, |i: int| colpick(i));
    assert forall|t: int| 0 <= t < picks.len() implies #[trigger] picks[t] < costs.len() by {
        if t < n {
            assert(picks[t] == rowpick(t));
        } else {
            assert(picks[t] == colpick(t - n));
        }
    }
    assert forall|t1: int, t2: int|
        0 <= t1 < picks.len() && 0 <= t2 < picks.len() && t1 != t2 && #[trigger] picks[t1]
            >= 0 implies picks[t1] != #[trigger] picks[t2] by {
        if picks[t1] == picks[t2] {
            let k = picks[t1];
            if t1 < n && t2 < n {
                assert(k == rowpick(t1) && k == rowpick(t2));
                assert(left_use(ds[k]) == Some(t1) && left_use(ds[k]) == Some(t2));
            } else if t1 >= n && t2 >= n {
                let i1 = t1 - n;
                let i2 = t2 - n;
                assert(k == colpick(i1) && k == colpick(i2));
                assert(colpick(i1) >= 0 && colpick(i2) >= 0);
                assert(right_use(ds[k]) == Some(a[i1]) && right_use(ds[k]) == Some(a[i2]));
                assert(a[i1] == a[i2]);
                assert(i1 == i2);
            } else {
                let tr = if t1 < n {
                    t1
                } else {
                    t2
                };
                let tc = if t1 < n {
                    t2 - n
                } else {
                    t1 - n
                };
                assert(k == rowpick(tr) && k == colpick(tc));
                assert(colpick(tc) >= 0 && rowpick(tr) >= 0);
                assert(left_use(ds[k]) == Some(tr));
                assert(right_use(ds[k]) == Some(a[tc]));
                assert(!is_modify(ds[k]));
                match ds[k] {
                    Delta::Modify { .. } => {
                        assert(false);
                    },
                    Delta::InsertLeft { .. } => {
                        assert(right_use(ds[k]).is_none());
                    },
                    Delta::InsertRight { .. } => {
                        assert(left_use(ds[k]).is_none());
                    },
                }
            }
        }
    }

    // Chain the sums together.
    crate::sums::lemma_seq_sum_pointwise_le(cellseq, Seq::new(n as nat, |i: int| rv[i] + cv[i]));
    lemma_seq_sum_pointwise_add(rv, cv);
    assert(opt_picks_vals(costs, picks) =~= rv + cv);
    lemma_seq_sum_concat(rv, cv);
    lemma_opt_picks_sum_le(costs, picks);
    assert(seq_sum(Seq::new(n as nat, |i: int| rv[i] + cv[i])) == seq_sum(rv) + seq_sum(cv));
    assert(seq_sum(rv + cv) == seq_sum(rv) + seq_sum(cv));
    assert(assignment_sum(m, a) == seq_sum(cellseq)) by {
        assert(Seq::new(a.len(), |i: int| m[i][a[i]]) =~= cellseq);
    }
    assert(deltas_cost(ds) == seq_sum(costs));
    assert(assignment_sum(m, a) <= deltas_cost(ds));
}

} // verus!
