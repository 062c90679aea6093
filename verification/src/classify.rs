//! The closest-match classifier: rank nodes by their distance to the
//! canonical block and decide whether the winner is called, tied by label,
//! or too close to call.

use vstd::prelude::*;

use crate::delta::lemma_to_multiset_insert;

verus! {

/// The significance ratio: the runner-up must be at least this multiple of
/// the winner's distance for a confident call on label mismatch.
pub const SIGNIFICANCE_NUMERATOR: u64 = 2;

pub const SIGNIFICANCE_DENOM: u64 = 1;

/// One node's distance to the canonical block.
pub struct NodeDistance {
    pub name: Vec<u8>,
    pub label: Vec<u8>,
    pub distance: u64,
}

/// What the classifier concluded.
pub enum Classification {
    /// The two closest nodes carry the same label: confidently that label.
    LikelyLabel { label: Vec<u8>, distance: u64 },
    /// The closest node is significantly closer than the runner-up.
    SignificantlyCloser {
        label: Vec<u8>,
        distance: u64,
        second_label: Vec<u8>,
        second_distance: u64,
    },
    /// Too close to call: both candidates are reported.
    TooClose { name: Vec<u8>, distance: u64, second_name: Vec<u8>, second_distance: u64 },
}

/// Classification needs at least one distance.
#[derive(PartialEq, Eq, Structural, Debug, Clone, Copy)]
pub enum ClassifyError {
    InsufficientData,
}

/// Strict lexicographic order on byte strings.
pub open spec fn lex_lt(a: Seq<u8>, b: Seq<u8>) -> bool
    decreases a.len(),
{
    if b.len() == 0 {
        false
    } else if a.len() == 0 {
        true
    } else if a[0] < b[0] {
        true
    } else if a[0] > b[0] {
        false
    } else {
        lex_lt(a.skip(1), b.skip(1))
    }
}

/// Equal prefixes do not decide the order.
proof fn lemma_lex_lt_skip(a: Seq<u8>, b: Seq<u8>, i: int)
    requires
        0 <= i <= a.len(),
        i <= b.len(),
        forall|k: int| 0 <= k < i ==> a[k] == b[k],
    ensures
        lex_lt(a, b) == lex_lt(a.skip(i), b.skip(i)),
    decreases i,
{
    if i > 0 {
        assert(a[0] == b[0]);
        assert forall|k: int| 0 <= k < i - 1 implies a.skip(1)[k] == b.skip(1)[k] by {
            assert(a.skip(1)[k] == a[k + 1]);
            assert(b.skip(1)[k] == b[k + 1]);
        }
        lemma_lex_lt_skip(a.skip(1), b.skip(1), i - 1);
        assert(a.skip(1).skip(i - 1) =~= a.skip(i));
        assert(b.skip(1).skip(i - 1) =~= b.skip(i));
    } else {
        assert(a.skip(0) =~= a);
        assert(b.skip(0) =~= b);
    }
}

/// Compare two byte strings lexicographically.
pub fn bytes_lt(a: &Vec<u8>, b: &Vec<u8>) -> (r: bool)
    ensures
        r == lex_lt(a@, b@),
{
    let mut i: usize = 0;
    loop
        invariant
            0 <= i <= a@.len(),
            i <= b@.len(),
            forall|k: int| 0 <= k < i ==> a@[k] == b@[k],
        decreases a@.len() - i,
    {
        if i >= a.len() || i >= b.len() {
            proof {
                lemma_lex_lt_skip(a@, b@, i as int);
            }
            return a.len() < b.len();
        }
        if a[i] != b[i] {
            proof {
                lemma_lex_lt_skip(a@, b@, i as int);
                assert(a@.skip(i as int)[0] == a@[i as int]);
                assert(b@.skip(i as int)[0] == b@[i as int]);
            }
            return a[i] < b[i];
        }
        i += 1;
    }
}

/// The classifier's ranking order: ascending distance, ties broken by name.
pub open spec fn rank_le(a: NodeDistance, b: NodeDistance) -> bool {
    ||| a.distance < b.distance
    ||| (a.distance == b.distance && (lex_lt(a.name@, b.name@) || a.name@ == b.name@))
}

/// The list is ranked: closest first, names breaking ties.
pub open spec fn ranked(s: Seq<NodeDistance>) -> bool {
    forall|k1: int, k2: int| 0 <= k1 < k2 < s.len() ==> rank_le(#[trigger] s[k1], #[trigger] s[k2])
}

/// What the classifier says of a ranked list: the runner-up standing in for
/// itself when there is only one candidate.
pub open spec fn classification_of(s: Seq<NodeDistance>) -> Classification
    recommends
        s.len() >= 1,
{
    let first = s[0];
    let second = if s.len() >= 2 {
        s[1]
    } else {
        s[0]
    };
    if first.label@ == second.label@ {
        Classification::LikelyLabel { label: first.label, distance: first.distance }
    } else if second.distance as int >= first.distance as int * (SIGNIFICANCE_NUMERATOR as int) / (
    SIGNIFICANCE_DENOM as int) {
        Classification::SignificantlyCloser {
            label: first.label,
            distance: first.distance,
            second_label: second.label,
            second_distance: second.distance,
        }
    } else {
        Classification::TooClose {
            name: first.name,
            distance: first.distance,
            second_name: second.name,
            second_distance: second.distance,
        }
    }
}

/// Is `r` the ranking of `nodes`?
pub open spec fn is_ranking(nodes: Seq<NodeDistance>, r: Seq<NodeDistance>) -> bool {
    &&& r.to_multiset() == nodes.to_multiset()
    &&& ranked(r)
}

/// Rank nodes by distance, ascending, ties broken by name.
fn rank_nodes(nodes: Vec<NodeDistance>) -> (r: Vec<NodeDistance>)
    ensures
        is_ranking(nodes@, r@),
{
    let mut r = nodes;
    if r.len() <= 1 {
        return r;
    }
    let mut i: usize = 1;
    while i < r.len()
        invariant
            1 <= i <= r@.len(),
            r@.to_multiset() == nodes@.to_multiset(),
            ranked(r@.take(i as int)),
        decreases r@.len() - i,
    {
        let mut j: usize = 0;
        while j < i && rank_le_exec(&r[j], &r[i])
            invariant
                0 <= j <= i < r@.len(),
                forall|k: int| 0 <= k < j ==> rank_le(#[trigger] r@[k], r@[i as int]),
            decreases i - j,
        {
            j = j + 1;
        }
        if j < i {
            let ghost pre = r@;
            let v = r.remove(i);
            proof {
                broadcast use vstd::seq_lib::group_to_multiset_ensures;

                assert(pre.remove(i as int).to_multiset() =~= pre.to_multiset().remove(v));
            }
            r.insert(j, v);
            proof {
                broadcast use vstd::seq_lib::group_to_multiset_ensures;

                lemma_to_multiset_insert(pre.remove(i as int), j as int, v);
                assert(pre.to_multiset().count(v) > 0) by {
                    assert(pre.contains(v));
                }
                assert(r@.to_multiset() =~= pre.to_multiset());
                let now = r@;
                assert forall|k1: int, k2: int| 0 <= k1 < k2 < i + 1 implies rank_le(
                    #[trigger] now[k1],
                    #[trigger] now[k2],
                ) by {
                    assert(!rank_le(pre[j as int], pre[i as int]));
                    lemma_rank_total(pre[j as int], pre[i as int]);
                    assert(forall|k: int| 0 <= k < j ==> now[k] == pre[k]);
                    assert(now[j as int] == pre[i as int]);
                    assert(forall|k: int| j < k <= i ==> now[k] == pre[k - 1]);
                    assert forall|ka: int, kb: int| 0 <= ka < kb < i implies rank_le(
                        #[trigger] pre[ka],
                        #[trigger] pre[kb],
                    ) by {
                        assert(pre.take(i as int)[ka] == pre[ka]);
                        assert(pre.take(i as int)[kb] == pre[kb]);
                        assert(rank_le(pre.take(i as int)[ka], pre.take(i as int)[kb]));
                    }
                    lemma_rank_transitive();
                }
                assert(prefix_ranked(r@, i + 1));
            }
        } else {
            proof {
                let now = r@;
                assert forall|k1: int, k2: int| 0 <= k1 < k2 < i + 1 implies rank_le(
                    #[trigger] now[k1],
                    #[trigger] now[k2],
                ) by {
                    if k2 < i {
                        assert(now.take(i as int)[k1] == now[k1]);
                        assert(now.take(i as int)[k2] == now[k2]);
                        assert(rank_le(now.take(i as int)[k1], now.take(i as int)[k2]));
                    } else {
                        assert(rank_le(now[k1], now[i as int]));
                    }
                }
                assert(prefix_ranked(r@, i + 1));
            }
        }
        i += 1;
    }
    proof {
        assert(r@.take(r@.len() as int) =~= r@);
    }
    r
}

/// The prefix of that length is ranked.
spec fn prefix_ranked(s: Seq<NodeDistance>, n: int) -> bool {
    ranked(s.take(n))
}

/// The ranking order is total: of two nodes, one ranks at or before the
/// other.
proof fn lemma_rank_total(a: NodeDistance, b: NodeDistance)
    ensures
        rank_le(a, b) || rank_le(b, a),
{
    lemma_lex_total(a.name@, b.name@);
}

proof fn lemma_lex_total(a: Seq<u8>, b: Seq<u8>)
    ensures
        lex_lt(a, b) || lex_lt(b, a) || a == b,
    decreases a.len(),
{
    if a.len() != 0 && b.len() != 0 && a[0] == b[0] {
        lemma_lex_total(a.skip(1), b.skip(1));
        if !lex_lt(a, b) && !lex_lt(b, a) {
            assert(a.skip(1) == b.skip(1));
            assert(a.len() == b.len());
            assert forall|k: int| 0 <= k < a.len() implies a[k] == b[k] by {
                if k > 0 {
                    assert(a.skip(1)[k - 1] == b.skip(1)[k - 1]);
                }
            }
            assert(a =~= b);
        }
    }
}

/// The ranking order is transitive.
proof fn lemma_rank_transitive()
    ensures
        forall|a: NodeDistance, b: NodeDistance, c: NodeDistance|
            rank_le(a, b) && #[trigger] rank_le(b, c) ==> #[trigger] rank_le(a, c),
{
    assert forall|a: NodeDistance, b: NodeDistance, c: NodeDistance|
        rank_le(a, b) && #[trigger] rank_le(b, c) implies #[trigger] rank_le(a, c) by {
        if a.distance == b.distance && b.distance == c.distance {
            lemma_lex_lt_trans(a.name@, b.name@, c.name@);
        }
    }
}

proof fn lemma_lex_lt_trans(a: Seq<u8>, b: Seq<u8>, c: Seq<u8>)
    ensures
        lex_lt(a, b) && lex_lt(b, c) ==> lex_lt(a, c),
        lex_lt(a, b) && b == c ==> lex_lt(a, c),
        a == b && lex_lt(b, c) ==> lex_lt(a, c),
    decreases a.len() + b.len() + c.len(),
{
    if a.len() != 0 && b.len() != 0 && c.len() != 0 {
        lemma_lex_lt_trans(a.skip(1), b.skip(1), c.skip(1));
    }
}

/// Does `a` rank at or before `b`?
fn rank_le_exec(a: &NodeDistance, b: &NodeDistance) -> (r: bool)
    ensures
        r == rank_le(*a, *b),
{
    if a.distance < b.distance {
        true
    } else if a.distance == b.distance {
        let lt = bytes_lt(&a.name, &b.name);
        if lt {
            true
        } else {
            bytes_eq(&a.name, &b.name)
        }
    } else {
        false
    }
}

/// Are two byte strings equal?
pub fn bytes_eq(a: &Vec<u8>, b: &Vec<u8>) -> (r: bool)
    ensures
        r == (a@ == b@),
{
    if a.len() != b.len() {
        proof {
            assert(a@.len() != b@.len());
        }
        return false;
    }
    let mut i: usize = 0;
    while i < a.len()
        invariant
            0 <= i <= a@.len(),
            a@.len() == b@.len(),
            forall|k: int| 0 <= k < i ==> a@[k] == b@[k],
        decreases a@.len() - i,
    {
        if a[i] != b[i] {
            return false;
        }
        i += 1;
    }
    proof {
        assert(a@ =~= b@);
    }
    true
}

/// Rank the nodes and call the winner: the closest two share a label, or the
/// closest is significantly closer, or it is too close to call. Fails only
/// on an empty input.
pub fn classify(nodes: Vec<NodeDistance>) -> (r: Result<Classification, ClassifyError>)
    ensures
        r.is_ok() <==> nodes@.len() >= 1,
        r matches Err(e) ==> e == ClassifyError::InsufficientData,
        r matches Ok(c) ==> exists|s: Seq<NodeDistance>|
            #[trigger] is_ranking(nodes@, s) && c == classification_of(s),
{
    if nodes.len() == 0 {
        return Err(ClassifyError::InsufficientData);
    }
    let ghost input = nodes@;
    let mut rn = rank_nodes(nodes);
    let ghost s = rn@;
    proof {
        broadcast use vstd::seq_lib::group_to_multiset_ensures;

        assert(rn@.to_multiset().len() == input.to_multiset().len());
        assert(rn@.len() == input.len());
    }
    let first = rn.remove(0);
    if rn.len() == 0 {
        // a single candidate stands in for its own runner-up; the labels
        // then trivially match
        let c = Classification::LikelyLabel { label: first.label, distance: first.distance };
        proof {
            assert(is_ranking(input, s) && c == classification_of(s));
        }
        return Ok(c);
    }
    let second = rn.remove(0);
    proof {
        assert(first == s[0] && second == s[1]);
    }
    let c = if bytes_eq(&first.label, &second.label) {
        Classification::LikelyLabel { label: first.label, distance: first.distance }
    } else if second.distance as u128 * (SIGNIFICANCE_DENOM as u128) >= first.distance as u128 * (
    SIGNIFICANCE_NUMERATOR as u128) {
        proof {
            lemma_ratio(first.distance, second.distance);
        }
        Classification::SignificantlyCloser {
            label: first.label,
            distance: first.distance,
            second_label: second.label,
            second_distance: second.distance,
        }
    } else {
        proof {
            lemma_ratio(first.distance, second.distance);
        }
        Classification::TooClose {
            name: first.name,
            distance: first.distance,
            second_name: second.name,
            second_distance: second.distance,
        }
    };
    proof {
        assert(is_ranking(input, s) && c == classification_of(s));
    }
    Ok(c)
}

/// The significance comparison over words agrees with the integer-division
/// form the specification states.
proof fn lemma_ratio(first: u64, second: u64)
    ensures
        (second as int * SIGNIFICANCE_DENOM as int >= first as int * SIGNIFICANCE_NUMERATOR as int)
            == (second as int >= first as int * SIGNIFICANCE_NUMERATOR as int
            / SIGNIFICANCE_DENOM as int),
{
}

} // verus!
