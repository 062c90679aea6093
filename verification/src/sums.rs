//! Sums of integer sequences, with the lemmas the distance proofs lean on.

use vstd::prelude::*;

verus! {

/// Sum of all elements of an integer sequence.
pub open spec fn seq_sum(s: Seq<int>) -> int
    decreases s.len(),
{
    if s.len() == 0 {
        0
    } else {
        seq_sum(s.drop_last()) + s.last()
    }
}

/// A sum over pointwise-smaller elements is smaller.
pub proof fn lemma_seq_sum_pointwise_le(a: Seq<int>, b: Seq<int>)
    requires
        a.len() == b.len(),
        forall|i: int| 0 <= i < a.len() ==> a[i] <= b[i],
    ensures
        seq_sum(a) <= seq_sum(b),
    decreases a.len(),
{
    if a.len() > 0 {
        lemma_seq_sum_pointwise_le(a.drop_last(), b.drop_last());
    }
}

/// A sum of non-negative elements is non-negative.
pub proof fn lemma_seq_sum_nonneg(s: Seq<int>)
    requires
        forall|i: int| 0 <= i < s.len() ==> s[i] >= 0,
    ensures
        seq_sum(s) >= 0,
    decreases s.len(),
{
    if s.len() > 0 {
        lemma_seq_sum_nonneg(s.drop_last());
    }
}

/// Among non-negative elements, each element is at most the whole sum.
pub proof fn lemma_seq_sum_element_le(s: Seq<int>, i: int)
    requires
        forall|j: int| 0 <= j < s.len() ==> s[j] >= 0,
        0 <= i < s.len(),
    ensures
        s[i] <= seq_sum(s),
    decreases s.len(),
{
    if i == s.len() - 1 {
        lemma_seq_sum_nonneg(s.drop_last());
    } else {
        lemma_seq_sum_element_le(s.drop_last(), i);
    }
}

/// Updating one element moves the sum by the difference.
pub proof fn lemma_seq_sum_update(s: Seq<int>, i: int, v: int)
    requires
        0 <= i < s.len(),
    ensures
        seq_sum(s.update(i, v)) == seq_sum(s) - s[i] + v,
    decreases s.len(),
{
    if i == s.len() - 1 {
        assert(s.update(i, v).drop_last() =~= s.drop_last());
    } else {
        assert(s.update(i, v).drop_last() =~= s.drop_last().update(i, v));
        lemma_seq_sum_update(s.drop_last(), i, v);
    }
}

/// Removing one element subtracts it from the sum.
pub proof fn lemma_seq_sum_remove(s: Seq<int>, i: int)
    requires
        0 <= i < s.len(),
    ensures
        seq_sum(s.remove(i)) == seq_sum(s) - s[i],
    decreases s.len(),
{
    if i == s.len() - 1 {
        assert(s.remove(i) =~= s.drop_last());
    } else {
        assert(s.remove(i).drop_last() =~= s.drop_last().remove(i));
        lemma_seq_sum_remove(s.drop_last(), i);
    }
}

/// Sums are invariant under permutation of the elements.
pub proof fn lemma_seq_sum_permutation(a: Seq<int>, b: Seq<int>)
    requires
        a.to_multiset() == b.to_multiset(),
    ensures
        seq_sum(a) == seq_sum(b),
    decreases a.len(),
{
    broadcast use vstd::seq_lib::group_to_multiset_ensures;

    if a.len() == 0 {
        assert(b.to_multiset().len() == 0);
    } else {
        let v = a.last();
        assert(a.to_multiset().count(v) > 0) by {
            assert(a.contains(v));
        }
        assert(b.contains(v));
        let i = choose|i: int| 0 <= i < b.len() && b[i] == v;
        assert(a.drop_last().push(v) =~= a);
        assert(a.drop_last().to_multiset().insert(v) =~= a.to_multiset());
        assert(b.remove(i).to_multiset() =~= b.to_multiset().remove(v));
        assert(a.drop_last().to_multiset() =~= b.remove(i).to_multiset()) by {
            assert(a.to_multiset().remove(v) =~= a.drop_last().to_multiset());
        }
        lemma_seq_sum_permutation(a.drop_last(), b.remove(i));
        lemma_seq_sum_remove(b, i);
    }
}

/// Concatenation splits a sum.
pub proof fn lemma_seq_sum_concat(a: Seq<int>, b: Seq<int>)
    ensures
        seq_sum(a + b) == seq_sum(a) + seq_sum(b),
    decreases b.len(),
{
    if b.len() == 0 {
        assert(a + b =~= a);
    } else {
        assert((a + b).drop_last() =~= a + b.drop_last());
        lemma_seq_sum_concat(a, b.drop_last());
    }
}

/// A prefix of a non-negative sequence sums to at most the whole.
pub proof fn lemma_seq_sum_prefix_le(s: Seq<int>, i: int)
    requires
        0 <= i <= s.len(),
        forall|j: int| 0 <= j < s.len() ==> s[j] >= 0,
    ensures
        seq_sum(s.take(i)) <= seq_sum(s),
{
    assert(s =~= s.take(i) + s.skip(i));
    lemma_seq_sum_concat(s.take(i), s.skip(i));
    lemma_seq_sum_nonneg(s.skip(i));
}

/// A sequence of elements bounded by `c` sums to at most `c` per element.
pub proof fn lemma_seq_sum_bounded(s: Seq<int>, c: int)
    requires
        forall|j: int| 0 <= j < s.len() ==> s[j] <= c,
    ensures
        seq_sum(s) <= c * s.len(),
    decreases s.len(),
{
    if s.len() > 0 {
        lemma_seq_sum_bounded(s.drop_last(), c);
        assert(c * s.len() == c * (s.len() - 1) + c) by (nonlinear_arith);
    }
}

/// Summing a pointwise sum of two sequences sums each of them.
pub proof fn lemma_seq_sum_pointwise_add(a: Seq<int>, b: Seq<int>)
    requires
        a.len() == b.len(),
    ensures
        seq_sum(Seq::new(a.len(), |i: int| a[i] + b[i])) == seq_sum(a) + seq_sum(b),
    decreases a.len(),
{
    if a.len() > 0 {
        assert(Seq::new(a.len(), |i: int| a[i] + b[i]).drop_last() =~= Seq::new(
            (a.len() - 1) as nat,
            |i: int| a.drop_last()[i] + b.drop_last()[i],
        ));
        lemma_seq_sum_pointwise_add(a.drop_last(), b.drop_last());
    }
}

/// The values drawn from `s` by `picks`, a negative pick drawing nothing.
pub open spec fn opt_picks_vals(s: Seq<int>, picks: Seq<int>) -> Seq<int> {
    Seq::new(
        picks.len(),
        |k: int|
            if picks[k] < 0 {
                0
            } else {
                s[picks[k]]
            },
    )
}

/// Values drawn from a non-negative sequence at pairwise-distinct positions
/// sum to at most the whole.
pub proof fn lemma_opt_picks_sum_le(s: Seq<int>, picks: Seq<int>)
    requires
        forall|i: int| 0 <= i < s.len() ==> s[i] >= 0,
        forall|k: int| 0 <= k < picks.len() ==> #[trigger] picks[k] < s.len(),
        forall|k1: int, k2: int|
            0 <= k1 < picks.len() && 0 <= k2 < picks.len() && k1 != k2 && #[trigger] picks[k1] >= 0
                ==> picks[k1] != #[trigger] picks[k2],
    ensures
        seq_sum(opt_picks_vals(s, picks)) <= seq_sum(s),
    decreases picks.len(),
{
    if picks.len() == 0 {
        lemma_seq_sum_nonneg(s);
    } else {
        let j = picks.last();
        let picks2 = picks.drop_last();
        if j < 0 {
            assert(opt_picks_vals(s, picks).drop_last() =~= opt_picks_vals(s, picks2));
            lemma_opt_picks_sum_le(s, picks2);
        } else {
            let s2 = s.update(j, 0);
            assert(opt_picks_vals(s, picks).drop_last() =~= opt_picks_vals(s2, picks2)) by {
                assert(forall|k: int|
                    0 <= k < picks2.len() && #[trigger] picks2[k] >= 0 ==> picks2[k] != j
                        && s[picks2[k]] == s2[picks2[k]]);
            }
            lemma_opt_picks_sum_le(s2, picks2);
            lemma_seq_sum_update(s, j, 0);
        }
    }
}

} // verus!
