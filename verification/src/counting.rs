//! Counting the integers below a bound that satisfy a predicate, and
//! enumerating them in order. This underpins the matching proofs: matched
//! and unmatched rows and columns of an assignment are counted and paired
//! off by rank.

use vstd::prelude::*;

verus! {

/// How many `i` in `[0, upto)` satisfy `p`.
pub open spec fn cnt(p: spec_fn(int) -> bool, upto: int) -> int
    decreases upto,
{
    if upto <= 0 {
        0
    } else {
        cnt(p, upto - 1) + if p(upto - 1) {
            1int
        } else {
            0int
        }
    }
}

pub proof fn lemma_cnt_bounds(p: spec_fn(int) -> bool, upto: int)
    ensures
        0 <= cnt(p, upto),
        upto >= 0 ==> cnt(p, upto) <= upto,
    decreases upto,
{
    if upto > 0 {
        lemma_cnt_bounds(p, upto - 1);
    }
}

pub proof fn lemma_cnt_monotone(p: spec_fn(int) -> bool, a: int, b: int)
    requires
        a <= b,
    ensures
        cnt(p, a) <= cnt(p, b),
    decreases b - a,
{
    if a < b {
        lemma_cnt_monotone(p, a, b - 1);
    }
}

/// Counting a predicate and its complement covers the whole range.
pub proof fn lemma_cnt_complement(p: spec_fn(int) -> bool, q: spec_fn(int) -> bool, upto: int)
    requires
        upto >= 0,
        forall|i: int| 0 <= i < upto ==> (#[trigger] q(i) <==> !p(i)),
    ensures
        cnt(p, upto) + cnt(q, upto) == upto,
    decreases upto,
{
    if upto > 0 {
        lemma_cnt_complement(p, q, upto - 1);
    }
}

/// Striking one satisfying point out of a predicate lowers its count by one.
pub proof fn lemma_cnt_strike(p: spec_fn(int) -> bool, q: spec_fn(int) -> bool, k0: int, upto: int)
    requires
        p(k0),
        0 <= k0,
        forall|i: int| #[trigger] q(i) <==> (p(i) && i != k0),
    ensures
        cnt(q, upto) == cnt(p, upto) - if k0 < upto {
            1int
        } else {
            0int
        },
    decreases upto,
{
    if upto > 0 {
        lemma_cnt_strike(p, q, k0, upto - 1);
    }
}

/// An injection from the satisfiers of `p` below `n` to the satisfiers of
/// `q` below `m` bounds the one count by the other.
pub proof fn lemma_cnt_injection(
    p: spec_fn(int) -> bool,
    q: spec_fn(int) -> bool,
    f: spec_fn(int) -> int,
    n: int,
    m: int,
)
    requires
        n >= 0,
        m >= 0,
        forall|i: int| 0 <= i < n && #[trigger] p(i) ==> 0 <= f(i) < m && q(f(i)),
        forall|i1: int, i2: int|
            0 <= i1 < n && 0 <= i2 < n && p(i1) && p(i2) && #[trigger] f(i1) == #[trigger] f(i2)
                ==> i1 == i2,
    ensures
        cnt(p, n) <= cnt(q, m),
    decreases n,
{
    if n > 0 {
        if p(n - 1) {
            let k0 = f(n - 1);
            let q2 = |j: int| q(j) && j != k0;
            assert(forall|i: int| 0 <= i < n - 1 && #[trigger] p(i) ==> f(i) != k0);
            assert(forall|i: int| 0 <= i < n - 1 && #[trigger] p(i) ==> 0 <= f(i) < m && q2(f(i)));
            lemma_cnt_injection(p, q2, f, n - 1, m);
            lemma_cnt_strike(q, q2, k0, m);
        } else {
            lemma_cnt_injection(p, q, f, n - 1, m);
        }
    } else {
        lemma_cnt_bounds(q, m);
    }
}

/// A predicate true on the whole range counts the whole range.
pub proof fn lemma_cnt_full(p: spec_fn(int) -> bool, upto: int)
    requires
        upto >= 0,
        forall|i: int| 0 <= i < upto ==> #[trigger] p(i),
    ensures
        cnt(p, upto) == upto,
    decreases upto,
{
    if upto > 0 {
        lemma_cnt_full(p, upto - 1);
    }
}

/// The `k`-th satisfier of `q`, in increasing order, counting from zero.
pub open spec fn nth_where(q: spec_fn(int) -> bool, k: int) -> int {
    choose|j: int| j >= 0 && q(j) && cnt(q, j) == k
}

/// Below any bound holding more than `k` satisfiers, a `k`-th satisfier
/// exists; `nth_where` returns it.
pub proof fn lemma_nth_where(q: spec_fn(int) -> bool, k: int, m: int)
    requires
        0 <= k,
        cnt(q, m) > k,
    ensures
        0 <= nth_where(q, k) < m,
        q(nth_where(q, k)),
        cnt(q, nth_where(q, k)) == k,
    decreases m,
{
    lemma_cnt_bounds(q, m);
    if cnt(q, m - 1) > k {
        lemma_nth_where(q, k, m - 1);
    } else {
        // The count steps from `<= k` to `> k` at `m - 1`, so `m - 1` is the
        // `k`-th satisfier.
        assert(q(m - 1) && cnt(q, m - 1) == k);
        let j0 = m - 1;
        assert(j0 >= 0 && q(j0) && cnt(q, j0) == k);
        let j = nth_where(q, k);
        assert(j >= 0 && q(j) && cnt(q, j) == k);
        if j >= m {
            lemma_cnt_monotone(q, m, j);
            assert(cnt(q, j) >= cnt(q, m));
        }
    }
}

/// Distinct ranks give distinct satisfiers.
pub proof fn lemma_nth_where_distinct(q: spec_fn(int) -> bool, k1: int, k2: int, m: int)
    requires
        0 <= k1 < cnt(q, m),
        0 <= k2 < cnt(q, m),
        k1 != k2,
    ensures
        nth_where(q, k1) != nth_where(q, k2),
{
    lemma_nth_where(q, k1, m);
    lemma_nth_where(q, k2, m);
}

} // verus!
