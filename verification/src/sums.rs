//! Sums over sequences of `u32` frequencies, and the lemmas the rest of the
//! crate needs about them.

use vstd::prelude::*;

verus! {

/// Sum of the first `k` entries of `s` (the cumulative frequency before
/// position `k`). Meaningful for `0 <= k <= s.len()`.
pub open spec fn prefix_sum(s: Seq<u32>, k: int) -> int
    decreases k,
{
    if k <= 0 {
        0
    } else {
        prefix_sum(s, k - 1) + s[k - 1]
    }
}

/// Sum of all entries of `s`.
pub open spec fn seq_sum(s: Seq<u32>) -> int {
    prefix_sum(s, s.len() as int)
}

/// Prefix sums only grow as more entries are taken.
pub proof fn lemma_prefix_sum_monotone(s: Seq<u32>, k1: int, k2: int)
    requires
        0 <= k1 <= k2,
    ensures
        prefix_sum(s, k1) <= prefix_sum(s, k2),
    decreases k2 - k1,
{
    if k1 < k2 {
        lemma_prefix_sum_monotone(s, k1, k2 - 1);
    }
}

/// A prefix sum is non-negative.
pub proof fn lemma_prefix_sum_nonneg(s: Seq<u32>, k: int)
    ensures
        0 <= prefix_sum(s, k),
    decreases k,
{
    if k > 0 {
        lemma_prefix_sum_nonneg(s, k - 1);
    }
}

/// If every entry below `k` is at most `c`, the prefix sum is at most `k * c`.
pub proof fn lemma_prefix_sum_bound(s: Seq<u32>, k: int, c: int)
    requires
        0 <= k <= s.len(),
        forall|i: int| 0 <= i < k ==> s[i] <= c,
    ensures
        prefix_sum(s, k) <= k * c,
    decreases k,
{
    if k > 0 {
        lemma_prefix_sum_bound(s, k - 1, c);
        let p1 = prefix_sum(s, k - 1);
        let p = prefix_sum(s, k);
        assert(p == p1 + s[k - 1]);
        assert(p <= k * c) by (nonlinear_arith)
            requires
                p == p1 + s[k - 1],
                p1 <= (k - 1) * c,
                s[k - 1] <= c,
                k > 0,
        ;
    } else {
        assert(k * c == 0) by (nonlinear_arith)
            requires
                k == 0,
        ;
    }
}

/// Two sequences that agree below `k` have the same prefix sum at `k`.
pub proof fn lemma_prefix_sum_agree(s1: Seq<u32>, s2: Seq<u32>, k: int)
    requires
        forall|i: int| 0 <= i < k ==> s1[i] == s2[i],
    ensures
        prefix_sum(s1, k) == prefix_sum(s2, k),
    decreases k,
{
    if k > 0 {
        lemma_prefix_sum_agree(s1, s2, k - 1);
    }
}

/// Entries that are zero from `a` on contribute nothing: the prefix sum at `k`
/// equals the one at `a`.
pub proof fn lemma_prefix_sum_zero_tail(s: Seq<u32>, a: int, k: int)
    requires
        0 <= a <= k,
        forall|i: int| a <= i < k ==> s[i] == 0,
    ensures
        prefix_sum(s, k) == prefix_sum(s, a),
    decreases k - a,
{
    if a < k {
        lemma_prefix_sum_zero_tail(s, a, k - 1);
    }
}

/// Peeling the first entry off relates the two prefix sums.
pub proof fn lemma_prefix_sum_drop_first(s: Seq<u32>, k: int)
    requires
        1 <= k <= s.len(),
    ensures
        prefix_sum(s, k) == s[0] + prefix_sum(s.drop_first(), k - 1),
    decreases k,
{
    if k == 1 {
        assert(prefix_sum(s, 1) == prefix_sum(s, 0) + s[0]);
        assert(prefix_sum(s.drop_first(), 0) == 0);
    } else {
        lemma_prefix_sum_drop_first(s, k - 1);
        assert(s[k - 1] == s.drop_first()[k - 2]);
        assert(prefix_sum(s.drop_first(), k - 1) == prefix_sum(s.drop_first(), k - 2)
            + s.drop_first()[k - 2]);
        assert(prefix_sum(s, k) == prefix_sum(s, k - 1) + s[k - 1]);
    }
}

/// If every entry in `[a, b)` is at least `c`, those entries contribute at
/// least `(b - a) * c`.
pub proof fn lemma_prefix_sum_range_lower(s: Seq<u32>, a: int, b: int, c: int)
    requires
        0 <= a <= b <= s.len(),
        forall|i: int| a <= i < b ==> c <= s[i],
    ensures
        prefix_sum(s, b) - prefix_sum(s, a) >= (b - a) * c,
    decreases b - a,
{
    if a < b {
        lemma_prefix_sum_range_lower(s, a, b - 1, c);
        assert((b - 1 - a) * c + c == (b - a) * c) by (nonlinear_arith);
    } else {
        assert((b - a) * c == 0) by (nonlinear_arith)
            requires
                b == a,
        ;
    }
}

} // verus!
