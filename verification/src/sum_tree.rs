//! A flat-array sum tree over `u32` counts.
//!
//! The array holds an implicit complete binary tree: with `S` leaves
//! (`S` a power of two), leaves sit at indices `S-1 .. 2S-2` and every
//! internal node holds the sum of its two children, so the root holds the
//! total. Point query and update, prefix-sum query and inverse-prefix
//! query all walk one root-to-leaf path.
//!
//! The view of a tree is the sequence of its leaf counts; every contract
//! is stated against that sequence through [`prefix_sum`] and [`seq_sum`].

use vstd::prelude::*;

use crate::sums::{lemma_prefix_sum_monotone, lemma_prefix_sum_nonneg, prefix_sum, seq_sum};

verus! {

/// `n` is a power of two.
pub open spec fn is_pow2(n: int) -> bool
    decreases n,
{
    if n <= 0 {
        false
    } else if n == 1 {
        true
    } else {
        n % 2 == 0 && is_pow2(n / 2)
    }
}

/// The least power of two that is `>= n` (for `n >= 1`).
pub open spec fn next_pow2(n: int) -> int
    decreases n,
{
    if n <= 1 {
        1
    } else {
        2 * next_pow2((n + 1) / 2)
    }
}

/// Distinct powers of two are at least a factor of two apart.
proof fn lemma_pow2_double_le(a: int, b: int)
    requires
        is_pow2(a),
        is_pow2(b),
        a < b,
    ensures
        2 * a <= b,
    decreases a,
{
    if a > 1 {
        lemma_pow2_double_le(a / 2, b / 2);
    }
}

/// `next_pow2(n)` is a power of two, is at least `n`, and is less than `2 * n`.
proof fn lemma_next_pow2(n: int)
    requires
        n >= 1,
    ensures
        is_pow2(next_pow2(n)),
        next_pow2(n) >= n,
        next_pow2(n) < 2 * n,
    decreases n,
{
    if n > 1 {
        let m = (n + 1) / 2;
        lemma_next_pow2(m);
        let q = next_pow2(m);
        assert(q >= m && m >= 1);
        if m > 1 {
            if q >= 2 {
                assert(q % 2 == 0);
            }
            assert(q < 2 * m);
            assert(q <= 2 * m - 2);
        }
    }
}

/// The number of leaves of the tree.
pub struct SumTree {
    tree: Vec<u32>,
    start_index: usize,
}

impl View for SumTree {
    type V = Seq<u32>;

    /// A sum tree is seen as the sequence of its leaf counts.
    closed spec fn view(&self) -> Seq<u32> {
        self.tree@.subrange(self.start_index as int, 2 * (self.start_index as int) + 1)
    }
}

impl SumTree {
    /// Number of leaves (a power of two).
    pub closed spec fn size(self) -> int {
        self.start_index as int + 1
    }

    /// Structural invariant: the array has `2S - 1` nodes for `S` leaves,
    /// `S` is a power of two, and every internal node holds the sum of its
    /// children (the sums stated over `int`, so they also never overflowed).
    pub closed spec fn wf(self) -> bool {
        &&& is_pow2(self.size())
        &&& self.size() <= 0x8000_0000
        &&& self.tree@.len() == 2 * self.size() - 1
        &&& forall|k: int| #![trigger self.tree@[2 * k + 1]]
            0 <= k < self.size() - 1 ==> self.tree@[k] as int == self.tree@[2 * k + 1] as int
                + self.tree@[2 * k + 2] as int
    }

    /// Build a tree with `buckets` buckets, every count zero. The leaf count
    /// is rounded up to a power of two; the extra leaves stay at zero.
    pub fn new(buckets: usize) -> (t: SumTree)
        requires
            1 <= buckets <= 0x4000_0000,
        ensures
            t.wf(),
            t@.len() == next_pow2(buckets as int),
            buckets <= t@.len(),
            forall|i: int| 0 <= i < t@.len() ==> t@[i] == 0,
    {
        let start = (upper_power_of_two(buckets as u32) - 1) as usize;
        let mut tree: Vec<u32> = Vec::new();
        let n: usize = 2 * start + 1;
        let mut i: usize = 0;
        while i < n
            invariant
                i <= n,
                tree@.len() == i,
                forall|j: int| 0 <= j < i ==> tree@[j] == 0,
            decreases n - i,
        {
            tree.push(0);
            i = i + 1;
        }
        proof {
            lemma_next_pow2(buckets as int);
        }
        let t = SumTree { tree, start_index: start };
        proof {
            assert(t@.len() == t.size());
        }
        proof {
            assert(t@ =~= t.tree@.subrange(start as int, 2 * (start as int) + 1));
        }
        t
    }

    /// The count of bucket `bucket`.
    pub fn get(&self, bucket: usize) -> (r: u32)
        requires
            self.wf(),
            (bucket as int) < self@.len(),
        ensures
            r == self@[bucket as int],
    {
        let n = self.tree.len();
        assert(bucket + self.start_index < n);
        self.tree[bucket + self.start_index]
    }

    /// The sum of all counts.
    pub fn get_total(&self) -> (r: u32)
        requires
            self.wf(),
        ensures
            r as int == seq_sum(self@),
    {
        proof {
            lemma_node_total(*self);
        }
        self.tree[0]
    }
}

/// Smallest power of two `>= v`.
fn upper_power_of_two(v: u32) -> (r: u32)
    requires
        1 <= v <= 0x4000_0000,
    ensures
        r as int == next_pow2(v as int),
        1 <= r < 0x8000_0000,
{
    let mut p: u32 = 1;
    while p < v
        invariant
            1 <= p,
            is_pow2(p as int),
            (p as int) < 2 * (v as int),
            v <= 0x4000_0000,
        decreases 2 * (v as int) - p,
    {
        p = 2 * p;
    }
    proof {
        lemma_next_pow2(v as int);
        let q = next_pow2(v as int);
        if (p as int) < q {
            lemma_pow2_double_le(p as int, q);
        }
        if q < p as int {
            lemma_pow2_double_le(q, p as int);
        }
    }
    p
}

/// Left edge of the leaf range covered by node `k`, in a tree of `s` leaves.
pub open spec fn node_lo(s: int, k: int) -> int
    decreases k,
{
    if k <= 0 {
        0
    } else if k % 2 == 1 {
        node_lo(s, (k - 1) / 2)
    } else {
        (node_lo(s, (k - 1) / 2) + node_hi(s, (k - 1) / 2)) / 2
    }
}

/// Right edge (exclusive) of the leaf range covered by node `k`.
pub open spec fn node_hi(s: int, k: int) -> int
    decreases k,
{
    if k <= 0 {
        s
    } else if k % 2 == 1 {
        (node_lo(s, (k - 1) / 2) + node_hi(s, (k - 1) / 2)) / 2
    } else {
        node_hi(s, (k - 1) / 2)
    }
}

/// Shape of the implicit tree: node `k` covers a non-empty power-of-two-sized
/// leaf range inside `[0, s)`; the range determines the node index through
/// `s + lo == (k + 1) * width`; leaves (indices `>= s - 1`) cover exactly one
/// leaf, internal nodes at least two.
proof fn lemma_node_shape(s: int, k: int)
    requires
        is_pow2(s),
        0 <= k < 2 * s - 1,
    ensures
        0 <= node_lo(s, k) < node_hi(s, k) <= s,
        s + node_lo(s, k) == (k + 1) * (node_hi(s, k) - node_lo(s, k)),
        is_pow2(node_hi(s, k) - node_lo(s, k)),
        k >= s - 1 ==> node_hi(s, k) == node_lo(s, k) + 1 && node_lo(s, k) == k - (s - 1),
        k < s - 1 ==> node_hi(s, k) - node_lo(s, k) >= 2,
    decreases k,
{
    if k == 0 {
        if s == 1 {
        } else {
            assert(s >= 2);
        }
    } else {
        let p = (k - 1) / 2;
        assert(0 <= p < k);
        assert(p <= s - 2);
        lemma_node_shape(s, p);
        let lo_p = node_lo(s, p);
        let hi_p = node_hi(s, p);
        let wp = hi_p - lo_p;
        assert(wp >= 2);
        assert(wp % 2 == 0);
        let w = wp / 2;
        let lo = node_lo(s, k);
        let hi = node_hi(s, k);
        assert((lo_p + hi_p) / 2 == lo_p + w);
        if k % 2 == 1 {
            assert(k == 2 * p + 1);
            assert(lo == lo_p && hi == lo_p + w);
            assert(s + lo == (p + 1) * wp);
            assert((p + 1) * wp == (2 * p + 2) * w) by (nonlinear_arith)
                requires
                    wp == 2 * w,
            ;
        } else {
            assert(k == 2 * p + 2);
            assert(lo == lo_p + w && hi == hi_p);
            assert(s + lo == (p + 1) * wp + w);
            assert((p + 1) * wp + w == (2 * p + 3) * w) by (nonlinear_arith)
                requires
                    wp == 2 * w,
            ;
        }
        // leaf / internal classification from the index equation
        let wk = hi - lo;
        assert(wk == w);
        if k >= s - 1 {
            if wk >= 2 {
                assert((k + 1) * wk >= (k + 1) * 2) by (nonlinear_arith)
                    requires
                        wk >= 2,
                        k + 1 >= 0,
                ;
                assert(s + lo >= 2 * s);
                assert(false);
            }
            assert(wk == 1);
            assert(s + lo == k + 1) by (nonlinear_arith)
                requires
                    s + lo == (k + 1) * wk,
                    wk == 1,
            ;
        } else {
            if wk == 1 {
                assert(s + lo == k + 1) by (nonlinear_arith)
                    requires
                        s + lo == (k + 1) * wk,
                        wk == 1,
                ;
                assert(lo < 0);
                assert(false);
            }
        }
    }
}

/// An internal node's children cover the two halves of its range.
proof fn lemma_node_children(s: int, k: int)
    requires
        is_pow2(s),
        0 <= k < s - 1,
    ensures
        node_lo(s, 2 * k + 1) == node_lo(s, k),
        node_hi(s, 2 * k + 1) == node_lo(s, 2 * k + 2),
        node_hi(s, 2 * k + 2) == node_hi(s, k),
        node_hi(s, 2 * k + 1) == (node_lo(s, k) + node_hi(s, k)) / 2,
{
    assert((2 * k + 1 - 1) / 2 == k);
    assert((2 * k + 2 - 1) / 2 == k);
    assert((2 * k + 1) % 2 == 1);
    assert((2 * k + 2) % 2 == 0);
}

/// Every node stores the sum of the leaf counts in its range.
proof fn lemma_node_sum(t: SumTree, k: int)
    requires
        t.wf(),
        0 <= k < 2 * t.size() - 1,
    ensures
        t.tree@[k] as int == prefix_sum(t@, node_hi(t.size(), k)) - prefix_sum(
            t@,
            node_lo(t.size(), k),
        ),
    decreases node_hi(t.size(), k) - node_lo(t.size(), k),
{
    let s = t.size();
    lemma_node_shape(s, k);
    let lo = node_lo(s, k);
    let hi = node_hi(s, k);
    if k >= s - 1 {
        assert(t@[lo] == t.tree@[k]);
        assert(prefix_sum(t@, lo + 1) == prefix_sum(t@, lo) + t@[lo]);
    } else {
        lemma_node_children(s, k);
        lemma_node_shape(s, 2 * k + 1);
        lemma_node_shape(s, 2 * k + 2);
        lemma_node_sum(t, 2 * k + 1);
        lemma_node_sum(t, 2 * k + 2);
    }
}

/// The root stores the sum of all counts.
proof fn lemma_node_total(t: SumTree)
    requires
        t.wf(),
    ensures
        t.tree@[0] as int == seq_sum(t@),
{
    lemma_node_sum(t, 0);
    assert(t@.len() == t.size());
    lemma_prefix_sum_nonneg(t@, 0);
}

/// A well-formed tree has at most `2^31` leaves, so a leaf index fits `u32`.
pub proof fn lemma_len_bound(t: SumTree)
    requires
        t.wf(),
    ensures
        t@.len() == t.size() <= 0x8000_0000,
{
}

/// Every node's stored value is at most the total.
proof fn lemma_node_le_total(t: SumTree, k: int)
    requires
        t.wf(),
        0 <= k < 2 * t.size() - 1,
    ensures
        t.tree@[k] as int <= seq_sum(t@),
{
    let s = t.size();
    lemma_node_shape(s, k);
    lemma_node_sum(t, k);
    lemma_node_total(t);
    lemma_prefix_sum_nonneg(t@, node_lo(s, k));
    lemma_prefix_sum_monotone(t@, node_hi(s, k), s);
}


/// `j` lies on the path from node `l` up to the root.
spec fn in_chain(j: int, l: int) -> bool
    decreases l,
{
    j == l || (l > 0 && in_chain(j, (l - 1) / 2))
}

proof fn lemma_chain_le(j: int, l: int)
    requires
        0 <= l,
        in_chain(j, l),
    ensures
        0 <= j <= l,
    decreases l,
{
    if j != l {
        lemma_chain_le(j, (l - 1) / 2);
    }
}

proof fn lemma_chain_root(l: int)
    requires
        0 <= l,
    ensures
        in_chain(0, l),
    decreases l,
{
    if l > 0 {
        lemma_chain_root((l - 1) / 2);
    }
}

proof fn lemma_chain_parent(c: int, l: int)
    requires
        0 <= l,
        c > 0,
        in_chain(c, l),
    ensures
        in_chain((c - 1) / 2, l),
    decreases l,
{
    if c == l {
        assert(in_chain((l - 1) / 2, (l - 1) / 2));
    } else {
        lemma_chain_parent(c, (l - 1) / 2);
    }
}

proof fn lemma_chain_child(j: int, l: int)
    requires
        0 <= l,
        0 <= j,
        in_chain(j, l),
        j != l,
    ensures
        in_chain(2 * j + 1, l) || in_chain(2 * j + 2, l),
    decreases l,
{
    let p = (l - 1) / 2;
    if j == p {
        assert(l == 2 * j + 1 || l == 2 * j + 2);
    } else {
        lemma_chain_child(j, p);
    }
}

proof fn lemma_chain_not_both(j: int, l: int)
    requires
        0 <= j,
        0 <= l,
    ensures
        !(in_chain(2 * j + 1, l) && in_chain(2 * j + 2, l)),
    decreases l,
{
    if in_chain(2 * j + 1, l) && in_chain(2 * j + 2, l) {
        if l == 2 * j + 1 {
            lemma_chain_le(2 * j + 2, l);
        } else if l == 2 * j + 2 {
            assert((l - 1) / 2 == j);
            lemma_chain_le(2 * j + 1, j);
        } else {
            lemma_chain_not_both(j, (l - 1) / 2);
        }
    }
}

/// No chain member lies strictly between a chain member `c` and its parent.
proof fn lemma_chain_gap(j: int, c: int, l: int)
    requires
        0 <= l,
        c > 0,
        in_chain(j, l),
        in_chain(c, l),
        j > (c - 1) / 2,
    ensures
        j >= c,
    decreases l,
{
    if j == l {
        lemma_chain_le(c, l);
    } else {
        if c == l {
            lemma_chain_le(j, (l - 1) / 2);
        } else {
            lemma_chain_gap(j, c, (l - 1) / 2);
        }
    }
}

impl SumTree {
    /// Cumulative count before `bucket`: the sum of the counts of all
    /// buckets below it.
    pub fn get_before(&self, bucket: usize) -> (r: u32)
        requires
            self.wf(),
            (bucket as int) < self@.len(),
        ensures
            r as int == prefix_sum(self@, bucket as int),
    {
        let ghost s = self.size();
        let ghost b = bucket as int;
        let n = self.tree.len();
        let mut ret: u32 = 0;
        let mut index: usize = bucket + self.start_index;
        proof {
            lemma_node_shape(s, index as int);
            lemma_node_total(*self);
            lemma_prefix_sum_nonneg(self@, b);
        }
        while index != 0
            invariant
                self.wf(),
                s == self.size(),
                0 <= b < s,
                b < self@.len(),
                index < 2 * s - 1,
                node_lo(s, index as int) <= b < node_hi(s, index as int),
                ret as int == prefix_sum(self@, b) - prefix_sum(self@, node_lo(s, index as int)),
                seq_sum(self@) <= u32::MAX,
            decreases index,
        {
            let ghost k = index as int;
            let ghost par = (k - 1) / 2;
            proof {
                lemma_node_shape(s, k);
                assert(par < s - 1);
                lemma_node_children(s, par);
                lemma_node_shape(s, par);
            }
            if index % 2 == 0 {
                proof {
                    assert(k == 2 * par + 2);
                    lemma_node_sum(*self, k - 1);
                    lemma_node_total(*self);
                    lemma_prefix_sum_nonneg(self@, node_lo(s, par));
                    lemma_prefix_sum_monotone(self@, b, s);
                    lemma_prefix_sum_monotone(self@, node_lo(s, par), node_lo(s, k));
                }
                let v = self.tree[index - 1];
                ret = ret + v;
            } else {
                proof {
                    assert(k == 2 * par + 1);
                }
            }
            index = (index - 1) / 2;
        }
        ret
    }

    /// Inverse cumulative lookup: the bucket whose cumulative range contains
    /// `value`.
    pub fn get_index(&self, value: u32) -> (sym: usize)
        requires
            self.wf(),
            (value as int) < seq_sum(self@),
        ensures
            (sym as int) < self@.len(),
            prefix_sum(self@, sym as int) <= value as int,
            (value as int) < prefix_sum(self@, sym as int) + self@[sym as int],
    {
        let ghost s = self.size();
        let ghost v0 = value as int;
        let n = self.tree.len();
        let mut index: usize = 0;
        let mut value = value;
        proof {
            lemma_node_total(*self);
        }
        while index < self.start_index
            invariant
                self.wf(),
                s == self.size(),
                n == self.tree@.len(),
                index < 2 * s - 1,
                value as int == v0 - prefix_sum(self@, node_lo(s, index as int)),
                (value as int) < self.tree@[index as int] as int,
            decreases 2 * s - index,
        {
            let ghost k = index as int;
            proof {
                lemma_node_shape(s, k);
                lemma_node_children(s, k);
                lemma_node_sum(*self, 2 * k + 1);
                assert(self.tree@[k] as int == self.tree@[2 * k + 1] as int + self.tree@[2 * k
                    + 2] as int);
            }
            let left = 2 * index + 1;
            let lv = self.tree[left];
            if value < lv {
                index = left;
            } else {
                value = value - lv;
                index = left + 1;
            }
        }
        proof {
            lemma_node_shape(s, index as int);
            assert(self@[index - (s - 1)] == self.tree@[index as int]);
        }
        index - self.start_index
    }

    /// Add `amount` to the count of `bucket`. Every other count, and
    /// nothing else, is left as it was; the total grows by `amount`.
    pub fn increment(&mut self, bucket: u32, amount: u32)
        requires
            old(self).wf(),
            (bucket as int) < old(self)@.len(),
            seq_sum(old(self)@) + amount <= u32::MAX,
        ensures
            final(self).wf(),
            final(self)@ == old(self)@.update(
                bucket as int,
                (old(self)@[bucket as int] + amount) as u32,
            ),
            seq_sum(final(self)@) == seq_sum(old(self)@) + amount,
    {
        let ghost s = old(self).size();
        let ghost leaf = bucket as int + s - 1;
        let ghost t0 = old(self).tree@;
        let n = self.tree.len();
        let mut index: usize = bucket as usize + self.start_index;
        proof {
            assert forall|j: int| !(in_chain(j, leaf) && j > leaf) by {
                if in_chain(j, leaf) {
                    lemma_chain_le(j, leaf);
                }
            }
        }
        while index != 0
            invariant
                old(self).wf(),
                self.start_index == old(self).start_index,
                self.tree@.len() == t0.len(),
                t0 == old(self).tree@,
                s == old(self).size(),
                0 <= (bucket as int) < s,
                leaf == bucket as int + s - 1,
                n == t0.len(),
                index < 2 * s - 1,
                in_chain(index as int, leaf),
                seq_sum(old(self)@) + amount <= u32::MAX,
                forall|j: int|
                    0 <= j < t0.len() ==> #[trigger] self.tree@[j] as int == t0[j] as int + if
                        in_chain(j, leaf) && j > index {
                        amount as int
                    } else {
                        0
                    },
            decreases index,
        {
            let ghost k = index as int;
            let v = self.tree[index];
            proof {
                lemma_node_le_total(*old(self), k);
            }
            self.tree[index] = v + amount;
            proof {
                lemma_chain_parent(k, leaf);
                assert forall|j: int|
                    0 <= j < t0.len() && in_chain(j, leaf) && j > (k - 1) / 2 implies j
                    >= k by {
                    lemma_chain_gap(j, k, leaf);
                }
            }
            index = (index - 1) / 2;
        }
        let v = self.tree[0];
        proof {
            lemma_node_le_total(*old(self), 0);
        }
        self.tree[0] = v + amount;
        proof {
            lemma_chain_root(leaf);
            let t1 = self.tree@;
            assert forall|j: int|
                0 <= j < t0.len() implies #[trigger] t1[j] as int == t0[j] as int + if in_chain(
                j,
                leaf,
            ) {
                amount as int
            } else {
                0
            } by {}
            // the structural invariant survives: on each internal node the
            // added amounts on the two children match the one on the parent
            assert forall|j: int| 0 <= j < s - 1 implies t1[j] as int == #[trigger] t1[2 * j
                + 1] as int + t1[2 * j + 2] as int by {
                lemma_chain_not_both(j, leaf);
                if in_chain(j, leaf) {
                    lemma_chain_child(j, leaf);
                } else {
                    if in_chain(2 * j + 1, leaf) {
                        lemma_chain_parent(2 * j + 1, leaf);
                        assert((2 * j + 1 - 1) / 2 == j);
                        assert(false);
                    }
                    if in_chain(2 * j + 2, leaf) {
                        lemma_chain_parent(2 * j + 2, leaf);
                        assert((2 * j + 2 - 1) / 2 == j);
                        assert(false);
                    }
                }
            }
            assert(self.wf());
            // only the chosen leaf changed, so the view is a point update
            assert forall|i: int| 0 <= i < s && i != bucket as int implies self@[i]
                == old(self)@[i] by {
                if in_chain(i + s - 1, leaf) {
                    if i + s - 1 != leaf {
                        lemma_chain_le(i + s - 1, (leaf - 1) / 2);
                    }
                    assert(i + s - 1 == leaf);
                    assert(false);
                }
            }
            assert(in_chain(leaf, leaf));
            assert(self@ =~= old(self)@.update(
                bucket as int,
                (old(self)@[bucket as int] + amount) as u32,
            ));
            lemma_node_total(*self);
            lemma_node_total(*old(self));
        }
    }
}

} // verus!
