//! The frequency model the arithmetic coder consults.
//!
//! A dictionary keeps one count per symbol and answers the five queries the
//! coder needs: total, point frequency, cumulative frequency before a
//! symbol, inverse lookup, and the shared update policy (one more count,
//! capped per symbol). Encoder and decoder apply the identical policy after
//! every coded symbol, which keeps their models in lock-step.

use vstd::prelude::*;

use crate::sum_tree::{lemma_len_bound, SumTree};
use crate::sums::{
    lemma_prefix_sum_drop_first, lemma_prefix_sum_monotone, lemma_prefix_sum_zero_tail,
    prefix_sum, seq_sum,
};

verus! {

/// Per-symbol frequencies are clamped at this cap.
pub const SYMBOL_MAX_FREQ: u32 = 0x10000;

/// The shared update policy: one more count for `sym`, unless its count
/// already reached the cap.
pub open spec fn bump(f: Seq<u32>, sym: int) -> Seq<u32> {
    if f[sym] < SYMBOL_MAX_FREQ {
        f.update(sym, (f[sym] + 1) as u32)
    } else {
        f
    }
}

/// A dynamic multiset of symbol counts with cumulative queries.
///
/// `freqs()` is the model: the count of each symbol. `inv()` is whatever
/// invariant the implementation carries between calls.
pub trait Dictionary: Sized {
    /// The count of each symbol.
    spec fn freqs(&self) -> Seq<u32>;

    /// Implementation invariant, established by `new` and kept by every call.
    spec fn inv(&self) -> bool;

    /// A dictionary over `n_symbols` symbols, each starting with count one,
    /// so every symbol is codable from the start. The model may carry extra
    /// trailing symbols; their counts stay zero.
    fn new(n_symbols: u32) -> (d: Self)
        requires
            1 <= n_symbols <= 0x1000_0000,
        ensures
            d.inv(),
            n_symbols <= d.freqs().len(),
            forall|i: int| 0 <= i < n_symbols ==> d.freqs()[i] == 1,
            forall|i: int| n_symbols <= i < d.freqs().len() ==> d.freqs()[i] == 0,
    ;

    /// The sum of all counts.
    fn total_frequency(&self) -> (r: u32)
        requires
            self.inv(),
        ensures
            r as int == seq_sum(self.freqs()),
    ;

    /// The count of `sym`.
    fn symbol_frequency(&self, sym: u32) -> (r: u32)
        requires
            self.inv(),
            (sym as int) < self.freqs().len(),
        ensures
            r == self.freqs()[sym as int],
    ;

    /// The symbol whose cumulative range contains `val`.
    fn symbol_lookup(&self, val: u32) -> (sym: u32)
        requires
            self.inv(),
            (val as int) < seq_sum(self.freqs()),
        ensures
            (sym as int) < self.freqs().len(),
            prefix_sum(self.freqs(), sym as int) <= val as int,
            (val as int) < prefix_sum(self.freqs(), sym as int) + self.freqs()[sym as int],
    ;

    /// The sum of the counts of all symbols below `sym`.
    fn frequency_up_to_symbol(&self, sym: u32) -> (r: u32)
        requires
            self.inv(),
            (sym as int) < self.freqs().len(),
        ensures
            r as int == prefix_sum(self.freqs(), sym as int),
    ;

    /// Apply the update policy for `sym`: its count grows by one unless it
    /// reached the cap; nothing else moves.
    fn increment(&mut self, sym: u32)
        requires
            old(self).inv(),
            (sym as int) < old(self).freqs().len(),
            seq_sum(old(self).freqs()) + 1 <= u32::MAX,
        ensures
            final(self).inv(),
            final(self).freqs() == bump(old(self).freqs(), sym as int),
    ;
}

impl Dictionary for SumTree {
    open spec fn freqs(&self) -> Seq<u32> {
        self@
    }

    open spec fn inv(&self) -> bool {
        self.wf()
    }

    fn new(n_symbols: u32) -> (d: SumTree) {
        let mut tree = SumTree::new(n_symbols as usize);
        let ghost len = tree@.len() as int;
        proof {
            lemma_prefix_sum_zero_tail(tree@, 0, len);
        }
        let mut i: u32 = 0;
        while i < n_symbols
            invariant
                tree.wf(),
                i <= n_symbols,
                n_symbols <= len,
                len == tree@.len(),
                seq_sum(tree@) == i,
                forall|j: int| 0 <= j < i ==> tree@[j] == 1,
                forall|j: int| i <= j < len ==> tree@[j] == 0,
            decreases n_symbols - i,
        {
            tree.increment(i, 1);
            i = i + 1;
        }
        tree
    }

    fn total_frequency(&self) -> (r: u32) {
        self.get_total()
    }

    fn symbol_frequency(&self, sym: u32) -> (r: u32) {
        self.get(sym as usize)
    }

    fn symbol_lookup(&self, val: u32) -> (sym: u32) {
        proof {
            lemma_len_bound(*self);
        }
        let s = self.get_index(val);
        s as u32
    }

    fn frequency_up_to_symbol(&self, sym: u32) -> (r: u32) {
        self.get_before(sym as usize)
    }

    fn increment(&mut self, sym: u32) {
        if self.symbol_frequency(sym) < SYMBOL_MAX_FREQ {
            SumTree::increment(self, sym, 1);
        }
    }
}

/// The cumulative frequency starts at zero and, extended over the whole
/// alphabet, reaches the total: `C(0) == 0` and `C(n) == T` whenever the
/// counts from `n` on are zero.
pub proof fn lemma_prefix_sum_edges(f: Seq<u32>, n: int)
    requires
        0 <= n <= f.len(),
        forall|i: int| n <= i < f.len() ==> f[i] == 0,
    ensures
        prefix_sum(f, 0) == 0,
        prefix_sum(f, n) == seq_sum(f),
{
    lemma_prefix_sum_zero_tail(f, n, f.len() as int);
}

/// Inverse lookup is unique: only one symbol's cumulative range contains a
/// given value.
pub proof fn lemma_lookup_unique(f: Seq<u32>, v: int, s1: int, s2: int)
    requires
        0 <= s1 < f.len(),
        0 <= s2 < f.len(),
        prefix_sum(f, s1) <= v < prefix_sum(f, s1) + f[s1],
        prefix_sum(f, s2) <= v < prefix_sum(f, s2) + f[s2],
    ensures
        s1 == s2,
{
    if s1 < s2 {
        assert(prefix_sum(f, s1 + 1) == prefix_sum(f, s1) + f[s1]);
        lemma_prefix_sum_monotone(f, s1 + 1, s2);
    }
    if s2 < s1 {
        assert(prefix_sum(f, s2 + 1) == prefix_sum(f, s2) + f[s2]);
        lemma_prefix_sum_monotone(f, s2 + 1, s1);
    }
}


/// The symbol whose cumulative range contains `v`: the unique `s` with
/// `C(s) <= v < C(s) + f[s]`, written as a left-to-right scan.
pub open spec fn lookup(f: Seq<u32>, v: int) -> int
    decreases f.len(),
{
    if f.len() == 0 {
        0
    } else if v < f[0] {
        0
    } else {
        1 + lookup(f.drop_first(), v - f[0])
    }
}

/// For `0 <= v < T` the scan finds a symbol whose cumulative range does
/// contain `v`.
pub proof fn lemma_lookup_props(f: Seq<u32>, v: int)
    requires
        0 <= v < seq_sum(f),
    ensures
        0 <= lookup(f, v) < f.len(),
        prefix_sum(f, lookup(f, v)) <= v,
        v < prefix_sum(f, lookup(f, v)) + f[lookup(f, v)],
    decreases f.len(),
{
    if f.len() == 0 {
    } else if v < f[0] {
    } else {
        lemma_prefix_sum_drop_first(f, f.len() as int);
        lemma_lookup_props(f.drop_first(), v - f[0]);
        let s2 = lookup(f.drop_first(), v - f[0]);
        lemma_prefix_sum_drop_first(f, 1 + s2);
        assert(f.drop_first()[s2] == f[1 + s2]);
    }
}

} // verus!
