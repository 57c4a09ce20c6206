//! The adaptive arithmetic coder: integer interval arithmetic with
//! renormalization and deferred-bit (scale) handling, over the 257-symbol
//! alphabet `{0..255, EOF}`.
//!
//! Every executable step is proved equal to a purely mathematical
//! transition system on [`EncoderModel`] / [`DecoderModel`], so the byte
//! stream each side produces is a function of its input alone:
//! `encode` returns exactly [`spec_encode`] of its input, `decode` exactly
//! [`spec_decode`].

use vstd::arithmetic::div_mod::lemma_fundamental_div_mod;
use vstd::prelude::*;

use crate::dictionary::{
    bump, lemma_lookup_props, lemma_lookup_unique, lookup, Dictionary, SYMBOL_MAX_FREQ,
};
use crate::sum_tree::SumTree;
use crate::sums::{
    lemma_prefix_sum_agree, lemma_prefix_sum_bound, lemma_prefix_sum_monotone,
    lemma_prefix_sum_nonneg, lemma_prefix_sum_range_lower, lemma_prefix_sum_zero_tail,
    prefix_sum, seq_sum,
};

verus! {

// The most significant bit of the 32-bit word is kept free, so doubling the
// interval bounds cannot overflow.
pub const MAX_VALUE: u32 = 0x8000_0000;
pub const THREE_QUARTER_VALUE: u32 = 0x6000_0000;
pub const HALF_VALUE: u32 = 0x4000_0000;
pub const QUARTER_VALUE: u32 = 0x2000_0000;

/// 256 byte values plus the in-band end-of-stream marker.
pub const N_SYMBOLS: u32 = 257;
pub const EOF_SYMBOL: u32 = 256;

/// `2^n`, for the small exponents the bit packer and the coder need.
pub open spec fn pow2i(n: nat) -> int
    decreases n,
{
    if n == 0 {
        1
    } else {
        2 * pow2i((n - 1) as nat)
    }
}

proof fn lemma_pow2i_pos(n: nat)
    ensures
        pow2i(n) >= 1,
    decreases n,
{
    if n > 0 {
        lemma_pow2i_pos((n - 1) as nat);
    }
}

proof fn lemma_pow2i_mono(a: nat, b: nat)
    requires
        a <= b,
    ensures
        pow2i(a) <= pow2i(b),
    decreases b,
{
    if a < b {
        lemma_pow2i_mono(a, (b - 1) as nat);
        lemma_pow2i_pos((b - 1) as nat);
    }
}

proof fn lemma_pow2i_vals()
    ensures
        pow2i(7) == 128,
        pow2i(30) == HALF_VALUE,
        pow2i(31) == MAX_VALUE,
{
    reveal_with_fuel(pow2i, 33);
}

/// The mathematical state of the encoder: the interval `[low, high]`, the
/// count of deferred (E3) bits, the model frequencies, and the packed
/// output (whole bytes plus a partial byte of `bit_cnt` bits).
#[verifier::ext_equal]
pub struct EncoderModel {
    pub low: int,
    pub high: int,
    pub scale: nat,
    pub freqs: Seq<u32>,
    pub out: Seq<u8>,
    pub bit_cnt: nat,
    pub bit_buf: int,
}

/// Append one bit to the packed output, MSB first.
pub open spec fn enc_write_bit(m: EncoderModel, b: bool) -> EncoderModel {
    let buf = 2 * m.bit_buf + (if b {
        1int
    } else {
        0int
    });
    if m.bit_cnt == 7 {
        EncoderModel { out: m.out.push(buf as u8), bit_cnt: 0, bit_buf: 0, ..m }
    } else {
        EncoderModel { bit_cnt: m.bit_cnt + 1, bit_buf: buf, ..m }
    }
}

/// Append `n` copies of the same bit.
pub open spec fn enc_write_bits(m: EncoderModel, b: bool, n: nat) -> EncoderModel
    decreases n,
{
    if n == 0 {
        m
    } else {
        enc_write_bit(enc_write_bits(m, b, (n - 1) as nat), b)
    }
}

/// The three renormalization rules, repeated until none applies.
/// E1 (upper half empty) emits a `0` and the deferred `1`s; E2 (lower half
/// empty) emits a `1` and the deferred `0`s; E3 (straddling the midpoint
/// within the middle half) defers one more bit. Each rule doubles the
/// interval.
pub open spec fn enc_renorm(m: EncoderModel) -> EncoderModel
    decreases MAX_VALUE - (m.high - m.low),
{
    if !(0 <= m.low <= m.high < MAX_VALUE) {
        m
    } else if m.high < HALF_VALUE {
        let m1 = enc_write_bits(enc_write_bit(m, false), true, m.scale);
        enc_renorm(
            EncoderModel {
                low: 2 * m.low,
                high: 2 * m.high + 1,
                scale: 0,
                freqs: m.freqs,
                out: m1.out,
                bit_cnt: m1.bit_cnt,
                bit_buf: m1.bit_buf,
            },
        )
    } else if m.low >= HALF_VALUE {
        let m1 = enc_write_bits(enc_write_bit(m, true), false, m.scale);
        enc_renorm(
            EncoderModel {
                low: 2 * (m.low - HALF_VALUE),
                high: 2 * (m.high - HALF_VALUE) + 1,
                scale: 0,
                freqs: m.freqs,
                out: m1.out,
                bit_cnt: m1.bit_cnt,
                bit_buf: m1.bit_buf,
            },
        )
    } else if m.low >= QUARTER_VALUE && m.high < THREE_QUARTER_VALUE {
        enc_renorm(
            EncoderModel {
                low: 2 * (m.low - QUARTER_VALUE),
                high: 2 * (m.high - QUARTER_VALUE) + 1,
                scale: m.scale + 1,
                ..m
            },
        )
    } else {
        m
    }
}

/// Code one symbol: narrow the interval to the symbol's share of the
/// cumulative range, renormalize, then apply the shared update policy.
pub open spec fn enc_push_sym(m: EncoderModel, sym: int) -> EncoderModel {
    let t = seq_sum(m.freqs);
    let sl = (m.high - m.low + 1) / t;
    let cs = prefix_sum(m.freqs, sym);
    let f = m.freqs[sym] as int;
    let m1 = EncoderModel { low: m.low + sl * cs, high: m.low + sl * (cs + f) - 1, ..m };
    let m2 = enc_renorm(m1);
    EncoderModel { freqs: bump(m2.freqs, sym), ..m2 }
}

/// Code a whole byte sequence, in order.
pub open spec fn enc_push_all(m: EncoderModel, input: Seq<u8>) -> EncoderModel
    decreases input.len(),
{
    if input.len() == 0 {
        m
    } else {
        enc_push_all(enc_push_sym(m, input[0] as int), input.drop_first())
    }
}

/// Pad the partial byte with zero bits until the packer is byte-aligned.
pub open spec fn enc_pad(m: EncoderModel) -> EncoderModel
    decreases 8 - m.bit_cnt,
{
    if m.bit_cnt == 0 {
        m
    } else if m.bit_cnt >= 7 {
        enc_write_bit(m, false)
    } else {
        enc_pad(enc_write_bit(m, false))
    }
}

/// Termination: emit the bits that pin the final interval down (so any
/// zero-extension of the stream still decodes the injected EOF), then pad
/// to the byte boundary.
pub open spec fn enc_flush(m: EncoderModel) -> EncoderModel {
    let m1 = if m.low < QUARTER_VALUE {
        enc_write_bits(enc_write_bit(m, false), true, m.scale + 1)
    } else {
        enc_write_bit(m, true)
    };
    enc_pad(m1)
}

/// The initial model: full interval, no deferred bits, every symbol at
/// count one, empty output.
pub open spec fn enc_init() -> EncoderModel {
    EncoderModel {
        low: 0,
        high: MAX_VALUE as int,
        scale: 0,
        freqs: Seq::new(N_SYMBOLS as nat, |i: int| 1u32),
        out: Seq::empty(),
        bit_cnt: 0,
        bit_buf: 0,
    }
}

/// The whole encoder, as a function: code the input bytes, code EOF, flush.
pub open spec fn spec_encode(input: Seq<u8>) -> Seq<u8> {
    enc_flush(enc_push_sym(enc_push_all(enc_init(), input), EOF_SYMBOL as int)).out
}

/// Well-formed frequency model: one count per symbol, each between one and
/// the cap.
pub open spec fn freqs_wf(f: Seq<u32>) -> bool {
    &&& f.len() == N_SYMBOLS
    &&& forall|i: int| 0 <= i < f.len() ==> 1 <= #[trigger] f[i] <= SYMBOL_MAX_FREQ
}

/// The packed-output part of the model is sane: at most seven pending bits,
/// and the partial byte holds only that many.
pub open spec fn enc_bits_ok(m: EncoderModel) -> bool {
    &&& m.bit_cnt <= 7
    &&& 0 <= m.bit_buf < pow2i(m.bit_cnt)
}

/// Invariant of the encoder between symbols. The interval always covers the
/// midpoint with its left end in the lower half, never straddles the middle
/// half alone (that case is consumed by E3), and only the very first state
/// reaches `MAX_VALUE`.
pub open spec fn enc_wf(m: EncoderModel) -> bool {
    &&& freqs_wf(m.freqs)
    &&& 0 <= m.low < HALF_VALUE
    &&& HALF_VALUE <= m.high <= MAX_VALUE
    &&& (m.low < QUARTER_VALUE || m.high >= THREE_QUARTER_VALUE)
    &&& (m.high == MAX_VALUE ==> m.low == 0 && seq_sum(m.freqs) == N_SYMBOLS)
    &&& enc_bits_ok(m)
}

/// A well-formed frequency model keeps its total between the alphabet size
/// and the alphabet size times the cap.
pub proof fn lemma_freqs_total(f: Seq<u32>)
    requires
        freqs_wf(f),
    ensures
        N_SYMBOLS <= seq_sum(f) <= N_SYMBOLS * (SYMBOL_MAX_FREQ as int),
        seq_sum(f) < QUARTER_VALUE,
{
    lemma_prefix_sum_range_lower(f, 0, f.len() as int, 1);
    lemma_prefix_sum_bound(f, f.len() as int, SYMBOL_MAX_FREQ as int);
    lemma_prefix_sum_nonneg(f, 0);
}

/// `enc_write_bits` touches only the packed output, and keeps it sane.
proof fn lemma_write_bits_fields(m: EncoderModel, b: bool, n: nat)
    ensures
        enc_write_bits(m, b, n).low == m.low,
        enc_write_bits(m, b, n).high == m.high,
        enc_write_bits(m, b, n).scale == m.scale,
        enc_write_bits(m, b, n).freqs == m.freqs,
        enc_bits_ok(m) ==> enc_bits_ok(enc_write_bits(m, b, n)),
    decreases n,
{
    if n > 0 {
        lemma_write_bits_fields(m, b, (n - 1) as nat);
    }
}

/// The encode side: reads symbols, writes compressed bytes into an
/// internal buffer.
pub struct Encoder {
    low: u32,
    high: u32,
    scale_counter: u128,
    tree: SumTree,
    out_bytes: Vec<u8>,
    out_bit_counter: u8,
    out_bit_buffer: u8,
}

impl View for Encoder {
    type V = EncoderModel;

    closed spec fn view(&self) -> EncoderModel {
        EncoderModel {
            low: self.low as int,
            high: self.high as int,
            scale: self.scale_counter as nat,
            freqs: self.tree@.take(N_SYMBOLS as int),
            out: self.out_bytes@,
            bit_cnt: self.out_bit_counter as nat,
            bit_buf: self.out_bit_buffer as int,
        }
    }
}

impl Encoder {
    /// The dictionary is intact, its buckets beyond the alphabet are zero,
    /// and the model state is well-formed.
    pub closed spec fn wf(&self) -> bool {
        &&& self.tree.wf()
        &&& N_SYMBOLS <= self.tree@.len()
        &&& (forall|i: int| N_SYMBOLS <= i < self.tree@.len() ==> self.tree@[i] == 0)
        &&& enc_wf(self@)
    }

    /// A fresh encoder in the initial model state.
    pub fn new() -> (enc: Encoder)
        ensures
            enc.wf(),
            enc@ == enc_init(),
    {
        let tree = <SumTree as Dictionary>::new(N_SYMBOLS);
        let enc = Encoder {
            low: 0,
            high: MAX_VALUE,
            scale_counter: 0,
            tree,
            out_bytes: Vec::new(),
            out_bit_counter: 0,
            out_bit_buffer: 0,
        };
        proof {
            assert(enc@.freqs =~= enc_init().freqs);
            assert(enc@ =~= enc_init());
            lemma_freqs_total(enc@.freqs);
            lemma_prefix_sum_bound(enc@.freqs, N_SYMBOLS as int, 1);
        }
        enc
    }

    /// Append one bit to the packed output, MSB first within each byte.
    fn write_bit(&mut self, bit: bool)
        requires
            enc_bits_ok(old(self)@),
        ensures
            final(self)@ == enc_write_bit(old(self)@, bit),
            enc_bits_ok(final(self)@),
            final(self).tree == old(self).tree,
    {
        proof {
            lemma_pow2i_vals();
            lemma_pow2i_mono(old(self)@.bit_cnt, 7);
        }
        self.out_bit_buffer = 2 * self.out_bit_buffer + (if bit {
            1
        } else {
            0
        });
        self.out_bit_counter = self.out_bit_counter + 1;
        if self.out_bit_counter == 8 {
            self.out_bytes.push(self.out_bit_buffer);
            self.out_bit_counter = 0;
            self.out_bit_buffer = 0;
        }
        proof {
            assert(self@ =~= enc_write_bit(old(self)@, bit));
        }
    }

    /// Code one symbol (a byte value, or `EOF_SYMBOL`): narrow the interval
    /// to the symbol's cumulative range, renormalize, and apply the shared
    /// update policy.
    pub fn push_symbol(&mut self, symbol: u32)
        requires
            old(self).wf(),
            symbol < N_SYMBOLS,
            old(self)@.scale + 32 <= u128::MAX,
        ensures
            final(self).wf(),
            final(self)@ == enc_push_sym(old(self)@, symbol as int),
            final(self)@.scale <= old(self)@.scale + 31,
            enc_wf(final(self)@),
            0 <= final(self)@.low < final(self)@.high < MAX_VALUE,
    {
        let ghost m0 = self@;
        let ghost fullf = self.tree@;
        let ghost tcopy = self.tree;
        proof {
            lemma_prefix_sum_agree(fullf.take(N_SYMBOLS as int), fullf, N_SYMBOLS as int);
            lemma_prefix_sum_agree(fullf.take(N_SYMBOLS as int), fullf, symbol as int);
            lemma_prefix_sum_zero_tail(fullf, N_SYMBOLS as int, fullf.len() as int);
            lemma_freqs_total(m0.freqs);
            lemma_prefix_sum_monotone(m0.freqs, symbol as int, N_SYMBOLS as int);
            lemma_prefix_sum_nonneg(m0.freqs, symbol as int);
            assert(prefix_sum(m0.freqs, symbol as int + 1) == prefix_sum(m0.freqs, symbol as int)
                + m0.freqs[symbol as int]);
            lemma_prefix_sum_monotone(m0.freqs, symbol as int + 1, N_SYMBOLS as int);
        }
        let t = self.tree.total_frequency();
        let w = self.high - self.low + 1;
        let slice_length = w / t;
        let slice_begin = self.tree.frequency_up_to_symbol(symbol);
        let slice_end = slice_begin + self.tree.symbol_frequency(symbol);
        proof {
            let wi = w as int;
            let ti = t as int;
            let sl = slice_length as int;
            lemma_fundamental_div_mod(wi, ti);
            assert(wi % ti >= 0) by (nonlinear_arith)
                requires
                    ti > 0,
                    wi >= 0,
            ;
            assert(ti * sl <= wi);
            assert(sl * (slice_end as int) <= sl * ti) by (nonlinear_arith)
                requires
                    slice_end as int <= ti,
                    sl >= 0,
            ;
            assert(sl * ti == ti * sl) by (nonlinear_arith);
            assert(sl >= 1) by (nonlinear_arith)
                requires
                    sl == wi / ti,
                    wi >= ti,
                    ti > 0,
            ;
            assert(sl * (slice_begin as int) <= sl * (slice_end as int)) by (nonlinear_arith)
                requires
                    slice_begin as int <= slice_end as int,
                    sl >= 0,
            ;
            assert(sl * 1 <= sl * (slice_end as int - slice_begin as int)) by (nonlinear_arith)
                requires
                    1 <= slice_end as int - slice_begin as int,
                    sl >= 0,
            ;
            assert(sl * (slice_end as int) - sl * (slice_begin as int) == sl * (slice_end as int
                - slice_begin as int)) by (nonlinear_arith);
            if m0.high == MAX_VALUE {
                assert(ti == 257);
                assert(sl == 0x80000001int / 257);
                assert(sl * 257 <= 0x7fffffff + 257) by (nonlinear_arith)
                    requires
                        sl == 0x80000001int / 257,
                ;
            }
        }
        self.high = self.low + slice_length * slice_end - 1;
        self.low = self.low + slice_length * slice_begin;
        let ghost m1 = self@;
        proof {
            assert(m1 =~= EncoderModel {
                low: m0.low + (slice_length as int) * prefix_sum(m0.freqs, symbol as int),
                high: m0.low + (slice_length as int) * (prefix_sum(m0.freqs, symbol as int)
                    + m0.freqs[symbol as int]) - 1,
                ..m0
            });
            if m0.high == MAX_VALUE {
                assert((0x80000001int / 257) * 257 < 0x80000000int) by (nonlinear_arith);
            }
            assert(m1.high < MAX_VALUE);
        }
        let ghost mut d: nat = 0;
        while self.high < HALF_VALUE || self.low >= HALF_VALUE || (self.low >= QUARTER_VALUE
            && self.high < THREE_QUARTER_VALUE)
            invariant
                enc_bits_ok(self@),
                self.tree == tcopy,
                0 <= self@.low <= self@.high < MAX_VALUE,
                enc_renorm(self@) == enc_renorm(m1),
                self@.freqs == m1.freqs,
                m1.scale + 32 <= u128::MAX,
                self@.scale <= m1.scale + d,
                d <= 31,
                pow2i(d) <= self@.high - self@.low + 1,
            decreases MAX_VALUE - (self@.high - self@.low),
        {
            let ghost mb = self@;
            proof {
                if d >= 31 {
                    lemma_pow2i_mono(31, d);
                    lemma_pow2i_vals();
                    assert(false);
                }
                lemma_pow2i_vals();
            }
            if self.high < HALF_VALUE {
                self.write_bit(false);
                let ghost afterb = self@;
                let n = self.scale_counter;
                let mut j: u128 = 0;
                while j < n
                    invariant
                        j <= n,
                        enc_bits_ok(self@),
                        self@ == enc_write_bits(afterb, true, j as nat),
                        self.tree == tcopy,
                        self.scale_counter == n,
                    decreases n - j,
                {
                    proof {
                        lemma_write_bits_fields(afterb, true, j as nat);
                    }
                    self.write_bit(true);
                    j = j + 1;
                    proof {
                        assert(self@ == enc_write_bits(afterb, true, j as nat));
                    }
                }
                proof {
                    lemma_write_bits_fields(afterb, true, n as nat);
                }
                self.scale_counter = 0;
                self.low = 2 * self.low;
                self.high = 2 * self.high + 1;
                proof {
                    assert(self@ =~= EncoderModel {
                        low: 2 * mb.low,
                        high: 2 * mb.high + 1,
                        scale: 0,
                        freqs: mb.freqs,
                        out: enc_write_bits(enc_write_bit(mb, false), true, mb.scale).out,
                        bit_cnt: enc_write_bits(enc_write_bit(mb, false), true, mb.scale).bit_cnt,
                        bit_buf: enc_write_bits(enc_write_bit(mb, false), true, mb.scale).bit_buf,
                    });
                    assert(enc_renorm(mb) == enc_renorm(self@));
                    lemma_write_bits_fields(enc_write_bit(mb, false), true, mb.scale);
                    d = d + 1;
                }
            } else if self.low >= HALF_VALUE {
                self.write_bit(true);
                let ghost afterb = self@;
                let n = self.scale_counter;
                let mut j: u128 = 0;
                while j < n
                    invariant
                        j <= n,
                        enc_bits_ok(self@),
                        self@ == enc_write_bits(afterb, false, j as nat),
                        self.tree == tcopy,
                        self.scale_counter == n,
                    decreases n - j,
                {
                    proof {
                        lemma_write_bits_fields(afterb, false, j as nat);
                    }
                    self.write_bit(false);
                    j = j + 1;
                    proof {
                        assert(self@ == enc_write_bits(afterb, false, j as nat));
                    }
                }
                proof {
                    lemma_write_bits_fields(afterb, false, n as nat);
                }
                self.scale_counter = 0;
                self.low = 2 * (self.low - HALF_VALUE);
                self.high = 2 * (self.high - HALF_VALUE) + 1;
                proof {
                    assert(self@ =~= EncoderModel {
                        low: 2 * (mb.low - HALF_VALUE),
                        high: 2 * (mb.high - HALF_VALUE) + 1,
                        scale: 0,
                        freqs: mb.freqs,
                        out: enc_write_bits(enc_write_bit(mb, true), false, mb.scale).out,
                        bit_cnt: enc_write_bits(enc_write_bit(mb, true), false, mb.scale).bit_cnt,
                        bit_buf: enc_write_bits(enc_write_bit(mb, true), false, mb.scale).bit_buf,
                    });
                    assert(enc_renorm(mb) == enc_renorm(self@));
                    lemma_write_bits_fields(enc_write_bit(mb, true), false, mb.scale);
                    d = d + 1;
                }
            } else {
                self.scale_counter = self.scale_counter + 1;
                self.low = 2 * (self.low - QUARTER_VALUE);
                self.high = 2 * (self.high - QUARTER_VALUE) + 1;
                proof {
                    assert(self@ =~= EncoderModel {
                        low: 2 * (mb.low - QUARTER_VALUE),
                        high: 2 * (mb.high - QUARTER_VALUE) + 1,
                        scale: mb.scale + 1,
                        ..mb
                    });
                    assert(enc_renorm(mb) == enc_renorm(self@));
                    d = d + 1;
                }
            }
        }
        let ghost m2 = self@;
        proof {
            assert(enc_renorm(m2) == m2);
            assert(m2 == enc_renorm(m1));
            lemma_prefix_sum_agree(fullf.take(N_SYMBOLS as int), fullf, N_SYMBOLS as int);
            lemma_prefix_sum_zero_tail(fullf, N_SYMBOLS as int, fullf.len() as int);
            lemma_freqs_total(m0.freqs);
        }
        Dictionary::increment(&mut self.tree, symbol);
        proof {
            let newfull = self.tree@;
            assert(newfull == bump(fullf, symbol as int));
            if fullf[symbol as int] < SYMBOL_MAX_FREQ {
                assert(newfull.take(N_SYMBOLS as int) =~= m0.freqs.update(
                    symbol as int,
                    (fullf[symbol as int] + 1) as u32,
                ));
            } else {
                assert(newfull.take(N_SYMBOLS as int) =~= m0.freqs);
            }
            assert(self@.freqs == bump(m0.freqs, symbol as int));
            assert(self@ =~= EncoderModel { freqs: bump(m2.freqs, symbol as int), ..m2 });
            assert(self@ =~= enc_push_sym(m0, symbol as int));
            assert(forall|i: int|
                N_SYMBOLS <= i < newfull.len() ==> newfull[i] == fullf[i]);
            assert(enc_wf(self@));
        }
    }
}


impl Encoder {
    /// Hand out the bytes produced so far (whole bytes only: after
    /// `finish`, that is the entire stream).
    pub fn into_bytes(self) -> (out: Vec<u8>)
        ensures
            out@ == self@.out,
    {
        self.out_bytes
    }
}

/// Coding a sequence and then one more symbol is one more coding step.
proof fn lemma_push_all_snoc(m: EncoderModel, xs: Seq<u8>, x: u8)
    ensures
        enc_push_all(m, xs.push(x)) == enc_push_sym(enc_push_all(m, xs), x as int),
    decreases xs.len(),
{
    if xs.len() == 0 {
        assert(xs.push(x)[0] == x);
        assert(xs.push(x).drop_first() =~= Seq::<u8>::empty());
        assert(enc_push_all(m, xs.push(x)) == enc_push_all(
            enc_push_sym(m, x as int),
            xs.push(x).drop_first(),
        ));
        assert(enc_push_all(enc_push_sym(m, x as int), Seq::<u8>::empty()) == enc_push_sym(
            m,
            x as int,
        ));
        assert(enc_push_all(m, xs) == m);
    } else {
        assert(xs.push(x)[0] == xs[0]);
        assert(xs.push(x).drop_first() =~= xs.drop_first().push(x));
        lemma_push_all_snoc(enc_push_sym(m, xs[0] as int), xs.drop_first(), x);
        assert(enc_push_all(m, xs.push(x)) == enc_push_all(
            enc_push_sym(m, xs[0] as int),
            xs.drop_first().push(x),
        ));
        assert(enc_push_all(m, xs) == enc_push_all(enc_push_sym(m, xs[0] as int), xs.drop_first()));
    }
}

impl Encoder {
    /// Flush the coder after the last symbol: emit the termination bits,
    /// then pad the partial byte with zero bits and emit it.
    pub fn finish(&mut self)
        requires
            old(self).wf(),
            old(self)@.scale + 2 <= u128::MAX,
        ensures
            final(self)@ == enc_flush(old(self)@),
    {
        let ghost m0 = self@;
        if self.low < QUARTER_VALUE {
            self.write_bit(false);
            let ghost afterb = self@;
            let n = self.scale_counter + 1;
            let mut j: u128 = 0;
            while j < n
                invariant
                    j <= n,
                    enc_bits_ok(self@),
                    self@ == enc_write_bits(afterb, true, j as nat),
                decreases n - j,
            {
                proof {
                    lemma_write_bits_fields(afterb, true, j as nat);
                }
                self.write_bit(true);
                j = j + 1;
                proof {
                    assert(self@ == enc_write_bits(afterb, true, j as nat));
                }
            }
            proof {
                assert(n as nat == m0.scale + 1);
            }
        } else {
            self.write_bit(true);
        }
        let ghost m1 = self@;
        proof {
            assert(m1 == (if m0.low < QUARTER_VALUE {
                enc_write_bits(enc_write_bit(m0, false), true, m0.scale + 1)
            } else {
                enc_write_bit(m0, true)
            }));
        }
        while self.out_bit_counter != 0
            invariant
                enc_bits_ok(self@),
                enc_pad(self@) == enc_pad(m1),
            decreases (8 - self@.bit_cnt as int) % 8,
        {
            let ghost mb = self@;
            self.write_bit(false);
            proof {
                assert(enc_pad(mb) == enc_pad(self@));
            }
        }
        proof {
            assert(enc_pad(self@) == self@);
            assert(self@ == enc_flush(m0));
        }
    }
}

/// Compress a byte sequence. The result is exactly [`spec_encode`] of the
/// input, so two runs on the same bytes give the same stream.
pub fn encode(input: &Vec<u8>) -> (out: Vec<u8>)
    ensures
        out@ == spec_encode(input@),
{
    let mut enc = Encoder::new();
    proof {
        assert(input@.take(0) =~= Seq::<u8>::empty());
    }
    let mut i: usize = 0;
    while i < input.len()
        invariant
            enc.wf(),
            i <= input@.len(),
            enc@ == enc_push_all(enc_init(), input@.take(i as int)),
            enc@.scale <= 31 * (i as int + 1),
        decreases input@.len() - i,
    {
        proof {
            let ii = i as int;
            assert(31 * (ii + 1) + 32 <= u128::MAX) by (nonlinear_arith)
                requires
                    0 <= ii < 0x1_0000_0000_0000_0000,
            ;
            lemma_push_all_snoc(enc_init(), input@.take(i as int), input@[i as int]);
            assert(input@.take(i as int).push(input@[i as int]) =~= input@.take(i as int + 1));
        }
        let b = input[i];
        enc.push_symbol(b as u32);
        i = i + 1;
    }
    proof {
        assert(input@.take(input@.len() as int) =~= input@);
        let ii = input@.len() as int;
        assert(31 * (ii + 1) + 32 <= u128::MAX) by (nonlinear_arith)
            requires
                0 <= ii < 0x1_0000_0000_0000_0000,
        ;
    }
    enc.push_symbol(EOF_SYMBOL);
    enc.finish();
    enc.into_bytes()
}


/// The mathematical state of the decoder: the interval, the 31-bit code
/// window `buffer`, how many priming bits are still owed, the model
/// frequencies, the decoded output, and two flags: `got_eof` once the
/// in-band EOF symbol was seen (output stops there), `corrupt` once the
/// code window left the table's range (only a stream no encoder produced
/// can cause this; from then on the decoder stands still).
#[verifier::ext_equal]
pub struct DecoderModel {
    pub low: int,
    pub high: int,
    pub buffer: int,
    pub prepend: nat,
    pub freqs: Seq<u32>,
    pub out: Seq<u8>,
    pub got_eof: bool,
    pub corrupt: bool,
}

/// One of the three renormalization conditions applies, so the next input
/// bit can be consumed.
pub open spec fn dec_shift_ready(m: DecoderModel) -> bool {
    m.high < HALF_VALUE || m.low >= HALF_VALUE || (m.low >= QUARTER_VALUE && m.high
        < THREE_QUARTER_VALUE)
}

/// The state is sane enough to decode a symbol from.
pub open spec fn dec_step_ok(m: DecoderModel) -> bool {
    &&& freqs_wf(m.freqs)
    &&& 0 <= m.low <= m.buffer <= m.high <= MAX_VALUE
}

/// Decode symbols out of the current window until a renormalization
/// condition applies (each symbol narrows the interval), flagging the
/// stream corrupt if the window leaves the table's range.
pub open spec fn dec_emit(m: DecoderModel) -> DecoderModel
    decreases m.high - m.low,
    via dec_emit_decreases
{
    if m.corrupt || dec_shift_ready(m) || !dec_step_ok(m) {
        m
    } else {
        let t = seq_sum(m.freqs);
        let sl = (m.high - m.low + 1) / t;
        let v = (m.buffer - m.low) / sl;
        if v >= t {
            DecoderModel { corrupt: true, ..m }
        } else {
            let sym = lookup(m.freqs, v);
            let cs = prefix_sum(m.freqs, sym);
            let f = m.freqs[sym] as int;
            let low2 = m.low + sl * cs;
            let high2 = m.low + sl * (cs + f) - 1;
            let freqs2 = bump(m.freqs, sym);
            let m2 = if sym == EOF_SYMBOL {
                DecoderModel { low: low2, high: high2, freqs: freqs2, got_eof: true, ..m }
            } else if !m.got_eof {
                DecoderModel {
                    low: low2,
                    high: high2,
                    freqs: freqs2,
                    out: m.out.push(sym as u8),
                    ..m
                }
            } else {
                DecoderModel { low: low2, high: high2, freqs: freqs2, ..m }
            };
            dec_emit(m2)
        }
    }
}

#[via_fn]
proof fn dec_emit_decreases(m: DecoderModel) {
    if !(m.corrupt || dec_shift_ready(m) || !dec_step_ok(m)) {
        let t = seq_sum(m.freqs);
        lemma_freqs_total(m.freqs);
        let w = m.high - m.low + 1;
        assert(w > QUARTER_VALUE);
        let sl = w / t;
        lemma_fundamental_div_mod(w, t);
        assert(w % t >= 0 && w % t < t) by (nonlinear_arith)
            requires
                t > 0,
                w >= 0,
        ;
        assert(sl >= 1) by (nonlinear_arith)
            requires
                sl == w / t,
                w >= t,
                t > 0,
        ;
        let v = (m.buffer - m.low) / sl;
        assert(v >= 0) by (nonlinear_arith)
            requires
                v == (m.buffer - m.low) / sl,
                m.buffer - m.low >= 0,
                sl >= 1,
        ;
        if v < t {
            lemma_lookup_props(m.freqs, v);
            let sym = lookup(m.freqs, v);
            let cs = prefix_sum(m.freqs, sym);
            let f = m.freqs[sym] as int;
            // every other symbol keeps a count of at least one, so this
            // symbol's share leaves at least 256 out
            lemma_prefix_sum_range_lower(m.freqs, 0, sym, 1);
            lemma_prefix_sum_range_lower(m.freqs, sym + 1, N_SYMBOLS as int, 1);
            assert(prefix_sum(m.freqs, sym + 1) == cs + f);
            assert(f + 256 <= t);
            assert(sl * (cs + f) - sl * cs == sl * f) by (nonlinear_arith);
            assert(sl * f >= 1) by (nonlinear_arith)
                requires
                    sl >= 1,
                    f >= 1,
            ;
            assert(sl * f <= sl * (t - 256)) by (nonlinear_arith)
                requires
                    f <= t - 256,
                    sl >= 0,
            ;
            assert(sl * (t - 256) == sl * t - 256 * sl) by (nonlinear_arith);
            assert(sl * t <= w);
            assert(256 * sl >= 256) by (nonlinear_arith)
                requires
                    sl >= 1,
            ;
        }
    }
}

/// Feed one input bit to the decoder: during priming it is shifted into the
/// window; afterwards the pending symbols are decoded and the bit is
/// consumed by the one renormalization shift that applies.
pub open spec fn dec_push_bit(m: DecoderModel, bit: bool) -> DecoderModel {
    let bi = if bit {
        1int
    } else {
        0int
    };
    if m.prepend > 0 {
        DecoderModel { buffer: 2 * m.buffer + bi, prepend: (m.prepend - 1) as nat, ..m }
    } else {
        let m1 = dec_emit(m);
        if m1.corrupt {
            m1
        } else if m1.high < HALF_VALUE {
            DecoderModel { low: 2 * m1.low, high: 2 * m1.high + 1, buffer: 2 * m1.buffer + bi, ..m1 }
        } else if m1.low >= HALF_VALUE {
            DecoderModel {
                low: 2 * (m1.low - HALF_VALUE),
                high: 2 * (m1.high - HALF_VALUE) + 1,
                buffer: 2 * (m1.buffer - HALF_VALUE) + bi,
                ..m1
            }
        } else if m1.low >= QUARTER_VALUE && m1.high < THREE_QUARTER_VALUE {
            DecoderModel {
                low: 2 * (m1.low - QUARTER_VALUE),
                high: 2 * (m1.high - QUARTER_VALUE) + 1,
                buffer: 2 * (m1.buffer - QUARTER_VALUE) + bi,
                ..m1
            }
        } else {
            m1
        }
    }
}

/// Feed the bits of one byte, MSB first: `mv` is the byte value with the
/// already-consumed bits shifted out, `k` the bits still to feed.
pub open spec fn dec_push_bits_of(m: DecoderModel, mv: int, k: nat) -> DecoderModel
    decreases k,
{
    if k == 0 {
        m
    } else {
        let bit = mv >= 128;
        let mv2 = 2 * (mv - (if bit {
            128int
        } else {
            0int
        }));
        dec_push_bits_of(dec_push_bit(m, bit), mv2, (k - 1) as nat)
    }
}

/// Feed one input byte, MSB first.
pub open spec fn dec_push_byte(m: DecoderModel, b: u8) -> DecoderModel {
    dec_push_bits_of(m, b as int, 8)
}

/// Feed a byte sequence, in order.
pub open spec fn dec_push_bytes(m: DecoderModel, input: Seq<u8>) -> DecoderModel
    decreases input.len(),
{
    if input.len() == 0 {
        m
    } else {
        dec_push_bytes(dec_push_byte(m, input[0]), input.drop_first())
    }
}

/// Feed `n` zero bytes (the drain that flushes the trailing symbols out of
/// a reader with no lookahead).
pub open spec fn dec_push_zeros(m: DecoderModel, n: nat) -> DecoderModel
    decreases n,
{
    if n == 0 {
        m
    } else {
        dec_push_zeros(dec_push_byte(m, 0), (n - 1) as nat)
    }
}

/// The initial model: full interval, 31 priming bits owed, every symbol at
/// count one, nothing decoded.
pub open spec fn dec_init() -> DecoderModel {
    DecoderModel {
        low: 0,
        high: MAX_VALUE as int,
        buffer: 0,
        prepend: 31,
        freqs: Seq::new(N_SYMBOLS as nat, |i: int| 1u32),
        out: Seq::empty(),
        got_eof: false,
        corrupt: false,
    }
}

/// The whole decoder, as a function: feed every input byte, then drain
/// twenty zero bytes; the decoded bytes are the output.
pub open spec fn spec_decode(input: Seq<u8>) -> Seq<u8> {
    dec_push_zeros(dec_push_bytes(dec_init(), input), 20).out
}

/// Invariant of the decoder between bits: while priming, the window holds
/// exactly the bits fed so far; afterwards it lies inside the interval, and
/// only the very first state reaches `MAX_VALUE`.
pub open spec fn dec_wf(m: DecoderModel) -> bool {
    &&& freqs_wf(m.freqs)
    &&& if m.prepend > 0 {
        &&& m.prepend <= 31
        &&& m.low == 0 && m.high == MAX_VALUE
        &&& 0 <= m.buffer < pow2i((31 - m.prepend) as nat)
        &&& seq_sum(m.freqs) == N_SYMBOLS
    } else {
        &&& 0 <= m.low <= m.buffer <= m.high <= MAX_VALUE
        &&& (m.high == MAX_VALUE ==> m.low == 0 && seq_sum(m.freqs) == N_SYMBOLS)
    }
}


/// The decode side: reads compressed bytes, writes decoded bytes into an
/// internal buffer.
pub struct Decoder {
    low: u32,
    high: u32,
    buffer: u32,
    prepend_bit_counter: u32,
    tree: SumTree,
    out_bytes: Vec<u8>,
    got_eof_symbol: bool,
    corrupt: bool,
}

impl View for Decoder {
    type V = DecoderModel;

    closed spec fn view(&self) -> DecoderModel {
        DecoderModel {
            low: self.low as int,
            high: self.high as int,
            buffer: self.buffer as int,
            prepend: self.prepend_bit_counter as nat,
            freqs: self.tree@.take(N_SYMBOLS as int),
            out: self.out_bytes@,
            got_eof: self.got_eof_symbol,
            corrupt: self.corrupt,
        }
    }
}

impl Decoder {
    /// The dictionary is intact, its buckets beyond the alphabet are zero,
    /// and the model state is well-formed.
    pub closed spec fn wf(&self) -> bool {
        &&& self.tree.wf()
        &&& N_SYMBOLS <= self.tree@.len()
        &&& (forall|i: int| N_SYMBOLS <= i < self.tree@.len() ==> self.tree@[i] == 0)
        &&& dec_wf(self@)
    }

    /// A fresh decoder in the initial model state.
    pub fn new() -> (dec: Decoder)
        ensures
            dec.wf(),
            dec@ == dec_init(),
    {
        let tree = <SumTree as Dictionary>::new(N_SYMBOLS);
        let dec = Decoder {
            low: 0,
            high: MAX_VALUE,
            buffer: 0,
            prepend_bit_counter: 31,
            tree,
            out_bytes: Vec::new(),
            got_eof_symbol: false,
            corrupt: false,
        };
        proof {
            assert(dec@.freqs =~= dec_init().freqs);
            assert(dec@ =~= dec_init());
            lemma_freqs_total(dec@.freqs);
            lemma_prefix_sum_bound(dec@.freqs, N_SYMBOLS as int, 1);
        }
        dec
    }

    /// Feed one input bit: shift it into the window during priming, else
    /// decode the pending symbols and consume the bit by the one
    /// renormalization shift that applies.
    pub fn push_bit(&mut self, bit: bool)
        requires
            old(self).wf(),
        ensures
            final(self).wf(),
            final(self)@ == dec_push_bit(old(self)@, bit),
            dec_wf(final(self)@),
            old(self)@.prepend == 0 && !final(self)@.corrupt ==> 0 <= final(self)@.low
                <= final(self)@.buffer <= final(self)@.high < MAX_VALUE,
    {
        let ghost m0 = self@;
        let bi: u32 = if bit {
            1
        } else {
            0
        };
        if self.prepend_bit_counter > 0 {
            proof {
                lemma_pow2i_vals();
                lemma_pow2i_mono((31 - m0.prepend) as nat, 30);
            }
            self.buffer = 2 * self.buffer + bi;
            self.prepend_bit_counter = self.prepend_bit_counter - 1;
            proof {
                assert(self@ =~= dec_push_bit(m0, bit));
                if self@.prepend > 0 {
                    assert(pow2i((31 - self@.prepend) as nat) == 2 * pow2i(
                        (31 - m0.prepend) as nat,
                    ));
                } else {
                    lemma_pow2i_vals();
                    lemma_pow2i_mono((31 - m0.prepend) as nat, 30);
                }
            }
            return;
        }
        if self.corrupt {
            proof {
                assert(dec_emit(m0) == m0);
                assert(self@ == dec_push_bit(m0, bit));
            }
            return;
        }
        while !(self.high < HALF_VALUE || self.low >= HALF_VALUE || (self.low >= QUARTER_VALUE
            && self.high < THREE_QUARTER_VALUE)) && !self.corrupt
            invariant
                self.tree.wf(),
                N_SYMBOLS <= self.tree@.len(),
                forall|i: int| N_SYMBOLS <= i < self.tree@.len() ==> self.tree@[i] == 0,
                freqs_wf(self@.freqs),
                0 <= self@.low <= self@.buffer <= self@.high <= MAX_VALUE,
                self@.high == MAX_VALUE ==> self@.low == 0 && seq_sum(self@.freqs) == N_SYMBOLS,
                self@.prepend == 0,
                dec_emit(self@) == dec_emit(m0),
            decreases self@.high - self@.low + (if self.corrupt {
                0int
            } else {
                1int
            }),
        {
            let ghost mb = self@;
            let ghost fullf = self.tree@;
            proof {
                lemma_prefix_sum_agree(fullf.take(N_SYMBOLS as int), fullf, N_SYMBOLS as int);
                lemma_prefix_sum_zero_tail(fullf, N_SYMBOLS as int, fullf.len() as int);
                lemma_freqs_total(mb.freqs);
            }
            let t = self.tree.total_frequency();
            let w = self.high - self.low + 1;
            let slice_length = w / t;
            proof {
                let wi = w as int;
                let ti = t as int;
                let sl = slice_length as int;
                lemma_fundamental_div_mod(wi, ti);
                assert(wi % ti >= 0 && wi % ti < ti) by (nonlinear_arith)
                    requires
                        ti > 0,
                        wi >= 0,
                ;
                assert(sl >= 1) by (nonlinear_arith)
                    requires
                        sl == wi / ti,
                        wi >= ti,
                        ti > 0,
                ;
                assert(ti * sl <= wi);
            }
            let value = (self.buffer - self.low) / slice_length;
            proof {
                let sl = slice_length as int;
                lemma_fundamental_div_mod(mb.buffer - mb.low, sl);
                assert((mb.buffer - mb.low) % sl >= 0 && (mb.buffer - mb.low) % sl < sl)
                    by (nonlinear_arith)
                    requires
                        sl > 0,
                        mb.buffer - mb.low >= 0,
                ;
            }
            if value >= t {
                self.corrupt = true;
                proof {
                    assert(self@ =~= DecoderModel { corrupt: true, ..mb });
                    assert(dec_emit(mb) == dec_emit(self@));
                }
            } else {
                let ghost vi = value as int;
                proof {
                    lemma_lookup_props(mb.freqs, vi);
                }
                let symbol = self.tree.symbol_lookup(value);
                proof {
                    // the table's extra buckets are empty, so the hit lies
                    // inside the alphabet and matches the model's lookup
                    lemma_prefix_sum_nonneg(fullf, symbol as int);
                    if symbol >= N_SYMBOLS {
                        lemma_prefix_sum_zero_tail(fullf, N_SYMBOLS as int, symbol as int);
                        lemma_prefix_sum_zero_tail(fullf, N_SYMBOLS as int, fullf.len() as int);
                        assert(false);
                    }
                    lemma_prefix_sum_agree(fullf.take(N_SYMBOLS as int), fullf, symbol as int);
                    assert(fullf.take(N_SYMBOLS as int)[symbol as int] == fullf[symbol as int]);
                    lemma_lookup_unique(
                        mb.freqs,
                        vi,
                        symbol as int,
                        lookup(mb.freqs, vi),
                    );
                    assert(symbol as int == lookup(mb.freqs, vi));
                    lemma_prefix_sum_monotone(mb.freqs, symbol as int + 1, N_SYMBOLS as int);
                    lemma_prefix_sum_nonneg(mb.freqs, symbol as int);
                    assert(prefix_sum(mb.freqs, symbol as int + 1) == prefix_sum(
                        mb.freqs,
                        symbol as int,
                    ) + mb.freqs[symbol as int]);
                }
                let range_low = self.tree.frequency_up_to_symbol(symbol);
                let range_high = range_low + self.tree.symbol_frequency(symbol);
                proof {
                    let wi = w as int;
                    let ti = t as int;
                    let sl = slice_length as int;
                    let cs = range_low as int;
                    let rh = range_high as int;
                    assert(sl * rh <= sl * ti) by (nonlinear_arith)
                        requires
                            rh <= ti,
                            sl >= 0,
                    ;
                    assert(sl * ti == ti * sl) by (nonlinear_arith);
                    assert(sl * cs <= sl * vi) by (nonlinear_arith)
                        requires
                            cs <= vi,
                            sl >= 0,
                    ;
                    assert(sl * vi <= mb.buffer - mb.low);
                    assert(sl * (vi + 1) <= sl * rh) by (nonlinear_arith)
                        requires
                            vi + 1 <= rh,
                            sl >= 0,
                    ;
                    assert(sl * (vi + 1) == sl * vi + sl) by (nonlinear_arith);
                    assert(sl * cs >= 0) by (nonlinear_arith)
                        requires
                            sl >= 0,
                            cs >= 0,
                    ;
                    if mb.high == MAX_VALUE {
                        assert(ti == 257);
                        assert(sl == 0x80000001int / 257);
                        assert(sl * 257 < 0x80000000int) by (nonlinear_arith)
                            requires
                                sl == 0x80000001int / 257,
                        ;
                    }
                }
                self.high = self.low + slice_length * range_high - 1;
                self.low = self.low + slice_length * range_low;
                proof {
                    lemma_prefix_sum_agree(fullf.take(N_SYMBOLS as int), fullf, N_SYMBOLS as int);
                    lemma_prefix_sum_zero_tail(fullf, N_SYMBOLS as int, fullf.len() as int);
                }
                Dictionary::increment(&mut self.tree, symbol);
                if symbol == EOF_SYMBOL {
                    self.got_eof_symbol = true;
                } else {
                    if !self.got_eof_symbol {
                        self.out_bytes.push(symbol as u8);
                    }
                }
                proof {
                    let newfull = self.tree@;
                    assert(newfull == bump(fullf, symbol as int));
                    if fullf[symbol as int] < SYMBOL_MAX_FREQ {
                        assert(newfull.take(N_SYMBOLS as int) =~= mb.freqs.update(
                            symbol as int,
                            (fullf[symbol as int] + 1) as u32,
                        ));
                    } else {
                        assert(newfull.take(N_SYMBOLS as int) =~= mb.freqs);
                    }
                    assert(self@.freqs == bump(mb.freqs, symbol as int));
                    let sl = slice_length as int;
                    let cs = prefix_sum(mb.freqs, symbol as int);
                    let f = mb.freqs[symbol as int] as int;
                    let low2 = mb.low + sl * cs;
                    let high2 = mb.low + sl * (cs + f) - 1;
                    assert(sl * (cs + f) == sl * cs + sl * f) by (nonlinear_arith);
                    assert(sl * f == sl * (range_high as int) - sl * (range_low as int))
                        by (nonlinear_arith)
                        requires
                            f == range_high as int - range_low as int,
                            sl == slice_length as int,
                    ;
                    if symbol == EOF_SYMBOL {
                        assert(self@ =~= DecoderModel {
                            low: low2,
                            high: high2,
                            freqs: bump(mb.freqs, symbol as int),
                            got_eof: true,
                            ..mb
                        });
                    } else if !mb.got_eof {
                        assert(self@ =~= DecoderModel {
                            low: low2,
                            high: high2,
                            freqs: bump(mb.freqs, symbol as int),
                            out: mb.out.push(symbol as u8),
                            ..mb
                        });
                    } else {
                        assert(self@ =~= DecoderModel {
                            low: low2,
                            high: high2,
                            freqs: bump(mb.freqs, symbol as int),
                            ..mb
                        });
                    }
                    // each decoded symbol leaves at least the other 256
                    // symbols' share out, so the interval strictly narrows
                    lemma_prefix_sum_range_lower(mb.freqs, 0, symbol as int, 1);
                    lemma_prefix_sum_range_lower(mb.freqs, symbol as int + 1, N_SYMBOLS as int, 1);
                    assert(f + 256 <= t as int);
                    assert(sl * f <= sl * (t as int - 256)) by (nonlinear_arith)
                        requires
                            f <= t as int - 256,
                            sl >= 0,
                    ;
                    assert(sl * (t as int - 256) == sl * (t as int) - 256 * sl)
                        by (nonlinear_arith);
                    assert(sl * (t as int) == (t as int) * sl) by (nonlinear_arith);
                    assert(256 * sl >= 256) by (nonlinear_arith)
                        requires
                            sl >= 1,
                    ;
                    assert(self@.high - self@.low < mb.high - mb.low);
                    assert(dec_emit(mb) == dec_emit(self@));
                }
            }
        }
        let ghost m1 = self@;
        proof {
            assert(dec_emit(m1) == m1);
            assert(m1 == dec_emit(m0));
        }
        if self.corrupt {
            return;
        }
        if self.high < HALF_VALUE {
            self.low = 2 * self.low;
            self.high = 2 * self.high + 1;
            self.buffer = 2 * self.buffer + bi;
        } else if self.low >= HALF_VALUE {
            self.low = 2 * (self.low - HALF_VALUE);
            self.high = 2 * (self.high - HALF_VALUE) + 1;
            self.buffer = 2 * (self.buffer - HALF_VALUE) + bi;
        } else {
            self.low = 2 * (self.low - QUARTER_VALUE);
            self.high = 2 * (self.high - QUARTER_VALUE) + 1;
            self.buffer = 2 * (self.buffer - QUARTER_VALUE) + bi;
        }
        proof {
            assert(self@ =~= dec_push_bit(m0, bit));
        }
    }

    /// Hand out the bytes decoded so far.
    pub fn into_bytes(self) -> (out: Vec<u8>)
        ensures
            out@ == self@.out,
    {
        self.out_bytes
    }

    /// Feed one input byte, MSB first.
    pub fn push_byte(&mut self, byte: u8)
        requires
            old(self).wf(),
        ensures
            final(self).wf(),
            final(self)@ == dec_push_byte(old(self)@, byte),
    {
        let ghost m0 = self@;
        let mut m: u8 = byte;
        let mut j: u8 = 0;
        while j < 8
            invariant
                j <= 8,
                self.wf(),
                dec_push_bits_of(self@, m as int, (8 - j) as nat) == dec_push_byte(m0, byte),
            decreases 8 - j,
        {
            let ghost mprev = self@;
            let ghost mvprev = m as int;
            let bit = m >= 128;
            m = 2 * (m - (if bit {
                128
            } else {
                0
            }));
            self.push_bit(bit);
            j = j + 1;
            proof {
                assert(dec_push_bits_of(mprev, mvprev, (8 - j + 1) as nat) == dec_push_bits_of(
                    self@,
                    m as int,
                    (8 - j) as nat,
                ));
            }
        }
    }
}

/// Decompress a byte stream: feed every byte, then drain twenty zero bytes
/// so the trailing symbols come out. The result is exactly [`spec_decode`]
/// of the input.
pub fn decode(input: &Vec<u8>) -> (out: Vec<u8>)
    ensures
        out@ == spec_decode(input@),
{
    let mut dec = Decoder::new();
    proof {
        assert(input@.skip(0) =~= input@);
    }
    let mut i: usize = 0;
    while i < input.len()
        invariant
            dec.wf(),
            i <= input@.len(),
            dec_push_bytes(dec@, input@.skip(i as int)) == dec_push_bytes(dec_init(), input@),
        decreases input@.len() - i,
    {
        let ghost mprev = dec@;
        let b = input[i];
        dec.push_byte(b);
        i = i + 1;
        proof {
            assert(input@.skip(i as int - 1)[0] == input@[i as int - 1]);
            assert(input@.skip(i as int - 1).drop_first() =~= input@.skip(i as int));
            assert(dec_push_bytes(mprev, input@.skip(i as int - 1)) == dec_push_bytes(
                dec@,
                input@.skip(i as int),
            ));
        }
    }
    proof {
        assert(input@.skip(input@.len() as int) =~= Seq::<u8>::empty());
        assert(dec@ == dec_push_bytes(dec_init(), input@));
    }
    let mut k: usize = 0;
    while k < 20
        invariant
            dec.wf(),
            k <= 20,
            dec_push_zeros(dec@, (20 - k) as nat) == dec_push_zeros(
                dec_push_bytes(dec_init(), input@),
                20,
            ),
        decreases 20 - k,
    {
        let ghost mprev = dec@;
        dec.push_byte(0);
        k = k + 1;
        proof {
            assert(dec_push_zeros(mprev, (20 - k + 1) as nat) == dec_push_zeros(
                dec@,
                (20 - k) as nat,
            ));
        }
    }
    dec.into_bytes()
}


/// Bits emitted so far, counting the pending partial byte.
pub open spec fn enc_bits_len(m: EncoderModel) -> int {
    8 * (m.out.len() as int) + m.bit_cnt
}

/// Emission potential: bits already emitted plus bits deferred. Every
/// renormalization step raises it by exactly one.
pub open spec fn enc_phi(m: EncoderModel) -> int {
    enc_bits_len(m) + (m.scale as int)
}

proof fn lemma_write_bits_len(m: EncoderModel, b: bool, n: nat)
    ensures
        enc_bits_len(enc_write_bits(m, b, n)) == enc_bits_len(m) + n,
    decreases n,
{
    if n > 0 {
        lemma_write_bits_len(m, b, (n - 1) as nat);
    }
}

proof fn lemma_renorm_phi(m: EncoderModel, d: nat)
    requires
        d <= 31,
        pow2i(d) <= m.high - m.low + 1,
    ensures
        enc_phi(enc_renorm(m)) <= enc_phi(m) + 31 - d,
        enc_bits_len(enc_renorm(m)) >= enc_bits_len(m),
    decreases 31 - d,
{
    if 0 <= m.low <= m.high < MAX_VALUE {
        if d == 31 {
            lemma_pow2i_vals();
        } else {
            if m.high < HALF_VALUE {
                let m1 = enc_write_bits(enc_write_bit(m, false), true, m.scale);
                lemma_write_bits_len(enc_write_bit(m, false), true, m.scale);
                let m2 = EncoderModel {
                    low: 2 * m.low,
                    high: 2 * m.high + 1,
                    scale: 0,
                    freqs: m.freqs,
                    out: m1.out,
                    bit_cnt: m1.bit_cnt,
                    bit_buf: m1.bit_buf,
                };
                lemma_renorm_phi(m2, d + 1);
            } else if m.low >= HALF_VALUE {
                let m1 = enc_write_bits(enc_write_bit(m, true), false, m.scale);
                lemma_write_bits_len(enc_write_bit(m, true), false, m.scale);
                let m2 = EncoderModel {
                    low: 2 * (m.low - HALF_VALUE),
                    high: 2 * (m.high - HALF_VALUE) + 1,
                    scale: 0,
                    freqs: m.freqs,
                    out: m1.out,
                    bit_cnt: m1.bit_cnt,
                    bit_buf: m1.bit_buf,
                };
                lemma_renorm_phi(m2, d + 1);
            } else if m.low >= QUARTER_VALUE && m.high < THREE_QUARTER_VALUE {
                let m2 = EncoderModel {
                    low: 2 * (m.low - QUARTER_VALUE),
                    high: 2 * (m.high - QUARTER_VALUE) + 1,
                    scale: m.scale + 1,
                    ..m
                };
                lemma_renorm_phi(m2, d + 1);
            }
        }
    }
}

proof fn lemma_push_sym_phi(m: EncoderModel, sym: int)
    ensures
        enc_phi(enc_push_sym(m, sym)) <= enc_phi(m) + 31,
        enc_bits_len(enc_push_sym(m, sym)) >= enc_bits_len(m),
{
    let t = seq_sum(m.freqs);
    let sl = (m.high - m.low + 1) / t;
    let cs = prefix_sum(m.freqs, sym);
    let f = m.freqs[sym] as int;
    let m1 = EncoderModel { low: m.low + sl * cs, high: m.low + sl * (cs + f) - 1, ..m };
    if 0 <= m1.low <= m1.high < MAX_VALUE {
        lemma_renorm_phi(m1, 0);
    }
}

proof fn lemma_push_all_phi(m: EncoderModel, x: Seq<u8>)
    ensures
        enc_phi(enc_push_all(m, x)) <= enc_phi(m) + 31 * x.len(),
        enc_bits_len(enc_push_all(m, x)) >= enc_bits_len(m),
    decreases x.len(),
{
    if x.len() > 0 {
        lemma_push_sym_phi(m, x[0] as int);
        lemma_push_all_phi(enc_push_sym(m, x[0] as int), x.drop_first());
    }
}

proof fn lemma_pad_len(m: EncoderModel)
    ensures
        enc_bits_len(m) <= enc_bits_len(enc_pad(m)) <= enc_bits_len(m) + 7,
        m.bit_cnt <= 7 ==> enc_pad(m).bit_cnt == 0,
    decreases 8 - m.bit_cnt,
{
    if m.bit_cnt == 0 {
    } else if m.bit_cnt >= 7 {
    } else {
        lemma_pad_len(enc_write_bit(m, false));
    }
}

/// The compressed stream is bounded: at most four bytes per input byte
/// plus a small constant, so it is finite for every finite input.
pub proof fn lemma_encode_len(x: Seq<u8>)
    ensures
        spec_encode(x).len() <= 4 * x.len() + 5,
{
    let m0 = enc_init();
    let ma = enc_push_all(m0, x);
    let mb = enc_push_sym(ma, EOF_SYMBOL as int);
    lemma_push_all_phi(m0, x);
    lemma_push_sym_phi(ma, EOF_SYMBOL as int);
    let m1 = if mb.low < QUARTER_VALUE {
        enc_write_bits(enc_write_bit(mb, false), true, mb.scale + 1)
    } else {
        enc_write_bit(mb, true)
    };
    if mb.low < QUARTER_VALUE {
        lemma_write_bits_len(enc_write_bit(mb, false), true, mb.scale + 1);
    }
    lemma_pad_len(m1);
    assert(enc_bits_len(enc_pad(m1)) <= 31 * x.len() + 40);
    assert(8 * spec_encode(x).len() <= 31 * x.len() + 40);
    assert(8 * (4 * x.len() + 5) >= 31 * x.len() + 40) by (nonlinear_arith);
}

proof fn lemma_renorm_bits_ok(m: EncoderModel)
    requires
        enc_bits_ok(m),
    ensures
        enc_bits_ok(enc_renorm(m)),
    decreases MAX_VALUE - (m.high - m.low),
{
    if 0 <= m.low <= m.high < MAX_VALUE {
        if m.high < HALF_VALUE {
            lemma_write_bits_fields(enc_write_bit(m, false), true, m.scale);
            let m1 = enc_write_bits(enc_write_bit(m, false), true, m.scale);
            lemma_renorm_bits_ok(
                EncoderModel {
                    low: 2 * m.low,
                    high: 2 * m.high + 1,
                    scale: 0,
                    freqs: m.freqs,
                    out: m1.out,
                    bit_cnt: m1.bit_cnt,
                    bit_buf: m1.bit_buf,
                },
            );
        } else if m.low >= HALF_VALUE {
            lemma_write_bits_fields(enc_write_bit(m, true), false, m.scale);
            let m1 = enc_write_bits(enc_write_bit(m, true), false, m.scale);
            lemma_renorm_bits_ok(
                EncoderModel {
                    low: 2 * (m.low - HALF_VALUE),
                    high: 2 * (m.high - HALF_VALUE) + 1,
                    scale: 0,
                    freqs: m.freqs,
                    out: m1.out,
                    bit_cnt: m1.bit_cnt,
                    bit_buf: m1.bit_buf,
                },
            );
        } else if m.low >= QUARTER_VALUE && m.high < THREE_QUARTER_VALUE {
            lemma_renorm_bits_ok(
                EncoderModel {
                    low: 2 * (m.low - QUARTER_VALUE),
                    high: 2 * (m.high - QUARTER_VALUE) + 1,
                    scale: m.scale + 1,
                    ..m
                },
            );
        }
    }
}

proof fn lemma_push_all_bits_ok(m: EncoderModel, x: Seq<u8>)
    requires
        enc_bits_ok(m),
    ensures
        enc_bits_ok(enc_push_all(m, x)),
    decreases x.len(),
{
    if x.len() > 0 {
        let t = seq_sum(m.freqs);
        let sl = (m.high - m.low + 1) / t;
        let cs = prefix_sum(m.freqs, x[0] as int);
        let f = m.freqs[x[0] as int] as int;
        let m1 = EncoderModel { low: m.low + sl * cs, high: m.low + sl * (cs + f) - 1, ..m };
        lemma_renorm_bits_ok(m1);
        lemma_push_all_bits_ok(enc_push_sym(m, x[0] as int), x.drop_first());
    }
}

/// Even the empty input compresses to at least one byte: the stream always
/// carries the EOF code and the flush.
pub proof fn lemma_encode_nonempty(x: Seq<u8>)
    ensures
        spec_encode(x).len() >= 1,
{
    let m0 = enc_init();
    let ma = enc_push_all(m0, x);
    let mb = enc_push_sym(ma, EOF_SYMBOL as int);
    lemma_push_all_phi(m0, x);
    lemma_push_sym_phi(ma, EOF_SYMBOL as int);
    lemma_push_all_bits_ok(m0, x);
    let t = seq_sum(ma.freqs);
    let sl = (ma.high - ma.low + 1) / t;
    let cs = prefix_sum(ma.freqs, EOF_SYMBOL as int);
    let f = ma.freqs[EOF_SYMBOL as int] as int;
    let mn = EncoderModel {
        low: ma.low + sl * cs,
        high: ma.low + sl * (cs + f) - 1,
        ..ma
    };
    lemma_renorm_bits_ok(mn);
    let m1 = if mb.low < QUARTER_VALUE {
        enc_write_bits(enc_write_bit(mb, false), true, mb.scale + 1)
    } else {
        enc_write_bit(mb, true)
    };
    if mb.low < QUARTER_VALUE {
        lemma_write_bits_len(enc_write_bit(mb, false), true, mb.scale + 1);
        lemma_write_bits_fields(enc_write_bit(mb, false), true, mb.scale + 1);
    }
    lemma_pad_len(m1);
    assert(enc_bits_len(m1) >= 1);
    assert(m1.bit_cnt <= 7);
    assert(enc_pad(m1).bit_cnt == 0);
    assert(8 * enc_pad(m1).out.len() >= 1);
}

} // verus!
