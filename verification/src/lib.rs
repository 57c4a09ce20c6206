//! Adaptive arithmetic coding over the 257-symbol alphabet `{0..255, EOF}`.
//!
//! The crate has three layers, leaves first:
//! - [`sum_tree`]: a flat-array sum tree holding symbol frequencies, with
//!   point query, prefix-sum query, inverse-prefix query and point update;
//! - [`dictionary`]: the frequency-model interface the coder consults, with
//!   the shared update policy (increment by one, capped per symbol);
//! - [`coder`]: the integer arithmetic coder itself, encode and decode side,
//!   each proved equal to a purely mathematical transition system.

pub mod coder;
pub mod dictionary;
pub mod sum_tree;
pub mod sums;
