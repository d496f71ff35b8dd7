//! Unigram language-model tokenizer: a prefix index over the vocabulary,
//! a segmentation lattice with a score-maximizing decode, and the model
//! that ties them together.
//!
//! Scores are fixed-point integers: one unit is 1/1000 of a log-probability
//! point, so `-0.1` is stored as `-100`.

pub mod lattice;
pub mod model;
pub mod persist;
pub mod pipeline;
pub mod trie;

use vstd::prelude::*;

verus! {

/// Fixed-point scale: score units per whole log-probability point.
pub const SCORE_SCALE: i64 = 1000;

/// Penalty (in score units) placed below the minimum vocabulary score
/// when an unknown single-character edge has to be inserted.
pub const K_UNK_PENALTY: i64 = 10000;

/// Largest magnitude a vocabulary score may have, in score units.
pub const MAX_SCORE: i64 = 1000000000;

/// Largest magnitude any lattice edge score may have: a vocabulary score,
/// or the unknown fallback score `min_score - K_UNK_PENALTY`.
pub const MAX_EDGE_SCORE: i64 = 1000010000;

/// Largest input length, in characters, that `encode` accepts; keeps the
/// accumulated path scores inside `i64`.
pub const MAX_TEXT_LEN: usize = 0x7fffffff;

} // verus!
