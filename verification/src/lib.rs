//! Fuzzy string similarity by character-bigram cosine scoring.
//!
//! A string is turned into the sequence of its adjacent character pairs,
//! padded at both ends with a boundary symbol. Two strings are compared by
//! building the sorted vocabulary of their joint bigrams, counting each
//! vocabulary entry in both bigram sequences, and taking the cosine
//! similarity of the two count vectors. A windowed variant slides the
//! shorter string across the longer one and keeps the best alignment.
//!
//! Scores are returned exactly, as the integer dot product and the two
//! squared magnitudes of the count vectors; the floating-point value
//! `dot / (sqrt(mag_sq1) * sqrt(mag_sq2))` is left to the caller.

pub mod bigrams;
pub mod compare;
pub mod laws;
pub mod score;
pub mod sums;
pub mod vocab;

pub use bigrams::Bigram;
pub use compare::{gram, partial_ratio, ratio};
pub use score::Score;
