//! Similarity and alignment of short, noisy text lines.
//!
//! The crate has two parts: a distance ranker (`levenshtein`,
//! `levenshtein_all`) that scores pairs of lines by edit distance, and a
//! progressive multiple-sequence aligner (`LineAlign::align`) that pads
//! near-duplicate lines with gap markers so corresponding characters land
//! in the same column.

pub mod aligner;
pub mod distance;
pub mod masks;

pub use aligner::ConfigError;
pub use aligner::LineAlign;
pub use distance::edit_dist;
pub use distance::levenshtein;
pub use distance::levenshtein_all;
