//! Morphological word generation and string-similarity core of a spell-checking
//! toolkit.
//!
//! The affix rule engine compiles textual match conditions into anchored
//! patterns, applies strip/attach transformations to dictionary stems, and
//! combinatorially generates inflected surface forms from flag sets. The
//! bounded weighted Levenshtein distance scores candidate corrections, capped
//! at a caller-supplied limit.

pub mod affix;
pub mod distance;
pub mod generate;
pub mod pattern;
pub mod text;

pub use distance::convertu32;
pub use distance::levenshtein;
pub use distance::levenshtein_limit;
pub use distance::levenshtein_limit_weight;
pub use distance::levenshtein_weight;
