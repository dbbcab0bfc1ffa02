//! Discovery of repeated sub-sequences in a symbol stream.
//!
//! The library normalizes an input sequence onto a small closed alphabet,
//! obtains a suffix order and LCP array for it, and extracts every maximal
//! repeated sub-sequence together with the positions at which it occurs.

pub mod chunker;
pub mod error;
pub mod pattern_map;
pub mod suffix_provider;
