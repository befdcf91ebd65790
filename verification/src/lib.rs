//! Comparison of annotated assembly listings.
//!
//! The crate segments a compiler-annotated assembly listing into instruction
//! blocks keyed by source location (`path:line` debug markers), and compares
//! two such segmentations: a byte-level Levenshtein edit distance, the exact
//! integer ingredients of a cosine similarity over zero-padded byte vectors,
//! and per-key as well as whole-file aggregates.

pub mod byteops;
pub mod distance;
pub mod engine;
pub mod parser;
pub mod similarity;
pub mod text;
pub mod vecmap;
