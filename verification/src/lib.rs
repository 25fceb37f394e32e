//! Deterministic Arabic morphological analysis: Unicode normalization,
//! tokenization, clitic splitting, templatic pattern matching, root extraction
//! and lexicon-ranked analysis forests.
use vstd::prelude::*;

pub mod analyzer;
pub mod clitics;
pub mod conf;
pub mod freq;
pub mod lexicon;
pub mod morph_ir;
pub mod patterns;
pub mod provenance;
pub mod rank;
pub mod render;
pub mod roots;
pub mod text;
pub mod tokenize;
pub mod trace;
pub mod unicode;

verus! {
} // verus!
