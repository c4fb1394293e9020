//! Extraction of spell-check candidates from text, with the place of each
//! candidate in its line.

pub mod casing;
pub mod chunks;
pub mod engine;
pub mod laws;
pub mod model;
pub mod patterns;
pub mod text;
pub mod tokenizer;
pub mod trim;
