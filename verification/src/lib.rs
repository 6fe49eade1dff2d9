//! A byte-pair-encoding text tokenizer for CLIP-style vocabularies.
//!
//! The tokenizer turns arbitrary text into a sequence of integer token ids
//! drawn from a fixed vocabulary, framed by start-of-text and end-of-text
//! markers, and reports how many tokens a text occupies. Tokenization is
//! total over all inputs: a byte-level base alphabet guarantees that every
//! byte of the input is representable.


pub mod codec;
pub mod text;
pub mod segment;
pub mod merge;
pub mod vocab;
pub mod lines;
pub mod gzip;
pub mod tokenizer;

pub use tokenizer::{InitError, Tokenizer};
