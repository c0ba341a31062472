//! A byte-pair-encoding tokenizer.
//!
//! The tokenizer learns merge rules from a corpus by repeatedly fusing the
//! most frequent adjacent pair of symbols, and uses the learned rules to turn
//! text into token ids and token ids back into text.
//!
//! Ids below 256 stand for the raw bytes; each learned rule gets the next id
//! from 256 on. Where several pairs are equally frequent, the
//! lexicographically smallest is merged, so that training is a function of
//! the corpus and the budget alone.

pub mod laws;
pub mod merge;
pub mod pairs;
pub mod text;
pub mod tokenizer;
pub mod training;
pub mod vocab;

pub use merge::MergeRule;
pub use tokenizer::Tokenizer;
