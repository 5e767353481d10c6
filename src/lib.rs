//! A bag of words: how many times each word occurs in a body of text.
//!
//! Text is split at runs of whitespace. Each token loses the non-letters at
//! its two ends and counts only if what remains is a non-empty run of letters;
//! a word with an uppercase letter is counted under its lowercase mapping.
pub mod bag;
pub mod laws;
pub mod order;
pub mod text;
pub mod unicode;

pub use bag::Bbow;
