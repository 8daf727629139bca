//! Spell-checking core: tokenization of free text, a dictionary index with
//! exact and approximate lookup, frequency ranking and case restoration.

pub mod unicode;
pub mod utils;
pub mod order;
pub mod sorting;
pub mod distance;
pub mod offsets;
pub mod tokenizer;
pub mod index;
pub mod checker;
