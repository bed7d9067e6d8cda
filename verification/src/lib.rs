//! A byte-level byte-pair-encoding tokenizer.
//!
//! Training learns merge rules from a corpus by repeatedly fusing the most
//! frequent adjacent pair of symbols; encoding replays the rules in priority
//! order; decoding expands symbol ids back to bytes and reads them as UTF-8.

pub mod basic_tokenizer;
pub mod laws;
pub mod model;
pub mod table;
pub mod utils;
