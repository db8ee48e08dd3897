//! A byte-pair-encoding (BPE) vocabulary trainer.
//!
//! The library learns an ordered list of merge rules from a corpus of text
//! lines: it pretokenizes each line into atomic symbols, folds the merges
//! learned so far into each symbol sequence, counts adjacent symbol pairs
//! across the whole corpus, and repeatedly commits the most frequent pair as
//! a new merge rule until a target vocabulary size is reached or no pair has
//! positive frequency.

pub mod chars;
pub mod chunker;
pub mod merges;
pub mod pairs;
pub mod pretokenizer;
pub mod scanner;
pub mod trainer;
