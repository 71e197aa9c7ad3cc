//! A probabilistic dictionary encoder and spell-checker.
//!
//! A Bloom filter is built from a word list: the bit-array size `m` and the
//! probe count `k` are derived from the word count at a fixed target
//! false-positive rate, each word is normalized (ASCII trim + lowercase) and
//! hashed with a fixed, machine-independent hash, and `k` probe bits are set.
//! The filter serializes to a portable byte record and can be reloaded to
//! answer membership queries: no false negatives, a bounded false-positive
//! rate. A thin pipeline layer builds a filter from a word list and reports
//! which words of a document are absent from the dictionary.

pub mod codec;
pub mod errors;
pub mod filter;
pub mod hashing;
pub mod params;
pub mod pipeline;
