//! An incrementally built similarity index over genome records.
//!
//! Genomes are kept in a tree of buckets; each insertion samples the tree,
//! narrows the search towards a small set of close candidates, and then
//! reshapes the tree locally according to the exact edit distances found.
pub mod algorithms;
pub mod errors;
pub mod insertion;
pub mod invariants;
pub mod levenshtein;
pub mod narrowing;
mod random;
pub mod sampling;
pub mod structs;
