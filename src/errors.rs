//! Errors of the index and of its inputs.
use vstd::prelude::*;

verus! {

/// The ways an operation on the index, or on its inputs, can fail.
#[derive(Debug, Clone)]
pub enum PhyloError {
    /// The file could not be read; carries its location.
    FileReadError(String),
    /// The file holds fewer bytes than one k-mer needs; carries its location.
    FileTooSmall(String),
    /// The file could not be opened; carries its location.
    FileOpenError(String),
    /// The report could not be written.
    FileWriteError,
    /// The k-mer length does not fit the platform's sizes.
    KTooBig(u32),
    /// A genome path does not lead to a genome of the tree.
    SearchGenomeError,
    /// A node path does not lead to a bucket of the tree.
    SearchNodeError,
    /// An insertion had no candidate to compare the new genome against.
    GenomeInsertError,
    /// An old report could not be removed.
    FileDeleteError,
    /// A genome location has no directory part to name it by.
    PathError(String),
    /// The node ids, the slots of a bucket or the genome count ran out.
    CapacityExceeded,
    /// The narrowing search sampled the same branch too often without
    /// getting any closer.
    SearchStalled,
}

} // verus!
