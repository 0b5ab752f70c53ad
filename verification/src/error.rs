//! The failures that ingestion and assembly hand to the caller.

use vstd::prelude::*;
use zip::result::ZipError;

verus! {

/// The ways in which assembling the output can go wrong.
#[derive(Debug, Clone, Copy, PartialEq, Eq, Structural)]
pub enum Fault {
    /// A path is longer than the longest name a container holds.
    NameTooLong,
    /// The bytes of a winning entry cannot be read.
    Read,
    /// The output does not accept an entry or its bytes, or cannot be
    /// finished.
    Write,
}

/// Why an operation of the merger failed. A failure of the container codec
/// is carried as the codec reported it.
#[derive(Debug)]
pub enum MergeError {
    /// An input does not parse as a container, or one of its entries cannot
    /// be opened. Nothing of that input was ingested.
    Open(ZipError),
    /// The bytes of an entry that won its path could not be streamed out of
    /// its container.
    Read(ZipError),
    /// The output container did not accept an entry, or could not be
    /// finished.
    Write(ZipError),
    /// The output container cannot hold an entry because its path, joined by
    /// separators, is longer than the longest name a container holds.
    NameTooLong,
}

/// The fault that an error of the assembly stands for; an error of ingestion
/// stands for none.
pub open spec fn fault_of(error: MergeError) -> Option<Fault> {
    match error {
        MergeError::Open(_) => None,
        MergeError::Read(_) => Some(Fault::Read),
        MergeError::Write(_) => Some(Fault::Write),
        MergeError::NameTooLong => Some(Fault::NameTooLong),
    }
}

} // verus!
