//! The ways in which an operation can fail.

use vstd::prelude::*;

verus! {

/// How an entry that was found fails its structural check.
#[derive(Debug, Clone, Copy, PartialEq, Eq, Structural)]
pub enum Damage {
    /// The stored length is not a decimal number that fits the machine.
    Length,
    /// The entry would reach past the end of the container.
    Bounds,
    /// The end sentinel is not where the header says the payload ends.
    EndMarker,
}

/// Why an operation on a container or a header did not succeed.
#[derive(Debug, Clone, Copy, PartialEq, Eq, Structural)]
pub enum Error {
    /// An identifier or a name is longer than the format allows.
    Validation,
    /// No entry in the container carries the identifier asked for.
    NotFound,
    /// The bytes do not decode as a header.
    Format,
    /// A version string is not made of dotted integers.
    InvalidVersion,
    /// The entry was written for another version of the format.
    VersionMismatch,
    /// The entry is structurally damaged.
    Integrity(Damage),
    /// The payload could not be compressed.
    Compress,
    /// A compressed payload could not be expanded.
    Decompress,
    /// The stored size is not a decimal number.
    InvalidSize,
    /// The stored bytes are not as many as the size that the header
    /// records.
    SizeMismatch,
}

} // verus!
