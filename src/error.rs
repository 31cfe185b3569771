//! The failures that the reader reports.
use vstd::prelude::*;

verus! {

/// The closed set of failures that the reader surfaces.
#[derive(Debug, Clone, Copy, PartialEq, Eq, Structural)]
pub enum Error {
    /// The underlying file could not be read.
    Io,
    /// Malformed, truncated or inconsistent data; `offset` is the byte
    /// position at which the offending field starts.
    Format { offset: usize },
    /// A requested entry or region name does not exist.
    NotFound,
    /// A compressed payload failed to inflate to its declared size.
    Decompression,
    /// An arena index out of bounds was requested.
    Index,
}

} // verus!
