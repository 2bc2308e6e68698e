//! The failures that the codec and the resolver can report.

use vstd::prelude::*;

verus! {

/// Why an operation of this crate failed.
#[derive(Clone, Copy, Debug, PartialEq, Eq, Structural)]
pub enum DnsError {
    /// A read or an in-place overwrite addressed a byte outside the store.
    BufferBounds,
    /// A name's chain of compression pointers was longer than the limit.
    CompressionLoopLimit,
    /// A label of a name is too long to be written.
    LabelTooLong,
    /// A count or a length does not fit the 16-bit field that carries it.
    Malformed,
    /// A socket could not be bound, written to or read from.
    Transport,
    /// No reply arrived in time, or the whole resolution ran out of time.
    Timeout,
}

} // verus!
