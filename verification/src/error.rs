//! The ways in which an operation of this library is refused.
use vstd::prelude::*;

verus! {

/// Why an edit of a tree, or the making of a cache, was refused.
#[derive(Debug, Clone, Copy, PartialEq, Eq, Structural)]
pub enum Error {
    /// An insert index, or the end of a removal range, lies past the end of
    /// the sequence.
    IndexOutOfBounds,
    /// A removal range ends before it starts.
    InvalidRange,
    /// A cache was asked for with a chunk size of zero.
    InvalidConfiguration,
}

} // verus!
