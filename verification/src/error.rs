//! What can go wrong while reading.

use vstd::prelude::*;

verus! {

/// Why a read did not give what was asked for. None of these ends the
/// reader's life: the buffer keeps what it had received, and the caller may
/// try again or give up.
#[derive(Debug, PartialEq, Eq)]
pub enum ReadError<F> {
    /// The source reported a fault, handed on as it came.
    SourceError(F),
    /// The source ran dry in the middle of a line: `buffered` bytes are held
    /// and no terminator is among them.
    UnterminatedLine { buffered: usize },
    /// The buffer is full and holds no terminator: the line, its terminator
    /// included, is longer than `capacity`.
    LineTooLong { capacity: usize, buffered: usize },
    /// The source ran dry after `delivered` of the `requested` bytes.
    ShortRead { requested: usize, delivered: usize },
}

} // verus!
