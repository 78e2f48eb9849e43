//! Failures.

use vstd::prelude::*;

verus! {

/// Why a parse failed.
#[derive(Clone, Copy, Debug, PartialEq, Eq, Structural)]
pub enum ErrorKind {
    /// Fewer bytes were left than a number needs, or a string had no
    /// terminator before the input ended.
    InsufficientInput,
    /// An offset or a count does not fit an index of this machine, or it points
    /// past the end of the buffer it is measured from.
    InvalidOffset,
    /// A repetition cannot reach its sentinel: an element other than the
    /// sentinel left the input no shorter than it found it.
    SentinelNotFound,
}

/// A failed parse: what went wrong, and the input at which it did.
#[derive(Clone, Copy, Debug, PartialEq, Eq)]
pub struct ParseError<'a> {
    pub kind: ErrorKind,
    pub input: &'a [u8],
}

} // verus!
