//! The ways in which reading can fail.

use vstd::prelude::*;

verus! {

/// Why a read from a byte buffer failed.
#[derive(Clone, Copy, Debug, PartialEq, Eq, Structural)]
pub enum DecodeError {
    /// The buffer ended before the field was fully read.
    OutOfBounds,
    /// A variable-length integer ran past the five groups a 32-bit value can hold.
    FormatError,
}

} // verus!
