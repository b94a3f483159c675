//! The ways in which decoding can fail.

use vstd::prelude::*;

verus! {

/// Why a buffer could not be decoded.
#[derive(Clone, Copy, Debug, PartialEq, Eq, Structural)]
pub enum DecodeError {
    /// Fewer bytes are available than a read of fixed width asks for.
    TruncatedInput,
    /// A structural invariant of the chunk's tables does not hold.
    MalformedHeader,
    /// The length of a slice disagrees with the entry count declared for it.
    SizeMismatch,
}

} // verus!
