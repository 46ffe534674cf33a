//! The errors of this library.
use vstd::prelude::*;

verus! {

/// The ways in which a request to this library can be rejected.
#[derive(Debug, Clone, Copy, PartialEq, Eq)]
pub enum HashError {
    /// The input is not a string of hexadecimal digits of even length.
    DecodeError,
    /// The requested capacity is smaller than the minimally padded message.
    CapacityError,
    /// A chunk handed to the compression is not exactly 512 bits long.
    ChunkSizeInvariant,
    /// The length of the padded preimage is not a multiple of 512 bits.
    AlignmentInvariant,
}

impl HashError {
    /// A short description of the error.
    pub fn message(self) -> (text: &'static str)
        ensures
            text@ == match self {
                HashError::DecodeError => "Invalid hex."@,
                HashError::CapacityError => "The capacity cannot hold the padded message."@,
                HashError::ChunkSizeInvariant => "Chunk must be 512 bits."@,
                HashError::AlignmentInvariant => "Input must be padded to 512-bit blocks."@,
            },
    {
        match self {
            HashError::DecodeError => "Invalid hex.",
            HashError::CapacityError => "The capacity cannot hold the padded message.",
            HashError::ChunkSizeInvariant => "Chunk must be 512 bits.",
            HashError::AlignmentInvariant => "Input must be padded to 512-bit blocks.",
        }
    }
}

} // verus!
