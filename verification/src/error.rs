//! The error kinds that every decoder of this crate reports by value.

use vstd::prelude::*;

verus! {

/// Why a decode was refused.
#[derive(Debug, Clone, Copy, PartialEq, Eq, Structural)]
pub enum DecodeError {
    /// The leading magic bytes are not those of the expected format.
    InvalidSignature,
    /// The stream is well formed but uses a feature this crate does not decode.
    UnsupportedFeature,
    /// The stream contradicts its own framing: a code with no symbol, a read
    /// past the end of the buffer, a reference before the start of the output.
    Corrupted,
}

impl DecodeError {
    /// A short English description of the error kind.
    pub fn message(&self) -> (s: &'static str)
        ensures
            s@ == match *self {
                DecodeError::InvalidSignature => "invalid signature"@,
                DecodeError::UnsupportedFeature => "unsupported feature"@,
                DecodeError::Corrupted => "corrupted data"@,
            },
    {
        match self {
            DecodeError::InvalidSignature => "invalid signature",
            DecodeError::UnsupportedFeature => "unsupported feature",
            DecodeError::Corrupted => "corrupted data",
        }
    }
}

} // verus!
