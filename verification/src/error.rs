//! The ways in which reading or writing a packet can fail.

use vstd::prelude::*;

verus! {

/// Why a buffer access or a name conversion was refused. Every failure ends
/// the operation that met it; none is retried.
#[derive(Debug, Clone, Copy, PartialEq, Eq, Structural)]
pub enum CodecError {
    /// An access needed bytes outside the buffer.
    BufferOverrun,
    /// A name made the decoder follow more compression pointers than it
    /// accepts.
    TooManyJumps,
    /// A label of a name to encode is longer than a length byte can announce.
    LabelTooLong,
}

impl CodecError {
    /// The sentence that describes this failure.
    pub open spec fn text(self) -> Seq<char> {
        match self {
            CodecError::BufferOverrun => "End of buffer"@,
            CodecError::TooManyJumps => "Limit of 5 jumps exceeded"@,
            CodecError::LabelTooLong => "Single label exceeds 63 characters of length"@,
        }
    }

    /// A sentence that describes this failure, for a log or a user.
    pub fn message(&self) -> (s: &'static str)
        ensures
            s@ == self.text(),
    {
        match self {
            CodecError::BufferOverrun => "End of buffer",
            CodecError::TooManyJumps => "Limit of 5 jumps exceeded",
            CodecError::LabelTooLong => "Single label exceeds 63 characters of length",
        }
    }
}

} // verus!
