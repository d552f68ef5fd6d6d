use vstd::prelude::*;

verus! {

/// Everything that can go wrong when building, decoding or replaying
/// instructions.
#[derive(Debug, Clone, Copy, PartialEq, Eq, Structural)]
pub enum InstructionError {
    /// `push` on an instruction that already holds the largest length.
    ContentOverflow,
    /// The first byte of an instruction is none of the three signs.
    InvalidSign,
    /// No byte is left where an instruction's sign should be.
    MissingSign,
    /// No byte is left where an instruction's length should be.
    MissingLength,
    /// The length field cannot be read for the configured width.
    InvalidLength,
    /// Fewer content bytes are left than the length announces.
    MissingContent,
    /// Replay needs more source bytes than are left.
    SourceUnderrun,
    /// A Copy's content differs from the source bytes it skips.
    ContentMismatch,
}

} // verus!
