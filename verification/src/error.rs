//! What can go wrong while a message is framed or unframed.

use vstd::prelude::*;

verus! {

/// Why a message could not be read or written.
#[derive(Clone, Copy, Debug, PartialEq, Eq, Structural)]
pub enum Error {
    /// The first word of the segment table announces this many segments,
    /// which is 512 or more.
    TooManySegments(u32),
    /// The segment table announces no segment at all, or a message without
    /// segments was handed over to be written.
    TooFewSegments,
    /// The segments hold this many words in all, which is more than the
    /// traversal limit of the reader, or more than this machine can address.
    MessageTooLarge(u64),
    /// The source ended inside a message.
    Truncated,
    /// The sink took no byte of a non-empty offer.
    WriteZero,
}

} // verus!
