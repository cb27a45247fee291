//! What a reader is told before it reads.

use vstd::prelude::*;

verus! {

/// The limits under which a message is read.
#[derive(Clone, Copy, Debug)]
pub struct ReaderOptions {
    /// The most words that a message may hold. A message that announces more
    /// is refused before any room is made for it.
    pub traversal_limit_in_words: u64,
}

} // verus!
