//! Words, the eight-byte units of a message, and their bytes.
//!
//! A word is a value of the `capnp` crate and opaque here. What this crate
//! knows of it is the eight bytes that it holds, in the order in which they
//! lie in memory and travel over a stream.
//!
//! This file holds all that is taken from `capnp` on trust: the types, the
//! name for the bytes of a word, and one function for each function of
//! `capnp` that is called, with what is believed of it and not proved.

use vstd::prelude::*;
use capnp::OutputSegments;
use capnp::Word;

verus! {

/// `capnp::Word`, of which nothing is known here but its bytes.
#[verifier::external_type_specification]
#[verifier::external_body]
pub struct ExWord(capnp::Word);

/// `capnp::OutputSegments`, the segments that a message hands out to be
/// written. It is carried from the message to `output_slices` and not looked
/// into.
#[verifier::external_type_specification]
#[verifier::external_body]
pub struct ExOutputSegments<'a>(capnp::OutputSegments<'a>);

/// The eight bytes of a word, in memory order.
pub uninterp spec fn word_bytes(word: Word) -> Seq<u8>;

/// The bytes of a run of words: those of the first word, then those of the
/// second, and so on.
pub open spec fn words_bytes(words: Seq<Word>) -> Seq<u8> {
    Seq::new(8 * words.len(), |i: int| word_bytes(words[i / 8])[i % 8])
}

/// `capnp::Word::words_to_bytes`: the same memory seen as bytes. The result has
/// eight bytes for each word, and byte `i` of it is byte `i % 8` of word
/// `i / 8`.
#[verifier::external_body]
pub(crate) fn words_to_bytes<'a>(words: &'a [Word]) -> (bytes: &'a [u8])
    ensures
        bytes@.len() == 8 * words@.len(),
        forall|i: int| 0 <= i < bytes@.len() ==> bytes@[i] == word_bytes(words@[i / 8])[i % 8],
{
    Word::words_to_bytes(words)
}

/// `capnp::Word::words_to_bytes_mut`: the same memory seen as bytes that can
/// be written. The result starts out as the bytes of the words, and what it
/// holds when the borrow ends are the bytes of the words from then on. The
/// number of words does not change.
#[verifier::external_body]
pub(crate) fn words_to_bytes_mut<'a>(words: &'a mut [Word]) -> (bytes: &'a mut [u8])
    ensures
        bytes@.len() == 8 * old(words)@.len(),
        forall|i: int|
            0 <= i < bytes@.len() ==> bytes@[i] == word_bytes(old(words)@[i / 8])[i % 8],
        final(words)@.len() == old(words)@.len(),
        forall|i: int|
            0 <= i < final(bytes)@.len() ==> final(bytes)@[i] == word_bytes(
                final(words)@[i / 8],
            )[i % 8],
{
    Word::words_to_bytes_mut(words)
}

/// `capnp::Word::allocate_zeroed_vec`: a vector of `length` words whose bytes
/// are all zero. The call panics where the bytes of the vector would exceed
/// `isize::MAX`, so such a length is not admitted.
#[verifier::external_body]
pub(crate) fn allocate_zeroed_vec(length: usize) -> (words: Vec<Word>)
    requires
        8 * length <= isize::MAX,
    ensures
        words@.len() == length,
        forall|i: int, j: int|
            0 <= i < length && 0 <= j < 8 ==> #[trigger] word_bytes(words@[i])[j] == 0u8,
{
    Word::allocate_zeroed_vec(length)
}

/// The `Deref` impl of `capnp::OutputSegments`: the segments that the value
/// holds, as a slice of word slices.
#[verifier::external_body]
pub(crate) fn output_slices<'a, 'b>(
    segments: &'b OutputSegments<'a>,
) -> (slices: &'b [&'a [Word]]) {
    &**segments
}

} // verus!
