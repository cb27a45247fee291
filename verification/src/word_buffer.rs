//! Buffers of words, written and read by their bytes.

use vstd::prelude::*;
use capnp::Word;
use crate::words::words_bytes;
use crate::words::words_to_bytes_mut;

verus! {

/// The bytes of a stretch of a run of words are the matching stretch of the
/// bytes of the run.
pub proof fn lemma_words_bytes_subrange(words: Seq<Word>, start: int, end: int)
    requires
        0 <= start <= end <= words.len(),
    ensures
        words_bytes(words.subrange(start, end)) == words_bytes(words).subrange(
            8 * start,
            8 * end,
        ),
{
    let part = words_bytes(words.subrange(start, end));
    let stretch = words_bytes(words).subrange(8 * start, 8 * end);
    assert forall|i: int| 0 <= i < part.len() implies part[i] == stretch[i] by {
        assert((8 * start + i) / 8 == start + i / 8);
        assert((8 * start + i) % 8 == i % 8);
    }
    assert(part =~= stretch);
}

/// Writes `data` over the bytes of `words` that start at byte `offset`, and
/// leaves the other bytes as they are.
pub fn store_bytes(words: &mut Vec<Word>, offset: usize, data: &[u8])
    requires
        offset + data@.len() <= 8 * old(words)@.len(),
    ensures
        final(words)@.len() == old(words)@.len(),
        words_bytes(final(words)@) == words_bytes(old(words)@).take(offset as int) + data@
            + words_bytes(old(words)@).skip(offset + data@.len()),
{
    let ghost before = words_bytes(words@);
    let bytes = words_to_bytes_mut(words.as_mut_slice());
    assert(bytes@.len() == bytes.len() <= usize::MAX);
    let mut i: usize = 0;
    while i < data.len()
        invariant
            0 <= i <= data@.len(),
            bytes@.len() == before.len() <= usize::MAX,
            offset + data@.len() <= before.len(),
            forall|k: int| 0 <= k < offset ==> bytes@[k] == before[k],
            forall|k: int| 0 <= k < i ==> bytes@[offset + k] == data@[k],
            forall|k: int| offset + i <= k < before.len() ==> bytes@[k] == before[k],
        decreases data@.len() - i,
    {
        bytes[offset + i] = data[i];
        i += 1;
    }
}

} // verus!
