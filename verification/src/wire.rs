//! The message on the wire, as sequences of bytes: what a message is
//! written as, and what a stream of bytes is read as.

use vstd::prelude::*;
use capnp::Word;
use crate::error::Error;
use crate::segment_table::encode_table;
use crate::segment_table::word_counts;
use crate::segment_table::words_before;
use crate::table_reader::table_consumed;
use crate::table_reader::table_result;
use crate::words::words_bytes;

verus! {

/// The segments that lie at `ranges`, counted in words, in the bytes
/// `payload`.
pub open spec fn split_segments(payload: Seq<u8>, ranges: Seq<(int, int)>) -> Seq<Seq<u8>> {
    Seq::new(ranges.len(), |i: int| payload.subrange(8 * ranges[i].0, 8 * ranges[i].1))
}

/// The bytes of the first `count` of `segments`, end to end.
pub open spec fn bytes_before(segments: Seq<Seq<u8>>, count: int) -> Seq<u8>
    decreases count,
{
    if count <= 0 {
        Seq::empty()
    } else {
        bytes_before(segments, count - 1) + segments[count - 1]
    }
}

/// The bytes of all of `segments`, end to end.
pub open spec fn payload(segments: Seq<Seq<u8>>) -> Seq<u8> {
    bytes_before(segments, segments.len() as int)
}

/// The lengths of `segments` in words, each segment being a whole number of
/// words.
pub open spec fn lengths_in_words(segments: Seq<Seq<u8>>) -> Seq<nat> {
    Seq::new(segments.len(), |i: int| segments[i].len() / 8)
}

/// Whether `segments` can be the segments of a message: there is at least
/// one, and each is a whole number of words. A segment may be empty.
pub open spec fn is_message(segments: Seq<Seq<u8>>) -> bool {
    &&& segments.len() >= 1
    &&& forall|i: int| 0 <= i < segments.len() ==> (#[trigger] segments[i]).len() % 8 == 0
}

/// A message on the wire: the segment table, then the bytes of the segments
/// in their order.
pub open spec fn encode_message(segments: Seq<Seq<u8>>) -> Seq<u8> {
    encode_table(lengths_in_words(segments)) + payload(segments)
}

/// The bytes of each of `segments`.
pub open spec fn segment_bytes(segments: Seq<&[Word]>) -> Seq<Seq<u8>> {
    Seq::new(segments.len(), |i: int| words_bytes(segments[i]@))
}

/// The bytes of the first `count` segments are eight for each of their words.
pub proof fn lemma_bytes_before_len(segments: Seq<Seq<u8>>, count: int)
    requires
        is_message(segments),
        0 <= count <= segments.len(),
    ensures
        bytes_before(segments, count).len() == 8 * words_before(
            lengths_in_words(segments),
            count,
        ),
    decreases count,
{
    if count > 0 {
        lemma_bytes_before_len(segments, count - 1);
    }
}

/// The bytes of the first `count` segments begin the bytes of any more of
/// them.
pub proof fn lemma_bytes_before_prefix(segments: Seq<Seq<u8>>, count: int, more: int)
    requires
        0 <= count <= more <= segments.len(),
    ensures
        bytes_before(segments, count).len() <= bytes_before(segments, more).len(),
        bytes_before(segments, more).take(bytes_before(segments, count).len() as int)
            == bytes_before(segments, count),
    decreases more - count,
{
    if count < more {
        lemma_bytes_before_prefix(segments, count, more - 1);
        assert(bytes_before(segments, more).take(bytes_before(segments, count).len() as int)
            =~= bytes_before(segments, more - 1).take(
            bytes_before(segments, count).len() as int,
        ));
    } else {
        assert(bytes_before(segments, more).take(bytes_before(segments, count).len() as int)
            =~= bytes_before(segments, count));
    }
}

/// Segments given as words can be the segments of a message where there is at
/// least one, and their lengths in words are those of their bytes.
pub proof fn lemma_segment_bytes_is_message(segments: Seq<&[Word]>)
    requires
        segments.len() >= 1,
    ensures
        is_message(segment_bytes(segments)),
        lengths_in_words(segment_bytes(segments)) == word_counts(segments),
{
    assert(lengths_in_words(segment_bytes(segments)) =~= word_counts(segments));
}

/// What reading a message gives where the source holds `stream` and then
/// ends: no message where it holds nothing, the bytes of each segment where
/// the table is good and all the words that it announces are there, and else
/// the reason why not.
pub open spec fn message_result(stream: Seq<u8>, limit: u64) -> Result<
    Option<Seq<Seq<u8>>>,
    Error,
> {
    match table_result(stream, limit) {
        Err(e) => Err(e),
        Ok(None) => Ok(None),
        Ok(Some(ranges)) => {
            let payload = stream.skip(table_consumed(stream) as int);
            if payload.len() < 8 * ranges.last().1 {
                Err(Error::Truncated)
            } else {
                Ok(Some(split_segments(payload, ranges)))
            }
        },
    }
}

/// The bytes that reading a message takes from a source that holds `stream`:
/// the table and the words that it announces where both are there, the table
/// or its first word where the table is bad, and else all that there is.
pub open spec fn message_consumed(stream: Seq<u8>, limit: u64) -> nat {
    match table_result(stream, limit) {
        Ok(Some(ranges)) => {
            if stream.len() < table_consumed(stream) + 8 * ranges.last().1 {
                stream.len()
            } else {
                (table_consumed(stream) + 8 * ranges.last().1) as nat
            }
        },
        _ => table_consumed(stream),
    }
}

} // verus!
