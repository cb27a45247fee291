//! What holds of reading and writing together.

use vstd::prelude::*;
use crate::error::Error;
use crate::little_endian::le_bytes;
use crate::little_endian::lemma_le_bytes_len;
use crate::little_endian::lemma_le_u32_of_le_bytes;
use crate::segment_table::acceptable_size;
use crate::segment_table::announced_count;
use crate::segment_table::announced_lengths;
use crate::segment_table::encode_table;
use crate::segment_table::encoded_slot;
use crate::segment_table::segment_ranges;
use crate::segment_table::table_len;
use crate::segment_table::table_slot;
use crate::segment_table::total_words;
use crate::segment_table::words_before;
use crate::wire::bytes_before;
use crate::wire::encode_message;
use crate::wire::is_message;
use crate::wire::lemma_bytes_before_len;
use crate::wire::lemma_bytes_before_prefix;
use crate::wire::lengths_in_words;
use crate::wire::message_consumed;
use crate::wire::message_result;
use crate::wire::payload;
use crate::wire::split_segments;
use crate::table_reader::lemma_lengths_of_prefix;
use crate::table_reader::lemma_slot_of_prefix;
use crate::table_reader::table_consumed;
use crate::table_reader::table_missing;
use crate::table_reader::table_result;

verus! {

/// Whether a table can say of `lengths` what they are: there are between 1
/// and 511 of them, and each fits the 32 bits of a slot.
pub open spec fn fits_table(lengths: Seq<nat>) -> bool {
    &&& 1 <= lengths.len() < 512
    &&& forall|i: int| 0 <= i < lengths.len() ==> #[trigger] lengths[i] <= u32::MAX
}

/// A stream that starts with the table for `lengths` holds, in each slot of
/// the table, the number that was encoded there.
pub proof fn lemma_slot_of_encoded(lengths: Seq<nat>, rest: Seq<u8>, k: int)
    requires
        fits_table(lengths),
        0 <= k <= lengths.len(),
    ensures
        table_slot(encode_table(lengths) + rest, k) == encoded_slot(lengths, k),
{
    let stream = encode_table(lengths) + rest;
    let slot = le_bytes(encoded_slot(lengths, k));
    lemma_le_bytes_len(encoded_slot(lengths, k));
    assert forall|i: int| 0 <= i < 4 implies stream.subrange(4 * k, 4 * k + 4)[i] == slot[i] by {
        assert((4 * k + i) / 4 == k);
        assert((4 * k + i) % 4 == i);
    }
    assert(stream.subrange(4 * k, 4 * k + 4) =~= slot);
    lemma_le_u32_of_le_bytes(encoded_slot(lengths, k));
}

/// A table read back says what was written: a stream that starts with the
/// table for `lengths` announces these lengths, and reading the table takes
/// the table and nothing of what follows it.
pub proof fn lemma_table_round_trip(lengths: Seq<nat>, rest: Seq<u8>, limit: u64)
    requires
        fits_table(lengths),
    ensures
        announced_lengths(encode_table(lengths) + rest) == lengths,
        table_consumed(encode_table(lengths) + rest) == encode_table(lengths).len(),
        acceptable_size(total_words(lengths), limit) ==> table_result(
            encode_table(lengths) + rest,
            limit,
        ) == Ok::<Option<Seq<(int, int)>>, Error>(Some(segment_ranges(lengths))),
        !acceptable_size(total_words(lengths), limit) ==> table_result(
            encode_table(lengths) + rest,
            limit,
        ) == Err::<Option<Seq<(int, int)>>, Error>(
            Error::MessageTooLarge(total_words(lengths) as u64),
        ),
{
    let stream = encode_table(lengths) + rest;
    lemma_slot_of_encoded(lengths, rest, 0);
    assert(announced_count(stream) == lengths.len());
    assert forall|i: int| 0 <= i < lengths.len() implies #[trigger] announced_lengths(stream)[i]
        == lengths[i] by {
        lemma_slot_of_encoded(lengths, rest, i + 1);
    }
    assert(announced_lengths(stream) =~= lengths);
}

/// Reading follows the table: one who has taken a part of a table and not all
/// of it wants more bytes, and no more than the table has left, whatever
/// follows the table. One who has taken all of it wants nothing more.
pub proof fn lemma_reader_follows_table(lengths: Seq<nat>, rest: Seq<u8>, taken: int)
    requires
        fits_table(lengths),
        0 <= taken <= encode_table(lengths).len(),
    ensures
        taken < encode_table(lengths).len() ==> 0 < table_missing(
            (encode_table(lengths) + rest).take(taken),
        ) <= encode_table(lengths).len() - taken,
        taken == encode_table(lengths).len() ==> table_missing(
            (encode_table(lengths) + rest).take(taken),
        ) == 0,
{
    let stream = encode_table(lengths) + rest;
    lemma_slot_of_encoded(lengths, rest, 0);
    if taken >= 8 {
        lemma_slot_of_prefix(stream, taken, 0);
    }
}

/// Cutting the bytes of all segments, and whatever follows them, at the
/// ranges of their table gives the segments back.
pub proof fn lemma_split_of_payload(segments: Seq<Seq<u8>>, rest: Seq<u8>)
    requires
        is_message(segments),
    ensures
        payload(segments).len() == 8 * total_words(lengths_in_words(segments)),
        split_segments(payload(segments) + rest, segment_ranges(lengths_in_words(segments)))
            == segments,
{
    let lengths = lengths_in_words(segments);
    let ranges = segment_ranges(lengths);
    let bytes = payload(segments) + rest;
    let split = split_segments(bytes, ranges);
    lemma_bytes_before_len(segments, segments.len() as int);
    assert forall|i: int| 0 <= i < segments.len() implies #[trigger] split[i]
        == segments[i] by {
        lemma_bytes_before_len(segments, i);
        lemma_bytes_before_len(segments, i + 1);
        lemma_bytes_before_prefix(segments, i + 1, segments.len() as int);
        let start = bytes_before(segments, i).len() as int;
        let end = bytes_before(segments, i + 1).len() as int;
        assert(payload(segments).take(end) == bytes_before(segments, i) + segments[i]);
        assert(bytes.subrange(start, end) =~= payload(segments).take(end).skip(start));
        assert((bytes_before(segments, i) + segments[i]).skip(start) =~= segments[i]);
    }
    assert(split =~= segments);
}

/// Round trip: a message that is written and read back is the message, each
/// segment with its bytes and in its place, and reading takes the bytes of the
/// message and nothing of what follows it. This holds of every message that a
/// table can describe and that the reader's limit admits.
pub proof fn lemma_round_trip(segments: Seq<Seq<u8>>, rest: Seq<u8>, limit: u64)
    requires
        is_message(segments),
        fits_table(lengths_in_words(segments)),
        acceptable_size(total_words(lengths_in_words(segments)), limit),
    ensures
        message_result(encode_message(segments) + rest, limit) == Ok::<
            Option<Seq<Seq<u8>>>,
            Error,
        >(Some(segments)),
        message_consumed(encode_message(segments) + rest, limit) == encode_message(
            segments,
        ).len(),
{
    let lengths = lengths_in_words(segments);
    let table = encode_table(lengths);
    let body = payload(segments) + rest;
    let stream = encode_message(segments) + rest;
    assert(stream == table + body) by {
        assert(stream =~= table + body);
    }
    assert(stream.skip(table.len() as int) == body) by {
        assert((table + body).skip(table.len() as int) =~= body);
    }
    lemma_table_round_trip(lengths, body, limit);
    lemma_split_of_payload(segments, rest);
}

/// A source that ends before it gave anything ends between messages: reading
/// gives no message, and that is no error.
pub proof fn lemma_nothing_is_no_message(limit: u64)
    ensures
        message_result(Seq::<u8>::empty(), limit) == Ok::<Option<Seq<Seq<u8>>>, Error>(None),
        message_consumed(Seq::<u8>::empty(), limit) == 0,
{
}

/// A source that ends inside the first word of a table, after at least one
/// byte of it, ends inside a message: reading fails.
pub proof fn lemma_part_of_first_word_is_truncated(stream: Seq<u8>, limit: u64)
    requires
        0 < stream.len() < 8,
    ensures
        message_result(stream, limit) == Err::<Option<Seq<Seq<u8>>>, Error>(Error::Truncated),
        message_consumed(stream, limit) == stream.len(),
{
}

/// A table cut short is a truncated table: where the source ends inside a
/// table, after at least one byte of it, reading fails and has taken all
/// there was.
pub proof fn lemma_cut_in_table(lengths: Seq<nat>, rest: Seq<u8>, cut: int, limit: u64)
    requires
        fits_table(lengths),
        0 < cut < encode_table(lengths).len(),
    ensures
        table_result((encode_table(lengths) + rest).take(cut), limit) == Err::<
            Option<Seq<(int, int)>>,
            Error,
        >(Error::Truncated),
        table_consumed((encode_table(lengths) + rest).take(cut)) == cut,
{
    let whole = encode_table(lengths) + rest;
    if cut >= 8 {
        lemma_slot_of_encoded(lengths, rest, 0);
        lemma_slot_of_prefix(whole, cut, 0);
        assert(announced_count(whole.take(cut)) == lengths.len());
    }
}

/// A message cut short is an error and never a shorter message, nor the end
/// of the stream: where the source ends inside a message, after at least one
/// byte of it and before the last, reading fails and has taken all there was.
pub proof fn lemma_cut_short(segments: Seq<Seq<u8>>, cut: int, limit: u64)
    requires
        is_message(segments),
        fits_table(lengths_in_words(segments)),
        acceptable_size(total_words(lengths_in_words(segments)), limit),
        0 < cut < encode_message(segments).len(),
    ensures
        message_result(encode_message(segments).take(cut), limit) == Err::<
            Option<Seq<Seq<u8>>>,
            Error,
        >(Error::Truncated),
        message_consumed(encode_message(segments).take(cut), limit) == cut,
{
    let lengths = lengths_in_words(segments);
    let table = encode_table(lengths);
    let whole = encode_message(segments);
    let stream = whole.take(cut);
    if cut < table.len() {
        lemma_cut_in_table(lengths, payload(segments), cut, limit);
    } else {
        let left = payload(segments).take(cut - table.len());
        assert(stream == table + left) by {
            assert(stream =~= table + left);
        }
        assert(stream.skip(table.len() as int) == left) by {
            assert((table + left).skip(table.len() as int) =~= left);
        }
        lemma_table_round_trip(lengths, left, limit);
        lemma_bytes_before_len(segments, segments.len() as int);
        assert(segment_ranges(lengths).last().1 == total_words(lengths));
        assert(left.len() < 8 * total_words(lengths));
    }
}

/// A first word of all ones in its first four bytes announces no segment,
/// whatever follows: reading fails for too few segments.
pub proof fn lemma_all_ones_announce_nothing(stream: Seq<u8>, limit: u64)
    requires
        stream.len() >= 8,
        stream[0] == 0xff,
        stream[1] == 0xff,
        stream[2] == 0xff,
        stream[3] == 0xff,
    ensures
        announced_count(stream) == 0,
        table_result(stream, limit) == Err::<Option<Seq<(int, int)>>, Error>(
            Error::TooFewSegments,
        ),
        message_result(stream, limit) == Err::<Option<Seq<Seq<u8>>>, Error>(
            Error::TooFewSegments,
        ),
{
}

/// A table that announces 512 segments or more is refused on its first word:
/// reading fails for too many segments, and takes the first word alone.
pub proof fn lemma_too_many_segments(stream: Seq<u8>, limit: u64)
    requires
        stream.len() >= 8,
        announced_count(stream) >= 512,
    ensures
        message_result(stream, limit) == Err::<Option<Seq<Seq<u8>>>, Error>(
            Error::TooManySegments(announced_count(stream) as u32),
        ),
        message_consumed(stream, limit) == 8,
        table_missing(stream.take(8)) == 0,
{
    lemma_slot_of_prefix(stream, 8, 0);
}

/// The traversal limit is enforced on the table: a message of one segment
/// that announces more words than the limit admits is refused once its first
/// word is there. The reader wants no byte after that word, and takes none.
pub proof fn lemma_limit_enforced_on_table(stream: Seq<u8>, limit: u64)
    requires
        stream.len() >= 8,
        announced_count(stream) == 1,
        table_slot(stream, 1) > limit,
    ensures
        message_result(stream, limit) == Err::<Option<Seq<Seq<u8>>>, Error>(
            Error::MessageTooLarge(table_slot(stream, 1) as u64),
        ),
        message_consumed(stream, limit) == 8,
        table_missing(stream.take(8)) == 0,
{
    lemma_slot_of_prefix(stream, 8, 0);
    let lengths = announced_lengths(stream);
    assert(words_before(lengths, 1) == words_before(lengths, 0) + lengths[0]);
}

} // verus!
