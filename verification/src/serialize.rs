//! Reading and writing messages on streams that are held in memory: a slice
//! of bytes to read from, a vector of bytes to write to.
//!
//! Here are also the segments of a message that was read, and what a value
//! must offer to be written.

use vstd::prelude::*;
use vstd::slice::slice_subrange;
use capnp::OutputSegments;
use capnp::Word;
use crate::bytes::append_bytes;
use crate::bytes::take_front;
use crate::error::Error;
use crate::options::ReaderOptions;
use crate::segment_table::contiguous;
use crate::segment_table::write_segment_table;
use crate::segment_table::SegmentTable;
use crate::segments_reader::SegmentsReader;
use crate::table_reader::is_table_result;
use crate::table_reader::lemma_table_reading_step;
use crate::table_reader::table_consumed;
use crate::table_reader::table_missing;
use crate::table_reader::table_result;
use crate::table_reader::SegmentTableReader;
use crate::wire::bytes_before;
use crate::wire::encode_message;
use crate::wire::is_message;
use crate::wire::lemma_segment_bytes_is_message;
use crate::wire::message_consumed;
use crate::wire::message_result;
use crate::wire::payload;
use crate::wire::segment_bytes;
use crate::wire::split_segments;
use crate::word_buffer::lemma_words_bytes_subrange;
use crate::words::output_slices;
use crate::words::words_to_bytes;
use crate::words::words_bytes;

verus! {

/// Whether `got` is what `expected` describes.
pub open spec fn is_message_result(
    got: Result<Option<OwnedSegments>, Error>,
    expected: Result<Option<Seq<Seq<u8>>>, Error>,
) -> bool {
    match (got, expected) {
        (Ok(Some(segments)), Ok(Some(bytes))) => segments.bytes() == bytes,
        (Ok(None), Ok(None)) => true,
        (Err(e), Err(f)) => e == f,
        _ => false,
    }
}

/// The segments of a message that was read: one buffer that holds the words
/// of all segments end to end, and for each segment where it starts and ends
/// in that buffer.
#[derive(Debug)]
pub struct OwnedSegments {
    segment_slices: Vec<(usize, usize)>,
    owned_space: Vec<Word>,
}

impl OwnedSegments {
    #[verifier::type_invariant]
    spec fn well_formed(self) -> bool {
        contiguous(self.ranges(), self.owned_space@.len() as int)
    }

    /// The start and the end of each segment in the buffer, counted in words.
    pub closed spec fn ranges(&self) -> Seq<(int, int)> {
        Seq::new(
            self.segment_slices@.len(),
            |i: int| (self.segment_slices@[i].0 as int, self.segment_slices@[i].1 as int),
        )
    }

    /// The words of the buffer.
    pub closed spec fn words(&self) -> Seq<Word> {
        self.owned_space@
    }

    /// The segments, each as its run of words.
    pub open spec fn view(&self) -> Seq<Seq<Word>> {
        Seq::new(
            self.ranges().len(),
            |i: int| self.words().subrange(self.ranges()[i].0, self.ranges()[i].1),
        )
    }

    /// The segments, each as its run of bytes.
    pub open spec fn bytes(&self) -> Seq<Seq<u8>> {
        Seq::new(self@.len(), |i: int| words_bytes(self@[i]))
    }

    /// Puts a table and the words that it describes together.
    pub(crate) fn from_parts(table: SegmentTable, owned_space: Vec<Word>) -> (segments:
        OwnedSegments)
        requires
            owned_space@.len() == table.words(),
        ensures
            segments.ranges() == table@,
            segments.words() == owned_space@,
            segments.bytes() == split_segments(words_bytes(owned_space@), table@),
    {
        let ghost ranges = table@;
        let segment_slices = table.into_segment_slices();
        proof {
            let own = Seq::new(
                segment_slices@.len(),
                |i: int| (segment_slices@[i].0 as int, segment_slices@[i].1 as int),
            );
            assert(own =~= ranges);
        }
        let segments = OwnedSegments { segment_slices, owned_space };
        proof {
            let split = split_segments(words_bytes(owned_space@), ranges);
            assert forall|i: int| 0 <= i < ranges.len() implies #[trigger] segments.bytes()[i]
                == split[i] by {
                lemma_words_bytes_subrange(owned_space@, ranges[i].0, ranges[i].1);
            }
            assert(segments.bytes() =~= split);
        }
        segments
    }

    /// The number of segments, which is at least one.
    pub fn segment_count(&self) -> (count: usize)
        ensures
            count == self@.len(),
            count >= 1,
    {
        proof {
            use_type_invariant(self);
        }
        self.segment_slices.len()
    }

    /// The segment with number `id`, where there is one.
    pub fn get_segment(&self, id: u32) -> (segment: Option<&[Word]>)
        ensures
            id < self@.len() ==> segment is Some && segment->Some_0@ == self@[id as int],
            id >= self@.len() ==> segment is None,
    {
        proof {
            use_type_invariant(self);
        }
        if (id as usize) < self.segment_slices.len() {
            let (a, b) = self.segment_slices[id as usize];
            assert(self.ranges()[id as int] == (a as int, b as int));
            Some(slice_subrange(self.owned_space.as_slice(), a, b))
        } else {
            None
        }
    }
}

/// Reads a segment table from the front of `reader` and leaves `reader` at
/// what follows it. Gives no table where `reader` is empty.
pub fn read_segment_table(reader: &mut &[u8], options: ReaderOptions) -> (result: Result<
    Option<SegmentTable>,
    Error,
>)
    ensures
        is_table_result(
            result,
            table_result(old(reader)@, options.traversal_limit_in_words),
            options.traversal_limit_in_words,
        ),
        final(reader)@ == old(reader)@.skip(table_consumed(old(reader)@) as int),
{
    let ghost stream = reader@;
    let ghost limit = options.traversal_limit_in_words;
    let ghost mut pos: int = 0;
    let mut table_reader = SegmentTableReader::new(options);
    let mut wanted: usize = table_reader.wanted();
    assert(stream.take(0) =~= Seq::<u8>::empty());
    assert(stream.skip(0) =~= stream);
    while wanted > 0
        invariant
            0 <= pos <= stream.len(),
            pos <= table_consumed(stream),
            table_reader.limit() == limit,
            table_reader.received() == stream.take(pos),
            reader@ == stream.skip(pos),
            table_reader.ended() ==> pos == stream.len() && table_missing(stream) > 0,
            wanted == if table_reader.ended() {
                0
            } else {
                table_missing(table_reader.received())
            },
        decreases
                stream.len() - pos + if table_reader.ended() {
                    0int
                } else {
                    1int
                },
    {
        proof {
            lemma_table_reading_step(stream, pos, limit);
        }
        let data = take_front(reader, wanted);
        proof {
            assert(stream.take(pos) + data@ =~= stream.take(pos + data@.len()));
            assert(stream.skip(pos).skip(data@.len() as int) =~= stream.skip(pos + data@.len()));
            if data@.len() == 0 {
                assert(stream.take(pos) =~= stream);
            }
            pos = pos + data@.len();
        }
        table_reader = table_reader.supply(data);
        wanted = table_reader.wanted();
    }
    proof {
        if table_reader.ended() {
            assert(stream.take(pos) =~= stream);
        } else {
            lemma_table_reading_step(stream, pos, limit);
        }
    }
    table_reader.finish()
}

/// Reads the words that `table` describes from the front of `reader` and
/// leaves `reader` at what follows them. Where `reader` holds fewer, all of
/// it is taken and the message is found cut short.
pub fn read_segments(reader: &mut &[u8], table: SegmentTable) -> (result: Result<
    OwnedSegments,
    Error,
>)
    ensures
        old(reader)@.len() >= 8 * table.words() ==> result is Ok && result->Ok_0.ranges()
            == table@ && result->Ok_0.bytes() == split_segments(old(reader)@, table@)
            && final(reader)@ == old(reader)@.skip(8 * table.words() as int),
        old(reader)@.len() < 8 * table.words() ==> result == Err::<OwnedSegments, Error>(
            Error::Truncated,
        ) && final(reader)@ == Seq::<u8>::empty(),
{
    let ghost stream = reader@;
    let ghost ranges = table@;
    let ghost expected = 8 * table.words();
    let ghost mut pos: int = 0;
    let ghost total = table.words() as int;
    let mut segments_reader = SegmentsReader::new(table);
    let mut wanted: usize = segments_reader.wanted();
    assert(stream.skip(0) =~= stream);
    while wanted > 0
        invariant
            0 <= pos <= stream.len(),
            pos <= expected,
            segments_reader.ranges() == ranges,
            segments_reader.expected() == expected,
            segments_reader.received() == stream.take(pos),
            reader@ == stream.skip(pos),
            segments_reader.ended() ==> pos == stream.len() && pos < expected,
            wanted == if segments_reader.ended() {
                0
            } else {
                segments_reader.missing()
            },
        decreases
                stream.len() - pos + if segments_reader.ended() {
                    0int
                } else {
                    1int
                },
    {
        let data = take_front(reader, wanted);
        proof {
            assert(stream.take(pos) + data@ =~= stream.take(pos + data@.len()));
            assert(stream.skip(pos).skip(data@.len() as int) =~= stream.skip(pos + data@.len()));
            pos = pos + data@.len();
        }
        segments_reader = segments_reader.supply(data);
        wanted = segments_reader.wanted();
    }
    proof {
        assert(contiguous(ranges, total as int));
        if pos == expected {
            assert(split_segments(stream.take(pos), ranges) =~= split_segments(stream, ranges))
                by {
                assert forall|i: int| 0 <= i < ranges.len() implies stream.take(pos).subrange(
                    8 * (#[trigger] ranges[i]).0,
                    8 * ranges[i].1,
                ) == stream.subrange(8 * ranges[i].0, 8 * ranges[i].1) by {
                    assert(stream.take(pos).subrange(8 * ranges[i].0, 8 * ranges[i].1)
                        =~= stream.subrange(8 * ranges[i].0, 8 * ranges[i].1));
                }
            }
        } else {
            assert(reader@ =~= Seq::<u8>::empty());
        }
    }
    segments_reader.finish()
}

/// Reads a message from the front of `reader` and leaves `reader` at what
/// follows it. Gives no message where `reader` is empty.
pub fn read_message(reader: &mut &[u8], options: ReaderOptions) -> (result: Result<
    Option<OwnedSegments>,
    Error,
>)
    ensures
        is_message_result(
            result,
            message_result(old(reader)@, options.traversal_limit_in_words),
        ),
        final(reader)@ == old(reader)@.skip(
            message_consumed(old(reader)@, options.traversal_limit_in_words) as int,
        ),
{
    let ghost stream = reader@;
    let ghost limit = options.traversal_limit_in_words;
    let table = match read_segment_table(reader, options) {
        Err(e) => {
            assert(table_result(stream, limit) == Err::<Option<Seq<(int, int)>>, Error>(e));
            return Err(e);
        },
        Ok(None) => {
            assert(table_result(stream, limit) == Ok::<Option<Seq<(int, int)>>, Error>(None));
            return Ok(None);
        },
        Ok(Some(table)) => table,
    };
    let ghost ranges = table@;
    let ghost payload = stream.skip(table_consumed(stream) as int);
    let ghost total = table.words() as int;
    assert(table_result(stream, limit) == Ok::<Option<Seq<(int, int)>>, Error>(Some(ranges)));
    assert(ranges.last().1 == total);
    assert(reader@ == payload);
    let result = read_segments(reader, table);
    proof {
        if payload.len() >= 8 * total {
            assert(payload.skip(8 * total) =~= stream.skip(table_consumed(stream) + 8 * total));
        } else {
            assert(stream.skip(stream.len() as int) =~= Seq::<u8>::empty());
        }
    }
    match result {
        Err(e) => Err(e),
        Ok(segments) => Ok(Some(segments)),
    }
}

/// Something that holds segments ready to be written.
pub trait AsOutputSegments {
    /// The segments, in the order in which they are to be written.
    fn as_output_segments<'a>(&'a self) -> OutputSegments<'a>;
}

impl<'a, M> AsOutputSegments for &'a M where M: AsOutputSegments {
    /// A reference hands out what the value that it refers to hands out.
    fn as_output_segments<'b>(&'b self) -> (segments: OutputSegments<'b>)
        ensures
            call_ensures(M::as_output_segments, (*self,), segments),
    {
        (*self).as_output_segments()
    }
}

/// Appends the bytes of `segments`, in their order, to `sink`.
pub fn write_segments(sink: &mut Vec<u8>, segments: &[&[Word]])
    ensures
        final(sink)@ == old(sink)@ + payload(segment_bytes(segments@)),
{
    let ghost bytes = segment_bytes(segments@);
    let mut i: usize = 0;
    assert(old(sink)@ + bytes_before(bytes, 0) =~= old(sink)@);
    while i < segments.len()
        invariant
            0 <= i <= segments@.len(),
            bytes == segment_bytes(segments@),
            sink@ == old(sink)@ + bytes_before(bytes, i as int),
        decreases segments@.len() - i,
    {
        let segment = words_to_bytes(segments[i]);
        assert(segment@ =~= bytes[i as int]);
        append_bytes(sink, segment);
        i = i + 1;
        assert(sink@ =~= old(sink)@ + bytes_before(bytes, i as int));
    }
}

/// Appends the message that has `segments` to `sink`: the segment table, then
/// the segments. A message has at least one segment: where there is none,
/// nothing is written.
pub fn write_message_segments(sink: &mut Vec<u8>, segments: &[&[Word]]) -> (result: Result<
    (),
    Error,
>)
    ensures
        segments@.len() >= 1 ==> result is Ok && final(sink)@ == old(sink)@ + encode_message(
            segment_bytes(segments@),
        ),
        segments@.len() == 0 ==> result == Err::<(), Error>(Error::TooFewSegments)
            && final(sink)@ == old(sink)@,
{
    if segments.len() == 0 {
        return Err(Error::TooFewSegments);
    }
    proof {
        lemma_segment_bytes_is_message(segments@);
    }
    write_segment_table(sink, segments);
    write_segments(sink, segments);
    assert(sink@ =~= old(sink)@ + encode_message(segment_bytes(segments@)));
    Ok(())
}

/// Appends `message` to `sink`: the segment table, then the segments that
/// `message` hands out. A message has at least one segment: where `message`
/// hands out none, nothing is written.
pub fn write_message<M>(sink: &mut Vec<u8>, message: M) -> (result: Result<(), Error>) where
    M: AsOutputSegments,

    ensures
        result is Ok ==> exists|segments: Seq<Seq<u8>>|
            is_message(segments) && final(sink)@ == old(sink)@ + #[trigger] encode_message(
                segments,
            ),
        result is Err ==> result == Err::<(), Error>(Error::TooFewSegments) && final(sink)@
            == old(sink)@,
{
    let segments = message.as_output_segments();
    let slices = output_slices(&segments);
    let result = write_message_segments(sink, slices);
    proof {
        if slices@.len() >= 1 {
            lemma_segment_bytes_is_message(slices@);
        }
    }
    result
}

} // verus!
