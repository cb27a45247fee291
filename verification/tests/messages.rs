use capnp::message;
use capnp::OutputSegments;
use capnp::Word;
use capnp_framing::error::Error;
use capnp_framing::message_writer::MessageWriter;
use capnp_framing::options::ReaderOptions;
use capnp_framing::segments_reader::SegmentsReader;
use capnp_framing::serialize::read_message;
use capnp_framing::serialize::read_segment_table;
use capnp_framing::serialize::read_segments;
use capnp_framing::serialize::write_message;
use capnp_framing::serialize::write_segments;
use capnp_framing::serialize::write_message_segments;
use capnp_framing::serialize::AsOutputSegments;
use capnp_framing::serialize::OwnedSegments;
use capnp_framing::word_buffer::store_bytes;

fn default_options() -> ReaderOptions {
    ReaderOptions {
        traversal_limit_in_words: message::ReaderOptions::new().traversal_limit_in_words,
    }
}

/// Segments that are handed out as they are, be there none, one or more.
struct Segments(Vec<Vec<Word>>);

impl AsOutputSegments for Segments {
    fn as_output_segments<'a>(&'a self) -> OutputSegments<'a> {
        if self.0.len() == 1 {
            OutputSegments::SingleSegment([&self.0[0][..]])
        } else {
            OutputSegments::MultiSegment(self.0.iter().map(|segment| &segment[..]).collect::<Vec<_>>())
        }
    }
}

fn words(first: u8, count: usize) -> Vec<Word> {
    (0..count)
        .map(|i| {
            let b = first.wrapping_add(i as u8);
            capnp::word(b, b.wrapping_add(1), 2, 3, 4, 5, 6, b)
        })
        .collect()
}

fn slices(segments: &[Vec<Word>]) -> Vec<&[Word]> {
    segments.iter().map(|segment| &segment[..]).collect()
}

fn assert_same_segments(expected: &[Vec<Word>], got: &OwnedSegments) {
    assert_eq!(expected.len(), got.segment_count());
    for (i, segment) in expected.iter().enumerate() {
        assert_eq!(Some(&segment[..]), got.get_segment(i as u32), "segment {}", i);
    }
    assert_eq!(None, got.get_segment(expected.len() as u32));
    assert_eq!(None, got.get_segment(u32::MAX));
}

#[test]
fn message_of_one_segment_on_the_wire() {
    let message = Segments(vec![vec![capnp::word(1, 2, 3, 4, 5, 6, 7, 8)]]);
    let mut sink = vec![];
    assert_eq!(Ok(()), write_message(&mut sink, message));
    assert_eq!(
        &[0, 0, 0, 0, 1, 0, 0, 0, 1, 2, 3, 4, 5, 6, 7, 8],
        &sink[..]
    );
}

#[test]
fn message_of_two_segments_on_the_wire() {
    let message = Segments(vec![
        vec![capnp::word(1, 2, 3, 4, 5, 6, 7, 8)],
        vec![capnp::word(11, 12, 13, 14, 15, 16, 17, 18), capnp::word(21, 22, 23, 24, 25, 26, 27, 28)],
    ]);
    let mut sink = vec![0xaa];
    // A reference to something that can be written can be written as well.
    assert_eq!(Ok(()), write_message(&mut sink, &message));
    assert_eq!(
        &[
            0xaa, // what the sink held
            1, 0, 0, 0, 1, 0, 0, 0, 2, 0, 0, 0, 0, 0, 0, 0, // table
            1, 2, 3, 4, 5, 6, 7, 8, // segment 0
            11, 12, 13, 14, 15, 16, 17, 18, 21, 22, 23, 24, 25, 26, 27, 28, // segment 1
        ],
        &sink[..]
    );
}

#[test]
fn message_without_segments_is_not_written() {
    let mut sink = vec![1, 2, 3];
    assert_eq!(Err(Error::TooFewSegments), write_message(&mut sink, Segments(vec![])));
    assert_eq!(&[1, 2, 3], &sink[..]);
    assert_eq!(Err(Error::TooFewSegments), write_message_segments(&mut sink, &[]));
    assert_eq!(&[1, 2, 3], &sink[..]);
    assert!(MessageWriter::new(&[]).is_err());
}

#[test]
fn segments_are_written_end_to_end() {
    let segments = vec![words(1, 1), vec![], words(100, 2)];
    let mut sink = vec![7];
    write_segments(&mut sink, &slices(&segments));
    assert_eq!(
        &[
            7, //
            1, 2, 2, 3, 4, 5, 6, 1, //
            100, 101, 2, 3, 4, 5, 6, 100, //
            101, 102, 2, 3, 4, 5, 6, 101,
        ],
        &sink[..]
    );
    let mut sink = vec![];
    write_segments(&mut sink, &[]);
    assert!(sink.is_empty());
}

#[test]
fn message_read_back_is_the_message() {
    let segments = vec![words(1, 3), vec![], words(50, 1), vec![], vec![], words(200, 70)];
    let mut wire = vec![];
    assert_eq!(Ok(()), write_message_segments(&mut wire, &slices(&segments)));
    // Six segments: 8 * (6 / 2 + 1) bytes of table, then 74 words.
    assert_eq!(32 + 8 * 74, wire.len());
    let mut reader = &wire[..];
    let got = read_message(&mut reader, default_options()).unwrap().unwrap();
    assert_same_segments(&segments, &got);
    assert!(reader.is_empty());
    // What was read can be written again, and is the same on the wire.
    let again: Vec<Vec<Word>> =
        (0..6).map(|i| got.get_segment(i).unwrap().to_vec()).collect();
    let mut second_wire = vec![];
    assert_eq!(Ok(()), write_message(&mut second_wire, Segments(again)));
    assert_eq!(wire, second_wire);
}

#[test]
fn message_of_one_empty_segment_is_a_message() {
    let segments = vec![vec![]];
    let mut wire = vec![];
    assert_eq!(Ok(()), write_message(&mut wire, Segments(segments.clone())));
    assert_eq!(&[0, 0, 0, 0, 0, 0, 0, 0], &wire[..]);
    let got = read_message(&mut &wire[..], default_options()).unwrap().unwrap();
    assert_same_segments(&segments, &got);
}

#[test]
fn messages_follow_each_other_on_a_stream() {
    let first = vec![words(1, 2), words(9, 1)];
    let second = vec![words(77, 4)];
    let mut wire = vec![];
    assert_eq!(Ok(()), write_message(&mut wire, Segments(first.clone())));
    assert_eq!(Ok(()), write_message(&mut wire, Segments(second.clone())));
    let mut reader = &wire[..];
    let got = read_message(&mut reader, default_options()).unwrap().unwrap();
    assert_same_segments(&first, &got);
    assert_eq!(8 + 8 * 4, reader.len());
    let got = read_message(&mut reader, default_options()).unwrap().unwrap();
    assert_same_segments(&second, &got);
    assert!(reader.is_empty());
    assert!(read_message(&mut reader, default_options()).unwrap().is_none());
}

#[test]
fn empty_stream_holds_no_message() {
    let wire: [u8; 0] = [];
    let mut reader = &wire[..];
    assert!(read_message(&mut reader, default_options()).unwrap().is_none());
}

#[test]
fn half_a_first_word_is_a_truncated_message() {
    let wire = [0, 0, 0, 0];
    let mut reader = &wire[..];
    let result = read_message(&mut reader, default_options());
    assert_eq!(Err(Error::Truncated), result.map(|message| message.is_some()));
    assert!(reader.is_empty());
}

#[test]
fn message_cut_short_anywhere_is_truncated() {
    let segments = vec![words(1, 2), words(9, 1), words(30, 3)];
    let mut wire = vec![];
    assert_eq!(Ok(()), write_message(&mut wire, Segments(segments)));
    for cut in 1..wire.len() {
        let mut reader = &wire[..cut];
        let result = read_message(&mut reader, default_options());
        assert_eq!(
            Err(Error::Truncated),
            result.map(|message| message.is_some()),
            "cut at {}",
            cut
        );
        assert!(reader.is_empty(), "cut at {}", cut);
    }
}

#[test]
fn message_over_the_traversal_limit_is_refused_on_its_table() {
    let limit = ReaderOptions { traversal_limit_in_words: 3 };
    let mut wire = vec![];
    assert_eq!(Ok(()), write_message(&mut wire, Segments(vec![words(1, 4)])));
    let mut reader = &wire[..];
    let result = read_message(&mut reader, limit);
    assert_eq!(Err(Error::MessageTooLarge(4)), result.map(|message| message.is_some()));
    // The table was taken and none of the words.
    assert_eq!(8 * 4, reader.len());

    // A table alone is enough to be refused: no word needs to follow.
    let result = read_message(&mut &[0u8, 0, 0, 0, 0, 0, 0, 1][..], default_options());
    assert_eq!(Err(Error::MessageTooLarge(0x0100_0000)), result.map(|message| message.is_some()));

    // A message as large as the limit is read.
    let limit = ReaderOptions { traversal_limit_in_words: 4 };
    let got = read_message(&mut &wire[..], limit).unwrap().unwrap();
    assert_same_segments(&[words(1, 4)], &got);
}

#[test]
fn bad_counts_are_refused_as_messages() {
    let mut wire = vec![0, 2, 0, 0];
    wire.extend([0; 513 * 4].iter().cloned());
    let result = read_message(&mut &wire[..], default_options());
    assert_eq!(Err(Error::TooManySegments(513)), result.map(|message| message.is_some()));

    let wire = [0xff, 0xff, 0xff, 0xff, 0, 0, 0, 0, 1, 2, 3, 4, 5, 6, 7, 8];
    let result = read_message(&mut &wire[..], default_options());
    assert_eq!(Err(Error::TooFewSegments), result.map(|message| message.is_some()));
}

#[test]
fn words_are_read_after_their_table() {
    let wire = [
        1, 0, 0, 0, 1, 0, 0, 0, 1, 0, 0, 0, 0, 0, 0, 0, // table of two segments
        1, 2, 3, 4, 5, 6, 7, 8, // segment 0
        9, 10, 11, 12, 13, 14, 15, 16, // segment 1
        99, // what follows the message
    ];
    let mut reader = &wire[..];
    let table = read_segment_table(&mut reader, default_options()).unwrap().unwrap();
    let got = read_segments(&mut reader, table).map_err(|e| e).ok().unwrap();
    assert_eq!(&[99], reader);
    assert_eq!(Some(&[capnp::word(1, 2, 3, 4, 5, 6, 7, 8)][..]), got.get_segment(0));
    assert_eq!(Some(&[capnp::word(9, 10, 11, 12, 13, 14, 15, 16)][..]), got.get_segment(1));
    assert_eq!(None, got.get_segment(2));
}

#[test]
fn words_cut_short_are_truncated() {
    let table_bytes = [0, 0, 0, 0, 2, 0, 0, 0];
    let table = read_segment_table(&mut &table_bytes[..], default_options()).unwrap().unwrap();
    let payload = [1, 2, 3, 4, 5, 6, 7, 8, 9, 10, 11, 12, 13, 14, 15];
    let mut reader = &payload[..];
    let result = read_segments(&mut reader, table);
    assert_eq!(Err(Error::Truncated), result.map(|_| ()));
    assert!(reader.is_empty());
}

#[test]
fn segments_reader_asks_for_what_is_missing() {
    let table_bytes = [1, 0, 0, 0, 1, 0, 0, 0, 2, 0, 0, 0, 0, 0, 0, 0];
    let table = read_segment_table(&mut &table_bytes[..], default_options()).unwrap().unwrap();
    let reader = SegmentsReader::new(table);
    assert_eq!(24, reader.wanted());
    let reader = reader.supply(&[1, 2, 3]);
    assert_eq!(21, reader.wanted());
    let reader = reader.supply(&[4, 5, 6, 7, 8, 11, 12, 13, 14, 15, 16, 17]);
    assert_eq!(9, reader.wanted());
    let reader = reader.supply(&[18, 21, 22, 23, 24, 25, 26, 27, 28]);
    assert_eq!(0, reader.wanted());
    let got = reader.finish().ok().unwrap();
    assert_eq!(Some(&[capnp::word(1, 2, 3, 4, 5, 6, 7, 8)][..]), got.get_segment(0));
    assert_eq!(
        Some(
            &[
                capnp::word(11, 12, 13, 14, 15, 16, 17, 18),
                capnp::word(21, 22, 23, 24, 25, 26, 27, 28)
            ][..]
        ),
        got.get_segment(1)
    );
}

#[test]
fn segments_reader_of_no_words_wants_nothing() {
    let table_bytes = [1, 0, 0, 0, 0, 0, 0, 0, 0, 0, 0, 0, 0, 0, 0, 0];
    let table = read_segment_table(&mut &table_bytes[..], default_options()).unwrap().unwrap();
    let reader = SegmentsReader::new(table);
    assert_eq!(0, reader.wanted());
    let got = reader.finish().ok().unwrap();
    let empty: &[Word] = &[];
    assert_eq!(Some(empty), got.get_segment(0));
    assert_eq!(Some(empty), got.get_segment(1));
    assert_eq!(None, got.get_segment(2));
}

#[test]
fn segments_reader_finds_the_source_ended() {
    let table_bytes = [0, 0, 0, 0, 1, 0, 0, 0];
    let table = read_segment_table(&mut &table_bytes[..], default_options()).unwrap().unwrap();
    // Nothing of the words came: after a table that is no clean end.
    let reader = SegmentsReader::new(table).supply(&[]);
    assert_eq!(0, reader.wanted());
    assert_eq!(Err(Error::Truncated), reader.finish().map(|_| ()));

    let table = read_segment_table(&mut &table_bytes[..], default_options()).unwrap().unwrap();
    let reader = SegmentsReader::new(table).supply(&[1, 2, 3, 4, 5, 6, 7]);
    assert_eq!(1, reader.wanted());
    let reader = reader.supply(&[]);
    assert_eq!(0, reader.wanted());
    assert_eq!(Err(Error::Truncated), reader.finish().map(|_| ()));
}

#[test]
fn segments_start_out_as_zero_words() {
    let table_bytes = [0, 0, 0, 0, 2, 0, 0, 0];
    let table = read_segment_table(&mut &table_bytes[..], default_options()).unwrap().unwrap();
    let reader = SegmentsReader::new(table);
    let reader = reader.supply(&[1, 2, 3, 4, 5, 6, 7, 8, 9, 10, 11, 12, 13, 14, 15, 16]);
    let got = reader.finish().ok().unwrap();
    assert_eq!(
        Some(
            &[
                capnp::word(1, 2, 3, 4, 5, 6, 7, 8),
                capnp::word(9, 10, 11, 12, 13, 14, 15, 16)
            ][..]
        ),
        got.get_segment(0)
    );
}

#[test]
fn writer_offers_one_write_after_another() {
    let segments = vec![words(1, 1), vec![], words(9, 2)];
    let slices = slices(&segments);
    let mut expected = vec![];
    assert_eq!(Ok(()), write_message_segments(&mut expected, &slices));

    let writer = MessageWriter::new(&slices).ok().unwrap();
    // The first word of the table.
    assert_eq!(&[2, 0, 0, 0, 1, 0, 0, 0], writer.pending());
    let writer = writer.accept(3).ok().unwrap();
    assert_eq!(&[0, 1, 0, 0, 0], writer.pending());
    let writer = writer.accept(5).ok().unwrap();
    // The rest of the table.
    assert_eq!(&[0, 0, 0, 0, 2, 0, 0, 0], writer.pending());
    let writer = writer.accept(8).ok().unwrap();
    // Segment 0.
    assert_eq!(&[1, 2, 2, 3, 4, 5, 6, 1], writer.pending());
    let writer = writer.accept(8).ok().unwrap();
    // Segment 1 is empty and makes no write; segment 2 follows.
    assert_eq!(
        &[9, 10, 2, 3, 4, 5, 6, 9, 10, 11, 2, 3, 4, 5, 6, 10],
        writer.pending()
    );
    let writer = writer.accept(15).ok().unwrap();
    assert_eq!(&[10], writer.pending());
    let writer = writer.accept(1).ok().unwrap();
    assert!(writer.pending().is_empty());
    // Once all is written, there is nothing left to take.
    let writer = writer.accept(0).ok().unwrap();
    assert!(writer.pending().is_empty());
}

#[test]
fn writer_sends_the_message_byte_by_byte() {
    let segments = vec![vec![], words(1, 3), vec![], words(9, 2), vec![]];
    let slices = slices(&segments);
    let mut expected = vec![];
    assert_eq!(Ok(()), write_message_segments(&mut expected, &slices));

    let mut sent = vec![];
    let mut writer = MessageWriter::new(&slices).ok().unwrap();
    while !writer.pending().is_empty() {
        sent.push(writer.pending()[0]);
        writer = writer.accept(1).ok().unwrap();
    }
    assert_eq!(expected, sent);
}

#[test]
fn writer_of_a_single_empty_segment_writes_the_table_alone() {
    let segments: Vec<Vec<Word>> = vec![vec![]];
    let slices = slices(&segments);
    let writer = MessageWriter::new(&slices).ok().unwrap();
    assert_eq!(&[0, 0, 0, 0, 0, 0, 0, 0], writer.pending());
    let writer = writer.accept(8).ok().unwrap();
    assert!(writer.pending().is_empty());
}

#[test]
fn writer_fails_where_the_sink_takes_nothing() {
    let segments = vec![words(1, 1)];
    let slices = slices(&segments);
    let writer = MessageWriter::new(&slices).ok().unwrap();
    assert_eq!(Err(Error::WriteZero), writer.accept(0).map(|_| ()));
    let writer = MessageWriter::new(&slices).ok().unwrap();
    let writer = writer.accept(8).ok().unwrap();
    let writer = writer.accept(4).ok().unwrap();
    assert_eq!(Err(Error::WriteZero), writer.accept(0).map(|_| ()));
}

#[test]
fn bytes_are_stored_where_they_are_put() {
    let mut buffer = vec![capnp::word(0, 0, 0, 0, 0, 0, 0, 0); 3];
    store_bytes(&mut buffer, 6, &[1, 2, 3, 4, 5]);
    assert_eq!(
        vec![
            capnp::word(0, 0, 0, 0, 0, 0, 1, 2),
            capnp::word(3, 4, 5, 0, 0, 0, 0, 0),
            capnp::word(0, 0, 0, 0, 0, 0, 0, 0),
        ],
        buffer
    );
    store_bytes(&mut buffer, 23, &[9]);
    store_bytes(&mut buffer, 0, &[]);
    store_bytes(&mut buffer, 24, &[]);
    assert_eq!(capnp::word(0, 0, 0, 0, 0, 0, 0, 9), buffer[2]);
    store_bytes(&mut buffer, 7, &[7]);
    assert_eq!(capnp::word(0, 0, 0, 0, 0, 0, 1, 7), buffer[0]);
}
