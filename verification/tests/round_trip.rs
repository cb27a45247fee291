use std::cmp;
use std::io::{self, Cursor, Read, Write};
use std::pin::Pin;
use std::task::{Context, Poll};

use futures::{AsyncRead, AsyncReadExt, AsyncWrite, AsyncWriteExt};

use quickcheck::{quickcheck, TestResult};

use capnp::{message, OutputSegments, Word};
use capnp_framing::error::Error;
use capnp_framing::message_writer::MessageWriter;
use capnp_framing::options::ReaderOptions;
use capnp_framing::segments_reader::SegmentsReader;
use capnp_framing::serialize::AsOutputSegments;
use capnp_framing::serialize::OwnedSegments;
use capnp_framing::table_reader::SegmentTableReader;

/// Reads a message from `reader`, asking it for what the readers want.
async fn read_message<R>(mut reader: R, options: ReaderOptions) -> io::Result<Result<Option<OwnedSegments>, Error>>
    where R: AsyncRead + Unpin
{
    let mut scratch = vec![0u8; 64];
    let mut table_reader = SegmentTableReader::new(options);
    while table_reader.wanted() > 0 {
        let asked = cmp::min(table_reader.wanted(), scratch.len());
        let got = reader.read(&mut scratch[..asked]).await?;
        table_reader = table_reader.supply(&scratch[..got]);
    }
    let table = match table_reader.finish() {
        Err(e) => return Ok(Err(e)),
        Ok(None) => return Ok(Ok(None)),
        Ok(Some(table)) => table,
    };
    let mut segments_reader = SegmentsReader::new(table);
    while segments_reader.wanted() > 0 {
        let asked = cmp::min(segments_reader.wanted(), scratch.len());
        let got = reader.read(&mut scratch[..asked]).await?;
        segments_reader = segments_reader.supply(&scratch[..got]);
    }
    Ok(segments_reader.finish().map(Some))
}

/// Writes `message` to `writer`, offering it what the writer has pending.
async fn write_message<W, M>(mut writer: W, message: M) -> io::Result<Result<(), Error>>
    where W: AsyncWrite + Unpin, M: AsOutputSegments
{
    let segments = message.as_output_segments();
    let mut message_writer = match MessageWriter::new(&segments[..]) {
        Err(e) => return Ok(Err(e)),
        Ok(message_writer) => message_writer,
    };
    loop {
        let offer = message_writer.pending();
        if offer.is_empty() {
            return Ok(Ok(()));
        }
        let taken = writer.write(offer).await?;
        message_writer = match message_writer.accept(taken) {
            Err(e) => return Ok(Err(e)),
            Ok(message_writer) => message_writer,
        };
    }
}

struct Segments(Vec<Vec<Word>>);

impl AsOutputSegments for Segments {
    fn as_output_segments<'a>(&'a self) -> OutputSegments<'a> {
        if self.0.len() == 0 {
            OutputSegments::SingleSegment([&[]])
        } else if self.0.len() == 1 {
            OutputSegments::SingleSegment([&self.0[0][..]])
        } else {
            OutputSegments::MultiSegment(self.0.iter()
                                         .map(|segment| &segment[..])
                                         .collect::<Vec<_>>())
        }
    }
}

/// Wraps a `Read` instance and introduces blocking.
struct BlockingRead<R> where R: Read {
    /// The wrapped reader
    read: R,

    /// Number of bytes to read before blocking
    frequency: usize,

    /// Number of bytes read since last blocking
    idx: usize,
}

impl <R> BlockingRead<R> where R: Read {
    fn new(read: R, frequency: usize) -> BlockingRead<R> {
        BlockingRead { read: read, frequency: frequency, idx: 0 }
    }
}

impl <R> AsyncRead for BlockingRead<R> where R: Read + Unpin {
    fn poll_read(mut self: Pin<&mut Self>, cx: &mut Context, buf: &mut [u8]) -> Poll<io::Result<usize>> {
        if self.idx == 0 {
            self.idx = self.frequency;
            cx.waker().clone().wake();
            Poll::Pending
        } else {
            let len = cmp::min(self.idx, buf.len());
            let bytes_read = match self.read.read(&mut buf[..len]) {
                Err(e) => return Poll::Ready(Err(e)),
                Ok(n) => n,
            };
            self.idx -= bytes_read;
            Poll::Ready(Ok(bytes_read))
        }
    }
}

/// Wraps a `Write` instance and introduces blocking.
struct BlockingWrite<W> where W: Write {
    /// The wrapped writer
    writer: W,

    /// Number of bytes to write before blocking
    frequency: usize,

    /// Number of bytes written since last blocking
    idx: usize,
}

impl <W> BlockingWrite<W> where W: Write {
    fn new(writer: W, frequency: usize) -> BlockingWrite<W> {
        BlockingWrite { writer: writer, frequency: frequency, idx: 0 }
    }
    fn into_writer(self) -> W {
        self.writer
    }
}

impl <W> AsyncWrite for BlockingWrite<W> where W: Write + Unpin {
    fn poll_write(mut self: Pin<&mut Self>, cx: &mut Context, buf: &[u8]) -> Poll<io::Result<usize>> {
        if self.idx == 0 {
            self.idx = self.frequency;
            cx.waker().clone().wake();
            Poll::Pending
        } else {
            let len = cmp::min(self.idx, buf.len());
            let bytes_written = match self.writer.write(&buf[..len]) {
                Err(e) => return Poll::Ready(Err(e)),
                Ok(n) => n,
            };
            self.idx -= bytes_written;
            Poll::Ready(Ok(bytes_written))
        }
    }
    fn poll_flush(mut self: Pin<&mut Self>, _cx: &mut Context) -> Poll<io::Result<()>> {
        Poll::Ready(self.writer.flush())
    }

    fn poll_close(self: Pin<&mut Self>, _cx: &mut Context) -> Poll<io::Result<()>> {
        Poll::Ready(Ok(()))
    }
}

fn default_options() -> ReaderOptions {
    ReaderOptions {
        traversal_limit_in_words: message::ReaderOptions::default().traversal_limit_in_words,
    }
}

fn as_words(segments: Vec<Vec<(u8, u8, u8, u8, u8, u8, u8, u8)>>) -> Vec<Vec<Word>> {
    segments.into_iter().map(|segment| {
        segment.into_iter()
            .map(|(b0, b1, b2, b3, b4, b5, b6, b7)| capnp::word(b0, b1, b2, b3, b4, b5, b6, b7))
            .collect()
    }).collect()
}

fn round_trip(read_block_frequency: usize,
              write_block_frequency: usize,
              segments: Vec<Vec<Word>>) -> TestResult
{
    if segments.len() == 0 || read_block_frequency == 0 || write_block_frequency == 0 {
        return TestResult::discard();
    }

    let (mut read, segments) = {
        let cursor = Cursor::new(Vec::new());
        let mut writer = BlockingWrite::new(cursor, write_block_frequency);
        let segments = Segments(segments);
        futures::executor::block_on(Box::pin(write_message(&mut writer, &segments))).expect("writing").expect("writing");

        let mut cursor = writer.into_writer();
        cursor.set_position(0);
        (BlockingRead::new(cursor, read_block_frequency), segments.0)
    };

    let message_segments =
        futures::executor::block_on(Box::pin(read_message(&mut read, default_options()))).expect("reading").expect("reading").unwrap();

    TestResult::from_bool(segments.iter().enumerate().all(|(i, segment)| {
        &segment[..] == message_segments.get_segment(i as u32).unwrap()
    }))
}

#[test]
fn check_round_trip_async() {
    fn holds(read_block_frequency: usize,
                write_block_frequency: usize,
                segments: Vec<Vec<(u8, u8, u8, u8, u8, u8, u8, u8)>>) -> TestResult
    {
        round_trip(read_block_frequency, write_block_frequency, as_words(segments))
    }

    quickcheck(holds as fn(usize, usize, Vec<Vec<(u8, u8, u8, u8, u8, u8, u8, u8)>>) -> TestResult);
}

#[test]
fn round_trip_in_pieces_of_one_byte() {
    let segments = vec![
        vec![capnp::word(1, 2, 3, 4, 5, 6, 7, 8); 3],
        vec![],
        vec![capnp::word(8, 7, 6, 5, 4, 3, 2, 1); 40],
    ];
    assert!(!round_trip(1, 1, segments).is_failure());
}

#[test]
fn round_trip_of_511_segments() {
    let segments = vec![vec![capnp::word(1, 2, 3, 4, 5, 6, 7, 8)]; 511];
    assert!(!round_trip(7, 1000, segments).is_failure());
}

#[test]
fn source_that_closes_at_once_gives_no_message() {
    let read = BlockingRead::new(Cursor::new(Vec::new()), 3);
    let result = futures::executor::block_on(Box::pin(read_message(read, default_options()))).expect("reading");
    assert_eq!(Ok(true), result.map(|message| message.is_none()));
}

#[test]
fn source_that_closes_after_four_bytes_fails() {
    let read = BlockingRead::new(Cursor::new(vec![0u8, 0, 0, 0]), 3);
    let result = futures::executor::block_on(Box::pin(read_message(read, default_options()))).expect("reading");
    assert_eq!(Err(Error::Truncated), result.map(|message| message.is_none()));
}

#[test]
fn sink_that_takes_nothing_fails_the_writing() {
    // A slice of no room takes no byte.
    let mut room: [u8; 0] = [];
    let sink = futures::io::Cursor::new(&mut room[..]);
    let segments = Segments(vec![vec![capnp::word(1, 2, 3, 4, 5, 6, 7, 8)]]);
    let result = futures::executor::block_on(Box::pin(write_message(sink, &segments))).expect("writing");
    assert_eq!(Err(Error::WriteZero), result);
}
