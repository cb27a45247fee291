//! Writing a message to a sink that takes bytes a piece at a time.
//!
//! The writer decides; whoever drives it does the writing. A message goes out
//! as a row of writes: the first word of the segment table, the rest of the
//! table, then each segment. The driver offers the sink what is left of the
//! present write and tells the writer how many bytes the sink took. No byte is
//! offered again once it was taken, and none is left out.

use vstd::prelude::*;
use vstd::slice::slice_subrange;
use capnp::Word;
use crate::error::Error;
use crate::segment_table::encode_table;
use crate::segment_table::word_counts;
use crate::segment_table::write_segment_table;
use crate::wire::bytes_before;
use crate::wire::encode_message;
use crate::wire::lemma_bytes_before_prefix;
use crate::wire::lemma_segment_bytes_is_message;
use crate::wire::lengths_in_words;
use crate::wire::payload;
use crate::wire::segment_bytes;
use crate::words::words_to_bytes;

verus! {

/// The writes that a message goes out as, in their order: the first word of
/// the table, the rest of the table, then each segment. The rest of the table
/// and any segment may be empty.
pub open spec fn writes(segments: Seq<Seq<u8>>) -> Seq<Seq<u8>> {
    seq![
        encode_table(lengths_in_words(segments)).take(8),
        encode_table(lengths_in_words(segments)).skip(8),
    ] + segments
}

/// The first write from number `from` on that is not empty, or the number of
/// writes where all of them are empty.
pub open spec fn next_write(writes: Seq<Seq<u8>>, from: int) -> int
    decreases writes.len() - from,
{
    if from >= writes.len() {
        writes.len() as int
    } else if writes[from].len() > 0 {
        from
    } else {
        next_write(writes, from + 1)
    }
}

/// The writes of a message, end to end, are the message on the wire.
pub proof fn lemma_writes_make_message(segments: Seq<Seq<u8>>)
    ensures
        payload(writes(segments)) == encode_message(segments),
{
    lemma_writes_after_table(segments, segments.len() as int);
    assert(writes(segments).len() == segments.len() + 2);
}

/// The first `count + 2` writes of a message are its table and its first
/// `count` segments.
proof fn lemma_writes_after_table(segments: Seq<Seq<u8>>, count: int)
    requires
        0 <= count <= segments.len(),
    ensures
        bytes_before(writes(segments), count + 2) == encode_table(lengths_in_words(segments))
            + bytes_before(segments, count),
    decreases count,
{
    let all = writes(segments);
    let table = encode_table(lengths_in_words(segments));
    if count == 0 {
        assert(bytes_before(all, 1) =~= bytes_before(all, 0) + all[0]);
        assert(bytes_before(all, 2) =~= bytes_before(all, 1) + all[1]);
        assert(bytes_before(all, 2) =~= table + bytes_before(segments, 0));
    } else {
        lemma_writes_after_table(segments, count - 1);
        assert(all[count + 1] == segments[count - 1]);
        assert(bytes_before(all, count + 2) =~= table + bytes_before(segments, count));
    }
}

/// Empty writes add nothing: the bytes before the next write that is not
/// empty are the bytes before the write from which it was sought.
pub proof fn lemma_next_write_adds_nothing(writes: Seq<Seq<u8>>, from: int)
    requires
        0 <= from <= writes.len(),
    ensures
        from <= next_write(writes, from) <= writes.len(),
        next_write(writes, from) < writes.len() ==> writes[next_write(writes, from)].len() > 0,
        bytes_before(writes, next_write(writes, from)) == bytes_before(writes, from),
    decreases writes.len() - from,
{
    if from < writes.len() && writes[from].len() == 0 {
        lemma_next_write_adds_nothing(writes, from + 1);
        assert(bytes_before(writes, from + 1) =~= bytes_before(writes, from));
    }
}

/// Each write lies in the message on the wire where the writes before it end:
/// what is left of write `position` after `offset` bytes of it is the message
/// from the byte that follows those to the end of the write.
pub proof fn lemma_write_in_message(segments: Seq<Seq<u8>>, position: int, offset: int)
    requires
        0 <= position < writes(segments).len(),
        0 <= offset <= writes(segments)[position].len(),
    ensures
        bytes_before(writes(segments), position + 1).len() <= encode_message(segments).len(),
        bytes_before(writes(segments), position + 1).len() == bytes_before(
            writes(segments),
            position,
        ).len() + writes(segments)[position].len(),
        encode_message(segments).subrange(
            bytes_before(writes(segments), position).len() + offset,
            bytes_before(writes(segments), position + 1).len() as int,
        ) == writes(segments)[position].skip(offset),
{
    let all = writes(segments);
    let message = encode_message(segments);
    let start = bytes_before(all, position).len() as int;
    let end = bytes_before(all, position + 1).len() as int;
    lemma_writes_make_message(segments);
    lemma_bytes_before_prefix(all, position + 1, all.len() as int);
    assert(message.take(end) == bytes_before(all, position) + all[position]);
    assert(message.subrange(start + offset, end) =~= message.take(end).skip(start + offset));
    assert((bytes_before(all, position) + all[position]).skip(start + offset)
        =~= all[position].skip(offset));
}

/// Which write of a message is going on.
enum Stage {
    FirstWord,
    TableRest,
    Segment(usize),
    Done,
}

impl Stage {
    /// The number of the write among those of a message of `segments`
    /// segments.
    spec fn number(self, segments: nat) -> int {
        match self {
            Stage::FirstWord => 0int,
            Stage::TableRest => 1int,
            Stage::Segment(i) => i as int + 2,
            Stage::Done => segments as int + 2,
        }
    }
}

/// The first segment from number `from` on that is not empty, as the write
/// that it makes.
fn segment_write(segments: &[&[Word]], from: usize) -> (stage: Stage)
    requires
        from <= segments@.len(),
    ensures
        stage.number(segments@.len()) == next_write(
            writes(segment_bytes(segments@)),
            from + 2,
        ),
        stage matches Stage::Segment(i) ==> i < segments@.len(),
        !(stage is FirstWord),
        !(stage is TableRest),
{
    let ghost all = writes(segment_bytes(segments@));
    let mut i: usize = from;
    while i < segments.len()
        invariant
            from <= i <= segments@.len(),
            all == writes(segment_bytes(segments@)),
            next_write(all, i + 2) == next_write(all, from + 2),
        decreases segments@.len() - i,
    {
        if segments[i].len() > 0 {
            return Stage::Segment(i);
        }
        assert(all[i + 2].len() == 0);
        i = i + 1;
    }
    Stage::Done
}

/// The decisions of one who writes a message piece by piece.
pub struct MessageWriter<'a> {
    table: Vec<u8>,
    segments: &'a [&'a [Word]],
    stage: Stage,
    offset: usize,
}

impl<'a> MessageWriter<'a> {
    #[verifier::type_invariant]
    spec fn well_formed(self) -> bool {
        &&& self.segments@.len() >= 1
        &&& self.table@ == encode_table(word_counts(self.segments@))
        &&& self.stage matches Stage::Segment(i) ==> i < self.segments@.len()
        &&& !(self.stage is Done) ==> self.offset < writes(self.segments())[self.position()].len()
        &&& self.stage is Done ==> self.offset == 0
    }

    /// The segments of the message, each as its run of bytes.
    pub closed spec fn segments(&self) -> Seq<Seq<u8>> {
        segment_bytes(self.segments@)
    }

    /// The number of the present write among `writes(self.segments())`, or
    /// the number of writes once all is written.
    pub closed spec fn position(&self) -> int {
        self.stage.number(self.segments@.len())
    }

    /// The bytes of the present write that the sink has taken.
    pub closed spec fn offset(&self) -> nat {
        self.offset as nat
    }

    /// The bytes of the message that the sink has taken.
    pub open spec fn sent(&self) -> nat {
        bytes_before(writes(self.segments()), self.position()).len() + self.offset()
    }

    /// What is to be offered to the sink: the rest of the present write, and
    /// nothing once all is written.
    pub open spec fn offer(&self) -> Seq<u8> {
        if self.position() < writes(self.segments()).len() {
            writes(self.segments())[self.position()].skip(self.offset() as int)
        } else {
            Seq::empty()
        }
    }

    /// A writer for the message that has `segments`, of which nothing is
    /// written yet. A message has at least one segment.
    pub fn new(segments: &'a [&'a [Word]]) -> (result: Result<MessageWriter<'a>, Error>)
        ensures
            segments@.len() >= 1 ==> result is Ok && result->Ok_0.segments() == segment_bytes(
                segments@,
            ) && result->Ok_0.position() == 0 && result->Ok_0.offset() == 0,
            segments@.len() == 0 ==> result is Err && result->Err_0 == Error::TooFewSegments,
    {
        if segments.len() == 0 {
            return Err(Error::TooFewSegments);
        }
        let mut table: Vec<u8> = Vec::new();
        write_segment_table(&mut table, segments);
        proof {
            lemma_segment_bytes_is_message(segments@);
            assert(table@ =~= encode_table(word_counts(segments@)));
        }
        Ok(MessageWriter { table, segments, stage: Stage::FirstWord, offset: 0 })
    }

    /// What to offer to the sink next: the rest of the present write. It is
    /// the message on the wire from the first byte that the sink has not
    /// taken, and it is empty once all is written and not before.
    pub fn pending(&self) -> (offer: &[u8])
        ensures
            offer@ == self.offer(),
            offer@.len() == 0 <==> self.position() == writes(self.segments()).len(),
            offer@.len() == 0 <==> self.sent() == encode_message(self.segments()).len(),
            self.sent() + offer@.len() <= encode_message(self.segments()).len(),
            offer@ == encode_message(self.segments()).subrange(
                self.sent() as int,
                (self.sent() + offer@.len()) as int,
            ),
    {
        proof {
            use_type_invariant(self);
            if self.position() < writes(self.segments()).len() {
                lemma_write_in_message(self.segments(), self.position(), self.offset() as int);
            } else {
                lemma_writes_make_message(self.segments());
                assert(encode_message(self.segments()).subrange(
                    self.sent() as int,
                    self.sent() as int,
                ) =~= Seq::<u8>::empty());
            }
            lemma_segment_bytes_is_message(self.segments@);
            assert(writes(self.segments())[0] == self.table@.take(8));
            assert(writes(self.segments())[1] == self.table@.skip(8));
        }
        match self.stage {
            Stage::FirstWord => {
                let offer = slice_subrange(self.table.as_slice(), self.offset, 8);
                assert(offer@ =~= self.offer());
                offer
            },
            Stage::TableRest => {
                let len: usize = self.table.len();
                assert(self.table@.skip(8).len() == len - 8);
                let offer = slice_subrange(self.table.as_slice(), 8 + self.offset, len);
                assert(offer@ =~= self.offer());
                offer
            },
            Stage::Segment(i) => {
                let bytes = words_to_bytes(self.segments[i]);
                assert(bytes@ =~= self.segments()[i as int]);
                let offer = slice_subrange(bytes, self.offset, bytes.len());
                assert(offer@ =~= self.offer());
                offer
            },
            Stage::Done => {
                let offer = slice_subrange(self.table.as_slice(), 0, 0);
                assert(offer@ =~= self.offer());
                offer
            },
        }
    }

    /// Takes note that the sink took the first `count` bytes of what was
    /// offered. The sink has then taken that many more bytes of the message,
    /// and the writer goes on to the next write that is not empty where the
    /// present one is done. A sink that takes nothing of an offer that is not
    /// empty will take no more: the writing fails.
    pub fn accept(self, count: usize) -> (result: Result<MessageWriter<'a>, Error>)
        requires
            count <= self.offer().len(),
        ensures
            count == 0 && self.offer().len() > 0 ==> result is Err && result->Err_0
                == Error::WriteZero,
            count > 0 || self.offer().len() == 0 ==> result is Ok && result->Ok_0.segments()
                == self.segments() && result->Ok_0.sent() == self.sent() + count,
            result is Ok && count < self.offer().len() ==> result->Ok_0.position()
                == self.position() && result->Ok_0.offset() == self.offset() + count,
            result is Ok && count == self.offer().len() > 0 ==> result->Ok_0.position()
                == next_write(writes(self.segments()), self.position() + 1)
                && result->Ok_0.offset() == 0,
            result is Ok && self.offer().len() == 0 ==> result->Ok_0.position()
                == self.position() && result->Ok_0.offset() == self.offset(),
    {
        proof {
            use_type_invariant(&self);
            lemma_segment_bytes_is_message(self.segments@);
            assert(writes(self.segments())[0] == self.table@.take(8));
            assert(writes(self.segments())[1] == self.table@.skip(8));
        }
        let ghost all = writes(self.segments());
        let ghost position = self.position();
        let MessageWriter { table, segments, stage, offset } = self;
        let table_bytes: usize = table.len();
        let write_len: usize = match stage {
            Stage::FirstWord => 8,
            Stage::TableRest => {
                assert(table@.skip(8).len() == table_bytes - 8);
                table_bytes - 8
            },
            Stage::Segment(i) => {
                let bytes = words_to_bytes(segments[i]);
                assert(bytes@ =~= all[position]);
                bytes.len()
            },
            Stage::Done => {
                return Ok(MessageWriter { table, segments, stage, offset });
            },
        };
        if count == 0 {
            return Err(Error::WriteZero);
        }
        let taken: usize = offset + count;
        if taken < write_len {
            return Ok(MessageWriter { table, segments, stage, offset: taken });
        }
        proof {
            lemma_next_write_adds_nothing(all, position + 1);
        }
        let next: Stage = match stage {
            Stage::FirstWord => if table_bytes > 8 {
                Stage::TableRest
            } else {
                segment_write(segments, 0)
            },
            Stage::TableRest => segment_write(segments, 0),
            Stage::Segment(i) => segment_write(segments, i + 1),
            Stage::Done => Stage::Done,
        };
        Ok(MessageWriter { table, segments, stage: next, offset: 0 })
    }
}

} // verus!
