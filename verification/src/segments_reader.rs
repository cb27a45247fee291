//! Reading the words of a message, once its segment table is known, from a
//! source that hands over bytes a piece at a time.

use vstd::prelude::*;
use capnp::Word;
use crate::error::Error;
use crate::segment_table::contiguous;
use crate::segment_table::SegmentTable;
use crate::wire::split_segments;
use crate::serialize::OwnedSegments;
use crate::words::allocate_zeroed_vec;
use crate::word_buffer::store_bytes;
use crate::words::words_bytes;

verus! {

/// The decisions of one who reads the words of a message piece by piece.
pub struct SegmentsReader {
    table: SegmentTable,
    owned_space: Vec<Word>,
    filled: usize,
    ended: bool,
}

impl SegmentsReader {
    #[verifier::type_invariant]
    spec fn well_formed(self) -> bool {
        &&& self.owned_space@.len() == self.table.words()
        &&& 8 * self.owned_space@.len() <= isize::MAX
        &&& self.filled <= 8 * self.owned_space@.len()
    }

    /// The start and the end of each segment among the words to read.
    pub closed spec fn ranges(&self) -> Seq<(int, int)> {
        self.table@
    }

    /// The bytes to read in all: eight for each word of the message.
    pub closed spec fn expected(&self) -> nat {
        8 * self.table.words()
    }

    /// The bytes received so far.
    pub closed spec fn received(&self) -> Seq<u8> {
        words_bytes(self.owned_space@).take(self.filled as int)
    }

    /// Whether the source has said that it has no more.
    pub closed spec fn ended(&self) -> bool {
        self.ended
    }

    /// The bytes that are still to come.
    pub open spec fn missing(&self) -> nat {
        (self.expected() - self.received().len()) as nat
    }

    /// A reader for the words that `table` describes. It makes room for all
    /// of them, which are no more than the limit admits under which the table
    /// was read, and has received nothing yet.
    pub fn new(table: SegmentTable) -> (reader: SegmentsReader)
        ensures
            reader.ranges() == table@,
            reader.expected() == 8 * table.words(),
            reader.expected() <= 8 * table.limit(),
            contiguous(table@, table.words() as int),
            reader.received() == Seq::<u8>::empty(),
            !reader.ended(),
    {
        let total = table.total_words();
        let owned_space = allocate_zeroed_vec(total);
        let reader = SegmentsReader { table, owned_space, filled: 0, ended: false };
        assert(reader.received() =~= Seq::<u8>::empty());
        reader
    }

    /// The most bytes to ask the source for next. It is 0 when there is
    /// nothing left to read: all words are there, or the source has ended.
    pub fn wanted(&self) -> (count: usize)
        ensures
            self.received().len() <= self.expected(),
            count == if self.ended() {
                0
            } else {
                self.missing()
            },
    {
        proof {
            use_type_invariant(self);
        }
        if self.ended {
            0
        } else {
            8 * self.owned_space.len() - self.filled
        }
    }

    /// Takes what the source gave when it was asked for `wanted()` bytes at
    /// most. Bytes are added to those received. No bytes mean that the source
    /// has ended. A reader that wants nothing stays as it is.
    pub fn supply(self, data: &[u8]) -> (next: SegmentsReader)
        requires
            data@.len() <= if self.ended() {
                0
            } else {
                self.missing()
            },
        ensures
            next.ranges() == self.ranges(),
            next.expected() == self.expected(),
            next.received() == self.received() + data@,
            next.ended() == (self.ended() || (self.missing() > 0 && data@.len() == 0)),
    {
        proof {
            use_type_invariant(&self);
        }
        if self.wanted() == 0 {
            assert(self.received() + data@ =~= self.received());
            return self;
        }
        let ghost received = self.received();
        let SegmentsReader { table, mut owned_space, filled, ended } = self;
        if data.len() == 0 {
            assert(received + data@ =~= received);
            return SegmentsReader { table, owned_space, filled, ended: true };
        }
        store_bytes(&mut owned_space, filled, data);
        let next = SegmentsReader { table, owned_space, filled: filled + data.len(), ended };
        assert(next.received() =~= received + data@);
        next
    }

    /// Ends the reading and gives what it came to, the source having no more
    /// to give: the segments where all their bytes were received, and else
    /// the complaint that the message was cut short.
    pub fn finish(self) -> (result: Result<OwnedSegments, Error>)
        ensures
            self.received().len() == self.expected() ==> result is Ok
                && result->Ok_0.ranges() == self.ranges()
                && result->Ok_0.bytes() == split_segments(self.received(), self.ranges()),
            self.received().len() != self.expected() ==> result == Err::<OwnedSegments, Error>(
                Error::Truncated,
            ),
    {
        proof {
            use_type_invariant(&self);
        }
        let SegmentsReader { table, owned_space, filled, .. } = self;
        if filled == 8 * owned_space.len() {
            assert(words_bytes(owned_space@).take(filled as int) =~= words_bytes(owned_space@));
            Ok(OwnedSegments::from_parts(table, owned_space))
        } else {
            Err(Error::Truncated)
        }
    }
}

} // verus!
