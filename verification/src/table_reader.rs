//! Reading a segment table from a source that hands over bytes a piece at a
//! time.
//!
//! The reader decides; whoever drives it does the reading. The driver asks
//! how many bytes are wanted, asks the source for at most that many, and
//! supplies what came, be it fewer bytes or none. No byte is asked for twice,
//! and none beyond the table.

use vstd::prelude::*;
use crate::bytes::append_bytes;
use crate::error::Error;
use crate::options::ReaderOptions;
use crate::segment_table::acceptable_size;
use crate::segment_table::announced_count;
use crate::segment_table::announced_lengths;
use crate::segment_table::parse_segment_table_first;
use crate::segment_table::segment_ranges;
use crate::segment_table::table_len;
use crate::segment_table::table_slot;
use crate::segment_table::total_words;
use crate::segment_table::SegmentTable;

verus! {

/// The bytes that a reader which has `received` still needs before it can go
/// on: the rest of the first word, then the rest of the table. It is 0 once
/// the table is complete or known to be bad.
pub open spec fn table_missing(received: Seq<u8>) -> nat {
    if received.len() < 8 {
        (8 - received.len()) as nat
    } else if 0 < announced_count(received) < 512 && received.len() < table_len(
        announced_count(received),
    ) {
        (table_len(announced_count(received)) - received.len()) as nat
    } else {
        0
    }
}

/// What reading gives where the source ends after `received`: no message
/// where it gave nothing, the ranges of the segments where the table is
/// complete and good, and else the reason why not.
pub open spec fn table_result(received: Seq<u8>, limit: u64) -> Result<
    Option<Seq<(int, int)>>,
    Error,
> {
    if received.len() == 0 {
        Ok(None)
    } else if received.len() < 8 {
        Err(Error::Truncated)
    } else if announced_count(received) >= 512 {
        Err(Error::TooManySegments(announced_count(received) as u32))
    } else if announced_count(received) == 0 {
        Err(Error::TooFewSegments)
    } else if received.len() < table_len(announced_count(received)) {
        Err(Error::Truncated)
    } else if !acceptable_size(total_words(announced_lengths(received)), limit) {
        Err(Error::MessageTooLarge(total_words(announced_lengths(received)) as u64))
    } else {
        Ok(Some(segment_ranges(announced_lengths(received))))
    }
}

/// The bytes that reading a table takes from a source that holds `stream`:
/// the table where it is there, the first word where that is bad, and else
/// all that there is.
pub open spec fn table_consumed(stream: Seq<u8>) -> nat {
    if stream.len() < 8 {
        stream.len()
    } else if !(0 < announced_count(stream) < 512) {
        8
    } else if stream.len() < table_len(announced_count(stream)) {
        stream.len()
    } else {
        table_len(announced_count(stream))
    }
}

/// Whether `got` is what `expected` describes, read under `limit`.
pub open spec fn is_table_result(
    got: Result<Option<SegmentTable>, Error>,
    expected: Result<Option<Seq<(int, int)>>, Error>,
    limit: u64,
) -> bool {
    match (got, expected) {
        (Ok(Some(table)), Ok(Some(ranges))) => table@ == ranges && table.words()
            == ranges.last().1 && table.limit() == limit,
        (Ok(None), Ok(None)) => true,
        (Err(e), Err(f)) => e == f,
        _ => false,
    }
}

/// A slot that lies within a prefix of a table holds the same number in the
/// prefix as in the table.
pub proof fn lemma_slot_of_prefix(table: Seq<u8>, len: int, k: int)
    requires
        0 <= k,
        4 * k + 4 <= len <= table.len(),
    ensures
        table_slot(table.take(len), k) == table_slot(table, k),
{
    assert(table.take(len).subrange(4 * k, 4 * k + 4) =~= table.subrange(4 * k, 4 * k + 4));
}

/// A prefix that holds the whole table announces the same lengths as the
/// table.
pub proof fn lemma_lengths_of_prefix(table: Seq<u8>, len: int)
    requires
        8 <= len <= table.len(),
        announced_count(table) < 512,
        table_len(announced_count(table)) <= len,
    ensures
        announced_count(table.take(len)) == announced_count(table),
        announced_lengths(table.take(len)) == announced_lengths(table),
{
    lemma_slot_of_prefix(table, len, 0);
    let of_prefix = announced_lengths(table.take(len));
    let of_table = announced_lengths(table);
    assert forall|i: int| 0 <= i < of_table.len() implies #[trigger] of_prefix[i]
        == of_table[i] by {
        lemma_slot_of_prefix(table, len, i + 1);
    }
    assert(of_prefix =~= of_table);
}

/// A reader that has taken the first `pos` bytes of `stream` and no more than
/// reading the table takes in all either wants bytes that keep it within that
/// bound, or has taken exactly what reading the table takes and has come to
/// what the whole stream comes to.
pub proof fn lemma_table_reading_step(stream: Seq<u8>, pos: int, limit: u64)
    requires
        0 <= pos <= stream.len(),
        pos <= table_consumed(stream),
    ensures
        table_missing(stream.take(pos)) > 0 ==> pos + table_missing(stream.take(pos))
            <= table_consumed(stream) || stream.len() == table_consumed(stream),
        table_missing(stream.take(pos)) == 0 ==> pos == table_consumed(stream) && table_result(
            stream.take(pos),
            limit,
        ) == table_result(stream, limit),
{
    if pos >= 8 {
        lemma_slot_of_prefix(stream, pos, 0);
        if 0 < announced_count(stream) < 512 && pos >= table_len(announced_count(stream)) {
            lemma_lengths_of_prefix(stream, pos);
        }
    }
}

/// The decisions of one who reads a segment table piece by piece.
pub struct SegmentTableReader {
    limit: u64,
    header: Vec<u8>,
    ended: bool,
    segment_count: usize,
    outcome: Option<Result<SegmentTable, Error>>,
}

impl SegmentTableReader {
    #[verifier::type_invariant]
    spec fn well_formed(self) -> bool {
        &&& table_missing(self.header@) > 0 ==> self.outcome is None
        &&& table_missing(self.header@) == 0 ==> self.outcome is Some && is_table_result(
            match self.outcome->Some_0 {
                Ok(table) => Ok(Some(table)),
                Err(e) => Err(e),
            },
            table_result(self.header@, self.limit),
            self.limit,
        )
        &&& self.header@.len() >= 8 && 0 < announced_count(self.header@) < 512
            ==> self.segment_count == announced_count(self.header@) && self.header@.len()
            <= table_len(self.segment_count as nat)
    }

    /// The bytes received so far.
    pub closed spec fn received(&self) -> Seq<u8> {
        self.header@
    }

    /// Whether the source has said that it has no more.
    pub closed spec fn ended(&self) -> bool {
        self.ended
    }

    /// The most words that the message may hold.
    pub closed spec fn limit(&self) -> u64 {
        self.limit
    }

    /// A reader that has received nothing yet.
    pub fn new(options: ReaderOptions) -> (reader: SegmentTableReader)
        ensures
            reader.received() == Seq::<u8>::empty(),
            !reader.ended(),
            reader.limit() == options.traversal_limit_in_words,
    {
        SegmentTableReader {
            limit: options.traversal_limit_in_words,
            header: Vec::new(),
            ended: false,
            segment_count: 0,
            outcome: None,
        }
    }

    /// The most bytes to ask the source for next. It is 0 when there is
    /// nothing left to read: the table is complete, it is bad, or the source
    /// has ended.
    pub fn wanted(&self) -> (count: usize)
        ensures
            count == if self.ended() {
                0
            } else {
                table_missing(self.received())
            },
    {
        proof {
            use_type_invariant(self);
        }
        if self.ended || self.outcome.is_some() {
            0
        } else if self.header.len() < 8 {
            8 - self.header.len()
        } else {
            8 * (self.segment_count / 2 + 1) - self.header.len()
        }
    }

    /// Takes what the source gave when it was asked for `wanted()` bytes at
    /// most. Bytes are added to those received. No bytes mean that the source
    /// has ended. A reader that wants nothing stays as it is.
    pub fn supply(self, data: &[u8]) -> (next: SegmentTableReader)
        requires
            data@.len() <= if self.ended() {
                0
            } else {
                table_missing(self.received())
            },
        ensures
            next.limit() == self.limit(),
            next.received() == self.received() + data@,
            next.ended() == (self.ended() || (table_missing(self.received()) > 0 && data@.len()
                == 0)),
    {
        proof {
            use_type_invariant(&self);
        }
        if self.wanted() == 0 {
            assert(self.header@ + data@ =~= self.header@);
            return self;
        }
        let SegmentTableReader { limit, mut header, ended, segment_count, outcome } = self;
        if data.len() == 0 {
            assert(header@ + data@ =~= header@);
            return SegmentTableReader { limit, header, ended: true, segment_count, outcome };
        }
        let ghost before = header@;
        let was: usize = header.len();
        append_bytes(&mut header, data);
        assert(header@.take(was as int) =~= before);
        if header.len() < 8 {
            return SegmentTableReader { limit, header, ended, segment_count, outcome: None };
        }
        let count: usize = if was < 8 {
            match parse_segment_table_first(header.as_slice()) {
                Err(e) => {
                    return SegmentTableReader {
                        limit,
                        header,
                        ended,
                        segment_count,
                        outcome: Some(Err(e)),
                    };
                },
                Ok((count, _)) => count,
            }
        } else {
            proof {
                lemma_slot_of_prefix(header@, was as int, 0);
            }
            segment_count
        };
        if header.len() < 8 * (count / 2 + 1) {
            SegmentTableReader { limit, header, ended, segment_count: count, outcome: None }
        } else {
            let table = SegmentTable::from_header(header.as_slice(), count, limit);
            SegmentTableReader { limit, header, ended, segment_count: count, outcome: Some(table) }
        }
    }

    /// Ends the reading and gives what it came to, the source having no more
    /// to give.
    pub fn finish(self) -> (result: Result<Option<SegmentTable>, Error>)
        ensures
            is_table_result(
                result,
                table_result(self.received(), self.limit()),
                self.limit(),
            ),
    {
        proof {
            use_type_invariant(&self);
        }
        let SegmentTableReader { header, outcome, .. } = self;
        match outcome {
            Some(Ok(table)) => Ok(Some(table)),
            Some(Err(e)) => Err(e),
            None => if header.len() == 0 {
                Ok(None)
            } else {
                Err(Error::Truncated)
            },
        }
    }
}

} // verus!
