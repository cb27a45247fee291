//! The segment table: the header that says how many segments a message has
//! and how many words each of them holds.
//!
//! The table is a run of 32-bit slots in little-endian order. Slot 0 holds the
//! number of segments less one, slot `i + 1` the length of segment `i` in
//! words. A slot of zero is added where that makes the number of slots even,
//! so that the table is a whole number of eight-byte words.

use vstd::prelude::*;
use crate::error::Error;
use crate::little_endian::le_u32;
use crate::little_endian::le_bytes;
use crate::little_endian::lemma_le_bytes_len;
use crate::little_endian::read_u32_le;
use crate::little_endian::push_u32_le;
use capnp::Word;

verus! {

/// Tables that announce this many segments or more are refused.
pub const SEGMENT_COUNT_BOUND: u32 = 512;

/// The bytes that the table of `count` segments takes.
pub open spec fn table_len(count: nat) -> nat {
    8 * (count / 2 + 1)
}

/// The number that slot `k` of `table` holds.
pub open spec fn table_slot(table: Seq<u8>, k: int) -> nat {
    le_u32(table.subrange(4 * k, 4 * k + 4))
}

/// The number of segments that `table` announces. Slot 0 holds it less one,
/// and the count wraps: a slot of all ones announces no segment.
pub open spec fn announced_count(table: Seq<u8>) -> nat {
    if table_slot(table, 0) == u32::MAX {
        0
    } else {
        table_slot(table, 0) + 1
    }
}

/// The lengths, in words, of the segments that `table` announces.
pub open spec fn announced_lengths(table: Seq<u8>) -> Seq<nat> {
    Seq::new(announced_count(table), |i: int| table_slot(table, i + 1))
}

/// The words of the segments before segment `i`.
pub open spec fn words_before(lengths: Seq<nat>, i: int) -> nat
    decreases i,
{
    if i <= 0 {
        0
    } else {
        words_before(lengths, i - 1) + lengths[i - 1]
    }
}

/// The words of all segments together.
pub open spec fn total_words(lengths: Seq<nat>) -> nat {
    words_before(lengths, lengths.len() as int)
}

/// Where each segment starts and ends in the words of the message, laid end
/// to end in the order of the table.
pub open spec fn segment_ranges(lengths: Seq<nat>) -> Seq<(int, int)> {
    Seq::new(
        lengths.len(),
        |i: int| (words_before(lengths, i) as int, words_before(lengths, i + 1) as int),
    )
}

/// The number that slot `k` of the table for segments of these lengths
/// holds. A slot has 32 bits: of a larger number it holds the low 32 bits.
pub open spec fn encoded_slot(lengths: Seq<nat>, k: int) -> nat {
    if k == 0 {
        ((lengths.len() - 1) % 0x1_0000_0000) as nat
    } else if k <= lengths.len() {
        lengths[k - 1] % 0x1_0000_0000
    } else {
        0
    }
}

/// The table for segments of these lengths, of which there is at least one.
pub open spec fn encode_table(lengths: Seq<nat>) -> Seq<u8>
    recommends
        lengths.len() >= 1,
{
    Seq::new(table_len(lengths.len()), |i: int| le_bytes(encoded_slot(lengths, i / 4))[i % 4])
}

/// The lengths, in words, of these segments.
pub open spec fn word_counts(segments: Seq<&[Word]>) -> Seq<nat> {
    Seq::new(segments.len(), |i: int| segments[i]@.len())
}

/// Whether a message of `words` words may be read under `limit`: it stays
/// within the limit, and its bytes can be held in one buffer on this machine.
pub open spec fn acceptable_size(words: nat, limit: u64) -> bool {
    words <= limit && 8 * words <= isize::MAX
}

/// The words before a segment never exceed the words before a later one.
pub proof fn lemma_words_before_grows(lengths: Seq<nat>, i: int, j: int)
    requires
        i <= j,
    ensures
        words_before(lengths, i) <= words_before(lengths, j),
    decreases j - i,
{
    if i < j {
        lemma_words_before_grows(lengths, i, j - 1);
    }
}

/// Parses the first word of a segment table: the number of segments and the
/// length of the first of them.
pub fn parse_segment_table_first(buf: &[u8]) -> (parsed: Result<(usize, usize), Error>)
    requires
        buf@.len() >= 8,
    ensures
        announced_count(buf@) >= 512 ==> parsed == Err::<(usize, usize), Error>(
            Error::TooManySegments(announced_count(buf@) as u32),
        ),
        announced_count(buf@) == 0 ==> parsed == Err::<(usize, usize), Error>(
            Error::TooFewSegments,
        ),
        0 < announced_count(buf@) < 512 ==> parsed == Ok::<(usize, usize), Error>(
            (announced_count(buf@) as usize, table_slot(buf@, 1) as usize),
        ),
{
    let segment_count: u32 = read_u32_le(buf, 0).wrapping_add(1);
    if segment_count >= SEGMENT_COUNT_BOUND {
        return Err(Error::TooManySegments(segment_count));
    } else if segment_count == 0 {
        return Err(Error::TooFewSegments);
    }
    let first_segment_len: u32 = read_u32_le(buf, 4);
    Ok((segment_count as usize, first_segment_len as usize))
}

/// The low 32 bits of `n`.
fn low_u32(n: usize) -> (low: u32)
    ensures
        low == (n as nat) % 0x1_0000_0000,
{
    ((n as u64) % 0x1_0000_0000) as u32
}

/// The first `k + 1` slots of a table are its first `k` slots and then slot `k`.
proof fn lemma_encode_table_slot(lengths: Seq<nat>, k: int)
    requires
        0 <= k,
        4 * k + 4 <= table_len(lengths.len()),
    ensures
        encode_table(lengths).take(4 * k + 4) == encode_table(lengths).take(4 * k) + le_bytes(
            encoded_slot(lengths, k),
        ),
{
    let table = encode_table(lengths);
    let slot = le_bytes(encoded_slot(lengths, k));
    lemma_le_bytes_len(encoded_slot(lengths, k));
    assert forall|i: int| 0 <= i < 4 implies table[4 * k + i] == slot[i] by {
        assert((4 * k + i) / 4 == k);
        assert((4 * k + i) % 4 == i);
    }
    assert(table.take(4 * k + 4) =~= table.take(4 * k) + slot);
}

/// Appends the table for `segments`, of which there is at least one, to
/// `sink`.
pub fn write_segment_table(sink: &mut Vec<u8>, segments: &[&[Word]])
    requires
        segments@.len() >= 1,
    ensures
        final(sink)@ == old(sink)@ + encode_table(word_counts(segments@)),
{
    let ghost lengths = word_counts(segments@);
    let ghost table = encode_table(lengths);
    let segment_count: usize = segments.len();
    proof {
        lemma_encode_table_slot(lengths, 0);
        assert(table.take(0) =~= Seq::<u8>::empty());
    }
    push_u32_le(sink, low_u32(segment_count - 1));
    let mut idx: usize = 0;
    while idx < segment_count
        invariant
            0 <= idx <= segment_count == segments@.len(),
            lengths == word_counts(segments@),
            table == encode_table(lengths),
            sink@ == old(sink)@ + table.take(4 * (idx + 1)),
        decreases segment_count - idx,
    {
        proof {
            lemma_encode_table_slot(lengths, idx + 1);
        }
        push_u32_le(sink, low_u32(segments[idx].len()));
        idx = idx + 1;
    }
    if segment_count % 2 == 0 {
        proof {
            lemma_encode_table_slot(lengths, segment_count + 1);
        }
        push_u32_le(sink, 0);
    }
    proof {
        assert(table.len() == 4 * (segment_count + 1) + if segment_count % 2 == 0 {
            4int
        } else {
            0int
        });
        assert(table.take(table.len() as int) =~= table);
    }
}

/// A segment table that was checked: for each segment of a message, where it
/// starts and ends in the words of the message. The message is no larger than
/// the limit under which the table was read.
pub struct SegmentTable {
    total_words: usize,
    segment_slices: Vec<(usize, usize)>,
    limit: Ghost<u64>,
}

/// Whether `ranges` lie end to end, from word 0 to word `total`.
pub open spec fn contiguous(ranges: Seq<(int, int)>, total: int) -> bool {
    &&& ranges.len() >= 1
    &&& ranges[0].0 == 0
    &&& ranges[ranges.len() - 1].1 == total
    &&& forall|i: int| 0 <= i < ranges.len() ==> 0 <= (#[trigger] ranges[i]).0 <= ranges[i].1 <= total
    &&& forall|i: int| 0 <= i < ranges.len() - 1 ==> (#[trigger] ranges[i]).1 == ranges[i + 1].0
}

/// The ranges of a table of at least one segment lie end to end.
pub proof fn lemma_segment_ranges_contiguous(lengths: Seq<nat>)
    requires
        lengths.len() >= 1,
    ensures
        contiguous(segment_ranges(lengths), total_words(lengths) as int),
{
    let ranges = segment_ranges(lengths);
    assert forall|i: int| 0 <= i < ranges.len() implies 0 <= (#[trigger] ranges[i]).0
        <= ranges[i].1 <= total_words(lengths) by {
        lemma_words_before_grows(lengths, i, i + 1);
        lemma_words_before_grows(lengths, i + 1, lengths.len() as int);
    }
}

impl SegmentTable {
    #[verifier::type_invariant]
    spec fn well_formed(self) -> bool {
        &&& self.segment_slices@.len() < 512
        &&& 8 * self.total_words <= isize::MAX
        &&& self.total_words <= self.limit@
        &&& contiguous(self.view(), self.total_words as int)
    }

    /// The start and the end of each segment, counted in words.
    pub closed spec fn view(&self) -> Seq<(int, int)> {
        Seq::new(
            self.segment_slices@.len(),
            |i: int| (self.segment_slices@[i].0 as int, self.segment_slices@[i].1 as int),
        )
    }

    /// The words of all segments together.
    pub closed spec fn words(&self) -> nat {
        self.total_words as nat
    }

    /// The most words that the message was allowed to hold when the table
    /// was read.
    pub closed spec fn limit(&self) -> u64 {
        self.limit@
    }

    /// Lays the segments that `header` announces end to end, and checks the
    /// size of the message against `limit`. `header` holds a whole table of
    /// `segment_count` segments.
    pub(crate) fn from_header(header: &[u8], segment_count: usize, limit: u64) -> (table: Result<
        SegmentTable,
        Error,
    >)
        requires
            0 < segment_count < 512,
            segment_count == announced_count(header@),
            header@.len() >= table_len(segment_count as nat),
        ensures
            acceptable_size(total_words(announced_lengths(header@)), limit) ==> table is Ok
                && table->Ok_0@ == segment_ranges(announced_lengths(header@))
                && table->Ok_0.words() == total_words(announced_lengths(header@))
                && table->Ok_0.limit() == limit,
            !acceptable_size(total_words(announced_lengths(header@)), limit) ==> table == Err::<
                SegmentTable,
                Error,
            >(Error::MessageTooLarge(total_words(announced_lengths(header@)) as u64)),
    {
        let ghost lengths = announced_lengths(header@);
        let mut total: u64 = 0;
        let mut idx: usize = 0;
        while idx < segment_count
            invariant
                0 <= idx <= segment_count < 512,
                header@.len() >= table_len(segment_count as nat),
                lengths == announced_lengths(header@),
                lengths.len() == segment_count,
                total == words_before(lengths, idx as int),
                total <= idx * 0xffff_ffff,
            decreases segment_count - idx,
        {
            let segment_len: u32 = read_u32_le(header, 4 * (idx + 1));
            total = total + segment_len as u64;
            idx = idx + 1;
        }
        if total > limit || total > (isize::MAX / 8) as u64 {
            return Err(Error::MessageTooLarge(total));
        }
        let mut segment_slices: Vec<(usize, usize)> = Vec::with_capacity(segment_count);
        let mut start: usize = 0;
        let mut idx: usize = 0;
        while idx < segment_count
            invariant
                0 <= idx <= segment_count < 512,
                header@.len() >= table_len(segment_count as nat),
                lengths == announced_lengths(header@),
                lengths.len() == segment_count,
                total == total_words(lengths),
                8 * total <= isize::MAX,
                start == words_before(lengths, idx as int),
                segment_slices@.len() == idx,
                forall|i: int|
                    0 <= i < idx ==> (#[trigger] segment_slices@[i]).0 == words_before(lengths, i)
                        && segment_slices@[i].1 == words_before(lengths, i + 1),
            decreases segment_count - idx,
        {
            let segment_len: u32 = read_u32_le(header, 4 * (idx + 1));
            proof {
                lemma_words_before_grows(lengths, idx + 1, segment_count as int);
            }
            let end: usize = start + segment_len as usize;
            segment_slices.push((start, end));
            start = end;
            idx = idx + 1;
        }
        proof {
            lemma_segment_ranges_contiguous(lengths);
            let ranges = Seq::new(
                segment_slices@.len(),
                |i: int| (segment_slices@[i].0 as int, segment_slices@[i].1 as int),
            );
            assert(ranges =~= segment_ranges(lengths));
        }
        Ok(SegmentTable { total_words: start, segment_slices, limit: Ghost(limit) })
    }

    /// The number of segments. Every table has between 1 and 511 of them.
    pub fn segment_count(&self) -> (count: usize)
        ensures
            count == self@.len(),
            1 <= count < 512,
    {
        proof {
            use_type_invariant(self);
        }
        self.segment_slices.len()
    }

    /// The words of all segments together. They are no more than the limit
    /// admits, the segments lie end to end from word 0 to this one, and their
    /// bytes fit one buffer.
    pub fn total_words(&self) -> (total: usize)
        ensures
            total == self.words(),
            total <= self.limit(),
            8 * total <= isize::MAX,
            contiguous(self@, total as int),
    {
        proof {
            use_type_invariant(self);
        }
        self.total_words
    }

    /// Gives up the table for the start and the end of each segment. They lie
    /// end to end from word 0 to the last word of the message.
    pub fn into_segment_slices(self) -> (slices: Vec<(usize, usize)>)
        ensures
            slices@.len() == self@.len(),
            forall|i: int|
                0 <= i < slices@.len() ==> (#[trigger] slices@[i]).0 == self@[i].0 && slices@[i].1
                    == self@[i].1,
            contiguous(self@, self.words() as int),
    {
        proof {
            use_type_invariant(&self);
        }
        self.segment_slices
    }

    /// The start and the end of each segment, counted in words.
    pub fn segment_slices(&self) -> (slices: &Vec<(usize, usize)>)
        ensures
            slices@.len() == self@.len(),
            forall|i: int|
                0 <= i < slices@.len() ==> (#[trigger] slices@[i]).0 == self@[i].0 && slices@[i].1
                    == self@[i].1,
    {
        &self.segment_slices
    }
}

} // verus!
