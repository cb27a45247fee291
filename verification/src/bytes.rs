//! Byte streams held in memory.

use vstd::prelude::*;
use vstd::slice::slice_subrange;

verus! {

/// Appends `data` to `sink`.
pub fn append_bytes(sink: &mut Vec<u8>, data: &[u8])
    ensures
        final(sink)@ == old(sink)@ + data@,
{
    let mut i: usize = 0;
    while i < data.len()
        invariant
            0 <= i <= data@.len(),
            sink@ == old(sink)@ + data@.take(i as int),
        decreases data@.len() - i,
    {
        sink.push(data[i]);
        i = i + 1;
        assert(sink@ =~= old(sink)@ + data@.take(i as int));
    }
    assert(data@.take(i as int) =~= data@);
}

/// Takes up to `count` bytes from the front of `source`: all of them where
/// the source has that many, else all that it has.
pub fn take_front<'a>(source: &mut &'a [u8], count: usize) -> (front: &'a [u8])
    ensures
        front@.len() == if count <= old(source)@.len() {
            count as int
        } else {
            old(source)@.len() as int
        },
        front@ == old(source)@.take(front@.len() as int),
        final(source)@ == old(source)@.skip(front@.len() as int),
{
    let len: usize = source.len();
    let taken: usize = if count <= len {
        count
    } else {
        len
    };
    let whole: &'a [u8] = *source;
    *source = slice_subrange(whole, taken, len);
    slice_subrange(whole, 0, taken)
}

} // verus!
