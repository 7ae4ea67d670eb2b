//! The heap buffer of a spilled bit set: how it is filled with zero words up
//! to what the allocator handed out.

use crate::layout::MAX_WORDS;
use vstd::prelude::*;

verus! {

/// The sequence of `count` zero words.
pub open spec fn zero_words(count: nat) -> Seq<usize> {
    Seq::new(count, |i: int| 0usize)
}

/// The number of words of a buffer that had `len` words and was filled up to
/// the `reported` capacity, without passing [`MAX_WORDS`].
pub open spec fn filled_len(len: nat, reported: nat) -> nat {
    if reported <= len {
        len
    } else if reported <= MAX_WORDS {
        reported
    } else if len <= MAX_WORDS {
        MAX_WORDS as nat
    } else {
        len
    }
}

/// Reads `Vec::capacity`, the number of words that the allocator made room
/// for. Nothing is claimed of the number: it is whatever the allocator gave.
#[verifier::external_body]
fn allocated_words(buffer: &Vec<usize>) -> (reported: usize) {
    buffer.capacity()
}

/// Appends zero words to `buffer` until it holds `reported` words, stopping at
/// [`MAX_WORDS`]. A buffer that already holds that many is left as it is.
pub fn fill_to(buffer: &mut Vec<usize>, reported: usize)
    ensures
        final(buffer)@ == old(buffer)@ + zero_words(
            (filled_len(old(buffer)@.len(), reported as nat) - old(buffer)@.len()) as nat,
        ),
{
    let limit: usize = if reported <= MAX_WORDS {
        reported
    } else {
        MAX_WORDS
    };
    while buffer.len() < limit
        invariant
            limit <= MAX_WORDS,
            limit == reported || (limit == MAX_WORDS && reported > MAX_WORDS),
            old(buffer)@.len() <= buffer@.len(),
            buffer@.len() <= limit || buffer@.len() == old(buffer)@.len(),
            buffer@ == old(buffer)@ + zero_words((buffer@.len() - old(buffer)@.len()) as nat),
        decreases limit - buffer.len(),
    {
        buffer.push(0);
    }
}

/// Appends zero words to `buffer` up to the capacity that its allocation
/// really has, so that every word of the allocation is in use, and returns
/// that capacity as the allocator reported it. The buffer ends up as
/// [`fill_to`] leaves it for the reported capacity.
pub fn fill_allocation(buffer: &mut Vec<usize>) -> (reported: usize)
    ensures
        final(buffer)@ == old(buffer)@ + zero_words(
            (filled_len(old(buffer)@.len(), reported as nat) - old(buffer)@.len()) as nat,
        ),
{
    let reported: usize = allocated_words(buffer);
    fill_to(buffer, reported);
    reported
}

} // verus!
