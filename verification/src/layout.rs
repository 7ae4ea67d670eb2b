//! How bit indices are laid out over words: which word holds a bit, at which
//! offset, and how many words and bits a `usize` can number.

use crate::word::WORD_BITS;
use vstd::prelude::*;

verus! {

/// The largest number of words whose bits can all be numbered by a `usize`.
pub const MAX_WORDS: usize = usize::MAX / WORD_BITS;

/// The largest capacity, in bits, that a bit set can have.
pub const MAX_BITS: usize = usize::MAX - (WORD_BITS - 1);

/// Index of the word that holds bit `bit`.
pub open spec fn word_of(bit: nat) -> int {
    bit as int / WORD_BITS as int
}

/// Offset of bit `bit` inside its word.
pub open spec fn offset_of(bit: nat) -> usize {
    (bit as int % WORD_BITS as int) as usize
}

/// Every bit index is its word's first index plus its offset in that word.
pub proof fn lemma_position(bit: nat)
    ensures
        bit == word_of(bit) * WORD_BITS + offset_of(bit),
        0 <= word_of(bit),
        offset_of(bit) < WORD_BITS,
{
    assert(WORD_BITS == 32 || WORD_BITS == 64);
}

/// A word index and an offset below the word width name exactly one bit.
pub proof fn lemma_position_of(word: nat, off: nat)
    requires
        off < WORD_BITS,
    ensures
        word_of((word * WORD_BITS + off) as nat) == word,
        offset_of((word * WORD_BITS + off) as nat) == off,
{
    assert(WORD_BITS == 32 || WORD_BITS == 64);
}

/// The bits of word `word + 1` start where those of word `word` end.
pub proof fn lemma_next_word(word: int)
    ensures
        (word + 1) * WORD_BITS == word * WORD_BITS + WORD_BITS,
{
    assert((word + 1) * WORD_BITS == word * WORD_BITS + WORD_BITS) by (nonlinear_arith);
}

/// Lower word indices name lower bits: the bits of word `lower` all come
/// before those of word `upper`.
pub proof fn lemma_words_apart(lower: int, upper: int)
    requires
        lower < upper,
    ensures
        lower * WORD_BITS + WORD_BITS <= upper * WORD_BITS,
{
    assert(lower * WORD_BITS + WORD_BITS <= upper * WORD_BITS) by (nonlinear_arith)
        requires
            lower + 1 <= upper,
    ;
}

/// The word width divides [`MAX_BITS`], which is the last multiple of it that
/// a `usize` can hold. On every machine [`MAX_WORDS`] is at least `2^27 - 1`.
pub proof fn lemma_max_bits()
    ensures
        WORD_BITS == 32 || WORD_BITS == 64,
        MAX_BITS == MAX_WORDS * WORD_BITS,
        MAX_WORDS >= 0x7ff_ffff,
{
    if WORD_BITS == 32 {
        assert(MAX_WORDS == 0x7ff_ffff);
    } else {
        assert(0xffff_ffff_ffff_ffffint / 64 == 0x3ff_ffff_ffff_ffff);
        assert(MAX_WORDS == 0x3ff_ffff_ffff_ffff);
    }
}

} // verus!
