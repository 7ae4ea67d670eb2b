//! Single storage words: reading, writing, masking and scanning their bits.
//!
//! Every function here states its result bit by bit through [`word_bit`], so
//! that the bit set built on top never reasons about shifts and masks itself.

use vstd::prelude::*;
use vstd::std_specs::bits::{
    axiom_u64_leading_zeros, axiom_u64_trailing_zeros, u64_trailing_zeros,
};

verus! {

/// Number of bits held by one storage word.
pub const WORD_BITS: usize = usize::BITS as usize;

/// Whether the bit at offset `off` of `word` is set. Offsets at or beyond
/// [`WORD_BITS`] name no bit and are never set.
pub open spec fn word_bit(word: usize, off: usize) -> bool {
    off < WORD_BITS && (word >> off) & 1usize == 1usize
}

/// Whether no bit of `word` is set at an offset in `[lo, hi)`.
pub open spec fn word_clear_between(word: usize, lo: usize, hi: usize) -> bool {
    forall|j: usize| lo <= j < hi ==> !#[trigger] word_bit(word, j)
}

/// Zero has no set bit.
proof fn lemma_bits_of_zero(j: usize)
    by (bit_vector)
    ensures
        (0usize >> j) & 1usize == 0usize,
{
}

/// Testing a word against the mask of one offset reads the bit at that offset.
proof fn lemma_bits_of_mask_test(word: usize, off: usize)
    by (bit_vector)
    requires
        off < usize::BITS,
    ensures
        (word & (1usize << off) != 0usize) == ((word >> off) & 1usize == 1usize),
{
}

/// Or-ing the mask of one offset into a word sets that bit and keeps the others.
proof fn lemma_bits_of_or_mask(word: usize, off: usize, j: usize)
    by (bit_vector)
    requires
        off < usize::BITS,
        j < usize::BITS,
    ensures
        (((word | (1usize << off)) >> j) & 1usize == 1usize) == (j == off || (word >> j) & 1usize
            == 1usize),
{
}

/// And-ing a word with the inverted mask of one offset clears that bit and keeps
/// the others.
proof fn lemma_bits_of_and_not_mask(word: usize, off: usize, j: usize)
    by (bit_vector)
    requires
        off < usize::BITS,
        j < usize::BITS,
    ensures
        (((word & !(1usize << off)) >> j) & 1usize == 1usize) == (j != off && (word >> j) & 1usize
            == 1usize),
{
}

/// The bits of a word that survive the mask of all offsets below `off`.
proof fn lemma_bits_below(word: usize, off: usize, j: usize)
    by (bit_vector)
    requires
        off < usize::BITS,
        j < usize::BITS,
    ensures
        (((word & !(!0usize << off)) >> j) & 1usize == 1usize) == (j < off && (word >> j) & 1usize
            == 1usize),
{
}

/// The bits of a word that survive the mask of all offsets from `off` on.
proof fn lemma_bits_from(word: usize, off: usize, j: usize)
    by (bit_vector)
    requires
        off < usize::BITS,
        j < usize::BITS,
    ensures
        (((word & (!0usize << off)) >> j) & 1usize == 1usize) == (j >= off && (word >> j) & 1usize
            == 1usize),
{
}

/// A word widened to 64 bits has the bits of the word, and none beyond them.
proof fn lemma_bits_widened(word: usize, j: usize)
    by (bit_vector)
    requires
        j < 64,
    ensures
        (((word as u64) >> (j as u64)) & 1u64 == 1u64) == (j < usize::BITS && (word >> j) & 1usize
            == 1usize),
        (((word as u64) >> (j as u64)) & 1u64 == 0u64) == !(j < usize::BITS && (word >> j) & 1usize
            == 1usize),
{
}

/// The exclusive or of two words has a bit set where the two words differ.
proof fn lemma_bits_of_xor(a: usize, b: usize, j: usize)
    by (bit_vector)
    requires
        j < usize::BITS,
    ensures
        (((a ^ b) >> j) & 1usize == 1usize) == (((a >> j) & 1usize == 1usize) != ((b >> j) & 1usize
            == 1usize)),
{
}

/// The exclusive or of two different words is not zero.
proof fn lemma_xor_of_distinct(a: usize, b: usize)
    by (bit_vector)
    requires
        a != b,
    ensures
        (a ^ b) as u64 != 0u64,
{
}

/// Two words with the same bits are the same word.
pub proof fn lemma_word_extensional(a: usize, b: usize)
    requires
        forall|j: usize| j < WORD_BITS ==> word_bit(a, j) == word_bit(b, j),
    ensures
        a == b,
{
    if a != b {
        let wide = (a ^ b) as u64;
        lemma_xor_of_distinct(a, b);
        axiom_u64_trailing_zeros(wide);
        let j = u64_trailing_zeros(wide) as usize;
        lemma_bits_widened(a ^ b, j);
        lemma_bits_of_xor(a, b, j);
        assert(word_bit(a, j) != word_bit(b, j));
    }
}

/// A word is zero exactly when none of its bits is set.
pub proof fn lemma_zero_word(word: usize)
    ensures
        word == 0 <==> word_clear_between(word, 0, WORD_BITS),
{
    assert forall|j: usize| j < WORD_BITS implies !#[trigger] word_bit(0usize, j) by {
        lemma_bits_of_zero(j);
    }
    if word_clear_between(word, 0, WORD_BITS) {
        lemma_word_extensional(word, 0);
    }
}

/// Reads the bit at offset `off`.
pub fn test_bit(word: usize, off: usize) -> (set: bool)
    requires
        off < WORD_BITS,
    ensures
        set == word_bit(word, off),
{
    proof {
        lemma_bits_of_mask_test(word, off);
    }
    word & (1usize << off) != 0
}

/// Returns `word` with the bit at offset `off` made equal to `value` and every
/// other bit kept.
pub fn with_bit(word: usize, off: usize, value: bool) -> (out: usize)
    requires
        off < WORD_BITS,
    ensures
        forall|j: usize|
            j < WORD_BITS ==> #[trigger] word_bit(out, j) == if j == off {
                value
            } else {
                word_bit(word, j)
            },
{
    let mask: usize = 1usize << off;
    let out: usize = if value {
        word | mask
    } else {
        word & !mask
    };
    proof {
        assert forall|j: usize| j < WORD_BITS implies #[trigger] word_bit(out, j) == if j == off {
            value
        } else {
            word_bit(word, j)
        } by {
            lemma_bits_of_or_mask(word, off, j);
            lemma_bits_of_and_not_mask(word, off, j);
        }
    }
    out
}

/// Returns `word` with every bit at offset `off` or above cleared.
pub fn keep_below(word: usize, off: usize) -> (out: usize)
    requires
        off < WORD_BITS,
    ensures
        forall|j: usize| #[trigger] word_bit(out, j) == (j < off && word_bit(word, j)),
{
    let out: usize = word & !(!0usize << off);
    proof {
        assert forall|j: usize| #[trigger] word_bit(out, j) == (j < off && word_bit(word, j)) by {
            if j < WORD_BITS {
                lemma_bits_below(word, off, j);
            }
        }
    }
    out
}

/// Returns `word` with every bit below offset `off` cleared.
pub fn keep_from(word: usize, off: usize) -> (out: usize)
    requires
        off < WORD_BITS,
    ensures
        forall|j: usize| #[trigger] word_bit(out, j) == (j >= off && word_bit(word, j)),
{
    let out: usize = word & (!0usize << off);
    proof {
        assert forall|j: usize| #[trigger] word_bit(out, j) == (j >= off && word_bit(word, j)) by {
            if j < WORD_BITS {
                lemma_bits_from(word, off, j);
            }
        }
    }
    out
}

/// Offset of the lowest set bit of `word`, or [`WORD_BITS`] when no bit is set.
pub fn lowest_set(word: usize) -> (off: usize)
    ensures
        off <= WORD_BITS,
        word_clear_between(word, 0, off),
        off < WORD_BITS ==> word_bit(word, off),
{
    let wide: u64 = word as u64;
    let zeros: u32 = wide.trailing_zeros();
    proof {
        axiom_u64_trailing_zeros(wide);
        assert forall|j: usize| j < 64 implies (((wide >> (j as u64)) & 1u64 == 1u64) == word_bit(
            word,
            j,
        )) && (((wide >> (j as u64)) & 1u64 == 0u64) == !word_bit(word, j)) by {
            lemma_bits_widened(word, j);
        }
    }
    if zeros as usize >= WORD_BITS {
        proof {
            assert forall|j: usize| 0 <= j < WORD_BITS implies !#[trigger] word_bit(word, j) by {
                if zeros < 64 {
                    assert(word_bit(word, zeros as usize));
                } else {
                    assert((wide >> (j as u64)) & 1u64 == 0u64);
                }
            }
        }
        WORD_BITS
    } else {
        proof {
            assert forall|j: usize| 0 <= j < zeros as usize implies !#[trigger] word_bit(
                word,
                j,
            ) by {
                assert((wide >> (j as u64)) & 1u64 == 0u64);
            }
            assert(word_bit(word, zeros as usize));
        }
        zeros as usize
    }
}

/// Offset of the highest set bit of `word`, or [`WORD_BITS`] when no bit is set.
pub fn highest_set(word: usize) -> (off: usize)
    ensures
        off <= WORD_BITS,
        off < WORD_BITS ==> word_bit(word, off),
        off < WORD_BITS ==> word_clear_between(word, (off + 1) as usize, WORD_BITS),
        off == WORD_BITS ==> word_clear_between(word, 0, WORD_BITS),
{
    let wide: u64 = word as u64;
    let zeros: u32 = wide.leading_zeros();
    proof {
        axiom_u64_leading_zeros(wide);
        assert forall|j: usize| j < 64 implies (((wide >> (j as u64)) & 1u64 == 1u64) == word_bit(
            word,
            j,
        )) && (((wide >> (j as u64)) & 1u64 == 0u64) == !word_bit(word, j)) by {
            lemma_bits_widened(word, j);
        }
    }
    if zeros >= 64 {
        proof {
            assert forall|j: usize| 0 <= j < WORD_BITS implies !#[trigger] word_bit(word, j) by {
                assert((wide >> (j as u64)) & 1u64 == 0u64);
            }
        }
        WORD_BITS
    } else {
        let off: usize = 63 - zeros as usize;
        proof {
            assert(!((wide >> (off as u64)) & 1u64 == 0u64));
            assert(word_bit(word, off));
            assert forall|j: usize| off + 1 <= j < WORD_BITS implies !#[trigger] word_bit(
                word,
                j,
            ) by {
                assert((wide >> (j as u64)) & 1u64 == 0u64);
            }
        }
        off
    }
}

} // verus!
