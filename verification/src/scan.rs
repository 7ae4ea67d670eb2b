//! Scans for the nearest true bit, upwards and downwards.

use crate::bitset::IttyBitty;
use crate::layout::{lemma_next_word, lemma_position, lemma_words_apart, word_of};
use crate::model::{clear_between, is_next, is_prev};
use crate::word::{
    highest_set, keep_below, keep_from, lowest_set, word_bit, word_clear_between, WORD_BITS,
};
use vstd::prelude::*;

verus! {

/// The value that the scans return when no bit qualifies. It is never the
/// index of a bit.
pub const NONE: usize = usize::MAX;

impl<const N: usize> IttyBitty<N> {
    /// Gets the first true bit at or after `bit`, or [`NONE`] when there is
    /// none.
    #[verifier::loop_isolation(false)]
    pub fn next_set_bit(&self, bit: usize) -> (found: usize)
        ensures
            found != NONE ==> is_next(self@, bit as nat, found as nat),
            found == NONE ==> forall|b: nat| bit <= b ==> !self@.contains(b),
            bit >= self.spec_capacity() ==> found == NONE,
    {
        proof {
            use_type_invariant(self);
            self.lemma_layout();
            lemma_position(bit as nat);
        }
        if bit >= self.capacity() {
            return NONE;
        }
        let first: usize = bit / WORD_BITS;
        let b: usize = bit % WORD_BITS;
        let masked: usize = keep_from(self.get_word(first), b);
        let low: usize = lowest_set(masked);
        proof {
            assert(word_clear_between(self.word_seq()[first as int], b, low)) by {
                assert forall|j: usize| b <= j < low implies !word_bit(
                    self.word_seq()[first as int],
                    j,
                ) by {
                    assert(!word_bit(masked, j));
                }
            }
            self.lemma_clear_in_word(first as int, b, low);
        }
        if low < WORD_BITS {
            proof {
                assert(word_bit(masked, low));
                self.lemma_member(first as int, low);
            }
            return first * WORD_BITS + low;
        }
        let count: usize = self.words();
        let mut w: usize = first + 1;
        proof {
            lemma_next_word(first as int);
        }
        while w < count
            invariant
                first < w <= count,
                clear_between(self@, bit as nat, (w * WORD_BITS) as nat),
            decreases count - w,
        {
            let low: usize = lowest_set(self.get_word(w));
            proof {
                self.lemma_clear_in_word(w as int, 0, low);
                lemma_next_word(w as int);
            }
            if low < WORD_BITS {
                proof {
                    self.lemma_member(w as int, low);
                    lemma_words_apart(first as int, w as int);
                }
                return w * WORD_BITS + low;
            }
            w = w + 1;
        }
        NONE
    }

    /// Gets the first true bit before `bit`, or [`NONE`] when there is none.
    #[verifier::loop_isolation(false)]
    pub fn prev_set_bit(&self, bit: usize) -> (found: usize)
        ensures
            found != NONE ==> is_prev(self@, bit as nat, found as nat),
            found == NONE ==> clear_between(self@, 0, bit as nat),
            bit == 0 ==> found == NONE,
    {
        proof {
            use_type_invariant(self);
            self.lemma_layout();
        }
        if bit == 0 {
            return NONE;
        }
        // No bit at or beyond the capacity is true, so the search starts
        // below the capacity at the latest.
        let capacity: usize = self.capacity();
        let limit: usize = if bit < capacity {
            bit
        } else {
            capacity
        };
        proof {
            lemma_position(limit as nat);
        }
        let count: usize = self.words();
        let first: usize = limit / WORD_BITS;
        let b: usize = limit % WORD_BITS;
        if first < count {
            // The word that holds `limit`: only its bits below `limit` count.
            let masked: usize = keep_below(self.get_word(first), b);
            let high: usize = highest_set(masked);
            let ghost from: usize = if high < WORD_BITS {
                (high + 1) as usize
            } else {
                0
            };
            proof {
                assert(high < WORD_BITS ==> word_bit(masked, high));
                assert(word_clear_between(self.word_seq()[first as int], from, b)) by {
                    assert forall|j: usize| from <= j < b implies !word_bit(
                        self.word_seq()[first as int],
                        j,
                    ) by {
                        assert(!word_bit(masked, j));
                    }
                }
                self.lemma_clear_in_word(first as int, from, b);
            }
            if high < WORD_BITS {
                proof {
                    self.lemma_member(first as int, high);
                }
                return first * WORD_BITS + high;
            }
        }
        let mut w: usize = first;
        while w > 0
            invariant
                w <= first <= count,
                clear_between(self@, (w * WORD_BITS) as nat, limit as nat),
            decreases w,
        {
            w = w - 1;
            let high: usize = highest_set(self.get_word(w));
            let ghost from: usize = if high < WORD_BITS {
                (high + 1) as usize
            } else {
                0
            };
            proof {
                self.lemma_clear_in_word(w as int, from, WORD_BITS);
                lemma_next_word(w as int);
                lemma_words_apart(w as int, first as int + 1);
                lemma_next_word(first as int);
            }
            if high < WORD_BITS {
                proof {
                    self.lemma_member(w as int, high);
                }
                return w * WORD_BITS + high;
            }
        }
        NONE
    }

    /// Where word `word` has no set bit at an offset in `[lo, hi)`, the set
    /// has no true bit among the indices that those offsets stand for.
    proof fn lemma_clear_in_word(&self, word: int, lo: usize, hi: usize)
        requires
            0 <= word,
            hi <= WORD_BITS,
            word_clear_between(self.word_seq()[word], lo, hi),
        ensures
            clear_between(self@, (word * WORD_BITS + lo) as nat, (word * WORD_BITS + hi) as nat),
    {
        assert forall|x: nat|
            word * WORD_BITS + lo <= x < word * WORD_BITS + hi implies !self@.contains(x) by {
            lemma_position(x);
            let k = word_of(x);
            if k < word {
                lemma_words_apart(k, word);
            }
            if k > word {
                lemma_words_apart(word, k);
            }
        }
    }
}

} // verus!
