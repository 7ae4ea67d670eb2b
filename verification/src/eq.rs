//! Equality of bit sets: two sets are equal when the same bits are true,
//! whatever storage each of them uses.

use crate::bitset::IttyBitty;
use crate::layout::{
    lemma_next_word, lemma_position, lemma_position_of, lemma_words_apart, offset_of, word_of,
};
use crate::word::{lemma_word_extensional, lemma_zero_word, word_bit, WORD_BITS};
use vstd::prelude::*;
use vstd::std_specs::cmp::{PartialEqSpec, PartialEqSpecImpl};

verus! {

impl<const N: usize> IttyBitty<N> {
    /// Word `word` of the set, with zero standing for every word beyond those
    /// that the set holds.
    pub open spec fn padded_word(&self, word: int) -> usize {
        if 0 <= word < self.word_seq().len() {
            self.word_seq()[word]
        } else {
            0
        }
    }

    /// Reads word `word`, or zero where the set holds no such word.
    fn get_word_or_zero(&self, word: usize) -> (value: usize)
        ensures
            value == self.padded_word(word as int),
    {
        if word < self.words() {
            self.get_word(word)
        } else {
            0
        }
    }

    /// A bit is true in the set exactly when it is set in its padded word.
    proof fn lemma_padded(&self, bit: nat)
        requires
            self.well_formed(),
        ensures
            self@.contains(bit) == word_bit(self.padded_word(word_of(bit)), offset_of(bit)),
    {
        self.lemma_layout();
        lemma_position(bit);
        lemma_zero_word(0);
        let k = word_of(bit);
        if 0 <= k < self.word_seq().len() {
            if word_bit(self.word_seq()[k], offset_of(bit)) {
                self.lemma_member(k, offset_of(bit));
            }
        } else {
            lemma_words_apart(self.word_seq().len() - 1, k);
            lemma_next_word(self.word_seq().len() - 1);
        }
    }
}

impl<const N: usize> PartialEq for IttyBitty<N> {
    /// Compares the two sets word by word, up to the longer of the two; a set
    /// with fewer words counts as having zero words beyond its own.
    fn eq(&self, other: &Self) -> (equal: bool) {
        let words_a: usize = self.words();
        let words_b: usize = other.words();
        let count: usize = if words_a > words_b {
            words_a
        } else {
            words_b
        };
        proof {
            use_type_invariant(self);
            use_type_invariant(other);
        }
        let mut w: usize = 0;
        while w < count
            invariant
                w <= count,
                count >= self.word_seq().len(),
                count >= other.word_seq().len(),
                self.well_formed(),
                other.well_formed(),
                forall|k: int| 0 <= k < w ==> self.padded_word(k) == other.padded_word(k),
            decreases count - w,
        {
            let a: usize = self.get_word_or_zero(w);
            let b: usize = other.get_word_or_zero(w);
            if a != b {
                proof {
                    if forall|j: usize| j < WORD_BITS ==> word_bit(a, j) == word_bit(b, j) {
                        lemma_word_extensional(a, b);
                    }
                    let j = choose|j: usize| j < WORD_BITS && word_bit(a, j) != word_bit(b, j);
                    let bit = (w * WORD_BITS + j) as nat;
                    lemma_position_of(w as nat, j as nat);
                    self.lemma_padded(bit);
                    other.lemma_padded(bit);
                    assert(self@.contains(bit) != other@.contains(bit));
                }
                return false;
            }
            w = w + 1;
        }
        proof {
            assert forall|bit: nat| self@.contains(bit) == other@.contains(bit) by {
                self.lemma_padded(bit);
                other.lemma_padded(bit);
                lemma_position(bit);
            }
            assert(self@ =~= other@);
        }
        true
    }
}

impl<const N: usize> PartialEqSpecImpl for IttyBitty<N> {
    open spec fn obeys_eq_spec() -> bool {
        true
    }

    /// Two sets are equal when the same bits are true in both.
    open spec fn eq_spec(&self, other: &Self) -> bool {
        self@ == other@
    }
}

impl<const N: usize> Eq for IttyBitty<N> {

}

/// A spilled set and an inline set in which the same bits are true compare
/// equal, in either order.
pub proof fn law_equal_across_storage<const N: usize>(a: IttyBitty<N>, b: IttyBitty<N>)
    requires
        a.is_spilled(),
        !b.is_spilled(),
        a@ == b@,
    ensures
        PartialEqSpec::eq_spec(&a, &b),
        PartialEqSpec::eq_spec(&b, &a),
{
}

} // verus!
