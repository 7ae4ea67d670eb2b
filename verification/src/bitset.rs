//! The bit set itself: storage, capacity, and access to single bits.

use crate::buffer::{fill_allocation, zero_words};
use crate::layout::{
    lemma_max_bits, lemma_next_word, lemma_position, lemma_position_of, lemma_words_apart,
    offset_of, word_of, MAX_BITS, MAX_WORDS,
};
use crate::model::{set_bit, truncated};
use crate::word::{
    keep_below, lemma_zero_word, test_bit, with_bit, word_bit, word_clear_between, WORD_BITS,
};
use vstd::prelude::*;
use vstd::slice::slice_to_vec;

verus! {

/// A memory-access optimized dynamically sized bit set.
///
/// The first `N * WORD_BITS - 1` bits live in an array inside the value. Once a
/// bit beyond them is set, all bits move to a heap buffer that only grows.
pub struct IttyBitty<const N: usize> {
    /// The words of a set that has not spilled. The top bit of the last word
    /// is reserved and stays clear.
    inline: [usize; N],
    /// The words of a set that has spilled; empty before that.
    heap: Vec<usize>,
    /// Whether the bits live in `heap`.
    spilled: bool,
}

impl<const N: usize> View for IttyBitty<N> {
    type V = Set<nat>;

    /// The indices of the bits that are true.
    open spec fn view(&self) -> Set<nat> {
        Set::new(|bit: nat| self.holds(bit))
    }
}

impl<const N: usize> IttyBitty<N> {
    /// Whether a bit set with `N` inline words can exist: `N` is at least 2,
    /// and the bits of one word more than the inline array can still be
    /// numbered by a `usize`.
    pub open spec fn supported() -> bool {
        2 <= N < MAX_WORDS
    }

    /// The number of bits that fit in the inline array: all but the top bit
    /// of its last word.
    pub open spec fn inline_capacity() -> nat {
        (N * WORD_BITS - 1) as nat
    }

    /// The number of words needed to hold `bits` bits.
    pub open spec fn spec_words_needed(bits: nat) -> nat {
        ((bits + WORD_BITS - 1) / WORD_BITS as int) as nat
    }

    /// The number of words that a set of `current` words grows to when it has
    /// to hold `bits` bits: what the bits need, and at least one word more
    /// than before.
    pub open spec fn grown_words(bits: nat, current: nat) -> nat {
        if Self::spec_words_needed(bits) > current + 1 {
            Self::spec_words_needed(bits)
        } else {
            current + 1
        }
    }

    /// Whether the bits live in the heap buffer.
    pub closed spec fn is_spilled(&self) -> bool {
        self.spilled
    }

    /// The words that currently hold the bits, lowest indices first.
    pub closed spec fn word_seq(&self) -> Seq<usize> {
        if self.spilled {
            self.heap@
        } else {
            self.inline@
        }
    }

    /// The number of bit indices that can be stored without growing.
    pub open spec fn spec_capacity(&self) -> nat {
        if self.is_spilled() {
            self.word_seq().len() * WORD_BITS as nat
        } else {
            Self::inline_capacity()
        }
    }

    /// Whether bit `bit` is true: it is below the capacity and set in its word.
    pub open spec fn holds(&self, bit: nat) -> bool {
        bit < self.spec_capacity() && word_bit(self.word_seq()[word_of(bit)], offset_of(bit))
    }

    /// What every value of this type satisfies.
    #[verifier::type_invariant]
    pub closed spec fn well_formed(&self) -> bool {
        &&& Self::supported()
        &&& self.spilled ==> N <= self.heap.len() <= MAX_WORDS
        &&& !self.spilled ==> !word_bit(self.inline[N - 1], (WORD_BITS - 1) as usize)
    }

    /// The bits of the inline array, and of one word more, can be numbered by
    /// a `usize`.
    pub proof fn lemma_inline_bits()
        requires
            Self::supported(),
        ensures
            2 * WORD_BITS <= N * WORD_BITS <= MAX_BITS - WORD_BITS,
    {
        lemma_max_bits();
        lemma_words_apart(1, N as int);
        lemma_words_apart(N as int, MAX_WORDS as int);
    }

    /// In a well-formed set the words cover exactly the capacity, up to the
    /// one reserved bit of the inline array, which is never set.
    pub proof fn lemma_layout(&self)
        requires
            self.well_formed(),
        ensures
            Self::supported(),
            N <= self.word_seq().len() <= MAX_WORDS,
            !self.is_spilled() ==> self.word_seq().len() == N && !word_bit(
                self.word_seq()[N - 1],
                (WORD_BITS - 1) as usize,
            ),
            0 < self.spec_capacity() <= MAX_BITS,
            forall|bit: nat| bit < self.spec_capacity() ==> word_of(bit) < self.word_seq().len(),
    {
        let len = self.word_seq().len() as int;
        lemma_max_bits();
        Self::lemma_inline_bits();
        if N < len {
            lemma_words_apart(N as int, len);
        }
        if len < MAX_WORDS {
            lemma_words_apart(len, MAX_WORDS as int);
        }
        assert(N * WORD_BITS <= len * WORD_BITS <= MAX_BITS);
        assert forall|bit: nat| bit < self.spec_capacity() implies word_of(bit)
            < self.word_seq().len() by {
            lemma_position(bit);
            if word_of(bit) > len {
                lemma_words_apart(len, word_of(bit));
            }
        }
    }

    /// Create an empty inline `IttyBitty`.
    pub fn new() -> (s: Self)
        requires
            Self::supported(),
        ensures
            s@ == Set::<nat>::empty(),
            !s.is_spilled(),
    {
        let inline = [0usize; N];
        proof {
            lemma_zero_word(0);
        }
        let s = Self { inline, heap: Vec::new(), spilled: false };
        assert(s@ =~= Set::<nat>::empty());
        s
    }

    /// Whether the bits live in the heap buffer.
    pub fn spilled(&self) -> (yes: bool)
        ensures
            yes == self.is_spilled(),
    {
        self.spilled
    }

    /// The number of words that currently hold the bits.
    pub fn words(&self) -> (count: usize)
        ensures
            count == self.word_seq().len(),
            N <= count <= MAX_WORDS,
    {
        proof {
            use_type_invariant(self);
        }
        if self.spilled {
            self.heap.len()
        } else {
            N
        }
    }

    /// Get the current capacity of the `IttyBitty`.
    pub fn capacity(&self) -> (bits: usize)
        ensures
            bits == self.spec_capacity(),
            0 < bits <= MAX_BITS,
    {
        proof {
            use_type_invariant(self);
            self.lemma_layout();
        }
        if self.spilled {
            self.heap.len() * WORD_BITS
        } else {
            N * WORD_BITS - 1
        }
    }

    /// Reads word `word` of the current storage.
    pub(crate) fn get_word(&self, word: usize) -> (value: usize)
        requires
            word < self.word_seq().len(),
        ensures
            value == self.word_seq()[word as int],
    {
        if self.spilled {
            self.heap[word]
        } else {
            self.inline[word]
        }
    }

    /// Replaces word `word` of the current storage. The reserved top bit of
    /// the inline array stays clear.
    fn set_word(&mut self, word: usize, value: usize)
        requires
            word < old(self).word_seq().len(),
            !old(self).is_spilled() && word == N - 1 ==> !word_bit(
                value,
                (WORD_BITS - 1) as usize,
            ),
        ensures
            final(self).word_seq() == old(self).word_seq().update(word as int, value),
            final(self).is_spilled() == old(self).is_spilled(),
    {
        proof {
            use_type_invariant(&*self);
        }
        if self.spilled {
            self.heap[word] = value;
        } else {
            self.inline[word] = value;
        }
    }

    /// Get the bit at `bit`, which must be below the capacity.
    pub fn get_unchecked(&self, bit: usize) -> (value: bool)
        requires
            bit < self.spec_capacity(),
        ensures
            value == self@.contains(bit as nat),
    {
        proof {
            use_type_invariant(self);
            self.lemma_layout();
        }
        let w: usize = bit / WORD_BITS;
        let b: usize = bit % WORD_BITS;
        test_bit(self.get_word(w), b)
    }

    /// Set the bit at `bit`, which must be below the capacity, to `val`.
    pub fn set_unchecked(&mut self, bit: usize, val: bool)
        requires
            bit < old(self).spec_capacity(),
        ensures
            final(self)@ == set_bit(old(self)@, bit as nat, val),
            final(self).spec_capacity() == old(self).spec_capacity(),
            final(self).is_spilled() == old(self).is_spilled(),
    {
        proof {
            use_type_invariant(&*self);
            self.lemma_layout();
            lemma_position(bit as nat);
        }
        let w: usize = bit / WORD_BITS;
        let b: usize = bit % WORD_BITS;
        let word: usize = with_bit(self.get_word(w), b, val);
        proof {
            if !self.spilled && w == N - 1 {
                // The last inline index is below the reserved bit, which
                // therefore keeps its value.
                lemma_next_word(N - 1);
                assert(b < WORD_BITS - 1);
                assert(word_bit(word, (WORD_BITS - 1) as usize) == word_bit(
                    self.word_seq()[w as int],
                    (WORD_BITS - 1) as usize,
                ));
            }
        }
        self.set_word(w, word);
        proof {
            assert forall|other: nat|
                self.holds(other) == set_bit(old(self)@, bit as nat, val).contains(other) by {
                lemma_position(other);
            }
        }
    }

    /// Get the bit at `bit`. Returns false if beyond capacity.
    pub fn get(&self, bit: usize) -> (value: bool)
        ensures
            value == self@.contains(bit as nat),
    {
        if bit < self.capacity() {
            self.get_unchecked(bit)
        } else {
            false
        }
    }

    /// Set all bits to false.
    pub fn clear(&mut self)
        ensures
            final(self)@ == Set::<nat>::empty(),
            final(self).spec_capacity() == old(self).spec_capacity(),
            final(self).is_spilled() == old(self).is_spilled(),
    {
        let count: usize = self.words();
        let mut w: usize = 0;
        proof {
            lemma_zero_word(0);
        }
        while w < count
            invariant
                w <= count,
                count == self.word_seq().len(),
                self.is_spilled() == old(self).is_spilled(),
                self.spec_capacity() == old(self).spec_capacity(),
                word_clear_between(0usize, 0, WORD_BITS),
                forall|k: int| 0 <= k < w ==> self.word_seq()[k] == 0,
            decreases count - w,
        {
            self.set_word(w, 0);
            w = w + 1;
        }
        proof {
            use_type_invariant(&*self);
            self.lemma_layout();
            assert(self@ =~= Set::<nat>::empty());
        }
    }

    /// Set `bit` and all bits beyond it to false.
    pub fn truncate(&mut self, bit: usize)
        ensures
            final(self)@ == truncated(old(self)@, bit as nat),
            final(self).spec_capacity() == old(self).spec_capacity(),
            final(self).is_spilled() == old(self).is_spilled(),
            bit >= old(self).spec_capacity() ==> *final(self) == *old(self),
    {
        proof {
            use_type_invariant(&*self);
            self.lemma_layout();
            lemma_position(bit as nat);
            lemma_zero_word(0);
        }
        if bit < self.capacity() {
            let first: usize = bit / WORD_BITS;
            let b: usize = bit % WORD_BITS;
            let kept: usize = keep_below(self.get_word(first), b);
            self.set_word(first, kept);
            let count: usize = self.words();
            let mut w: usize = first + 1;
            while w < count
                invariant
                    first < w <= count,
                    count == self.word_seq().len(),
                    count == old(self).word_seq().len(),
                    self.is_spilled() == old(self).is_spilled(),
                    self.spec_capacity() == old(self).spec_capacity(),
                    word_clear_between(0usize, 0, WORD_BITS),
                    forall|k: int|
                        0 <= k < first ==> self.word_seq()[k] == old(self).word_seq()[k],
                    self.word_seq()[first as int] == kept,
                    forall|k: int| first < k < w ==> self.word_seq()[k] == 0,
                decreases count - w,
            {
                self.set_word(w, 0);
                w = w + 1;
            }
            proof {
                assert forall|other: nat| self.holds(other) == truncated(
                    old(self)@,
                    bit as nat,
                ).contains(other) by {
                    lemma_position(other);
                    let k = word_of(other);
                    if k < first {
                        lemma_words_apart(k, first as int);
                    } else if k > first {
                        lemma_words_apart(first as int, k);
                    }
                }
            }
        } else {
            assert(self@ =~= truncated(old(self)@, bit as nat));
        }
    }

    /// The number of words needed to hold `bits` bits: `bits` divided by the
    /// word width, rounded up.
    pub fn words_needed(bits: usize) -> (count: usize)
        requires
            bits <= MAX_BITS,
        ensures
            count == Self::spec_words_needed(bits as nat),
            count <= MAX_WORDS,
            bits <= count * WORD_BITS < bits + WORD_BITS,
    {
        proof {
            lemma_max_bits();
        }
        (bits + (WORD_BITS - 1)) / WORD_BITS
    }

    /// Makes a spilled set out of `buffer`, whose words become the first words
    /// of the set. The set takes the whole allocation of `buffer` into use,
    /// so it may hold more words than `buffer` did; the added words are zero.
    fn from_vec(buffer: Vec<usize>) -> (s: Self)
        requires
            Self::supported(),
            N <= buffer@.len() <= MAX_WORDS,
        ensures
            s.is_spilled(),
            buffer@.len() <= s.word_seq().len() <= MAX_WORDS,
            s.word_seq() == buffer@ + zero_words((s.word_seq().len() - buffer@.len()) as nat),
    {
        let mut heap = buffer;
        fill_allocation(&mut heap);
        Self { inline: [0usize; N], heap, spilled: true }
    }

    /// Create an empty `IttyBitty` with enough capacity to hold `bits`. It is
    /// inline when the inline capacity is enough, and spilled otherwise.
    pub fn with_capacity(bits: usize) -> (s: Self)
        requires
            Self::supported(),
            bits <= MAX_BITS,
        ensures
            s@ == Set::<nat>::empty(),
            s.spec_capacity() >= bits,
            s.is_spilled() == (bits > Self::inline_capacity()),
    {
        proof {
            Self::lemma_inline_bits();
        }
        if bits <= N * WORD_BITS - 1 {
            return Self::new();
        }
        let count: usize = Self::words_needed(bits);
        let mut buffer: Vec<usize> = Vec::with_capacity(count);
        buffer.resize(count, 0);
        proof {
            if count < N {
                lemma_words_apart(count as int, N as int);
            }
        }
        let s = Self::from_vec(buffer);
        proof {
            lemma_zero_word(0);
            if count < s.word_seq().len() {
                lemma_words_apart(count as int, s.word_seq().len() as int);
            }
            assert(s@ =~= Set::<nat>::empty());
        }
        s
    }

    /// Makes room for `bits` bits. Nothing happens when the capacity is
    /// already enough. Otherwise the words move to a heap buffer of
    /// [`Self::grown_words`] words or more, as many as the allocator handed
    /// out, and the bits stay what they were.
    fn reallocate(&mut self, bits: usize)
        requires
            bits <= MAX_BITS,
        ensures
            final(self)@ == old(self)@,
            final(self).spec_capacity() >= bits,
            final(self).spec_capacity() >= old(self).spec_capacity(),
            bits <= old(self).spec_capacity() ==> *final(self) == *old(self),
            bits > old(self).spec_capacity() ==> final(self).is_spilled(),
            bits > old(self).spec_capacity() ==> final(self).word_seq().len() >= Self::grown_words(
                bits as nat,
                old(self).word_seq().len(),
            ),
    {
        if bits <= self.capacity() {
            return ;
        }
        proof {
            use_type_invariant(&*self);
            self.lemma_layout();
            lemma_max_bits();
        }
        let current: usize = self.words();
        let needed: usize = Self::words_needed(bits);
        // A set that is asked to grow has room for one word more.
        assert(current < MAX_WORDS);
        let target: usize = if needed > current + 1 {
            needed
        } else {
            current + 1
        };
        let mut taken = Self::new();
        core::mem::swap(self, &mut taken);
        let mut buffer: Vec<usize> = if taken.spilled {
            taken.heap
        } else {
            slice_to_vec(taken.inline.as_slice())
        };
        buffer.resize(target, 0);
        *self = Self::from_vec(buffer);
        proof {
            let before = old(self).word_seq();
            let after = self.word_seq();
            lemma_zero_word(0);
            lemma_words_apart(current as int, after.len() as int);
            if needed < after.len() {
                lemma_words_apart(needed as int, after.len() as int);
            }
            // The old words are the first words of the new buffer; the rest
            // of it is zero.
            assert forall|k: int| 0 <= k < after.len() implies after[k] == if k < current {
                before[k]
            } else {
                0usize
            } by {
                if k < current {
                    assert(buffer@[k] == buffer@.subrange(0, current as int)[k]);
                }
            }
            assert forall|bit: nat| self.holds(bit) == old(self).holds(bit) by {
                lemma_position(bit);
                let k = word_of(bit);
                if k >= after.len() {
                    lemma_words_apart(after.len() - 1, k);
                    lemma_next_word(after.len() - 1);
                }
                if k < current {
                    lemma_words_apart(k, current as int);
                }
            }
        }
    }

    /// Set the bit at `bit` to `value`.
    /// Extends capacity as needed if `value` is `true`, no-op if `false` and beyond bounds.
    pub fn set(&mut self, bit: usize, value: bool)
        requires
            value && bit >= old(self).spec_capacity() ==> bit < MAX_BITS,
        ensures
            final(self)@ == set_bit(old(self)@, bit as nat, value),
            final(self).spec_capacity() >= old(self).spec_capacity(),
            value ==> bit < final(self).spec_capacity(),
            bit < old(self).spec_capacity() ==> final(self).spec_capacity()
                == old(self).spec_capacity(),
            bit < old(self).spec_capacity() ==> final(self).is_spilled() == old(self).is_spilled(),
            bit >= old(self).spec_capacity() && !value ==> *final(self) == *old(self),
            bit >= old(self).spec_capacity() && value ==> final(self).is_spilled(),
            bit >= old(self).spec_capacity() && value ==> final(self).word_seq().len()
                >= Self::grown_words((bit + 1) as nat, old(self).word_seq().len()),
    {
        if bit >= self.capacity() {
            if !value {
                assert(self@ =~= set_bit(self@, bit as nat, value));
                return ;
            }
            self.reallocate(bit + 1);
        }
        self.set_unchecked(bit, value);
    }

    /// A bit that is set in word `word` at offset `off` is a true bit of the
    /// set: it lies below the capacity.
    pub proof fn lemma_member(&self, word: int, off: usize)
        requires
            self.well_formed(),
            0 <= word < self.word_seq().len(),
            word_bit(self.word_seq()[word], off),
        ensures
            self@.contains((word * WORD_BITS + off) as nat),
            word * WORD_BITS + off < self.spec_capacity(),
    {
        self.lemma_layout();
        lemma_max_bits();
        lemma_position_of(word as nat, off as nat);
        let len = self.word_seq().len() as int;
        lemma_words_apart(word, len);
        if !self.is_spilled() && word < N - 1 {
            lemma_words_apart(word, N - 1);
            lemma_next_word(N - 1);
        }
    }
}

} // verus!
