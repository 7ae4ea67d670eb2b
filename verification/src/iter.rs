//! Walks over the true bits of a set: upwards, downwards, and upwards while
//! owning the set.

use crate::bitset::IttyBitty;
use crate::model::{
    as_indices, ascending, descending, lemma_ascending_empty, lemma_ascending_first,
    lemma_ascending_none, lemma_descending_first, lemma_descending_none,
};
use crate::scan::NONE;
use vstd::prelude::*;

verus! {

/// IttyBitty reference iterator
pub struct Iter<'a, const N: usize> {
    v: &'a IttyBitty<N>,
    i: usize,
}

/// IttyBitty reverse iterator
pub struct IterRev<'a, const N: usize> {
    v: &'a IttyBitty<N>,
    i: usize,
}

/// IttyBitty owned iterator
pub struct IntoIter<const N: usize> {
    v: IttyBitty<N>,
    i: usize,
}

impl<const N: usize> IttyBitty<N> {
    /// The true bits of the set, lowest first.
    pub open spec fn ascending(&self) -> Seq<nat> {
        ascending(self@, 0, self.spec_capacity())
    }

    /// The true bits of the set, highest first.
    pub open spec fn descending(&self) -> Seq<nat> {
        descending(self@, 0, self.spec_capacity())
    }

    /// Iterate over true bits.
    pub fn iter(&self) -> (it: Iter<'_, N>)
        ensures
            it.remaining() == self.ascending(),
    {
        Iter { v: self, i: 0 }
    }

    /// Iterate over true bits backwards.
    pub fn iter_rev(&self) -> (it: IterRev<'_, N>)
        ensures
            it.remaining() == self.descending(),
    {
        let i: usize = self.capacity();
        IterRev { v: self, i }
    }

    /// The true bits of the set, lowest first: what [`Self::iter`] yields
    /// from its first item to its last.
    pub fn to_vec(&self) -> (bits: Vec<usize>)
        ensures
            as_indices(bits@) == self.ascending(),
    {
        let mut bits: Vec<usize> = Vec::new();
        let mut it = self.iter();
        let mut item: Option<usize> = it.next();
        assert(as_indices(bits@) =~= Seq::<nat>::empty());
        while item.is_some()
            invariant
                match item {
                    Some(bit) => as_indices(bits@).push(bit as nat) + it.remaining()
                        == self.ascending(),
                    None => as_indices(bits@) == self.ascending(),
                },
            decreases it.remaining().len() + if item.is_some() {
                1nat
            } else {
                0nat
            },
        {
            let bit: usize = item.unwrap();
            let ghost before = as_indices(bits@);
            let ghost rest = it.remaining();
            bits.push(bit);
            item = it.next();
            proof {
                assert(as_indices(bits@) =~= before.push(bit as nat));
                match item {
                    Some(next) => {
                        assert(rest =~= seq![next as nat] + it.remaining());
                        assert(before.push(bit as nat).push(next as nat) + it.remaining()
                            =~= before.push(bit as nat) + rest);
                    },
                    None => {
                        assert(before.push(bit as nat) + rest =~= before.push(bit as nat));
                    },
                }
            }
        }
        bits
    }

    /// Iterate over true bits, giving the set to the iterator.
    pub fn into_iter(self) -> (it: IntoIter<N>)
        ensures
            it.remaining() == self.ascending(),
    {
        IntoIter { v: self, i: 0 }
    }
}

impl<'a, const N: usize> Iter<'a, N> {
    /// What the iterator has yet to yield, in the order in which it will.
    pub closed spec fn remaining(&self) -> Seq<nat> {
        ascending(self.v@, self.i as nat, self.v.spec_capacity())
    }

    /// Yields the next true bit, or `None` once all have been yielded.
    pub fn next(&mut self) -> (item: Option<usize>)
        ensures
            (match item {
                Some(bit) => old(self).remaining().len() > 0 && bit == old(self).remaining()[0]
                    && final(self).remaining() == old(self).remaining().drop_first(),
                None => old(self).remaining().len() == 0 && final(self).remaining().len() == 0,
            }),
    {
        let ghost bits = self.v@;
        let ghost cap = self.v.spec_capacity();
        let ghost from = self.i as nat;
        proof {
            use_type_invariant(self.v);
            self.v.lemma_layout();
        }
        self.i = self.v.next_set_bit(self.i);
        if self.i == NONE {
            proof {
                lemma_ascending_none(bits, from, cap);
                lemma_ascending_empty(bits, NONE as nat, cap);
            }
            return None;
        }
        let i: usize = self.i;
        proof {
            lemma_ascending_first(bits, from, i as nat, cap);
            assert((seq![i as nat] + ascending(bits, (i + 1) as nat, cap)).drop_first()
                =~= ascending(bits, (i + 1) as nat, cap));
        }
        self.i = self.i + 1;
        Some(i)
    }
}

impl<'a, const N: usize> IterRev<'a, N> {
    /// What the iterator has yet to yield, in the order in which it will.
    pub closed spec fn remaining(&self) -> Seq<nat> {
        if self.i == NONE {
            Seq::empty()
        } else {
            descending(self.v@, 0, self.i as nat)
        }
    }

    /// Yields the next lower true bit, or `None` once all have been yielded.
    pub fn next(&mut self) -> (item: Option<usize>)
        ensures
            (match item {
                Some(bit) => old(self).remaining().len() > 0 && bit == old(self).remaining()[0]
                    && final(self).remaining() == old(self).remaining().drop_first(),
                None => old(self).remaining().len() == 0 && final(self).remaining().len() == 0,
            }),
    {
        if self.i == NONE {
            return None;
        }
        let ghost bits = self.v@;
        let ghost limit = self.i as nat;
        self.i = self.v.prev_set_bit(self.i);
        if self.i == NONE {
            proof {
                lemma_descending_none(bits, 0, limit);
            }
            return None;
        }
        proof {
            let found = self.i as nat;
            lemma_descending_first(bits, 0, found, limit);
            assert((seq![found] + descending(bits, 0, found)).drop_first() =~= descending(
                bits,
                0,
                found,
            ));
        }
        Some(self.i)
    }
}

impl<const N: usize> IntoIter<N> {
    /// What the iterator has yet to yield, in the order in which it will.
    pub closed spec fn remaining(&self) -> Seq<nat> {
        ascending(self.v@, self.i as nat, self.v.spec_capacity())
    }

    /// Yields the next true bit, or `None` once all have been yielded.
    pub fn next(&mut self) -> (item: Option<usize>)
        ensures
            (match item {
                Some(bit) => old(self).remaining().len() > 0 && bit == old(self).remaining()[0]
                    && final(self).remaining() == old(self).remaining().drop_first(),
                None => old(self).remaining().len() == 0 && final(self).remaining().len() == 0,
            }),
    {
        let ghost bits = self.v@;
        let ghost cap = self.v.spec_capacity();
        let ghost from = self.i as nat;
        proof {
            use_type_invariant(&self.v);
            self.v.lemma_layout();
        }
        let i: usize = self.v.next_set_bit(self.i);
        self.i = i;
        if i == NONE {
            proof {
                lemma_ascending_none(bits, from, cap);
                lemma_ascending_empty(bits, NONE as nat, cap);
            }
            return None;
        }
        proof {
            lemma_ascending_first(bits, from, i as nat, cap);
            assert((seq![i as nat] + ascending(bits, (i + 1) as nat, cap)).drop_first()
                =~= ascending(bits, (i + 1) as nat, cap));
        }
        self.i = i + 1;
        Some(i)
    }
}

} // verus!
