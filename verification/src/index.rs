//! Reading a bit with the index operator.

use crate::bitset::IttyBitty;
use vstd::prelude::*;

verus! {

impl<const N: usize> core::ops::Index<usize> for IttyBitty<N> {
    type Output = bool;

    /// The value of bit `bit`, as [`IttyBitty::get`] gives it.
    fn index(&self, bit: usize) -> (value: &bool)
        ensures
            *value == self@.contains(bit as nat),
    {
        if self.get(bit) {
            &true
        } else {
            &false
        }
    }
}

impl<const N: usize> vstd::std_specs::core::IndexSpecImpl<usize> for IttyBitty<N> {
    /// Every index can be read: one beyond the capacity reads as false.
    open spec fn index_req(&self, index: &usize) -> bool {
        true
    }
}

} // verus!
