//! What holds of a bit set across its operations, stated over the model that
//! the contracts of the operations use.

use crate::bitset::IttyBitty;
use crate::model::{
    lemma_ascending_lists, lemma_descending_reverses, set_bit, strictly_ascending,
    strictly_descending, truncated,
};
use vstd::prelude::*;

verus! {

/// A bit that has been set to true reads as true, and reads as false once it
/// has been set to false after that. Setting a bit changes no other bit.
pub proof fn law_set_round_trip(bits: Set<nat>, bit: nat)
    ensures
        set_bit(bits, bit, true).contains(bit),
        !set_bit(set_bit(bits, bit, true), bit, false).contains(bit),
        forall|other: nat, value: bool|
            other != bit ==> #[trigger] set_bit(bits, bit, value).contains(other) == bits.contains(
                other,
            ),
{
}

/// After a truncation at `bit`, every index at or above `bit` reads as false,
/// and every index below `bit` reads as it did before.
pub proof fn law_truncate(bits: Set<nat>, bit: nat)
    ensures
        forall|b: nat| b >= bit ==> !#[trigger] truncated(bits, bit).contains(b),
        forall|b: nat| b < bit ==> #[trigger] truncated(bits, bit).contains(b) == bits.contains(b),
{
}

/// Every bit at or beyond the capacity reads as false.
pub proof fn law_false_beyond_capacity<const N: usize>(s: IttyBitty<N>)
    ensures
        forall|b: nat| b >= s.spec_capacity() ==> !s@.contains(b),
{
}

/// The sequence that the forward and the owning iterator yield holds exactly
/// the true bits of the set, each once, in strictly ascending order.
pub proof fn law_ascending_yields_true_bits<const N: usize>(s: IttyBitty<N>)
    ensures
        forall|b: nat| s.ascending().contains(b) <==> s@.contains(b),
        strictly_ascending(s.ascending()),
{
    lemma_ascending_lists(s@, 0, s.spec_capacity());
}

/// The sequence that the reverse iterator yields holds exactly the true bits
/// of the set, each once, in strictly descending order.
pub proof fn law_descending_yields_true_bits<const N: usize>(s: IttyBitty<N>)
    ensures
        forall|b: nat| s.descending().contains(b) <==> s@.contains(b),
        strictly_descending(s.descending()),
{
    let up = s.ascending();
    let down = s.descending();
    lemma_ascending_lists(s@, 0, s.spec_capacity());
    lemma_descending_reverses(s@, 0, s.spec_capacity());
    assert forall|b: nat| down.contains(b) <==> s@.contains(b) by {
        if down.contains(b) {
            let i = choose|i: int| 0 <= i < down.len() && down[i] == b;
            assert(up[up.len() - 1 - i] == b);
            assert(up.contains(b));
        }
        if s@.contains(b) {
            assert(up.contains(b));
            let i = choose|i: int| 0 <= i < up.len() && up[i] == b;
            assert(down[up.len() - 1 - i] == b);
        }
    }
    assert forall|i: int, j: int| 0 <= i < j < down.len() implies down[i] > down[j] by {
        assert(down[i] == up[up.len() - 1 - i]);
        assert(down[j] == up[up.len() - 1 - j]);
    }
}

/// The reverse iterator yields what the forward iterator yields, in the
/// opposite order.
pub proof fn law_descending_reverses_ascending<const N: usize>(s: IttyBitty<N>)
    ensures
        s.descending() == s.ascending().reverse(),
{
    lemma_descending_reverses(s@, 0, s.spec_capacity());
}

} // verus!
