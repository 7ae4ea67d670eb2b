//! The mathematical model of a bit set: the set of the indices whose bit is
//! true, and what each operation does to that set.

use vstd::prelude::*;

verus! {

/// The bits after bit `bit` of `bits` has been given the value `value`.
pub open spec fn set_bit(bits: Set<nat>, bit: nat, value: bool) -> Set<nat> {
    if value {
        bits.insert(bit)
    } else {
        bits.remove(bit)
    }
}

/// The bits of `bits` below index `bit`: what is left when `bit` and every
/// higher index are made false.
pub open spec fn truncated(bits: Set<nat>, bit: nat) -> Set<nat> {
    Set::new(|b: nat| b < bit && bits.contains(b))
}

/// Whether no index in `[lo, hi)` is in `bits`.
pub open spec fn clear_between(bits: Set<nat>, lo: nat, hi: nat) -> bool {
    forall|b: nat| lo <= b < hi ==> !bits.contains(b)
}

/// Whether `found` is the lowest index in `bits` that is at least `from`.
pub open spec fn is_next(bits: Set<nat>, from: nat, found: nat) -> bool {
    from <= found && bits.contains(found) && clear_between(bits, from, found)
}

/// Whether `found` is the highest index in `bits` that is below `before`.
pub open spec fn is_prev(bits: Set<nat>, before: nat, found: nat) -> bool {
    found < before && bits.contains(found) && clear_between(bits, found + 1, before)
}

/// The indices of `bits` in `[lo, hi)`, lowest first.
pub open spec fn ascending(bits: Set<nat>, lo: nat, hi: nat) -> Seq<nat>
    decreases hi - lo,
{
    if lo >= hi {
        Seq::empty()
    } else if bits.contains(lo) {
        seq![lo] + ascending(bits, lo + 1, hi)
    } else {
        ascending(bits, lo + 1, hi)
    }
}

/// The indices of `bits` in `[lo, hi)`, highest first.
pub open spec fn descending(bits: Set<nat>, lo: nat, hi: nat) -> Seq<nat>
    decreases hi - lo,
{
    if lo >= hi {
        Seq::empty()
    } else if bits.contains((hi - 1) as nat) {
        seq![(hi - 1) as nat] + descending(bits, lo, (hi - 1) as nat)
    } else {
        descending(bits, lo, (hi - 1) as nat)
    }
}

/// The bit indices that the machine integers `items` stand for.
pub open spec fn as_indices(items: Seq<usize>) -> Seq<nat> {
    Seq::new(items.len(), |i: int| items[i] as nat)
}

/// Whether each element of `items` is greater than the one before it.
pub open spec fn strictly_ascending(items: Seq<nat>) -> bool {
    forall|i: int, j: int| 0 <= i < j < items.len() ==> items[i] < items[j]
}

/// Whether each element of `items` is less than the one before it.
pub open spec fn strictly_descending(items: Seq<nat>) -> bool {
    forall|i: int, j: int| 0 <= i < j < items.len() ==> items[i] > items[j]
}

/// Indices that are not in `bits` add nothing to the ascending sequence.
pub proof fn lemma_ascending_skip(bits: Set<nat>, lo: nat, mid: nat, hi: nat)
    requires
        lo <= mid,
        clear_between(bits, lo, mid),
    ensures
        ascending(bits, lo, hi) == ascending(bits, mid, hi),
    decreases mid - lo,
{
    if lo < mid {
        lemma_ascending_skip(bits, lo + 1, mid, hi);
        if lo >= hi {
            lemma_ascending_empty(bits, mid, hi);
            lemma_ascending_empty(bits, lo + 1, hi);
        }
    }
}

/// Nothing is left to list from `hi` on.
pub proof fn lemma_ascending_empty(bits: Set<nat>, lo: nat, hi: nat)
    requires
        lo >= hi,
    ensures
        ascending(bits, lo, hi) == Seq::<nat>::empty(),
{
}

/// The ascending sequence starts with the lowest index of `bits` at or after
/// `lo`, and goes on with what comes after that index.
pub proof fn lemma_ascending_first(bits: Set<nat>, lo: nat, found: nat, hi: nat)
    requires
        is_next(bits, lo, found),
        found < hi,
    ensures
        ascending(bits, lo, hi) == seq![found] + ascending(bits, found + 1, hi),
{
    lemma_ascending_skip(bits, lo, found, hi);
}

/// Where no index from `lo` on is in `bits`, the ascending sequence is empty.
pub proof fn lemma_ascending_none(bits: Set<nat>, lo: nat, hi: nat)
    requires
        clear_between(bits, lo, hi),
    ensures
        ascending(bits, lo, hi) == Seq::<nat>::empty(),
{
    if lo < hi {
        lemma_ascending_skip(bits, lo, hi, hi);
    }
}

/// The ascending sequence lists exactly the indices of `bits` in `[lo, hi)`,
/// each once, in strictly ascending order.
pub proof fn lemma_ascending_lists(bits: Set<nat>, lo: nat, hi: nat)
    ensures
        forall|b: nat|
            #![trigger ascending(bits, lo, hi).contains(b)]
            #![trigger bits.contains(b)]
            ascending(bits, lo, hi).contains(b) <==> lo <= b < hi && bits.contains(b),
        strictly_ascending(ascending(bits, lo, hi)),
    decreases hi - lo,
{
    let all = ascending(bits, lo, hi);
    if lo < hi {
        let rest = ascending(bits, lo + 1, hi);
        lemma_ascending_lists(bits, lo + 1, hi);
        if bits.contains(lo) {
            assert(all.len() == rest.len() + 1);
            assert(all[0] == lo);
            assert forall|i: int| 0 < i < all.len() implies all[i] == rest[i - 1] && rest.contains(
                all[i],
            ) by {
                assert(rest[i - 1] == all[i]);
            }
            assert forall|b: nat| all.contains(b) implies lo <= b < hi && bits.contains(b) by {
                let i = choose|i: int| 0 <= i < all.len() && all[i] == b;
                if i > 0 {
                    assert(rest.contains(all[i]));
                }
            }
            assert forall|b: nat| lo <= b < hi && bits.contains(b) implies all.contains(b) by {
                if b == lo {
                    assert(all[0] == b);
                } else {
                    assert(rest.contains(b));
                    let i = choose|i: int| 0 <= i < rest.len() && rest[i] == b;
                    assert(all[i + 1] == b);
                }
            }
            assert forall|i: int, j: int| 0 <= i < j < all.len() implies all[i] < all[j] by {
                assert(rest.contains(all[j]));
                if i > 0 {
                    assert(all[i] == rest[i - 1]);
                    assert(all[j] == rest[j - 1]);
                }
            }
        }
    }
}

/// Indices that are not in `bits` add nothing to the descending sequence.
pub proof fn lemma_descending_skip(bits: Set<nat>, lo: nat, mid: nat, hi: nat)
    requires
        mid <= hi,
        clear_between(bits, mid, hi),
    ensures
        descending(bits, lo, hi) == descending(bits, lo, mid),
    decreases hi - mid,
{
    if mid < hi {
        lemma_descending_skip(bits, lo, mid, (hi - 1) as nat);
        if lo >= hi {
            assert(descending(bits, lo, mid) == Seq::<nat>::empty());
        }
    }
}

/// The descending sequence starts with the highest index of `bits` below
/// `hi`, and goes on with what comes before that index.
pub proof fn lemma_descending_first(bits: Set<nat>, lo: nat, found: nat, hi: nat)
    requires
        is_prev(bits, hi, found),
        lo <= found,
    ensures
        descending(bits, lo, hi) == seq![found] + descending(bits, lo, found),
{
    lemma_descending_skip(bits, lo, found + 1, hi);
}

/// Where no index below `hi` is in `bits`, the descending sequence is empty.
pub proof fn lemma_descending_none(bits: Set<nat>, lo: nat, hi: nat)
    requires
        clear_between(bits, lo, hi),
    ensures
        descending(bits, lo, hi) == Seq::<nat>::empty(),
{
    if lo < hi {
        lemma_descending_skip(bits, lo, lo, hi);
    }
}

/// The descending sequence is the ascending one read backwards.
pub proof fn lemma_descending_reverses(bits: Set<nat>, lo: nat, hi: nat)
    ensures
        descending(bits, lo, hi) == ascending(bits, lo, hi).reverse(),
    decreases hi - lo,
{
    let up = ascending(bits, lo, hi);
    let down = descending(bits, lo, hi);
    if lo < hi {
        let last = (hi - 1) as nat;
        lemma_descending_reverses(bits, lo, last);
        lemma_ascending_snoc(bits, lo, hi);
        let shorter = ascending(bits, lo, last);
        if bits.contains(last) {
            assert(up == shorter.push(last));
            assert(shorter.push(last).reverse() =~= seq![last] + shorter.reverse());
        }
    } else {
        assert(up.reverse() =~= Seq::<nat>::empty());
    }
}

/// The ascending sequence up to `hi` is the one up to `hi - 1`, with
/// `hi - 1` at its end where that index is in `bits`.
pub proof fn lemma_ascending_snoc(bits: Set<nat>, lo: nat, hi: nat)
    requires
        lo < hi,
    ensures
        ascending(bits, lo, hi) == if bits.contains((hi - 1) as nat) {
            ascending(bits, lo, (hi - 1) as nat).push((hi - 1) as nat)
        } else {
            ascending(bits, lo, (hi - 1) as nat)
        },
    decreases hi - lo,
{
    let last = (hi - 1) as nat;
    if lo < last {
        lemma_ascending_snoc(bits, lo + 1, hi);
        let rest = ascending(bits, lo + 1, last);
        if bits.contains(lo) && bits.contains(last) {
            assert((seq![lo] + rest).push(last) =~= seq![lo] + rest.push(last));
        }
    } else {
        lemma_ascending_empty(bits, lo + 1, hi);
        assert(ascending(bits, lo, last) == Seq::<nat>::empty());
        if bits.contains(lo) {
            assert(seq![lo] + Seq::<nat>::empty() =~= Seq::<nat>::empty().push(last));
        }
    }
}

} // verus!
