//! The text form of a bit set: the list of its true bits.

use crate::bitset::IttyBitty;
use crate::model::as_indices;
use vstd::prelude::*;

verus! {

/// The text that the standard library's debug formatting gives for a vector
/// that holds `items`, such as `[3, 17, 127]`. It depends on the items alone.
pub uninterp spec fn debug_list_text(items: Seq<usize>) -> Seq<char>;

/// The machine integers that stand for the bit indices `indices`.
pub open spec fn as_words(indices: Seq<nat>) -> Seq<usize> {
    Seq::new(indices.len(), |i: int| indices[i] as usize)
}

/// Formats `items` with `format!("{:?}", ..)`, the standard library's debug
/// formatting of a `Vec<usize>`. Verus does not read that code: the contract
/// only gives the text its name, [`debug_list_text`] of the items.
#[verifier::external_body]
fn format_list(items: &Vec<usize>) -> (text: String)
    ensures
        text@ == debug_list_text(items@),
{
    format!("{:?}", items)
}

impl<const N: usize> IttyBitty<N> {
    /// The debug text of the set: the list of its true bits, lowest first.
    pub fn to_debug_string(&self) -> (text: String)
        ensures
            text@ == debug_list_text(as_words(self.ascending())),
    {
        let bits: Vec<usize> = self.to_vec();
        assert(bits@ =~= as_words(as_indices(bits@)));
        format_list(&bits)
    }
}

} // verus!
