//! A dynamically sized bit set that keeps small sets inside the value.
//!
//! [`IttyBitty<N>`] holds its first `N * WORD_BITS - 1` bits in an array of `N`
//! words. When a bit beyond them is set, the bits move to a heap buffer, which
//! grows as needed and never shrinks. `N` must be 2 or greater.
//!
//! The contracts speak of a set through its view, the mathematical set of the
//! indices whose bit is true, and through its capacity in bits.

pub mod bitset;
pub mod buffer;
pub mod eq;
pub mod index;
pub mod iter;
pub mod laws;
pub mod layout;
pub mod model;
pub mod render;
pub mod scan;
pub mod word;

pub use bitset::IttyBitty;
pub use iter::{IntoIter, Iter, IterRev};
pub use layout::{MAX_BITS, MAX_WORDS};
pub use scan::NONE;
pub use word::WORD_BITS;
