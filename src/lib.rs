//! A dense set of natural numbers stored as a packed array of 64-bit words,
//! with an owned, growable set, a borrowed read-only view, and cursors that
//! list the values in increasing or decreasing order.

use vstd::prelude::*;

pub mod inner;
pub mod words;
pub mod ascending;
pub mod descending;
pub mod borrowed;
pub mod owned;
pub mod laws;

pub use borrowed::Borrowed;
pub use borrowed::Borrowed as Slice;
pub use inner::Inner;
pub use owned::Owned;

verus! {

} // verus!
