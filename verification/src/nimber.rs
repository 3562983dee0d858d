//! The type of a Sprague-Grundy value.
use vstd::prelude::*;

verus! {

/// The nim-value of a position.
pub type Nimber = u16;

/// The number of bytes that hold one nimber in a checkpoint.
pub const NIMBER_BYTES: usize = 2;

} // verus!
