//! The heap-backed bit vector that holds the larger bit sets.
//!
//! Nothing in this file is proved: each function states what the `bitvec` crate
//! does, over the sequence of bits that a vector holds.
use crate::bitset::{merged, unset_count};
use bitvec::order::Msb0;
use bitvec::vec::BitVec;
use vstd::prelude::*;

verus! {

/// A bit vector of the `bitvec` crate, most significant bit first in `u64` words.
#[verifier::external_body]
pub struct WideBits {
    bits: BitVec<u64, Msb0>,
}

/// The bits that a vector holds, first to last.
pub uninterp spec fn wide_bits(v: WideBits) -> Seq<bool>;

/// `BitVec::repeat(false, len)`: a new vector of `len` cleared bits. The crate
/// refuses a length that its span cannot encode, one above `usize::MAX >> 3`.
#[verifier::external_body]
pub(crate) fn wide_zeros(len: usize) -> (v: WideBits)
    requires
        len <= usize::MAX / 8,
    ensures
        wide_bits(v) == Seq::new(len as nat, |i: int| false),
{
    WideBits { bits: BitVec::<u64, Msb0>::repeat(false, len) }
}

/// `BitSlice::len`: the number of bits held.
#[verifier::external_body]
pub(crate) fn wide_len(v: &WideBits) -> (n: usize)
    ensures
        n == wide_bits(*v).len(),
{
    v.bits.len()
}

/// Indexing a `BitSlice` by `usize`: the bit at `index`. It panics past the end.
#[verifier::external_body]
pub(crate) fn wide_get(v: &WideBits, index: usize) -> (b: bool)
    requires
        index < wide_bits(*v).len(),
    ensures
        b == wide_bits(*v)[index as int],
{
    v.bits[index]
}

/// `BitSlice::set(index, true)`: writes one bit and leaves the others. It panics
/// past the end.
#[verifier::external_body]
pub(crate) fn wide_set(v: &mut WideBits, index: usize)
    requires
        index < wide_bits(*old(v)).len(),
    ensures
        wide_bits(*final(v)) == wide_bits(*old(v)).update(index as int, true),
    no_unwind
{
    v.bits.set(index, true);
}

/// `BitVec::set_elements(0)`: stores zero in every word, so every bit held is
/// cleared; the length stays.
#[verifier::external_body]
pub(crate) fn wide_clear(v: &mut WideBits)
    ensures
        wide_bits(*final(v)) == Seq::new(wide_bits(*old(v)).len(), |i: int| false),
    no_unwind
{
    v.bits.set_elements(0);
}

/// `BitSlice::first_zero`: the index of the first cleared bit, `None` where
/// every bit is set.
#[verifier::external_body]
pub(crate) fn wide_first_zero(v: &WideBits) -> (r: Option<usize>)
    ensures
        match r {
            Some(k) => k < wide_bits(*v).len() && !wide_bits(*v)[k as int] && forall|j: int|
                0 <= j < k ==> wide_bits(*v)[j],
            None => forall|j: int| 0 <= j < wide_bits(*v).len() ==> wide_bits(*v)[j],
        },
{
    v.bits.first_zero()
}

/// `BitSlice::count_zeros`: the number of cleared bits.
#[verifier::external_body]
pub(crate) fn wide_count_zeros(v: &WideBits) -> (n: usize)
    ensures
        n == unset_count(wide_bits(*v)),
{
    v.bits.count_zeros()
}

/// Indexing a `BitSlice` by `0..end`, then `to_owned`: a new vector with the
/// first `end` bits. The indexing panics where `end` is past the end.
#[verifier::external_body]
pub(crate) fn wide_prefix(v: &WideBits, end: usize) -> (p: WideBits)
    requires
        end <= wide_bits(*v).len(),
    ensures
        wide_bits(p) == wide_bits(*v).take(end as int),
{
    WideBits { bits: v.bits[0..end].to_owned() }
}

/// `BitVec |= &BitVec`: sets in the left vector each bit that is set at the same
/// index of the right one. A shorter right vector counts as extended by cleared
/// bits, a longer one is read as far as the left one reaches; the length stays.
#[verifier::external_body]
pub(crate) fn wide_union(v: &mut WideBits, other: &WideBits)
    ensures
        wide_bits(*final(v)) == merged(wide_bits(*old(v)), wide_bits(*other)),
    no_unwind
{
    v.bits |= &other.bits;
}

/// `BitVec::clone`: a new vector with the same bits.
#[verifier::external_body]
pub(crate) fn wide_copy(v: &WideBits) -> (c: WideBits)
    ensures
        wide_bits(c) == wide_bits(*v),
{
    WideBits { bits: v.bits.clone() }
}

} // verus!
