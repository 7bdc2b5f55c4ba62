//! A bit vector of the `bitvec` crate, seen as a sequence of booleans.

use bitvec::order::Lsb0;
use bitvec::vec::BitVec;
use vstd::prelude::*;

verus! {

/// A packed array of bits, one per number of a sieve.
#[verifier::external_body]
pub struct SieveBits {
    bits: BitVec<usize, Lsb0>,
}

/// The bits that a bit array holds, in index order.
pub uninterp spec fn bits_of(b: SieveBits) -> Seq<bool>;

/// Relies on `BitVec::repeat`: `len` copies of `bit` (it panics beyond the
/// bit-slice length limit, an eighth of the address space).
#[verifier::external_body]
pub(crate) fn bits_repeat(bit: bool, len: usize) -> (r: SieveBits)
    requires
        len <= usize::MAX / 8,
    ensures
        bits_of(r) == Seq::new(len as nat, |_i: int| bit),
{
    SieveBits { bits: BitVec::<usize, Lsb0>::repeat(bit, len) }
}

/// Relies on indexing a `BitVec` (`BitSlice`'s `Index<usize>`): the bit at
/// `index`, which must be in bounds.
#[verifier::external_body]
pub(crate) fn bits_get(b: &SieveBits, index: usize) -> (r: bool)
    requires
        index < bits_of(*b).len(),
    ensures
        r == bits_of(*b)[index as int],
{
    b.bits[index]
}

/// Relies on `BitSlice::set`: writes `value` at `index`, which must be in
/// bounds, and leaves the other bits as they were.
#[verifier::external_body]
pub(crate) fn bits_set(b: &mut SieveBits, index: usize, value: bool)
    requires
        index < bits_of(*old(b)).len(),
    ensures
        bits_of(*final(b)) == bits_of(*old(b)).update(index as int, value),
{
    b.bits.set(index, value)
}

} // verus!
