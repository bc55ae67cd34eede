//! Trusted boundary to the `bit_vec` crate.
//!
//! A column's null bitmap and its boolean payload are `bit_vec::BitVec`
//! values; the verifier sees them only through [`bits_of`] and the small
//! wrappers here, whose contracts restate what the crate's source does.

use vstd::prelude::*;

verus! {

/// `bit_vec::BitVec` as an opaque type for the verifier.
#[verifier::external_type_specification]
#[verifier::external_body]
#[verifier::reject_recursive_types(B)]
pub struct ExBitVec<B>(bit_vec::BitVec<B>);

/// The bits a `bit_vec::BitVec` holds, in order.
pub uninterp spec fn bits_of(v: bit_vec::BitVec<u32>) -> Seq<bool>;

/// Relies on bit_vec::BitVec::new: a new bit vector holds no bits.
#[verifier::external_body]
pub fn bv_new() -> (r: bit_vec::BitVec<u32>)
    ensures
        bits_of(r) == Seq::<bool>::empty(),
{
    bit_vec::BitVec::new()
}

/// Relies on bit_vec::BitVec::len: the number of bits held.
#[verifier::external_body]
pub fn bv_len(v: &bit_vec::BitVec<u32>) -> (r: usize)
    ensures
        r == bits_of(*v).len(),
{
    v.len()
}

/// Relies on bit_vec::BitVec::push: appends one bit at the end.  The
/// length bound keeps clear of the sole failure its source shows, a
/// checked-add panic when the bit count would overflow `usize`.
#[verifier::external_body]
pub fn bv_push(v: &mut bit_vec::BitVec<u32>, b: bool)
    requires
        bits_of(*old(v)).len() < usize::MAX,
    ensures
        bits_of(*final(v)) == bits_of(*old(v)).push(b),
{
    v.push(b)
}

/// Relies on bit_vec::BitVec::get: the bit at position `i`, which exists
/// for every `i` below the length.
#[verifier::external_body]
pub fn bv_get(v: &bit_vec::BitVec<u32>, i: usize) -> (r: bool)
    requires
        i < bits_of(*v).len(),
    ensures
        r == bits_of(*v)[i as int],
{
    v.get(i).unwrap()
}

/// Relies on bit_vec::BitVec::grow: appends `n` copies of `b`.  The length
/// bound keeps clear of the sole failure its source shows, a checked-add
/// panic when the bit count would overflow `usize`.
#[verifier::external_body]
pub fn bv_grow(v: &mut bit_vec::BitVec<u32>, n: usize, b: bool)
    requires
        bits_of(*old(v)).len() + n <= usize::MAX,
    ensures
        bits_of(*final(v)) == bits_of(*old(v)) + Seq::new(n as nat, |i: int| b),
{
    v.grow(n, b)
}

} // verus!
