//! Trusted boundary around `bit_vec::BitVec`, the packed bit array.
//!
//! The contents of a bit vector are modelled by the uninterpreted sequence
//! `bits_of`; each wrapper states, over that sequence, what the corresponding
//! `bit_vec` method does according to its source.

use vstd::prelude::*;

verus! {

#[verifier::external_type_specification]
#[verifier::external_body]
#[verifier::reject_recursive_types(B)]
pub struct ExBitVec<B>(bit_vec::BitVec<B>);

/// The boolean contents of a bit vector, in index order.
pub uninterp spec fn bits_of(v: bit_vec::BitVec) -> Seq<bool>;

/// Relies on `bit_vec::BitVec::from_elem`: a vector of `len` bits, each
/// equal to `bit`.
#[verifier::external_body]
pub fn bv_from_elem(len: usize, bit: bool) -> (r: bit_vec::BitVec)
    ensures
        bits_of(r).len() == len,
        forall|j: int| 0 <= j < len ==> bits_of(r)[j] == bit,
{
    bit_vec::BitVec::from_elem(len, bit)
}

/// Relies on `bit_vec::BitVec::get`: `Some` of bit `i` when `i` is in
/// range, `None` otherwise.
#[verifier::external_body]
pub fn bv_get(v: &bit_vec::BitVec, i: usize) -> (r: Option<bool>)
    ensures
        r == (if i < bits_of(*v).len() {
            Some(bits_of(*v)[i as int])
        } else {
            None::<bool>
        }),
{
    v.get(i)
}

/// Relies on `bit_vec::BitVec::set`: writes bit `i` and leaves every other
/// bit alone. It panics on an out-of-range index, which the precondition
/// rules out.
#[verifier::external_body]
pub fn bv_set(v: &mut bit_vec::BitVec, i: usize, x: bool)
    requires
        i < bits_of(*old(v)).len(),
    ensures
        bits_of(*final(v)) == bits_of(*old(v)).update(i as int, x),
{
    v.set(i, x)
}

/// Relies on `bit_vec::BitVec::fill`: assigns every bit the given value,
/// keeping the length.
#[verifier::external_body]
pub fn bv_fill(v: &mut bit_vec::BitVec, bit: bool)
    ensures
        bits_of(*final(v)).len() == bits_of(*old(v)).len(),
        forall|j: int| 0 <= j < bits_of(*old(v)).len() ==> bits_of(*final(v))[j] == bit,
{
    v.fill(bit)
}

} // verus!
