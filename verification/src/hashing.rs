//! The two keyed base hashes and the double-hashing position derivation.
//!
//! A value is hashed twice, under two independently keyed SipHash instances;
//! every derived bit position is then a wrapping combination of those two
//! 64-bit digests, so any number of positions costs only two hash runs.

use vstd::prelude::*;

verus! {

/// The 64-bit SipHash-2-4 digest of a byte sequence under the key pair
/// `(k0, k1)`: a fixed, deterministic function of the keys and the bytes.
pub uninterp spec fn sip_hash_of(k0: u64, k1: u64, data: Seq<u8>) -> u64;

/// Relies on siphasher's `SipHasher::new_with_keys` and `SipHasher::hash`:
/// SipHash-2-4 of a byte slice is a deterministic function of the two key
/// words and the bytes alone.
#[verifier::external_body]
pub fn sip_hash(k0: u64, k1: u64, data: &[u8]) -> (r: u64)
    ensures
        r == sip_hash_of(k0, k1, data@),
{
    siphasher::sip::SipHasher::new_with_keys(k0, k1).hash(data)
}

/// The bit position that the double-hashing scheme assigns to derived hash
/// number `i`, given the two base hashes of a value: the wrapping product
/// `h1 * (h2 + i)` reduced modulo the bit-array size.
pub open spec fn derived_index(h1: u64, h2: u64, i: u64, size: u64) -> int
    recommends
        size > 0,
{
    (h1.wrapping_mul(h2.wrapping_add(i)) as int) % (size as int)
}

/// Computes the derived bit position for hash number `i`; always in range.
pub fn derive_index(h1: u64, h2: u64, i: u64, size: u64) -> (r: u64)
    requires
        size > 0,
    ensures
        r == derived_index(h1, h2, i, size),
        r < size,
{
    h1.wrapping_mul(h2.wrapping_add(i)) % size
}

} // verus!
