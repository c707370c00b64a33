//! A bloom filter: a packed bit array together with a double-hashing scheme
//! that derives any number of bit positions from two keyed base hashes.
//!
//! Inserting a value sets the bits at all of its derived positions; a query
//! reports true exactly when all of them are set, so an inserted value is
//! always reported (no false negatives), while an absent value may collide
//! and be reported as possibly present.

use vstd::prelude::*;

pub mod bitarray;
pub mod hashing;
pub mod sizing;

use crate::bitarray::{bits_of, bv_fill, bv_from_elem, bv_get, bv_set};
use crate::hashing::{derive_index, derived_index, sip_hash, sip_hash_of};

verus! {

/// Key words of the first default base hasher.
pub const DEFAULT_KEY0: u64 = 0x9e3779b97f4a7c15;
/// Key words of the first default base hasher.
pub const DEFAULT_KEY1: u64 = 0xf39cc0605cedc834;
/// Key words of the second default base hasher.
pub const DEFAULT_KEY2: u64 = 0x5851f42d4c957f2d;
/// Key words of the second default base hasher.
pub const DEFAULT_KEY3: u64 = 0x14057b7ef767814f;

/// A bloom filter over byte-sequence values.
///
/// `size` is the number of bits (m), `hash_count` the number of derived
/// positions per value (k). The two base hashers are SipHash-2-4 instances
/// keyed by `(key0, key1)` and `(key2, key3)`; both are fixed for the life
/// of the filter, so its behaviour on a value never changes.
pub struct BloomFilter {
    pub size: u64,
    pub hash_count: u64,
    pub bloom: bit_vec::BitVec,
    pub key0: u64,
    pub key1: u64,
    pub key2: u64,
    pub key3: u64,
}

impl BloomFilter {
    /// The abstract contents of the bit array.
    pub open spec fn bits(&self) -> Seq<bool> {
        bits_of(self.bloom)
    }

    /// A usable filter: positive size and hash count, the size addressable,
    /// and the bit array exactly `size` bits long.
    pub open spec fn wf(&self) -> bool {
        &&& self.size > 0
        &&& self.hash_count > 0
        &&& self.size <= usize::MAX
        &&& self.bits().len() == self.size
    }

    /// The two base hashes of a value under this filter's keys.
    pub open spec fn base_hash1(&self, val: Seq<u8>) -> u64 {
        sip_hash_of(self.key0, self.key1, val)
    }

    /// The two base hashes of a value under this filter's keys.
    pub open spec fn base_hash2(&self, val: Seq<u8>) -> u64 {
        sip_hash_of(self.key2, self.key3, val)
    }

    /// The bit position assigned to derived hash number `i` of a value.
    pub open spec fn position(&self, i: u64, val: Seq<u8>) -> int {
        derived_index(self.base_hash1(val), self.base_hash2(val), i, self.size)
    }

    /// Every derived position of the value is set: the filter reports the
    /// value as possibly present.
    pub open spec fn contains_sig(&self, val: Seq<u8>) -> bool {
        forall|i: u64| i < self.hash_count ==> self.bits()[#[trigger] self.position(i, val)]
    }

    /// Some derived position of the value, among the first `n`, lands on
    /// bit `j`.
    pub open spec fn hits_upto(&self, n: u64, j: int, val: Seq<u8>) -> bool {
        exists|i: u64| i < n && #[trigger] self.position(i, val) == j
    }

    /// Some derived position of the value lands on bit `j`.
    pub open spec fn hits(&self, j: int, val: Seq<u8>) -> bool {
        self.hits_upto(self.hash_count, j, val)
    }

    /// Same size, hash count and hasher keys: the two filters assign every
    /// value the same derived positions.
    pub open spec fn same_config(&self, other: &BloomFilter) -> bool {
        &&& self.size == other.size
        &&& self.hash_count == other.hash_count
        &&& self.key0 == other.key0
        &&& self.key1 == other.key1
        &&& self.key2 == other.key2
        &&& self.key3 == other.key3
    }

    /// Constructs a filter with the given bit count, hash count and the four
    /// key words of the two base hashers; every bit starts clear.
    pub fn new_with_hasher(
        size: u64,
        hash_count: u64,
        key0: u64,
        key1: u64,
        key2: u64,
        key3: u64,
    ) -> (r: BloomFilter)
        requires
            size > 0,
            hash_count > 0,
            size <= usize::MAX,
        ensures
            r.wf(),
            r.size == size,
            r.hash_count == hash_count,
            r.key0 == key0 && r.key1 == key1 && r.key2 == key2 && r.key3 == key3,
            forall|j: int| 0 <= j < r.bits().len() ==> !r.bits()[j],
    {
        BloomFilter {
            size,
            hash_count,
            bloom: bv_from_elem(size as usize, false),
            key0,
            key1,
            key2,
            key3,
        }
    }

    /// Constructs a filter with the given bit count and hash count, using
    /// the default base-hasher keys; every bit starts clear.
    pub fn new(size: u64, hash_count: u64) -> (r: BloomFilter)
        requires
            size > 0,
            hash_count > 0,
            size <= usize::MAX,
        ensures
            r.wf(),
            r.size == size,
            r.hash_count == hash_count,
            r.key0 == DEFAULT_KEY0 && r.key1 == DEFAULT_KEY1,
            r.key2 == DEFAULT_KEY2 && r.key3 == DEFAULT_KEY3,
            forall|j: int| 0 <= j < r.bits().len() ==> !r.bits()[j],
    {
        BloomFilter::new_with_hasher(
            size,
            hash_count,
            DEFAULT_KEY0,
            DEFAULT_KEY1,
            DEFAULT_KEY2,
            DEFAULT_KEY3,
        )
    }

    /// Constructs a filter sized for `n` expected items at a target
    /// false-positive rate of `p_num / p_den`, with caller-chosen keys for
    /// the two base hashers. The bit count is the fixed-point ceiling of
    /// `-(n * ln p) / (ln 2)^2` and the hash count `ln 2 * m / n` rounded to
    /// nearest, each at least one; every bit starts clear. Returns nothing
    /// exactly on degenerate input (`n` zero, or the rate not strictly
    /// between zero and one) or a bit count too large to address.
    pub fn new_with_params_with_hasher(
        n: u64,
        p_num: u64,
        p_den: u64,
        key0: u64,
        key1: u64,
        key2: u64,
        key3: u64,
    ) -> (r: Option<BloomFilter>)
        ensures
            r is Some <==> sizing::params_ok(n, p_num, p_den),
            r matches Some(f) ==> ({
                &&& f.wf()
                &&& f.size == sizing::spec_bit_count(n as int, p_num as int, p_den as int)
                &&& f.hash_count == sizing::spec_hash_count(n as int, f.size as int)
                &&& f.key0 == key0 && f.key1 == key1 && f.key2 == key2 && f.key3 == key3
                &&& forall|j: int| 0 <= j < f.bits().len() ==> !f.bits()[j]
            }),
    {
        match sizing::derive_params(n, p_num, p_den) {
            None => None,
            Some((m, k)) => Some(
                BloomFilter::new_with_hasher(m, k, key0, key1, key2, key3),
            ),
        }
    }

    /// Constructs a filter sized for `n` expected items at a target
    /// false-positive rate of `p_num / p_den`, using the default
    /// base-hasher keys; see `new_with_params_with_hasher`.
    pub fn new_with_params(n: u64, p_num: u64, p_den: u64) -> (r: Option<BloomFilter>)
        ensures
            r is Some <==> sizing::params_ok(n, p_num, p_den),
            r matches Some(f) ==> ({
                &&& f.wf()
                &&& f.size == sizing::spec_bit_count(n as int, p_num as int, p_den as int)
                &&& f.hash_count == sizing::spec_hash_count(n as int, f.size as int)
                &&& f.key0 == DEFAULT_KEY0 && f.key1 == DEFAULT_KEY1
                &&& f.key2 == DEFAULT_KEY2 && f.key3 == DEFAULT_KEY3
                &&& forall|j: int| 0 <= j < f.bits().len() ==> !f.bits()[j]
            }),
    {
        BloomFilter::new_with_params_with_hasher(
            n,
            p_num,
            p_den,
            DEFAULT_KEY0,
            DEFAULT_KEY1,
            DEFAULT_KEY2,
            DEFAULT_KEY3,
        )
    }

    /// The derived bit position for hash number `n` of a value: both base
    /// hashes are computed fresh from their keys, then combined by the
    /// double-hashing scheme; the position is always within the bit array.
    pub fn bloom_hash(&self, n: u64, val: &[u8]) -> (r: u64)
        requires
            self.wf(),
        ensures
            r == self.position(n, val@),
            r < self.size,
    {
        let h1 = sip_hash(self.key0, self.key1, val);
        let h2 = sip_hash(self.key2, self.key3, val);
        derive_index(h1, h2, n, self.size)
    }

    /// Inserts a value: sets the bit at each of its derived positions.
    ///
    /// Afterwards the filter contains the value's signature, every bit that
    /// was set stays set, and no bit outside the value's positions changes —
    /// so membership of every previously inserted value is preserved.
    pub fn add(&mut self, val: &[u8])
        requires
            old(self).wf(),
        ensures
            final(self).wf(),
            final(self).same_config(old(self)),
            forall|j: int|
                0 <= j < old(self).bits().len() ==> final(self).bits()[j] == (old(self).bits()[j]
                    || old(self).hits(j, val@)),
            final(self).contains_sig(val@),
            forall|w: Seq<u8>|
                old(self).contains_sig(w) ==> #[trigger] final(self).contains_sig(w),
    {
        let ghost orig = *self;
        let mut i: u64 = 0;
        while i < self.hash_count
            invariant
                self.wf(),
                self.same_config(&orig),
                orig.wf(),
                i <= self.hash_count,
                self.bits().len() == orig.bits().len(),
                forall|j: int|
                    0 <= j < orig.bits().len() ==> self.bits()[j] == (orig.bits()[j]
                        || orig.hits_upto(i, j, val@)),
            decreases self.hash_count - i,
        {
            let pos = self.bloom_hash(i, val);
            proof {
                assert(orig.position(i, val@) == pos as int);
            }
            let ghost pre = self.bits();
            bv_set(&mut self.bloom, pos as usize, true);
            proof {
                lemma_setting_one_position(orig, pre, self.bits(), i, pos as int, val@);
            }
            i = i + 1;
        }
        proof {
            assert(i == self.hash_count);
            assert forall|j: int| 0 <= j < orig.bits().len() implies self.bits()[j] == (
            orig.bits()[j] || orig.hits_upto(orig.hash_count, j, val@)) by {
                assert(self.bits()[j] == (orig.bits()[j] || orig.hits_upto(i, j, val@)));
            }
            lemma_add_bits(orig, *self, val@);
        }
    }

    /// Queries a value: true when every derived position is set ("possibly
    /// present"), false as soon as one is clear ("definitely absent").
    pub fn query(&self, val: &[u8]) -> (r: bool)
        requires
            self.wf(),
        ensures
            r == self.contains_sig(val@),
    {
        let mut i: u64 = 0;
        while i < self.hash_count
            invariant
                self.wf(),
                i <= self.hash_count,
                forall|t: u64| t < i ==> self.bits()[#[trigger] self.position(t, val@)],
            decreases self.hash_count - i,
        {
            let pos = self.bloom_hash(i, val);
            proof {
                assert((pos as int) < self.bits().len());
            }
            let b = bv_get(&self.bloom, pos as usize);
            if !b.unwrap() {
                proof {
                    assert(!self.bits()[self.position(i, val@)]);
                }
                return false;
            }
            i = i + 1;
        }
        true
    }

    /// Returns how many bits are currently set, by a full scan of the bit
    /// array; linear in `size`, so callers on a hot path should keep their
    /// own count.
    pub fn get_bits_set(&self) -> (r: usize)
        requires
            self.wf(),
        ensures
            r == count_true(self.bits()),
    {
        let n: usize = self.size as usize;
        let mut count: usize = 0;
        let mut i: usize = 0;
        while i < n
            invariant
                self.wf(),
                n == self.size,
                i <= n,
                count <= i,
                count == count_true(self.bits().take(i as int)),
            decreases n - i,
        {
            let b = bv_get(&self.bloom, i);
            proof {
                assert(self.bits().take(i + 1).drop_last() =~= self.bits().take(i as int));
                assert(self.bits().take(i + 1).last() == self.bits()[i as int]);
            }
            if b.unwrap() {
                count = count + 1;
            }
            i = i + 1;
        }
        proof {
            assert(self.bits().take(n as int) =~= self.bits());
        }
        count
    }

    /// Resets every bit to clear; size, hash count and keys are unchanged.
    pub fn clear(&mut self)
        requires
            old(self).wf(),
        ensures
            final(self).wf(),
            final(self).same_config(old(self)),
            forall|j: int| 0 <= j < final(self).bits().len() ==> !final(self).bits()[j],
    {
        bv_fill(&mut self.bloom, false);
    }
}

/// The number of set bits in a bit sequence.
pub open spec fn count_true(s: Seq<bool>) -> nat
    decreases s.len(),
{
    if s.len() == 0 {
        0
    } else {
        count_true(s.drop_last()) + (if s.last() {
            1nat
        } else {
            0nat
        })
    }
}

/// A bit sequence with every bit clear has a set-bit count of zero: after a
/// reset the reported fill count is zero.
pub proof fn lemma_count_true_zero(s: Seq<bool>)
    requires
        forall|j: int| 0 <= j < s.len() ==> !s[j],
    ensures
        count_true(s) == 0,
    decreases s.len(),
{
    if s.len() > 0 {
        assert(!s.last());
        lemma_count_true_zero(s.drop_last());
    }
}

/// A filter with every bit clear reports every value as absent: a fresh or
/// freshly cleared filter has no members.
pub proof fn lemma_empty_filter(f: BloomFilter, val: Seq<u8>)
    requires
        f.wf(),
        forall|j: int| 0 <= j < f.bits().len() ==> !f.bits()[j],
    ensures
        !f.contains_sig(val),
{
    let p = f.position(0, val);
    assert(0 <= p < f.bits().len());
    if f.contains_sig(val) {
        assert(f.bits()[f.position(0, val)]);
        assert(false);
    }
}

/// Inserting a value twice is idempotent: the second insertion leaves the
/// bit array exactly as the first left it.
pub proof fn lemma_add_idempotent(
    orig: BloomFilter,
    once: BloomFilter,
    twice: BloomFilter,
    val: Seq<u8>,
)
    requires
        orig.wf(),
        once.wf(),
        twice.wf(),
        once.same_config(&orig),
        twice.same_config(&once),
        forall|j: int|
            0 <= j < orig.bits().len() ==> once.bits()[j] == (orig.bits()[j] || orig.hits(
                j,
                val,
            )),
        forall|j: int|
            0 <= j < once.bits().len() ==> twice.bits()[j] == (once.bits()[j] || once.hits(
                j,
                val,
            )),
    ensures
        twice.bits() =~= once.bits(),
{
    assert forall|j: int| 0 <= j < once.bits().len() implies twice.bits()[j] == once.bits()[j] by {
        assert(twice.bits()[j] == (once.bits()[j] || once.hits(j, val)));
        if once.hits(j, val) {
            let t = choose|t: u64| t < once.hash_count && #[trigger] once.position(t, val) == j;
            assert(orig.position(t, val) == j);
            assert(orig.hits(j, val));
            assert(once.bits()[j] == (orig.bits()[j] || orig.hits(j, val)));
            assert(once.bits()[j]);
        }
    }
}

/// Setting the bit at derived position number `i` of a value extends the
/// bit array from "the original joined with the first `i` positions" to
/// "the original joined with the first `i + 1` positions".
proof fn lemma_setting_one_position(
    orig: BloomFilter,
    pre: Seq<bool>,
    post: Seq<bool>,
    i: u64,
    pos: int,
    val: Seq<u8>,
)
    requires
        orig.wf(),
        i < orig.hash_count,
        pre.len() == orig.bits().len(),
        orig.position(i, val) == pos,
        post == pre.update(pos, true),
        forall|j: int|
            0 <= j < orig.bits().len() ==> pre[j] == (orig.bits()[j] || orig.hits_upto(i, j, val)),
    ensures
        post.len() == orig.bits().len(),
        forall|j: int|
            0 <= j < orig.bits().len() ==> post[j] == (orig.bits()[j] || orig.hits_upto(
                (i + 1) as u64,
                j,
                val,
            )),
{
    assert(0 <= pos < orig.bits().len());
    assert forall|j: int| 0 <= j < orig.bits().len() implies post[j] == (orig.bits()[j]
        || orig.hits_upto((i + 1) as u64, j, val)) by {
        if j == pos {
            assert(post[j]);
            assert(orig.position(i, val) == j);
            assert(orig.hits_upto((i + 1) as u64, j, val));
        } else {
            assert(post[j] == pre[j]);
            assert(pre[j] == (orig.bits()[j] || orig.hits_upto(i, j, val)));
            if orig.hits_upto((i + 1) as u64, j, val) {
                let t = choose|t: u64| t < i + 1 && #[trigger] orig.position(t, val) == j;
                assert(t != i);
                assert(t < i && orig.position(t, val) == j);
                assert(orig.hits_upto(i, j, val));
            }
            if orig.hits_upto(i, j, val) {
                let t = choose|t: u64| t < i && #[trigger] orig.position(t, val) == j;
                assert(t < i + 1 && orig.position(t, val) == j);
                assert(orig.hits_upto((i + 1) as u64, j, val));
            }
        }
    }
}

/// After an insertion — every bit is the old bit joined with whether some
/// derived position of the inserted value lands on it — the inserted value's
/// signature is fully set, and so is that of every value whose signature was
/// fully set before. This is why a bloom filter has no false negatives.
pub proof fn lemma_add_bits(orig: BloomFilter, cur: BloomFilter, val: Seq<u8>)
    requires
        orig.wf(),
        cur.wf(),
        cur.same_config(&orig),
        forall|j: int|
            0 <= j < orig.bits().len() ==> cur.bits()[j] == (orig.bits()[j] || orig.hits(
                j,
                val,
            )),
    ensures
        cur.contains_sig(val),
        forall|w: Seq<u8>| orig.contains_sig(w) ==> #[trigger] cur.contains_sig(w),
{
    assert forall|t: u64| t < cur.hash_count implies cur.bits()[#[trigger] cur.position(
        t,
        val,
    )] by {
        let p = orig.position(t, val);
        assert(0 <= p < orig.bits().len());
        assert(orig.position(t, val) == p);
        assert(orig.hits(p, val));
        assert(cur.bits()[p] == (orig.bits()[p] || orig.hits(p, val)));
        assert(cur.position(t, val) == p);
    }
    assert forall|j: int| 0 <= j < orig.bits().len() && orig.bits()[j] implies #[trigger] cur.bits()[j] by {
        assert(cur.bits()[j] == (orig.bits()[j] || orig.hits(j, val)));
    }
    assert forall|w: Seq<u8>| orig.contains_sig(w) implies #[trigger] cur.contains_sig(w) by {
        lemma_membership_preserved(orig, cur, w);
    }
}

/// No false negatives across growth of the bit array: between two filters of
/// the same configuration, if every set bit of the first is set in the
/// second, then every value whose signature is fully set in the first has it
/// fully set in the second.
pub proof fn lemma_membership_preserved(a: BloomFilter, b: BloomFilter, w: Seq<u8>)
    requires
        a.wf(),
        b.wf(),
        b.same_config(&a),
        forall|j: int| 0 <= j < a.bits().len() && a.bits()[j] ==> #[trigger] b.bits()[j],
        a.contains_sig(w),
    ensures
        b.contains_sig(w),
{
    assert forall|t: u64| t < b.hash_count implies b.bits()[#[trigger] b.position(t, w)] by {
        let p = a.position(t, w);
        assert(0 <= p < a.bits().len());
        assert(a.bits()[p]);
        assert(b.bits()[p]);
        assert(b.position(t, w) == p);
    }
}

} // verus!

