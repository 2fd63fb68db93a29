//! The Bloom filter itself: a probabilistic set that can say definitively
//! that it does *not* contain an item, but only that it *probably* contains
//! one.
//!
//! Items can be added but never removed — removal would introduce false
//! negatives. Construction derives the bit count and hash count from a
//! target false-positive rate and an estimated item count; `add` and
//! `might_contain` hash the item once (with the XXH64 hash) and touch the
//! `k` derived bit positions. Bits are only ever set, never cleared: that
//! monotonicity is what guarantees an added item is never reported absent.

use crate::bits::BitStore;
use crate::error::CreationError;
use crate::index::index_at;
use crate::index::indices_for_hash;
use crate::index::lemma_index_in_range;
use crate::index::lower_half;
use crate::index::split_hash;
use crate::index::upper_half;
use crate::params::valid_rate;
use crate::rate::fp_rate_q32;
use crate::rate::rate_q32;
use vstd::prelude::*;

verus! {

/// The XXH64 digest, with seed 0, of a string's UTF-8 bytes.
pub uninterp spec fn xxhash64_of(s: Seq<char>) -> u64;

/// Relies on `twox_hash::XxHash64::oneshot`: the XXH64 digest under a fixed
/// seed is a deterministic, well-distributed function of the hashed bytes
/// alone.
#[verifier::external_body]
fn hash_item(item: &str) -> (h: u64)
    ensures
        h == xxhash64_of(item@),
{
    twox_hash::XxHash64::oneshot(0, item.as_bytes())
}

/// Whether `j` is among the first `c` derived bit positions for hash `h` in
/// a filter of `m` bits.
pub open spec fn is_index_upto(j: int, h: u64, m: u64, c: int) -> bool {
    exists|i: int| 0 <= i < c && j == index_at(upper_half(h), lower_half(h), i, m)
}

/// Whether `j` is one of the `k` bit positions touched for hash `h` in a
/// filter of `m` bits.
pub open spec fn is_index_of(j: int, h: u64, m: u64, k: u32) -> bool {
    is_index_upto(j, h, m, k as int)
}

/// Whether every one of the `k` bit positions for hash `h` is set: the
/// condition under which a query for an item with that hash reports
/// "possibly present".
pub open spec fn contains_hash(bits: Seq<bool>, h: u64, m: u64, k: u32) -> bool {
    forall|i: int| 0 <= i < k ==> bits[index_at(upper_half(h), lower_half(h), i, m)]
}

/// A Bloom filter: a packed bit array of `m` bits, `k` hash-derived
/// positions per item, and a count of the items added so far.
///
/// The target false-positive rate and estimated item count are fixed at
/// construction and cannot be adjusted afterwards — build a new filter
/// instead.
#[derive(Debug)]
pub struct BloomFilter {
    n: u64,
    m: u64,
    k: u32,
    bits: BitStore,
}

impl BloomFilter {
    /// The filter's geometry is sound: the bit array has exactly `m` bits,
    /// and both derived parameters are at least 1 (and small enough that
    /// the rate arithmetic stays in range).
    pub closed spec fn inv(&self) -> bool {
        &&& self.bits.inv()
        &&& self.bits@.len() == self.m
        &&& 1 <= self.m <= 0x40_0000_0000
        &&& 1 <= self.k <= 32
    }

    /// What well-formedness guarantees about the geometry: at least one bit,
    /// at least one hash function, and a bit array of exactly `m` bits.
    pub proof fn lemma_inv_geometry(&self)
        requires
            self.inv(),
        ensures
            self.spec_bit_count() >= 1,
            self.spec_hash_count() >= 1,
            self.spec_bits().len() == self.spec_bit_count(),
    {
    }

    /// How many items have been added so far.
    pub closed spec fn spec_item_count(&self) -> u64 {
        self.n
    }

    /// The number of addressable bits, `m`.
    pub closed spec fn spec_bit_count(&self) -> u64 {
        self.m
    }

    /// The number of bit positions touched per item, `k`.
    pub closed spec fn spec_hash_count(&self) -> u32 {
        self.k
    }

    /// The bit array as a sequence of booleans.
    pub closed spec fn spec_bits(&self) -> Seq<bool> {
        self.bits@
    }

    /// Creates a filter sized for a target false-positive rate of
    /// `rate_num / rate_den` and `estimated_items` expected items.
    ///
    /// Fails with `InvalidFalsePositiveRange` when the rate is not strictly
    /// between 0 and 1, with `InvalidEstimatedItems` when the estimate is
    /// zero, and succeeds on every other input, with every bit clear, no
    /// items counted, and the geometry pinned to the fixed-point derivation
    /// (`bit_count_spec`, `hash_count_spec`): equal arguments always yield
    /// an identically sized filter.
    pub fn new(rate_num: u64, rate_den: u64, estimated_items: u64) -> (r: Result<
        BloomFilter,
        CreationError,
    >)
        requires
            rate_den <= 1_000_000_000,
            estimated_items <= 0xFFFF_FFFF,
        ensures
            match r {
                Ok(f) => {
                    &&& valid_rate(rate_num, rate_den)
                    &&& estimated_items > 0
                    &&& f.inv()
                    &&& f.spec_item_count() == 0
                    &&& f.spec_bit_count() == crate::params::bit_count_spec(
                        rate_num,
                        rate_den,
                        estimated_items,
                    )
                    &&& f.spec_hash_count() == crate::params::hash_count_spec(rate_num, rate_den)
                    &&& f.spec_bit_count() >= 1
                    &&& f.spec_hash_count() >= 1
                    &&& f.spec_bits().len() == f.spec_bit_count()
                    &&& forall|j: int| 0 <= j < f.spec_bits().len() ==> !f.spec_bits()[j]
                },
                Err(CreationError::InvalidFalsePositiveRange(n, d)) => {
                    &&& n == rate_num
                    &&& d == rate_den
                    &&& !valid_rate(rate_num, rate_den)
                },
                Err(CreationError::InvalidEstimatedItems(c)) => {
                    &&& c == estimated_items
                    &&& valid_rate(rate_num, rate_den)
                    &&& estimated_items == 0
                },
            },
    {
        let (m, k) = match crate::params::derive(rate_num, rate_den, estimated_items) {
            Ok(p) => p,
            Err(e) => {
                return Err(e);
            },
        };
        let bits = BitStore::new(m);
        Ok(BloomFilter { n: 0, m, k, bits })
    }

    /// Adds an item: sets each of its `k` derived bits and counts the item.
    ///
    /// Afterwards the item's every position is set — a query for it (or for
    /// anything hashing alike) reports true — and no other bit has changed.
    pub fn add(&mut self, item: &str)
        requires
            old(self).inv(),
            old(self).spec_item_count() < u64::MAX,
        ensures
            final(self).inv(),
            final(self).spec_bit_count() == old(self).spec_bit_count(),
            final(self).spec_hash_count() == old(self).spec_hash_count(),
            final(self).spec_item_count() == old(self).spec_item_count() + 1,
            final(self).spec_bits().len() == old(self).spec_bits().len(),
            forall|j: int|
                0 <= j < old(self).spec_bits().len() ==> final(self).spec_bits()[j] == (old(
                    self,
                ).spec_bits()[j] || is_index_of(
                    j,
                    xxhash64_of(item@),
                    old(self).spec_bit_count(),
                    old(self).spec_hash_count(),
                )),
            contains_hash(
                final(self).spec_bits(),
                xxhash64_of(item@),
                final(self).spec_bit_count(),
                final(self).spec_hash_count(),
            ),
    {
        let h = hash_item(item);
        self.add_hash(h);
    }

    /// Adds an item by its pre-computed 64-bit hash.
    pub fn add_hash(&mut self, hash: u64)
        requires
            old(self).inv(),
            old(self).spec_item_count() < u64::MAX,
        ensures
            final(self).inv(),
            final(self).spec_bit_count() == old(self).spec_bit_count(),
            final(self).spec_hash_count() == old(self).spec_hash_count(),
            final(self).spec_item_count() == old(self).spec_item_count() + 1,
            final(self).spec_bits().len() == old(self).spec_bits().len(),
            forall|j: int|
                0 <= j < old(self).spec_bits().len() ==> final(self).spec_bits()[j] == (old(
                    self,
                ).spec_bits()[j] || is_index_of(
                    j,
                    hash,
                    old(self).spec_bit_count(),
                    old(self).spec_hash_count(),
                )),
            contains_hash(
                final(self).spec_bits(),
                hash,
                final(self).spec_bit_count(),
                final(self).spec_hash_count(),
            ),
    {
        let ghost m = self.m;
        let ghost k = self.k;
        let mut it = indices_for_hash(split_hash(hash), self.m, self.k);
        while it.i < it.k
            invariant
                it.wf(),
                it.upper == upper_half(hash),
                it.lower == lower_half(hash),
                it.m == m,
                it.k == k,
                self.m == m,
                self.k == k,
                self.n == old(self).n,
                self.bits.inv(),
                self.bits@.len() == old(self).bits@.len(),
                old(self).inv(),
                old(self).bits@.len() == m,
                forall|j: int|
                    0 <= j < m ==> self.bits@[j] == (old(self).bits@[j] || is_index_upto(
                        j,
                        hash,
                        m,
                        it.i as int,
                    )),
            decreases it.k - it.i,
        {
            let ghost c = it.i as int;
            let ghost prev = self.bits@;
            let idx = match it.next() {
                Some(v) => v,
                None => {
                    proof {
                        assert(false);
                    }
                    0
                },
            };
            self.bits.set(idx);
            proof {
                assert forall|j: int|
                    0 <= j < m implies self.bits@[j] == (old(self).bits@[j] || is_index_upto(
                        j,
                        hash,
                        m,
                        c + 1,
                    )) by {
                    if j == idx {
                        assert(index_at(upper_half(hash), lower_half(hash), c, m) == j);
                        assert(is_index_upto(j, hash, m, c + 1));
                    } else {
                        assert(self.bits@[j] == prev[j]);
                        if is_index_upto(j, hash, m, c + 1) {
                            let i = choose|i: int|
                                0 <= i < c + 1 && j == index_at(
                                    upper_half(hash),
                                    lower_half(hash),
                                    i,
                                    m,
                                );
                            assert(i < c);
                            assert(is_index_upto(j, hash, m, c));
                        }
                    }
                }
            }
        }
        proof {
            lemma_added_is_contained(old(self).bits@, self.bits@, hash, m, k);
        }
        self.n = self.n + 1;
    }

    /// Checks whether the filter might contain the item.
    ///
    /// False means the item was definitely never added; true means it was
    /// possibly added (every one of its bit positions is set, whether by it
    /// or by other items — a false positive).
    pub fn might_contain(&self, item: &str) -> (r: bool)
        requires
            self.inv(),
        ensures
            r == contains_hash(
                self.spec_bits(),
                xxhash64_of(item@),
                self.spec_bit_count(),
                self.spec_hash_count(),
            ),
    {
        let h = hash_item(item);
        self.might_contain_hash(h)
    }

    /// Checks membership by a pre-computed 64-bit hash, stopping at the
    /// first clear bit.
    pub fn might_contain_hash(&self, hash: u64) -> (r: bool)
        requires
            self.inv(),
        ensures
            r == contains_hash(self.spec_bits(), hash, self.spec_bit_count(), self.spec_hash_count()),
    {
        let mut it = indices_for_hash(split_hash(hash), self.m, self.k);
        while it.i < it.k
            invariant
                it.wf(),
                it.upper == upper_half(hash),
                it.lower == lower_half(hash),
                it.m == self.m,
                it.k == self.k,
                self.inv(),
                forall|i: int|
                    0 <= i < it.i ==> self.bits@[index_at(upper_half(hash), lower_half(hash), i, self.m)],
            decreases it.k - it.i,
        {
            let ghost c = it.i as int;
            let idx = match it.next() {
                Some(v) => v,
                None => {
                    proof {
                        assert(false);
                    }
                    0
                },
            };
            if !self.bits.get(idx) {
                proof {
                    assert(!self.bits@[index_at(upper_half(hash), lower_half(hash), c, self.m)]);
                }
                return false;
            }
        }
        true
    }

    /// The estimated current false-positive rate `(1 - e^(-k*n/m))^k`, with
    /// 32 fractional bits: 0 is exactly 0 (a fresh filter), `2^32` is 1.
    ///
    /// This estimates the *actual* rate after `n` adds; it grows from 0 as
    /// items come in, unlike the *target* rate supplied at construction,
    /// which only sized the filter. The mathematical value lies in `[0, 1)`,
    /// but its open upper end is unattainable in rounding arithmetic: once
    /// the filter saturates, the estimate rounds up to exactly `2^32`, the
    /// fixed-point rendering of 1.
    pub fn false_positive_rate(&self) -> (r: u64)
        requires
            self.inv(),
        ensures
            r == rate_q32(self.spec_item_count(), self.spec_bit_count(), self.spec_hash_count()),
            r <= 0x1_0000_0000,
            self.spec_item_count() == 0 ==> r == 0,
    {
        fp_rate_q32(self.n, self.m, self.k)
    }

    /// How many items have been added so far.
    pub fn item_count(&self) -> (n: u64)
        ensures
            n == self.spec_item_count(),
    {
        self.n
    }

    /// The number of addressable bits, fixed at construction.
    pub fn bit_count(&self) -> (m: u64)
        ensures
            m == self.spec_bit_count(),
    {
        self.m
    }

    /// The number of bit positions touched per item, fixed at construction.
    pub fn hash_function_count(&self) -> (k: u32)
        ensures
            k == self.spec_hash_count(),
    {
        self.k
    }
}

/// No false negatives, seen at the moment of the add: a bit array that has
/// just absorbed every derived position of hash `h` reports `h` contained.
pub proof fn lemma_added_is_contained(
    old_bits: Seq<bool>,
    new_bits: Seq<bool>,
    h: u64,
    m: u64,
    k: u32,
)
    requires
        m >= 1,
        old_bits.len() == m,
        new_bits.len() == m,
        forall|j: int| 0 <= j < m ==> new_bits[j] == (old_bits[j] || is_index_of(j, h, m, k)),
    ensures
        contains_hash(new_bits, h, m, k),
{
    assert forall|i: int|
        0 <= i < k implies new_bits[index_at(upper_half(h), lower_half(h), i, m)] by {
        lemma_index_in_range(upper_half(h), lower_half(h), i, m);
        let j = index_at(upper_half(h), lower_half(h), i, m);
        assert(is_index_upto(j, h, m, k as int));
    }
}

/// No false negatives, kept forever after: bits are only ever set, never
/// cleared, so once every position of hash `h` is set, any later state whose
/// bits have only grown still reports `h` contained — however many other
/// items are added in between.
pub proof fn lemma_contained_preserved(
    bits1: Seq<bool>,
    bits2: Seq<bool>,
    h: u64,
    m: u64,
    k: u32,
)
    requires
        m >= 1,
        bits1.len() == m,
        bits2.len() == m,
        forall|j: int| 0 <= j < m ==> (bits1[j] ==> bits2[j]),
        contains_hash(bits1, h, m, k),
    ensures
        contains_hash(bits2, h, m, k),
{
    assert forall|i: int|
        0 <= i < k implies bits2[index_at(upper_half(h), lower_half(h), i, m)] by {
        lemma_index_in_range(upper_half(h), lower_half(h), i, m);
        assert(bits1[index_at(upper_half(h), lower_half(h), i, m)]);
    }
}

} // verus!
