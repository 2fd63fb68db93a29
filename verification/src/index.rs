//! The index generator: from one 64-bit hash of an item it derives the `k`
//! bit positions the filter touches for that item.
//!
//! The hash is split into its upper and lower 32-bit halves, and position `i`
//! is `(upper + lower * i)` taken with 32-bit wraparound, reduced modulo the
//! bit count `m`. This double-hashing recurrence yields `k` positions from a
//! single hash computation instead of `k` independent ones; the same hash
//! always yields the same positions, which is what makes an added item
//! impossible to miss later.

use vstd::prelude::*;

verus! {

/// The upper 32 bits of a 64-bit hash.
pub open spec fn upper_half(h: u64) -> u32 {
    (h >> 32) as u32
}

/// The lower 32 bits of a 64-bit hash.
pub open spec fn lower_half(h: u64) -> u32 {
    (h & 0xFFFF_FFFF) as u32
}

/// The `i`-th derived bit position for a split hash and a filter of `m` bits:
/// `(upper + lower * i)` with 32-bit wraparound, reduced modulo `m`.
pub open spec fn index_at(upper: u32, lower: u32, i: int, m: u64) -> int
    recommends
        m >= 1,
        i >= 0,
{
    ((upper + lower * i) % 0x1_0000_0000) % (m as int)
}

/// Splits a 64-bit hash into its upper and lower 32-bit halves.
pub fn split_hash(hash: u64) -> (r: (u32, u32))
    ensures
        r.0 == upper_half(hash),
        r.1 == lower_half(hash),
{
    proof {
        assert((hash & 0xFFFF_FFFF) as u32 == hash as u32) by (bit_vector);
    }
    ((hash >> 32) as u32, hash as u32)
}

/// Every derived position lands inside the bit array.
pub proof fn lemma_index_in_range(upper: u32, lower: u32, i: int, m: u64)
    requires
        m >= 1,
        i >= 0,
    ensures
        0 <= index_at(upper, lower, i, m) < m,
{
    vstd::arithmetic::div_mod::lemma_mod_division_less_than_divisor(
        upper + lower * i,
        0x1_0000_0000,
    );
    vstd::arithmetic::div_mod::lemma_mod_division_less_than_divisor(
        (upper + lower * i) % 0x1_0000_0000,
        m as int,
    );
}

/// A restartable, lazily produced sequence of the `k` derived positions: a
/// fresh one is built per operation on the stack and stepped with `next`,
/// so no list of positions is ever allocated.
pub struct IndexIter {
    /// Upper half of the item's hash.
    pub upper: u32,
    /// Lower half of the item's hash.
    pub lower: u32,
    /// Number of bits in the filter; every yielded position is below it.
    pub m: u64,
    /// How many positions the sequence yields in all.
    pub k: u32,
    /// How many positions have been yielded so far.
    pub i: u32,
}

impl IndexIter {
    /// The iterator never steps past its length.
    pub open spec fn wf(&self) -> bool {
        self.m >= 1 && self.i <= self.k
    }

    /// Yields the next derived position, or `None` once `k` positions have
    /// been yielded.
    pub fn next(&mut self) -> (r: Option<u64>)
        requires
            old(self).wf(),
        ensures
            final(self).wf(),
            final(self).upper == old(self).upper,
            final(self).lower == old(self).lower,
            final(self).m == old(self).m,
            final(self).k == old(self).k,
            match r {
                Some(v) => {
                    &&& old(self).i < old(self).k
                    &&& final(self).i == old(self).i + 1
                    &&& v == index_at(old(self).upper, old(self).lower, old(self).i as int, old(self).m)
                    &&& v < old(self).m
                },
                None => {
                    &&& old(self).i == old(self).k
                    &&& final(self).i == old(self).i
                },
            },
    {
        if self.i == self.k {
            return None;
        }
        let upper: u32 = self.upper;
        let lower: u32 = self.lower;
        let i: u32 = self.i;
        let m: u64 = self.m;
        proof {
            vstd::arithmetic::mul::lemma_mul_upper_bound(
                lower as int,
                0xFFFF_FFFF,
                i as int,
                0xFFFF_FFFF,
            );
        }
        let prod: u64 = (lower as u64) * (i as u64);
        proof {
            assert(prod & 0xFFFF_FFFF <= 0xFFFF_FFFF) by (bit_vector);
        }
        let low32: u64 = prod & 0xFFFF_FFFF;
        let t: u64 = (upper as u64) + low32;
        let wrapped: u64 = t & 0xFFFF_FFFF;
        let idx: u64 = wrapped % m;
        proof {
            assert(prod & 0xFFFF_FFFF == prod % 0x1_0000_0000) by (bit_vector);
            assert(t & 0xFFFF_FFFF == t % 0x1_0000_0000) by (bit_vector)
                requires
                    t == (upper as u64) + (prod % 0x1_0000_0000),
            ;
            vstd::arithmetic::div_mod::lemma_small_mod(upper as nat, 0x1_0000_0000);
            vstd::arithmetic::div_mod::lemma_add_mod_noop(
                upper as int,
                (lower as u64 * i as u64) as int,
                0x1_0000_0000,
            );
            assert(wrapped == (upper + lower * (i as int)) % 0x1_0000_0000);
            vstd::arithmetic::div_mod::lemma_mod_division_less_than_divisor(
                wrapped as int,
                m as int,
            );
        }
        self.i = self.i + 1;
        Some(idx)
    }
}

/// Builds the sequence of derived positions for a split hash: exactly `k`
/// positions for a filter of `m` bits, starting at the first.
pub fn indices_for_hash(split: (u32, u32), m: u64, k: u32) -> (it: IndexIter)
    requires
        m >= 1,
    ensures
        it.wf(),
        it.upper == split.0,
        it.lower == split.1,
        it.m == m,
        it.k == k,
        it.i == 0,
{
    IndexIter { upper: split.0, lower: split.1, m, k, i: 0 }
}

} // verus!
