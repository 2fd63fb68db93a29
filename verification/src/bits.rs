//! A packed bit store: a fixed-length sequence of booleans held at one bit
//! each in a vector of 64-bit words, addressed by index with get/set.
//!
//! Packing is the point of the structure: a filter of `m` bits takes `m / 8`
//! bytes rather than one byte (or word) per flag. Bits start false and are
//! only ever set to true; the store itself also allows nothing else, since
//! `set` has no clearing form.

use vstd::prelude::*;

verus! {

/// Whether bit `b` (counted from the least significant end) of word `w` is set.
pub open spec fn nth_bit(w: u64, b: u64) -> bool
    recommends
        b < 64,
{
    (w >> b) & 1 == 1
}

/// A fixed-size sequence of `nbits` booleans packed into 64-bit words.
///
/// Viewed abstractly (`self@`) as a `Seq<bool>` of length `nbits`.
#[derive(Debug)]
pub struct BitStore {
    words: Vec<u64>,
    nbits: u64,
}

impl View for BitStore {
    type V = Seq<bool>;

    closed spec fn view(&self) -> Seq<bool> {
        Seq::new(self.nbits as nat, |i: int| nth_bit(self.words@[i / 64], (i % 64) as u64))
    }
}

impl BitStore {
    /// The words hold exactly as many bits as the store addresses: enough for
    /// `nbits`, with fewer than 64 bits to spare.
    pub closed spec fn inv(&self) -> bool {
        &&& self.nbits <= self.words@.len() * 64
        &&& self.words@.len() * 64 < self.nbits + 64
    }

    /// Creates a store of `size` bits, all false.
    pub fn new(size: u64) -> (s: Self)
        requires
            size <= 0x1000_0000_0000_0000,
        ensures
            s.inv(),
            s@.len() == size,
            forall|j: int| 0 <= j < size ==> !s@[j],
    {
        let nwords: u64 = size / 64 + if size % 64 == 0 { 0u64 } else { 1u64 };
        proof {
            vstd::arithmetic::div_mod::lemma_fundamental_div_mod(size as int, 64);
        }
        let mut words: Vec<u64> = Vec::new();
        let mut i: u64 = 0;
        while i < nwords
            invariant
                i <= nwords,
                words@.len() == i,
                forall|w: int| 0 <= w < i ==> words@[w] == 0u64,
            decreases nwords - i,
        {
            words.push(0u64);
            i = i + 1;
        }
        let s = BitStore { words, nbits: size };
        proof {
            assert forall|j: int| 0 <= j < size implies !s@[j] by {
                vstd::arithmetic::div_mod::lemma_fundamental_div_mod(j, 64);
                vstd::arithmetic::div_mod::lemma_multiply_divide_lt(j, nwords as int, 64);
                lemma_zero_bit((j % 64) as u64);
            }
        }
        s
    }

    /// How many bits the store addresses.
    pub fn len(&self) -> (n: u64)
        ensures
            n == self@.len(),
    {
        self.nbits
    }

    /// In-range bit indices land in in-range words.
    proof fn lemma_word_index(&self, i: u64)
        requires
            self.inv(),
            i < self.nbits,
        ensures
            0 <= i / 64 < self.words@.len(),
            i % 64 < 64,
    {
        vstd::arithmetic::div_mod::lemma_fundamental_div_mod(i as int, 64);
        assert(i < self.words@.len() * 64);
        vstd::arithmetic::div_mod::lemma_multiply_divide_lt(
            i as int,
            self.words@.len() as int,
            64,
        );
    }

    /// Reads the bit at `index`.
    pub fn get(&self, index: u64) -> (b: bool)
        requires
            self.inv(),
            index < self@.len(),
        ensures
            b == self@[index as int],
    {
        proof {
            self.lemma_word_index(index);
        }
        let wi: u64 = index / 64;
        let bi: u64 = index % 64;
        let wlen: usize = self.words.len();
        assert(wi < wlen);
        let w: u64 = self.words[wi as usize];
        (w >> bi) & 1 == 1
    }

    /// Sets the bit at `index` to true, leaving every other bit as it was.
    pub fn set(&mut self, index: u64)
        requires
            old(self).inv(),
            index < old(self)@.len(),
        ensures
            final(self).inv(),
            final(self)@ == old(self)@.update(index as int, true),
    {
        proof {
            self.lemma_word_index(index);
        }
        let wi: u64 = index / 64;
        let bi: u64 = index % 64;
        let wlen: usize = self.words.len();
        assert(wi < wlen);
        let w: u64 = self.words[wi as usize];
        let w2: u64 = w | (1u64 << bi);
        self.words.set(wi as usize, w2);
        proof {
            assert forall|j: int| 0 <= j < self.nbits implies self@[j] == old(self)@.update(
                index as int,
                true,
            )[j] by {
                vstd::arithmetic::div_mod::lemma_fundamental_div_mod(j, 64);
                vstd::arithmetic::div_mod::lemma_fundamental_div_mod(index as int, 64);
                if j / 64 == index as int / 64 {
                    lemma_or_bit(w, bi, (j % 64) as u64);
                }
            }
            assert(self@ =~= old(self)@.update(index as int, true));
        }
    }
}

/// Every bit of the zero word is clear.
proof fn lemma_zero_bit(b: u64)
    by (bit_vector)
    requires
        b < 64,
    ensures
        !nth_bit(0u64, b),
{
}

/// Setting one bit by `or` leaves every other bit of the word unchanged.
proof fn lemma_or_bit(w: u64, bi: u64, b: u64)
    by (bit_vector)
    requires
        bi < 64,
        b < 64,
    ensures
        b == bi ==> nth_bit(w | (1u64 << bi), b),
        b != bi ==> nth_bit(w | (1u64 << bi), b) == nth_bit(w, b),
{
}

} // verus!
