//! A Bloom filter of 32 bits with one additive hash under two seeds.

use crate::bloom_filter::BloomFilter;
use crate::bloom_filters::hashers::{
    additive_position, quoted_bits_string, quoted_bits_text, seeded_additive_hash,
};
use vstd::prelude::*;

verus! {

/// A Bloom filter of 32 bits.
pub struct BloomFilter32 {
    /// The bits of the filter.
    pub bits: [bool; 32],
}

impl View for BloomFilter32 {
    type V = Seq<bool>;

    open spec fn view(&self) -> Seq<bool> {
        self.bits@
    }
}

impl BloomFilter32 {
    /// The additive hash of a key under a seed, a position among the 32 bits.
    pub fn additive_hasher(key: &str, seed: usize) -> (position: usize)
        ensures
            position == seeded_additive_hash(key@, seed as nat),
            position < 32,
    {
        additive_position(key, seed)
    }

    /// The bits of the filter as text between double quotes: a one or a zero
    /// for each bit, each followed by a space.
    pub fn debug_string(&self) -> (text: String)
        ensures
            text@ == quoted_bits_text(self@),
    {
        quoted_bits_string(vstd::array::array_as_slice(&self.bits))
    }
}

impl Default for BloomFilter32 {
    /// A filter with no bit set.
    fn default() -> (filter: Self)
        ensures
            filter@ == Seq::new(32, |i: int| false),
    {
        let filter = BloomFilter32 { bits: [false; 32] };
        assert(filter@ =~= Seq::new(32, |i: int| false));
        filter
    }
}

impl BloomFilter for BloomFilter32 {
    open spec fn may_contain(&self, key: Seq<char>) -> bool {
        self@[seeded_additive_hash(key, 0) as int] && self@[seeded_additive_hash(key, 1) as int]
    }

    fn insert(&mut self, key: &str)
        ensures
            final(self)@ == old(self)@.update(seeded_additive_hash(key@, 0) as int, true).update(
                seeded_additive_hash(key@, 1) as int,
                true,
            ),
    {
        let hash_a = Self::additive_hasher(key, 0);
        let hash_b = Self::additive_hasher(key, 1);

        self.bits[hash_a] = true;
        self.bits[hash_b] = true;
    }

    fn contains(&self, key: &str) -> (answer: bool) {
        let hash_a = Self::additive_hasher(key, 0);
        let hash_b = Self::additive_hasher(key, 1);

        self.bits[hash_a] && self.bits[hash_b]
    }
}

} // verus!
