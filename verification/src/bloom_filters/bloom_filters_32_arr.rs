//! A Bloom filter of 32 bits with an additive and a place-value hash.

use crate::bloom_filter::BloomFilter;
use crate::bloom_filters::hashers::{
    additive_hash, additive_position, place_value_hash, place_value_position, quoted_bits_string,
    quoted_bits_text,
};
use vstd::prelude::*;

verus! {

/// A Bloom filter of 32 bits.
pub struct BloomFilter32 {
    /// The bits of the filter.
    pub bits: [bool; 32],
}

impl View for BloomFilter32 {
    type V = Seq<bool>;

    open spec fn view(&self) -> Seq<bool> {
        self.bits@
    }
}

impl BloomFilter32 {
    /// The additive hash of a key, a position among the 32 bits.
    pub fn additive_hasher(&self, key: &str) -> (position: usize)
        ensures
            position == additive_hash(key@),
            position < 32,
    {
        additive_position(key, 0)
    }

    /// The place-value hash of a key, a position among the 32 bits.
    pub fn place_value_hasher(&self, key: &str) -> (position: usize)
        ensures
            position == place_value_hash(key@),
            position < 32,
    {
        place_value_position(key)
    }

    /// The bits of the filter as text between double quotes: a one or a zero
    /// for each bit, each followed by a space.
    pub fn debug_string(&self) -> (text: String)
        ensures
            text@ == quoted_bits_text(self@),
    {
        quoted_bits_string(vstd::array::array_as_slice(&self.bits))
    }
}

impl Default for BloomFilter32 {
    /// A filter with no bit set.
    fn default() -> (filter: Self)
        ensures
            filter@ == Seq::new(32, |i: int| false),
    {
        let filter = BloomFilter32 { bits: [false; 32] };
        assert(filter@ =~= Seq::new(32, |i: int| false));
        filter
    }
}

impl BloomFilter for BloomFilter32 {
    open spec fn may_contain(&self, key: Seq<char>) -> bool {
        self@[additive_hash(key) as int] && self@[place_value_hash(key) as int]
    }

    fn insert(&mut self, key: &str)
        ensures
            final(self)@ == old(self)@.update(additive_hash(key@) as int, true).update(
                place_value_hash(key@) as int,
                true,
            ),
    {
        let hash_a = self.additive_hasher(key);
        let hash_b = self.place_value_hasher(key);

        self.bits[hash_a] = true;
        self.bits[hash_b] = true;
    }

    fn contains(&self, key: &str) -> (answer: bool) {
        let hash_a = self.additive_hasher(key);
        let hash_b = self.place_value_hasher(key);

        self.bits[hash_a] && self.bits[hash_b]
    }
}

} // verus!
