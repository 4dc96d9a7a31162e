//! A Bloom filter of 32 bits in a bit array, with an additive and a
//! place-value hash.

use crate::bloom_filter::BloomFilter;
use crate::bloom_filters::bit_stores::BitArrayStore;
use crate::bloom_filters::hashers::{
    additive_hash, additive_position, place_value_hash, place_value_position, quoted_bits_string,
    quoted_bits_text,
};
use vstd::prelude::*;

verus! {

/// A Bloom filter of 32 bits, kept in one word.
pub struct BloomFilter32BitVec {
    bits: BitArrayStore,
}

impl View for BloomFilter32BitVec {
    type V = Seq<bool>;

    /// The bits of the filter.
    closed spec fn view(&self) -> Seq<bool> {
        self.bits@
    }
}

impl Default for BloomFilter32BitVec {
    /// A filter with no bit set.
    fn default() -> (filter: Self)
        ensures
            filter@ == Seq::new(32, |i: int| false),
    {
        Self { bits: BitArrayStore::zeroed() }
    }
}

impl BloomFilter32BitVec {
    /// The filter has 32 bits.
    #[verifier::type_invariant]
    spec fn has_32_bits(&self) -> bool {
        self.bits@.len() == 32
    }

    /// The additive hash of a key, a position among the 32 bits.
    pub fn additive_hasher(&self, key: &str) -> (position: usize)
        ensures
            position == additive_hash(key@),
            position < 32,
    {
        additive_position(key, 0)
    }

    /// The place-value hash of a key, a position among the 32 bits.
    pub fn place_value_hasher(&self, key: &str) -> (position: usize)
        ensures
            position == place_value_hash(key@),
            position < 32,
    {
        place_value_position(key)
    }

    /// The bits of the filter.
    pub fn bits(&self) -> (bits: Vec<bool>)
        ensures
            bits@ == self@,
            bits@.len() == 32,
    {
        proof {
            use_type_invariant(self);
        }
        let mut bits: Vec<bool> = Vec::new();
        let mut i: usize = 0;
        while i < 32
            invariant
                i <= 32,
                self.bits@.len() == 32,
                bits@ == self.bits@.take(i as int),
            decreases 32 - i,
        {
            bits.push(self.bits.get(i));
            proof {
                assert(self.bits@.take(i + 1) =~= self.bits@.take(i as int).push(
                    self.bits@[i as int],
                ));
            }
            i += 1;
        }
        proof {
            assert(self.bits@.take(32) =~= self.bits@);
        }
        bits
    }

    /// The bits of the filter as text between double quotes: a one or a zero
    /// for each bit, each followed by a space.
    pub fn debug_string(&self) -> (text: String)
        ensures
            text@ == quoted_bits_text(self@),
    {
        let bits = self.bits();
        quoted_bits_string(bits.as_slice())
    }
}

impl BloomFilter for BloomFilter32BitVec {
    open spec fn may_contain(&self, key: Seq<char>) -> bool {
        self@[additive_hash(key) as int] && self@[place_value_hash(key) as int]
    }

    fn insert(&mut self, key: &str)
        ensures
            final(self)@ == old(self)@.update(additive_hash(key@) as int, true).update(
                place_value_hash(key@) as int,
                true,
            ),
    {
        proof {
            use_type_invariant(&*self);
        }
        let hash_a = self.additive_hasher(key);
        let hash_b = self.place_value_hasher(key);

        self.bits.set(hash_a, true);
        self.bits.set(hash_b, true);
    }

    fn contains(&self, key: &str) -> (answer: bool) {
        proof {
            use_type_invariant(self);
        }
        let hash_a = self.additive_hasher(key);
        let hash_b = self.place_value_hasher(key);

        self.bits.get(hash_a) && self.bits.get(hash_b)
    }
}

} // verus!
