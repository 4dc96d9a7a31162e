//! A Bloom filter over a bit vector of any length, with as many SeaHash
//! positions to a key as the filter was made for.

use crate::bloom_filter::BloomFilter;
use crate::bloom_filters::bit_stores::BitVecStore;
use crate::hashing::seahash_seeded;
use vstd::prelude::*;
use vstd::utf8::encode_utf8;

verus! {

/// The position that a hash value selects among `len` bits: the value, cut
/// to the machine's word, modulo `len`.
pub open spec fn selected_position(hash: u64, len: nat) -> int {
    (hash as usize) as int % (len as int)
}

/// The position that the hash under `seed` gives a key among `len` bits: the
/// one that the SeaHash value of the key under the seed words `seed`, 0, 0, 0
/// selects.
pub open spec fn seeded_position(key: Seq<char>, seed: nat, len: nat) -> int {
    selected_position(seahash_seeded(encode_utf8(key), seed as u64, 0, 0, 0), len)
}

/// The positions of a key among `len` bits under the seeds `0` to
/// `hash_count - 1`.
pub open spec fn seeded_positions(key: Seq<char>, hash_count: nat, len: nat) -> Seq<int> {
    Seq::new(hash_count, |seed: int| seeded_position(key, seed as nat, len))
}

/// The bits with every bit at one of the positions set.
pub open spec fn with_bits_set(bits: Seq<bool>, positions: Seq<int>) -> Seq<bool> {
    Seq::new(bits.len(), |i: int| bits[i] || positions.contains(i))
}

/// Every bit at one of the positions is set.
pub open spec fn all_bits_set(bits: Seq<bool>, positions: Seq<int>) -> bool {
    forall|i: int| 0 <= i < positions.len() ==> bits[#[trigger] positions[i]]
}

/// A Bloom filter sized for a number of elements and a rate of false
/// positives.
#[derive(Debug)]
pub struct BloomFilterProd {
    bits: BitVecStore,
    hash_count: usize,
}

impl View for BloomFilterProd {
    type V = Seq<bool>;

    /// The bits of the filter.
    closed spec fn view(&self) -> Seq<bool> {
        self.bits@
    }
}

impl BloomFilterProd {
    /// A filter that hashes needs bits to hash to.
    #[verifier::type_invariant]
    spec fn has_bits_to_hash_to(&self) -> bool {
        self.hash_count > 0 ==> self.bits@.len() > 0
    }

    /// The number of positions that the filter gives a key.
    pub closed spec fn positions_per_key(&self) -> nat {
        self.hash_count as nat
    }

    /// A filter of `bit_count` zero bits that gives every key `hash_count`
    /// positions.
    pub fn with_counts(bit_count: usize, hash_count: usize) -> (filter: Self)
        requires
            bit_count <= usize::MAX / 8,
            hash_count > 0 ==> bit_count > 0,
        ensures
            filter@ == Seq::new(bit_count as nat, |i: int| false),
            filter.positions_per_key() == hash_count,
    {
        Self { bits: BitVecStore::zeroed(bit_count), hash_count }
    }

    /// The number of positions that the filter gives a key.
    pub fn hash_count(&self) -> (count: usize)
        ensures
            count == self.positions_per_key(),
            count > 0 ==> self@.len() > 0,
    {
        proof {
            use_type_invariant(self);
        }
        self.hash_count
    }

    /// The bits of the filter.
    pub fn bits(&self) -> (bits: Vec<bool>)
        ensures
            bits@ == self@,
    {
        let len = self.bits.len();
        let mut bits: Vec<bool> = Vec::new();
        let mut i: usize = 0;
        while i < len
            invariant
                i <= len,
                len == self.bits@.len(),
                bits@ == self.bits@.take(i as int),
            decreases len - i,
        {
            bits.push(self.bits.get(i));
            proof {
                assert(self.bits@.take(i + 1) =~= self.bits@.take(i as int).push(
                    self.bits@[i as int],
                ));
            }
            i += 1;
        }
        proof {
            assert(self.bits@.take(len as int) =~= self.bits@);
        }
        bits
    }

    /// The position that a hash value selects among the bits of the filter.
    pub fn position(&self, hash: u64) -> (position: usize)
        requires
            self@.len() > 0,
        ensures
            position == selected_position(hash, self@.len()),
            position < self@.len(),
    {
        (#[verifier::truncate] (hash as usize)) % self.bits.len()
    }

    /// The position that the hash under `seed` gives a key.
    pub fn hash(&self, key: &str, seed: usize) -> (position: usize)
        requires
            self@.len() > 0,
        ensures
            position == seeded_position(key@, seed as nat, self@.len()),
            position < self@.len(),
    {
        let hash = seahash::hash_seeded(key.as_bytes(), seed as u64, 0, 0, 0);
        self.position(hash)
    }
}

impl BloomFilter for BloomFilterProd {
    open spec fn may_contain(&self, key: Seq<char>) -> bool {
        all_bits_set(self@, seeded_positions(key, self.positions_per_key(), self@.len()))
    }

    fn insert(&mut self, key: &str)
        ensures
            final(self).positions_per_key() == old(self).positions_per_key(),
            final(self)@ == with_bits_set(
                old(self)@,
                seeded_positions(key@, old(self).positions_per_key(), old(self)@.len()),
            ),
    {
        proof {
            use_type_invariant(&*self);
        }
        let ghost positions = seeded_positions(key@, self.positions_per_key(), self@.len());
        let mut i: usize = 0;
        proof {
            assert(self@ =~= with_bits_set(old(self)@, positions.take(0)));
        }
        while i < self.hash_count
            invariant
                i <= self.hash_count,
                self.hash_count == old(self).hash_count,
                self.hash_count > 0 ==> self@.len() > 0,
                positions == seeded_positions(key@, old(self).positions_per_key(), old(self)@.len()),
                self@.len() == old(self)@.len(),
                self@ == with_bits_set(old(self)@, positions.take(i as int)),
            decreases self.hash_count - i,
        {
            let hash = self.hash(key, i);
            let ghost before = self@;
            self.bits.set(hash, true);
            proof {
                let earlier = positions.take(i as int);
                let now = positions.take(i + 1);
                assert(now =~= earlier.push(hash as int));
                assert forall|j: int| 0 <= j < before.len() implies (#[trigger] self@[j]) == (old(
                    self,
                )@[j] || now.contains(j)) by {
                    if j == hash {
                        assert(now[i as int] == j);
                    } else if earlier.contains(j) {
                        let m = choose|m: int| 0 <= m < earlier.len() && earlier[m] == j;
                        assert(now[m] == j);
                    } else if now.contains(j) {
                        let m = choose|m: int| 0 <= m < now.len() && now[m] == j;
                        assert(earlier[m] == j);
                    }
                }
                assert(self@ =~= with_bits_set(old(self)@, now));
            }
            i += 1;
        }
        proof {
            assert(positions.take(positions.len() as int) =~= positions);
            let all = seeded_positions(key@, self.positions_per_key(), self@.len());
            assert forall|i: int| 0 <= i < all.len() implies self@[#[trigger] all[i]] by {
                assert(positions.contains(positions[i]));
            }
            assert forall|other: Seq<char>| old(self).may_contain(other) implies #[trigger] self.may_contain(
                other,
            ) by {
                let theirs = seeded_positions(other, self.positions_per_key(), self@.len());
                assert forall|i: int| 0 <= i < theirs.len() implies self@[#[trigger] theirs[i]] by {
                    assert(old(self)@[theirs[i]]);
                }
            }
        }
    }

    fn contains(&self, key: &str) -> (answer: bool) {
        proof {
            use_type_invariant(self);
        }
        let ghost positions = seeded_positions(key@, self.positions_per_key(), self@.len());
        let mut i: usize = 0;
        while i < self.hash_count
            invariant
                i <= self.hash_count,
                self.hash_count > 0 ==> self@.len() > 0,
                positions == seeded_positions(key@, self.positions_per_key(), self@.len()),
                forall|j: int| 0 <= j < i ==> self@[#[trigger] positions[j]],
            decreases self.hash_count - i,
        {
            let hash = self.hash(key, i);
            if !self.bits.get(hash) {
                proof {
                    assert(!self@[positions[i as int]]);
                }
                return false;
            }
            i += 1;
        }
        true
    }
}

} // verus!
