//! What every Bloom filter offers: probably yes, definitely no.

use vstd::prelude::*;

verus! {

/// A set of keys that may answer yes for a key that was never inserted, and
/// never answers no for one that was.
pub trait BloomFilter {
    /// The filter answers yes for the key.
    spec fn may_contain(&self, key: Seq<char>) -> bool;

    /// Inserts a key. The filter answers yes for it from then on, and for
    /// every key for which it answered yes before.
    fn insert(&mut self, key: &str)
        ensures
            final(self).may_contain(key@),
            forall|other: Seq<char>|
                old(self).may_contain(other) ==> #[trigger] final(self).may_contain(other),
    ;

    /// probably yes, definitely no.
    fn contains(&self, key: &str) -> (answer: bool)
        ensures
            answer == self.may_contain(key@),
    ;
}

/// Inserts every key of `keys` into the filter, then asks the filter for
/// every key of `test_keys` and for every key of `keys`, in that order. The
/// answers for the inserted keys are all yes.
pub fn bloomy<B: BloomFilter>(bl: &mut B, keys: &Vec<&str>, test_keys: &Vec<&str>) -> (results:
    Vec<bool>)
    ensures
        results@.len() == test_keys@.len() + keys@.len(),
        forall|i: int|
            0 <= i < test_keys@.len() ==> results@[i] == final(bl).may_contain(
                (#[trigger] test_keys@[i])@,
            ),
        forall|i: int|
            0 <= i < keys@.len() ==> results@[test_keys@.len() + i] && final(bl).may_contain(
                (#[trigger] keys@[i])@,
            ),
        forall|other: Seq<char>|
            old(bl).may_contain(other) ==> #[trigger] final(bl).may_contain(other),
{
    let mut i: usize = 0;
    while i < keys.len()
        invariant
            i <= keys@.len(),
            forall|j: int| 0 <= j < i ==> bl.may_contain((#[trigger] keys@[j])@),
            forall|other: Seq<char>| old(bl).may_contain(other) ==> #[trigger] bl.may_contain(other),
        decreases keys@.len() - i,
    {
        bl.insert(keys[i]);
        i += 1;
    }
    let mut results: Vec<bool> = Vec::new();
    let mut i: usize = 0;
    while i < test_keys.len()
        invariant
            i <= test_keys@.len(),
            results@.len() == i,
            forall|j: int|
                0 <= j < i ==> results@[j] == bl.may_contain((#[trigger] test_keys@[j])@),
        decreases test_keys@.len() - i,
    {
        results.push(bl.contains(test_keys[i]));
        i += 1;
    }
    let mut i: usize = 0;
    while i < keys.len()
        invariant
            i <= keys@.len(),
            results@.len() == test_keys@.len() + i,
            forall|j: int| 0 <= j < keys@.len() ==> bl.may_contain((#[trigger] keys@[j])@),
            forall|j: int|
                0 <= j < test_keys@.len() ==> results@[j] == bl.may_contain(
                    (#[trigger] test_keys@[j])@,
                ),
            forall|j: int| 0 <= j < i ==> #[trigger] results@[test_keys@.len() + j],
        decreases keys@.len() - i,
    {
        results.push(bl.contains(keys[i]));
        i += 1;
    }
    results
}

} // verus!
