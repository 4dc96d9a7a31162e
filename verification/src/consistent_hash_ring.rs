//! What every consistent hash ring offers, and what its operations promise.

use crate::replica_key::{is_replica_key, replica_key_of};
use crate::virtual_node::{
    distinct_positions, is_sorted_merge, lemma_filter_sorted, lemma_sorted_merge_len,
    lemma_sorted_same_nodes, positions, served_by, sorted_by_hash, VirtualNode,
};
use vstd::multiset::group_multiset_axioms;
use vstd::prelude::*;
use vstd::seq_lib::group_to_multiset_ensures;

verus! {

/// `batch` holds the `n` replicas of the consumer `key`, replica `i` at
/// index `i`, each at the position that `position` gives its key.
pub open spec fn is_replica_batch<T>(
    batch: Seq<VirtualNode<T>>,
    key: Seq<char>,
    n: nat,
    position: spec_fn(Seq<char>) -> u64,
) -> bool {
    &&& batch.len() == n
    &&& forall|i: int|
        0 <= i < n ==> {
            &&& (#[trigger] batch[i]).key == replica_key_of(key, i as nat)
            &&& batch[i].hash == position(batch[i].key)
        }
}

/// `post` is `pre` with the `n` replicas of the consumer `key` merged in, on
/// a ring that hashes keys by `position`.
pub open spec fn adds_consumer<T>(
    pre: Seq<VirtualNode<T>>,
    post: Seq<VirtualNode<T>>,
    key: Seq<char>,
    n: nat,
    position: spec_fn(Seq<char>) -> u64,
) -> bool {
    exists|batch: Seq<VirtualNode<T>>|
        is_replica_batch(batch, key, n, position) && #[trigger] is_sorted_merge(pre, batch, post)
}

/// The node is no replica of the consumer `key`.
pub open spec fn is_foreign_to<T>(key: Seq<char>) -> spec_fn(VirtualNode<T>) -> bool {
    |node: VirtualNode<T>| !is_replica_key(node.key, key)
}

/// The nodes of `s` that are no replicas of the consumer `key`, in the order
/// in which they stand in `s`.
pub open spec fn without_consumer<T>(s: Seq<VirtualNode<T>>, key: Seq<char>) -> Seq<
    VirtualNode<T>,
> {
    s.filter(is_foreign_to(key))
}

/// A consistent hash ring: consumers stand on a ring of positions at several
/// virtual nodes each, and a key is served by the consumer whose node comes
/// first at or after the key's position.
pub trait ConsitentHashRing {
    /// What the ring stores about a consumer and hands out on lookup.
    type ConsumerInfo;

    /// The virtual nodes on the ring, in ring order.
    spec fn nodes(&self) -> Seq<VirtualNode<Self::ConsumerInfo>>;

    /// The number of virtual nodes that stand for one consumer.
    spec fn replication_factor(&self) -> nat;

    /// The position on the ring that a key hashes to.
    spec fn position_of(key: Seq<char>) -> u64;

    /// Puts the replicas of a consumer on the ring.
    fn add_consumer(&mut self, key: &str, data: Self::ConsumerInfo)
        ensures
            final(self).replication_factor() == old(self).replication_factor(),
            final(self).nodes().len() == old(self).nodes().len() + old(self).replication_factor(),
            sorted_by_hash(final(self).nodes()),
            adds_consumer(
                old(self).nodes(),
                final(self).nodes(),
                key@,
                old(self).replication_factor(),
                |key: Seq<char>| Self::position_of(key),
            ),
    ;

    /// Takes every replica of a consumer off the ring.
    fn remove_consumer(&mut self, key: &str)
        ensures
            final(self).replication_factor() == old(self).replication_factor(),
            final(self).nodes() == without_consumer(old(self).nodes(), key@),
            sorted_by_hash(final(self).nodes()),
    ;

    /// Finds the consumer that serves a key: none on an empty ring.
    fn get_consumer(&self, key: &str) -> (consumer: Option<&Self::ConsumerInfo>)
        ensures
            sorted_by_hash(self.nodes()),
            consumer is None <==> self.nodes().len() == 0,
            match consumer {
                Some(data) => served_by(self.nodes(), Self::position_of(key@)) == Some(*data),
                None => served_by(self.nodes(), Self::position_of(key@)) is None,
            },
    ;
}

/// `rings` is what a ring of replication factor `n` went through while the
/// consumers `keys` were added to it one by one, starting empty.
pub open spec fn is_addition_history<T>(
    rings: Seq<Seq<VirtualNode<T>>>,
    keys: Seq<Seq<char>>,
    n: nat,
    position: spec_fn(Seq<char>) -> u64,
) -> bool {
    &&& rings.len() == keys.len() + 1
    &&& rings[0].len() == 0
    &&& forall|i: int|
        0 <= i < keys.len() ==> adds_consumer(
            rings[i],
            rings[i + 1],
            #[trigger] keys[i],
            n,
            position,
        )
}

/// A ring to which `k` consumers were added holds `k` times the replication
/// factor many nodes.
pub proof fn lemma_size_after_additions<T>(
    rings: Seq<Seq<VirtualNode<T>>>,
    keys: Seq<Seq<char>>,
    n: nat,
    position: spec_fn(Seq<char>) -> u64,
)
    requires
        is_addition_history(rings, keys, n, position),
    ensures
        rings.last().len() == keys.len() * n,
    decreases keys.len(),
{
    if keys.len() > 0 {
        let earlier_rings = rings.drop_last();
        let earlier = keys.drop_last();
        assert forall|i: int| 0 <= i < earlier.len() implies adds_consumer(
            earlier_rings[i],
            earlier_rings[i + 1],
            #[trigger] earlier[i],
            n,
            position,
        ) by {
            assert(adds_consumer(rings[i], rings[i + 1], keys[i], n, position));
        }
        lemma_size_after_additions(earlier_rings, earlier, n, position);
        let last = keys.len() - 1;
        assert(adds_consumer(rings[last], rings[last + 1], keys[last], n, position));
        let batch = choose|batch: Seq<VirtualNode<T>>|
            is_replica_batch(batch, keys[last], n, position) && #[trigger] is_sorted_merge(
                rings[last],
                batch,
                rings[last + 1],
            );
        lemma_sorted_merge_len(rings[last], batch, rings[last + 1]);
        assert(earlier_rings.last() == rings[last]);
        assert(rings.last() == rings[last + 1]);
        assert(earlier.len() == last);
        assert(last * n + n == (last + 1) * n) by (nonlinear_arith);
    } else {
        assert(rings.last() == rings[0]);
        assert(0 * n == 0) by (nonlinear_arith);
    }
}

/// The nodes that a filter keeps, as a multiset, are the multiset filtered.
proof fn lemma_filter_to_multiset<A>(s: Seq<A>, keep: spec_fn(A) -> bool)
    ensures
        s.filter(keep).to_multiset() =~= s.to_multiset().filter(keep),
    decreases s.len(),
{
    broadcast use {group_to_multiset_ensures, group_multiset_axioms};

    reveal(Seq::filter);
    if s.len() == 0 {
        assert(s.to_multiset().len() == 0);
        assert forall|x: A| s.to_multiset().count(x) == 0 by {
            assert(s.to_multiset().count(x) <= s.to_multiset().len());
        }
    } else {
        let lead = s.drop_last();
        lemma_filter_to_multiset(lead, keep);
        assert(s =~= lead.push(s.last()));
        assert(s.to_multiset() =~= lead.to_multiset().insert(s.last()));
    }
}

/// Removing a consumer that has no replica on the ring changes nothing.
pub proof fn lemma_removal_of_absent_consumer<T>(s: Seq<VirtualNode<T>>, key: Seq<char>)
    requires
        forall|i: int| 0 <= i < s.len() ==> !is_replica_key((#[trigger] s[i]).key, key),
    ensures
        without_consumer(s, key) == s,
    decreases s.len(),
{
    reveal(Seq::filter);
    if s.len() > 0 {
        let lead = s.drop_last();
        assert forall|i: int| 0 <= i < lead.len() implies !is_replica_key(
            (#[trigger] lead[i]).key,
            key,
        ) by {
            assert(lead[i] == s[i]);
        }
        lemma_removal_of_absent_consumer(lead, key);
        assert(!is_replica_key(s[s.len() - 1].key, key));
        assert(s =~= lead.push(s.last()));
    }
}

/// Removing a consumer right after it was added leaves no replica of it, and
/// leaves the nodes that the ring held before, but for earlier replicas of
/// the same consumer. Where there were none, the removal takes exactly the
/// replication factor many nodes and gives the sorted ring back: the same
/// positions in the same order, and the same sequence of nodes where no two
/// nodes share a position.
pub proof fn lemma_removal_after_addition<T>(
    pre: Seq<VirtualNode<T>>,
    mid: Seq<VirtualNode<T>>,
    key: Seq<char>,
    n: nat,
    position: spec_fn(Seq<char>) -> u64,
)
    requires
        adds_consumer(pre, mid, key, n, position),
    ensures
        forall|i: int, index: nat|
            0 <= i < without_consumer(mid, key).len() ==> (#[trigger] without_consumer(
                mid,
                key,
            )[i]).key != #[trigger] replica_key_of(key, index),
        sorted_by_hash(without_consumer(mid, key)),
        without_consumer(mid, key).to_multiset() =~= without_consumer(pre, key).to_multiset(),
        (forall|i: int| 0 <= i < pre.len() ==> !is_replica_key((#[trigger] pre[i]).key, key)) ==> {
            &&& without_consumer(mid, key).to_multiset() =~= pre.to_multiset()
            &&& without_consumer(mid, key).len() + n == mid.len()
            &&& sorted_by_hash(pre) ==> positions(without_consumer(mid, key)) == positions(pre)
            &&& sorted_by_hash(pre) && distinct_positions(pre) ==> without_consumer(mid, key)
                == pre
        },
{
    broadcast use {group_to_multiset_ensures, group_multiset_axioms};

    let keep = is_foreign_to::<T>(key);
    let post = without_consumer(mid, key);
    let batch = choose|batch: Seq<VirtualNode<T>>|
        is_replica_batch(batch, key, n, position) && #[trigger] is_sorted_merge(pre, batch, mid);
    assert forall|i: int, index: nat| 0 <= i < post.len() implies (#[trigger] post[i]).key
        != #[trigger] replica_key_of(key, index) by {
        mid.lemma_filter_pred(keep, i);
        assert(keep(post[i]));
    }
    lemma_filter_sorted(mid, keep);
    lemma_filter_to_multiset(mid, keep);
    lemma_filter_to_multiset(pre, keep);
    assert forall|x: VirtualNode<T>| batch.to_multiset().filter(keep).count(x) == 0 by {
        if batch.to_multiset().count(x) > 0 {
            assert(batch.contains(x));
            let i = choose|i: int| 0 <= i < batch.len() && batch[i] == x;
            assert(batch[i].key == replica_key_of(key, i as nat));
            assert(is_replica_key(x.key, key));
        }
    }
    assert(mid.to_multiset().filter(keep) =~= pre.to_multiset().filter(keep));
    if forall|i: int| 0 <= i < pre.len() ==> !is_replica_key((#[trigger] pre[i]).key, key) {
        lemma_removal_of_absent_consumer(pre, key);
        lemma_sorted_merge_len(pre, batch, mid);
        assert(post.to_multiset().len() == post.len());
        assert(pre.to_multiset().len() == pre.len());
        if sorted_by_hash(pre) {
            lemma_sorted_same_nodes(pre, post);
        }
    }
}

} // verus!
