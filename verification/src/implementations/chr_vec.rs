//! A consistent hash ring kept as a vector of virtual nodes in ascending order
//! of position.

use crate::consistent_hash_ring::{is_foreign_to, is_replica_batch, ConsitentHashRing};
use crate::hashing::{hash_str, seahash_of};
use crate::replica_key::{is_replica_of, replica_key, replica_key_of};
use crate::virtual_node::{
    is_sorted_merge, lemma_filter_sorted, lemma_first_at_or_after, lemma_sorted_merge_len,
    served_by, sorted_by_hash, VirtualNode,
};
use vstd::multiset::group_multiset_axioms;
use vstd::prelude::*;
use vstd::seq_lib::{group_to_multiset_ensures, lemma_multiset_commutative};

verus! {

/// One virtual node as the ring stores it.
pub struct CHRVecNode<ConsumerInfo> where ConsumerInfo: Clone {
    /// The position of the node on the ring.
    pub hash: u64,
    /// The key that the position was derived from.
    pub key: String,
    /// Data stored about the consumer, like IP address, port, etc.
    pub data: ConsumerInfo,
}

impl<ConsumerInfo> View for CHRVecNode<ConsumerInfo> where ConsumerInfo: Clone {
    type V = VirtualNode<ConsumerInfo>;

    open spec fn view(&self) -> VirtualNode<ConsumerInfo> {
        VirtualNode { hash: self.hash, key: self.key@, data: self.data }
    }
}

impl<ConsumerInfo> Clone for CHRVecNode<ConsumerInfo> where ConsumerInfo: Clone {
    /// A node at the same position under the same key, with a clone of the
    /// data.
    fn clone(&self) -> (copy: Self)
        ensures
            copy.hash == self.hash,
            copy.key@ == self.key@,
            cloned(self.data, copy.data),
    {
        CHRVecNode { hash: self.hash, key: self.key.clone(), data: self.data.clone() }
    }
}

/// The model of a vector of stored nodes.
pub open spec fn node_views<T: Clone>(s: Seq<CHRVecNode<T>>) -> Seq<VirtualNode<T>> {
    s.map_values(|n: CHRVecNode<T>| n@)
}

/// The nodes stand in descending order of position.
spec fn descending<T>(s: Seq<VirtualNode<T>>) -> bool {
    forall|i: int, j: int| 0 <= i <= j < s.len() ==> s[i].hash >= s[j].hash
}

/// No node of `low` lies after a node of `high`.
spec fn none_after<T>(low: Seq<VirtualNode<T>>, high: Seq<VirtualNode<T>>) -> bool {
    forall|i: int, j: int| 0 <= i < low.len() && 0 <= j < high.len() ==> low[i].hash <= high[j].hash
}

/// What three sequences hold together.
spec fn held_together<A>(a: Seq<A>, b: Seq<A>, c: Seq<A>) -> vstd::multiset::Multiset<A> {
    a.to_multiset().add(b.to_multiset()).add(c.to_multiset())
}

/// An empty sequence holds nothing.
proof fn lemma_empty_holds_nothing<A>(a: Seq<A>, b: Seq<A>, c: Seq<A>)
    requires
        c.len() == 0,
    ensures
        held_together(a, b, c) =~= a.to_multiset().add(b.to_multiset()),
        held_together(a, c, b) =~= a.to_multiset().add(b.to_multiset()),
        a.to_multiset().add(c.to_multiset()) =~= a.to_multiset(),
{
    broadcast use {group_to_multiset_ensures, group_multiset_axioms};

    assert(c.to_multiset().len() == 0);
    assert forall|x: A| c.to_multiset().count(x) == 0 by {
        assert(c.to_multiset().count(x) <= c.to_multiset().len());
    }
}

/// Moving the last element of one sequence to the end of another keeps what
/// the sequences hold together.
proof fn lemma_move_last<A>(from: Seq<A>, other: Seq<A>, to: Seq<A>)
    requires
        from.len() > 0,
    ensures
        held_together(from.drop_last(), other, to.push(from.last())) =~= held_together(
            from,
            other,
            to,
        ),
        held_together(other, from.drop_last(), to.push(from.last())) =~= held_together(
            other,
            from,
            to,
        ),
        held_together(to.push(from.last()), other, from.drop_last()) =~= held_together(
            to,
            other,
            from,
        ),
{
    broadcast use {group_to_multiset_ensures, group_multiset_axioms};

    assert(from =~= from.drop_last().push(from.last()));
    assert(from.to_multiset() =~= from.drop_last().to_multiset().insert(from.last()));
    assert(to.push(from.last()).to_multiset() =~= to.to_multiset().insert(from.last()));
}

/// Merges a sorted batch into a sorted vector. Nodes of the vector that lie
/// before every node of the batch are not moved.
fn merge_sorted<T: Clone>(target: &mut Vec<CHRVecNode<T>>, batch: Vec<CHRVecNode<T>>)
    requires
        sorted_by_hash(node_views(old(target)@)),
        sorted_by_hash(node_views(batch@)),
    ensures
        is_sorted_merge(node_views(old(target)@), node_views(batch@), node_views(final(target)@)),
{
    let ghost pre = node_views(target@);
    let ghost added = node_views(batch@);
    let mut batch = batch;
    // The nodes that go behind what is left of `target`, last one first.
    let mut tail: Vec<CHRVecNode<T>> = Vec::new();
    proof {
        lemma_empty_holds_nothing(pre, added, node_views(tail@));
    }
    while batch.len() > 0
        invariant
            sorted_by_hash(node_views(target@)),
            sorted_by_hash(node_views(batch@)),
            descending(node_views(tail@)),
            none_after(node_views(target@), node_views(tail@)),
            none_after(node_views(batch@), node_views(tail@)),
            held_together(node_views(target@), node_views(batch@), node_views(tail@))
                =~= pre.to_multiset().add(added.to_multiset()),
        decreases target.len() + batch.len(),
    {
        let ghost t0 = node_views(target@);
        let ghost b0 = node_views(batch@);
        let ghost l0 = node_views(tail@);
        let from_target = target.len() > 0 && target[target.len() - 1].hash >= batch[batch.len()
            - 1].hash;
        let node = if from_target {
            proof {
                lemma_move_last(t0, b0, l0);
            }
            target.pop().unwrap()
        } else {
            proof {
                lemma_move_last(b0, t0, l0);
            }
            batch.pop().unwrap()
        };
        tail.push(node);
        proof {
            let t1 = node_views(target@);
            let b1 = node_views(batch@);
            let l1 = node_views(tail@);
            assert(l1 =~= l0.push(node@));
            if from_target {
                assert(t1 =~= t0.drop_last());
                assert(node@ == t0.last());
                assert(b1 =~= b0);
                assert(b0.last().hash <= node@.hash);
            } else {
                assert(b1 =~= b0.drop_last());
                assert(node@ == b0.last());
                assert(t1 =~= t0);
                assert(t0.len() > 0 ==> t0.last().hash < node@.hash);
            }
            assert forall|i: int| 0 <= i < t0.len() implies t0[i].hash <= node@.hash by {
                assert(t0[i].hash <= t0.last().hash);
            }
            assert forall|i: int| 0 <= i < b0.len() implies b0[i].hash <= node@.hash by {
                assert(b0[i].hash <= b0.last().hash);
            }
            assert forall|i: int, j: int| 0 <= i < t1.len() && 0 <= j < l1.len() implies t1[i].hash
                <= l1[j].hash by {
                assert(t1[i] == t0[i]);
                if j < l0.len() {
                    assert(l1[j] == l0[j]);
                }
            }
            assert forall|i: int, j: int| 0 <= i < b1.len() && 0 <= j < l1.len() implies b1[i].hash
                <= l1[j].hash by {
                assert(b1[i] == b0[i]);
                if j < l0.len() {
                    assert(l1[j] == l0[j]);
                }
            }
            assert forall|i: int, j: int| 0 <= i <= j < l1.len() implies l1[i].hash
                >= l1[j].hash by {
                if j < l0.len() {
                    assert(l1[i] == l0[i] && l1[j] == l0[j]);
                } else if i < l0.len() {
                    assert(l1[i] == l0[i]);
                    if from_target {
                        assert(t0[t0.len() - 1].hash <= l0[i].hash);
                    } else {
                        assert(b0[b0.len() - 1].hash <= l0[i].hash);
                    }
                }
            }
        }
    }
    proof {
        lemma_empty_holds_nothing(node_views(target@), node_views(tail@), node_views(batch@));
    }
    while tail.len() > 0
        invariant
            sorted_by_hash(node_views(target@)),
            descending(node_views(tail@)),
            none_after(node_views(target@), node_views(tail@)),
            node_views(target@).to_multiset().add(node_views(tail@).to_multiset())
                =~= pre.to_multiset().add(added.to_multiset()),
        decreases tail.len(),
    {
        let ghost t0 = node_views(target@);
        let ghost l0 = node_views(tail@);
        let ghost none = Seq::<VirtualNode<T>>::empty();
        proof {
            lemma_empty_holds_nothing(t0, l0, none);
            lemma_move_last(l0, none, t0);
        }
        let node = tail.pop().unwrap();
        target.push(node);
        proof {
            let t1 = node_views(target@);
            let l1 = node_views(tail@);
            assert(l1 =~= l0.drop_last());
            assert(node@ == l0.last());
            assert(t1 =~= t0.push(node@));
            lemma_empty_holds_nothing(t1, l1, none);
            assert forall|i: int, j: int| 0 <= i <= j < t1.len() implies t1[i].hash
                <= t1[j].hash by {
                if j < t0.len() {
                    assert(t1[i] == t0[i] && t1[j] == t0[j]);
                } else if i < t0.len() {
                    assert(t1[i] == t0[i]);
                    assert(t0[i].hash <= l0[l0.len() - 1].hash);
                }
            }
            assert forall|i: int, j: int| 0 <= i < t1.len() && 0 <= j < l1.len() implies t1[i].hash
                <= l1[j].hash by {
                assert(l1[j] == l0[j]);
                if i < t0.len() {
                    assert(t1[i] == t0[i]);
                } else {
                    assert(l0[j].hash >= l0[l0.len() - 1].hash);
                }
            }
        }
    }
    proof {
        let none = Seq::<VirtualNode<T>>::empty();
        lemma_empty_holds_nothing(node_views(target@), none, node_views(tail@));
    }
}

/// Sorts nodes into ascending order of position. Nodes at one position keep
/// their order.
fn sort_by_hash<T: Clone>(nodes: Vec<CHRVecNode<T>>) -> (sorted: Vec<CHRVecNode<T>>)
    ensures
        sorted_by_hash(node_views(sorted@)),
        node_views(sorted@).to_multiset() =~= node_views(nodes@).to_multiset(),
    decreases nodes@.len(),
{
    let mut front = nodes;
    let n = front.len();
    if n <= 1 {
        return front;
    }
    let back = front.split_off(n / 2);
    proof {
        assert(node_views(nodes@) =~= node_views(front@) + node_views(back@));
        lemma_multiset_commutative(node_views(front@), node_views(back@));
    }
    let front = sort_by_hash(front);
    let mut back = sort_by_hash(back);
    // On equal positions `merge_sorted` lets the batch go first.
    merge_sorted(&mut back, front);
    back
}

/// Consistent Hash Ring implementation using vector
pub struct CHRVec<ConsumerInfo> where ConsumerInfo: Clone {
    consumers: Vec<CHRVecNode<ConsumerInfo>>,
    virtual_nodes: usize,
}

impl<ConsumerInfo> View for CHRVec<ConsumerInfo> where ConsumerInfo: Clone {
    type V = Seq<VirtualNode<ConsumerInfo>>;

    /// The virtual nodes on the ring, in ring order.
    closed spec fn view(&self) -> Seq<VirtualNode<ConsumerInfo>> {
        node_views(self.consumers@)
    }
}

impl<ConsumerInfo> CHRVec<ConsumerInfo> where ConsumerInfo: Clone {
    /// The ring is kept in ascending order of position.
    #[verifier::type_invariant]
    spec fn is_ordered(&self) -> bool {
        sorted_by_hash(node_views(self.consumers@))
    }

    /// An empty ring on which every consumer will stand at
    /// `virtual_nodes_per_consumer` virtual nodes.
    pub fn new(virtual_nodes_per_consumer: usize) -> (ring: Self)
        ensures
            ring@ == Seq::<VirtualNode<ConsumerInfo>>::empty(),
            ring.replication_factor() == virtual_nodes_per_consumer,
    {
        let ring = Self { consumers: Vec::new(), virtual_nodes: virtual_nodes_per_consumer };
        assert(ring@ =~= Seq::<VirtualNode<ConsumerInfo>>::empty());
        ring
    }

    /// The number of virtual nodes that stand for one consumer.
    pub fn virtual_nodes(&self) -> (n: usize)
        ensures
            n == self.replication_factor(),
    {
        self.virtual_nodes
    }

    /// The virtual nodes on the ring, in ring order.
    pub fn consumers(&self) -> (nodes: &Vec<CHRVecNode<ConsumerInfo>>)
        ensures
            node_views(nodes@) == self@,
            sorted_by_hash(self@),
    {
        proof {
            use_type_invariant(self);
        }
        &self.consumers
    }

    /// The position on the ring that a key hashes to.
    pub fn hash(key: &str) -> (position: u64)
        ensures
            position == seahash_of(key@),
    {
        hash_str(key)
    }

    /// Finds the consumer that serves a position: the one whose node comes
    /// first at or after it, the one of the first node where the position
    /// lies beyond the last node, and none on an empty ring.
    pub fn consumer_at(&self, position: u64) -> (consumer: Option<&ConsumerInfo>)
        ensures
            sorted_by_hash(self@),
            consumer is None <==> self@.len() == 0,
            match consumer {
                Some(data) => served_by(self@, position) == Some(*data),
                None => served_by(self@, position) is None,
            },
    {
        proof {
            use_type_invariant(self);
        }
        if self.consumers.is_empty() {
            return None;
        }
        let len = self.consumers.len();
        let mut low: usize = 0;
        let mut high: usize = len;
        while low < high
            invariant
                low <= high <= len,
                len == self.consumers@.len(),
                sorted_by_hash(node_views(self.consumers@)),
                forall|j: int| 0 <= j < low ==> (#[trigger] self.consumers@[j]).hash < position,
                forall|j: int| high <= j < len ==> (#[trigger] self.consumers@[j]).hash >= position,
            decreases high - low,
        {
            let middle = low + (high - low) / 2;
            if self.consumers[middle].hash < position {
                proof {
                    assert forall|j: int| 0 <= j < middle + 1 implies (
                    #[trigger] self.consumers@[j]).hash < position by {
                        assert(node_views(self.consumers@)[j].hash <= node_views(
                            self.consumers@,
                        )[middle as int].hash);
                    }
                }
                low = middle + 1;
            } else {
                proof {
                    assert forall|j: int| middle <= j < len implies (
                    #[trigger] self.consumers@[j]).hash >= position by {
                        assert(node_views(self.consumers@)[middle as int].hash <= node_views(
                            self.consumers@,
                        )[j].hash);
                    }
                }
                high = middle;
            }
        }
        let index = if low >= len {
            0
        } else {
            low
        };
        proof {
            lemma_first_at_or_after(self@, position, low as int);
        }
        Some(&self.consumers[index].data)
    }

    /// Merges a batch of nodes into the ring: the batch is sorted by position
    /// and then merged into the ring in one pass from the back. Which of two
    /// nodes at one position comes first is not promised.
    pub fn extend_consumers(&mut self, nodes_to_insert: Vec<CHRVecNode<ConsumerInfo>>)
        ensures
            final(self).replication_factor() == old(self).replication_factor(),
            final(self)@.len() == old(self)@.len() + nodes_to_insert@.len(),
            is_sorted_merge(old(self)@, node_views(nodes_to_insert@), final(self)@),
    {
        proof {
            use_type_invariant(&*self);
        }
        let ghost batch = node_views(nodes_to_insert@);
        let nodes_to_insert = sort_by_hash(nodes_to_insert);
        let mut ring: Vec<CHRVecNode<ConsumerInfo>> = Vec::new();
        core::mem::swap(&mut ring, &mut self.consumers);
        merge_sorted(&mut ring, nodes_to_insert);
        self.consumers = ring;
        proof {
            lemma_sorted_merge_len(old(self)@, batch, self@);
        }
    }
}

impl<ConsumerInfo> ConsitentHashRing for CHRVec<ConsumerInfo> where ConsumerInfo: Clone {
    type ConsumerInfo = ConsumerInfo;

    open spec fn nodes(&self) -> Seq<VirtualNode<ConsumerInfo>> {
        self@
    }

    closed spec fn replication_factor(&self) -> nat {
        self.virtual_nodes as nat
    }

    open spec fn position_of(key: Seq<char>) -> u64 {
        seahash_of(key)
    }

    fn add_consumer(&mut self, key: &str, data: ConsumerInfo)
        ensures
            exists|batch: Seq<VirtualNode<ConsumerInfo>>|
                is_replica_batch(
                    batch,
                    key@,
                    old(self).replication_factor(),
                    |key: Seq<char>| seahash_of(key),
                ) && #[trigger] is_sorted_merge(old(self)@, batch, final(self)@) && forall|i: int|
                    0 <= i < batch.len() ==> cloned(data, (#[trigger] batch[i]).data),
    {
        let mut nodes_to_insert: Vec<CHRVecNode<ConsumerInfo>> = Vec::new();
        let mut i: usize = 0;
        while i < self.virtual_nodes
            invariant
                i <= self.virtual_nodes,
                nodes_to_insert@.len() == i,
                is_replica_batch(
                    node_views(nodes_to_insert@),
                    key@,
                    i as nat,
                    |key: Seq<char>| seahash_of(key),
                ),
                forall|j: int|
                    0 <= j < i ==> cloned(data, (#[trigger] node_views(nodes_to_insert@)[j]).data),
            decreases self.virtual_nodes - i,
        {
            let ghost before = node_views(nodes_to_insert@);
            let node_key = replica_key(key, i);
            let hash = Self::hash(node_key.as_str());
            nodes_to_insert.push(CHRVecNode { hash, key: node_key, data: data.clone() });
            proof {
                let after = node_views(nodes_to_insert@);
                assert forall|j: int| 0 <= j < i + 1 implies (#[trigger] after[j]).key
                    == replica_key_of(key@, j as nat) && after[j].hash == seahash_of(after[j].key)
                    && cloned(data, after[j].data) by {
                    if j < i {
                        assert(after[j] == before[j]);
                    }
                }
            }
            i += 1;
        }
        let ghost batch = node_views(nodes_to_insert@);
        self.extend_consumers(nodes_to_insert);
        proof {
            assert(is_replica_batch(
                batch,
                key@,
                old(self).replication_factor(),
                |key: Seq<char>| seahash_of(key),
            ));
            assert(is_replica_batch(
                batch,
                key@,
                old(self).replication_factor(),
                |key: Seq<char>| Self::position_of(key),
            ));
        }
    }

    fn remove_consumer(&mut self, key: &str) {
        proof {
            use_type_invariant(&*self);
        }
        let mut ring: Vec<CHRVecNode<ConsumerInfo>> = Vec::new();
        core::mem::swap(&mut ring, &mut self.consumers);
        let ghost pre = node_views(ring@);
        let ghost keep = is_foreign_to::<ConsumerInfo>(key@);
        let mut kept: Vec<CHRVecNode<ConsumerInfo>> = Vec::new();
        proof {
            reveal(Seq::filter);
            assert(pre.take(0).filter(keep) =~= node_views(kept@));
        }
        for node in it: ring
            invariant
                keep == is_foreign_to::<ConsumerInfo>(key@),
                node_views(it.seq()) == pre,
                node_views(kept@) == pre.take(it.index() as int).filter(keep),
        {
            let ghost done = pre.take(it.index() as int);
            proof {
                assert(pre.take(it.index() + 1) =~= done.push(node@));
                done.lemma_filter_push(node@, keep);
            }
            if !is_replica_of(node.key.as_str(), key) {
                kept.push(node);
                proof {
                    assert(node_views(kept@) =~= done.filter(keep).push(node@));
                }
            }
        }
        proof {
            assert(pre.take(pre.len() as int) =~= pre);
            lemma_filter_sorted(pre, keep);
        }
        self.consumers = kept;
    }

    fn get_consumer(&self, key: &str) -> (consumer: Option<&ConsumerInfo>) {
        let hash = Self::hash(key);
        self.consumer_at(hash)
    }
}

} // verus!
