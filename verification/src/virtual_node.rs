//! The mathematical model of a hash ring: a sequence of virtual nodes in ring
//! order, and what it means to look a position up on it.

use vstd::multiset::group_multiset_axioms;
use vstd::prelude::*;
use vstd::seq_lib::group_to_multiset_ensures;

verus! {

/// One replica point of a consumer on the ring.
pub ghost struct VirtualNode<T> {
    /// The position of the node on the ring.
    pub hash: u64,
    /// The key that the position was derived from.
    pub key: Seq<char>,
    /// What the ring hands out for the consumer that owns the node.
    pub data: T,
}

/// The positions of a sequence of nodes, in the same order.
pub open spec fn positions<T>(s: Seq<VirtualNode<T>>) -> Seq<u64> {
    s.map_values(|n: VirtualNode<T>| n.hash)
}

/// The nodes stand in ascending order of position. Equal positions may follow
/// each other in any order.
pub open spec fn sorted_by_hash<T>(s: Seq<VirtualNode<T>>) -> bool {
    forall|i: int, j: int| 0 <= i <= j < s.len() ==> s[i].hash <= s[j].hash
}

/// No two nodes share a position.
pub open spec fn distinct_positions<T>(s: Seq<VirtualNode<T>>) -> bool {
    forall|i: int, j: int| 0 <= i < j < s.len() ==> s[i].hash != s[j].hash
}

/// `post` holds exactly the nodes of `pre` and of `batch`, each as often as
/// the two hold it together, in ascending order of position.
pub open spec fn is_sorted_merge<T>(
    pre: Seq<VirtualNode<T>>,
    batch: Seq<VirtualNode<T>>,
    post: Seq<VirtualNode<T>>,
) -> bool {
    &&& sorted_by_hash(post)
    &&& post.to_multiset() =~= pre.to_multiset().add(batch.to_multiset())
}

/// A merge is as long as what went into it.
pub proof fn lemma_sorted_merge_len<T>(
    pre: Seq<VirtualNode<T>>,
    batch: Seq<VirtualNode<T>>,
    post: Seq<VirtualNode<T>>,
)
    requires
        is_sorted_merge(pre, batch, post),
    ensures
        post.len() == pre.len() + batch.len(),
{
    broadcast use {group_to_multiset_ensures, group_multiset_axioms};

    assert(post.to_multiset().len() == post.len());
    assert(pre.to_multiset().len() == pre.len());
    assert(batch.to_multiset().len() == batch.len());
}

/// Leaving nodes out of a sorted sequence leaves a sorted sequence.
pub proof fn lemma_filter_sorted<T>(s: Seq<VirtualNode<T>>, keep: spec_fn(VirtualNode<T>) -> bool)
    requires
        sorted_by_hash(s),
    ensures
        sorted_by_hash(s.filter(keep)),
        forall|i: int|
            0 <= i < s.filter(keep).len() ==> s.len() > 0 && (#[trigger] s.filter(keep)[i]).hash
                <= s.last().hash,
    decreases s.len(),
{
    reveal(Seq::filter);
    if s.len() > 0 {
        let lead = s.drop_last();
        assert forall|i: int, j: int| 0 <= i <= j < lead.len() implies lead[i].hash
            <= lead[j].hash by {
            assert(lead[i] == s[i] && lead[j] == s[j]);
        }
        lemma_filter_sorted(lead, keep);
        let kept = lead.filter(keep);
        assert forall|i: int| 0 <= i < kept.len() implies (#[trigger] kept[i]).hash
            <= s.last().hash by {
            assert(lead.last() == s[s.len() - 2]);
        }
    }
}

/// The index of the first node whose position is at least `h`, or the length
/// of the sequence where every node lies before `h`.
pub open spec fn first_at_or_after<T>(s: Seq<VirtualNode<T>>, h: u64) -> int
    decreases s.len(),
{
    if s.len() == 0 {
        0
    } else if s[0].hash >= h {
        0
    } else {
        1 + first_at_or_after(s.drop_first(), h)
    }
}

/// The index of the node that serves position `h`: the first node at or after
/// `h`, and the first node of the ring where `h` lies beyond the last one.
pub open spec fn successor_index<T>(s: Seq<VirtualNode<T>>, h: u64) -> int {
    let i = first_at_or_after(s, h);
    if i < s.len() {
        i
    } else {
        0
    }
}

/// What a ring with the nodes `s` hands out for position `h`: nothing where
/// the ring is empty, else the data of the node that serves `h`.
pub open spec fn served_by<T>(s: Seq<VirtualNode<T>>, h: u64) -> Option<T> {
    if s.len() == 0 {
        None
    } else {
        Some(s[successor_index(s, h)].data)
    }
}

/// A ring without nodes serves no position.
pub proof fn lemma_empty_ring_serves_nobody<T>(h: u64)
    ensures
        served_by(Seq::<VirtualNode<T>>::empty(), h) is None,
{
}

/// `first_at_or_after` is the one index that has only earlier positions
/// before it and does not itself lie before `h`.
pub proof fn lemma_first_at_or_after<T>(s: Seq<VirtualNode<T>>, h: u64, i: int)
    requires
        0 <= i <= s.len(),
        forall|j: int| 0 <= j < i ==> s[j].hash < h,
        i < s.len() ==> s[i].hash >= h,
    ensures
        first_at_or_after(s, h) == i,
    decreases s.len(),
{
    if s.len() == 0 {
    } else if i == 0 {
    } else {
        let t = s.drop_first();
        assert(s[0].hash < h);
        assert forall|j: int| 0 <= j < i - 1 implies t[j].hash < h by {
            assert(t[j] == s[j + 1]);
        }
        lemma_first_at_or_after(t, h, i - 1);
    }
}

/// Where `first_at_or_after` points: within the sequence or just past it, past
/// every node that lies before `h`, and at a node that does not.
pub proof fn lemma_first_at_or_after_bounds<T>(s: Seq<VirtualNode<T>>, h: u64)
    ensures
        0 <= first_at_or_after(s, h) <= s.len(),
        forall|j: int| 0 <= j < first_at_or_after(s, h) ==> s[j].hash < h,
        first_at_or_after(s, h) < s.len() ==> s[first_at_or_after(s, h)].hash >= h,
    decreases s.len(),
{
    if s.len() == 0 {
    } else if s[0].hash >= h {
    } else {
        let t = s.drop_first();
        lemma_first_at_or_after_bounds(t, h);
        let i = first_at_or_after(s, h);
        assert forall|j: int| 0 <= j < i implies s[j].hash < h by {
            if j > 0 {
                assert(t[j - 1] == s[j]);
            }
        }
        if i < s.len() {
            assert(t[i - 1] == s[i]);
        }
    }
}

/// A position beyond every node of a sorted, non-empty ring is served by the
/// first node, and no node lies before that one.
pub proof fn lemma_wraparound<T>(s: Seq<VirtualNode<T>>, h: u64)
    requires
        sorted_by_hash(s),
        s.len() > 0,
        forall|i: int| 0 <= i < s.len() ==> s[i].hash < h,
    ensures
        successor_index(s, h) == 0,
        served_by(s, h) == Some(s[0].data),
        forall|i: int| 0 <= i < s.len() ==> s[0].hash <= (#[trigger] s[i]).hash,
{
    lemma_first_at_or_after(s, h, s.len() as int);
}

/// Two sorted sequences that hold the same nodes have the same positions in
/// the same order. Where no two nodes share a position they are the same
/// sequence: only nodes at one position can change places.
pub proof fn lemma_sorted_same_nodes<T>(a: Seq<VirtualNode<T>>, b: Seq<VirtualNode<T>>)
    requires
        sorted_by_hash(a),
        sorted_by_hash(b),
        a.to_multiset() =~= b.to_multiset(),
    ensures
        positions(a) == positions(b),
        distinct_positions(a) ==> a == b,
    decreases a.len(),
{
    broadcast use {group_to_multiset_ensures, group_multiset_axioms};

    assert(a.len() == b.len()) by {
        assert(a.to_multiset().len() == a.len());
        assert(b.to_multiset().len() == b.len());
    }
    if a.len() == 0 {
        assert(positions(a) =~= positions(b));
        assert(a =~= b);
    } else {
        let x = a.last();
        let y = b.last();
        assert(a.contains(x));
        assert(b.to_multiset().count(x) > 0);
        assert(b.contains(x));
        let j = choose|j: int| 0 <= j < b.len() && b[j] == x;
        assert(b.contains(y));
        assert(a.to_multiset().count(y) > 0);
        assert(a.contains(y));
        let k = choose|k: int| 0 <= k < a.len() && a[k] == y;
        assert(a[k].hash <= x.hash);
        assert(b[j].hash <= y.hash);
        assert(x.hash == y.hash);
        let lead = a.drop_last();
        let rest = b.remove(j);
        assert(a =~= lead.push(x));
        assert(lead.to_multiset() =~= a.to_multiset().remove(x));
        assert(rest.to_multiset() =~= b.to_multiset().remove(x));
        assert forall|i: int, m: int| 0 <= i <= m < lead.len() implies lead[i].hash
            <= lead[m].hash by {
            assert(lead[i] == a[i] && lead[m] == a[m]);
        }
        assert forall|i: int, m: int| 0 <= i <= m < rest.len() implies rest[i].hash
            <= rest[m].hash by {
            let i0 = if i < j {
                i
            } else {
                i + 1
            };
            let m0 = if m < j {
                m
            } else {
                m + 1
            };
            assert(rest[i] == b[i0] && rest[m] == b[m0]);
        }
        lemma_sorted_same_nodes(lead, rest);
        assert forall|i: int| 0 <= i < a.len() implies positions(a)[i] == positions(b)[i] by {
            if i < j {
                assert(positions(lead)[i] == lead[i].hash);
                assert(positions(rest)[i] == rest[i].hash);
                assert(rest[i] == b[i]);
            } else {
                assert(b[j].hash <= b[i].hash <= b[b.len() - 1].hash);
                if i < a.len() - 1 {
                    assert(positions(lead)[i] == lead[i].hash);
                    assert(positions(rest)[i] == rest[i].hash);
                    assert(rest[i] == b[i + 1]);
                    assert(b[j].hash <= b[i + 1].hash <= b[b.len() - 1].hash);
                }
            }
        }
        assert(positions(a) =~= positions(b));
        if distinct_positions(a) {
            assert forall|i: int| 0 <= i < a.len() implies a[i] == b[i] by {
                assert(a.contains(a[i]));
                assert(b.to_multiset().count(a[i]) > 0);
                assert(b.contains(a[i]));
                let m = choose|m: int| 0 <= m < b.len() && b[m] == a[i];
                assert(positions(a)[m] == positions(b)[m]);
                assert(a[m].hash == b[m].hash);
                if m < i {
                    assert(a[m].hash != a[i].hash);
                } else if i < m {
                    assert(a[i].hash != a[m].hash);
                }
            }
            assert(a =~= b);
        }
    }
}

/// The batches of a history, one after the other.
pub open spec fn accumulated<T>(batches: Seq<Seq<VirtualNode<T>>>) -> Seq<VirtualNode<T>>
    decreases batches.len(),
{
    if batches.len() == 0 {
        Seq::empty()
    } else {
        accumulated(batches.drop_last()) + batches.last()
    }
}

/// `rings` is what a ring went through while the `batches` were merged into
/// it one by one, starting empty.
pub open spec fn is_merge_history<T>(
    rings: Seq<Seq<VirtualNode<T>>>,
    batches: Seq<Seq<VirtualNode<T>>>,
) -> bool {
    &&& rings.len() == batches.len() + 1
    &&& rings[0].len() == 0
    &&& forall|i: int|
        0 <= i < batches.len() ==> is_sorted_merge(rings[i], #[trigger] batches[i], rings[i + 1])
}

/// Merging batch after batch into an empty ring leaves the ring sorted, with
/// exactly the nodes of all the batches.
pub proof fn lemma_merges_hold_all_batches<T>(
    rings: Seq<Seq<VirtualNode<T>>>,
    batches: Seq<Seq<VirtualNode<T>>>,
)
    requires
        is_merge_history(rings, batches),
    ensures
        sorted_by_hash(rings.last()),
        rings.last().to_multiset() =~= accumulated(batches).to_multiset(),
    decreases batches.len(),
{
    broadcast use {group_to_multiset_ensures, group_multiset_axioms};

    if batches.len() == 0 {
        assert(rings.last() =~= accumulated(batches));
    } else {
        let earlier_rings = rings.drop_last();
        let earlier = batches.drop_last();
        assert forall|i: int| 0 <= i < earlier.len() implies is_sorted_merge(
            earlier_rings[i],
            #[trigger] earlier[i],
            earlier_rings[i + 1],
        ) by {
            assert(is_sorted_merge(rings[i], batches[i], rings[i + 1]));
        }
        lemma_merges_hold_all_batches(earlier_rings, earlier);
        let last = batches.len() - 1;
        assert(is_sorted_merge(rings[last], batches[last], rings[last + 1]));
        assert(earlier_rings.last() == rings[last]);
        vstd::seq_lib::lemma_multiset_commutative(accumulated(earlier), batches.last());
    }
}

/// The ring that merging batch after batch leaves is the ring that sorting
/// all the batches at once gives: the same positions in the same order, and
/// the same sequence of nodes where no two nodes share a position.
pub proof fn lemma_merging_is_sorting_at_once<T>(
    rings: Seq<Seq<VirtualNode<T>>>,
    batches: Seq<Seq<VirtualNode<T>>>,
    sorted_at_once: Seq<VirtualNode<T>>,
)
    requires
        is_merge_history(rings, batches),
        sorted_by_hash(sorted_at_once),
        sorted_at_once.to_multiset() =~= accumulated(batches).to_multiset(),
    ensures
        positions(rings.last()) == positions(sorted_at_once),
        distinct_positions(sorted_at_once) ==> rings.last() == sorted_at_once,
{
    lemma_merges_hold_all_batches(rings, batches);
    lemma_sorted_same_nodes(sorted_at_once, rings.last());
}

} // verus!
