//! Buckets: contiguous, size-bounded partitions of the identifier space.

use vstd::prelude::*;

use crate::key::key_avg;
use crate::key::key_eq;
use crate::key::key_le;
use crate::key::key_max_val;
use crate::key::key_space_end;
use crate::key::key_space_start;
use crate::key::key_succ;
use crate::key::key_val;
use crate::key::lemma_key_val_in_space;
use crate::key::lemma_midpoint_between;
use crate::key::Key;
use crate::node::Node;

verus! {

broadcast use vstd::seq_lib::group_to_multiset_ensures;

/// A contiguous sub-range of the identifier space holding at most a bounded
/// number of peer entries.  Both `start` and `end` are inclusive; adjacent
/// buckets of a table meet with no gap and no overlap because each range
/// begins one past its predecessor's end.
pub struct Bucket {
    pub start: Key,
    pub end: Key,
    pub nodes: Vec<Node>,
}

/// Whether an entry's identifier orders at or below the value `m`.
pub open spec fn id_at_most(n: Node, m: int) -> bool {
    key_val(n.id@) <= m
}

/// The identifiers of a sequence of entries, in entry order.
pub open spec fn ids_of(nodes: Seq<Node>) -> Seq<Seq<u8>> {
    nodes.map_values(|n: Node| n.id@)
}

/// Appending an entry appends its identifier.
pub proof fn lemma_ids_of_push(nodes: Seq<Node>, n: Node)
    ensures
        ids_of(nodes.push(n)) == ids_of(nodes).push(n.id@),
{
    assert(ids_of(nodes.push(n)) =~= ids_of(nodes).push(n.id@));
}

/// The entries whose identifiers order at or below `m`, in their original
/// order.
pub open spec fn entries_at_most(nodes: Seq<Node>, m: int) -> Seq<Node> {
    nodes.filter(|n: Node| id_at_most(n, m))
}

/// The entries whose identifiers order above `m`, in their original order.
pub open spec fn entries_above(nodes: Seq<Node>, m: int) -> Seq<Node> {
    nodes.filter(|n: Node| !id_at_most(n, m))
}

/// Appending an entry extends its side of a split and leaves the other side
/// unchanged.
pub proof fn lemma_entries_split_push(nodes: Seq<Node>, m: int, n: Node)
    ensures
        id_at_most(n, m) ==> entries_at_most(nodes.push(n), m) == entries_at_most(nodes, m).push(n)
            && entries_above(nodes.push(n), m) == entries_above(nodes, m),
        !id_at_most(n, m) ==> entries_above(nodes.push(n), m) == entries_above(nodes, m).push(n)
            && entries_at_most(nodes.push(n), m) == entries_at_most(nodes, m),
{
    reveal(Seq::filter);
    assert(nodes.push(n).drop_last() =~= nodes);
    assert(nodes.push(n).last() == n);
}

impl Bucket {
    /// Whether the bucket's range contains the identifier value `v`.
    pub open spec fn covers(self, v: int) -> bool {
        key_val(self.start@) <= v <= key_val(self.end@)
    }

    /// The bucket's range is non-empty and every entry lies inside it.
    pub open spec fn wf(self) -> bool {
        &&& key_val(self.start@) <= key_val(self.end@)
        &&& forall|j: int|
            0 <= j < self.nodes@.len() ==> self.covers(key_val((#[trigger] self.nodes@[j]).id@))
    }

    /// Whether some entry carries the identifier `id`.
    pub open spec fn has_id(self, id: Seq<u8>) -> bool {
        exists|j: int| 0 <= j < self.nodes@.len() && (#[trigger] self.nodes@[j]).id@ == id
    }

    /// The entries' identifiers, in entry order.
    pub open spec fn ids(self) -> Seq<Seq<u8>> {
        ids_of(self.nodes@)
    }

    /// The value a split of this bucket cuts at: the midpoint of its range.
    /// Entries at or below it stay; entries above it move to the new sibling.
    pub open spec fn split_point(self) -> int {
        (key_val(self.start@) + key_val(self.end@)) / 2
    }

    /// An empty bucket spanning the whole identifier space, with storage
    /// reserved for `with_size` entries.
    pub fn new(with_size: usize) -> (r: Bucket)
        ensures
            r.wf(),
            r.nodes@.len() == 0,
            key_val(r.start@) == 0,
            key_val(r.end@) == key_max_val(),
    {
        let start = key_space_start();
        let end = key_space_end();
        proof {
            lemma_key_val_in_space(start@);
        }
        Bucket::new_with_nodes(Vec::with_capacity(with_size), start, end)
    }

    /// A bucket with the given entries and range bounds.
    pub fn new_with_nodes(nodes: Vec<Node>, start: Key, end: Key) -> (r: Bucket)
        ensures
            r.nodes == nodes,
            r.start == start,
            r.end == end,
    {
        Bucket { start, end, nodes }
    }

    /// The position of the entry carrying `id`, if one is present.
    pub fn find(&self, id: &Key) -> (r: Option<usize>)
        ensures
            match r {
                Some(j) => j < self.nodes@.len() && self.nodes@[j as int].id@ == id@,
                None => !self.has_id(id@),
            },
    {
        let mut j: usize = 0;
        while j < self.nodes.len()
            invariant
                j <= self.nodes@.len(),
                forall|k: int| 0 <= k < j ==> (#[trigger] self.nodes@[k]).id@ != id@,
            decreases self.nodes@.len() - j,
        {
            if key_eq(&self.nodes[j].id, id) {
                return Some(j);
            }
            j += 1;
        }
        None
    }

    /// Split the bucket at the midpoint of its range: the lower half of the
    /// range, with the entries in it, stays here; the returned sibling covers
    /// the upper half and takes the remaining entries.  The two resulting
    /// ranges partition the original range exactly, with no gap and no
    /// overlap, and the entries of the two resulting buckets are exactly the
    /// original ones: a split neither creates nor destroys an entry.
    pub fn split(&mut self) -> (sib: Bucket)
        requires
            old(self).wf(),
            key_val(old(self).start@) < key_val(old(self).end@),
        ensures
            final(self).wf(),
            sib.wf(),
            final(self).start == old(self).start,
            sib.end == old(self).end,
            key_val(final(self).end@) == old(self).split_point(),
            key_val(sib.start@) == old(self).split_point() + 1,
            final(self).nodes@ == entries_at_most(old(self).nodes@, old(self).split_point()),
            sib.nodes@ == entries_above(old(self).nodes@, old(self).split_point()),
            final(self).nodes@.len() + sib.nodes@.len() == old(self).nodes@.len(),
            final(self).nodes@.to_multiset().add(sib.nodes@.to_multiset()) == old(
                self,
            ).nodes@.to_multiset(),
            final(self).ids().to_multiset().add(sib.ids().to_multiset()) == old(
                self,
            ).ids().to_multiset(),
    {
        let ghost m = old(self).split_point();
        proof {
            lemma_midpoint_between(key_val(self.start@), key_val(self.end@));
            lemma_key_val_in_space(self.end@);
        }
        let mid = key_avg(&self.start, &self.end);
        let upper_start = key_succ(&mid);
        let old_end = self.end;
        let cap = self.nodes.len();
        let mut lower: Vec<Node> = Vec::with_capacity(cap);
        let mut upper: Vec<Node> = Vec::with_capacity(cap);
        let mut k: usize = 0;
        while k < self.nodes.len()
            invariant
                k <= self.nodes@.len(),
                *self == *old(self),
                old(self).wf(),
                key_val(mid@) == m,
                m == old(self).split_point(),
                key_val(old(self).start@) <= m < key_val(old(self).end@),
                lower@ == entries_at_most(old(self).nodes@.take(k as int), m),
                upper@ == entries_above(old(self).nodes@.take(k as int), m),
                lower@.len() + upper@.len() == k,
                lower@.to_multiset().add(upper@.to_multiset()) == old(self).nodes@.take(
                    k as int,
                ).to_multiset(),
                ids_of(lower@).to_multiset().add(ids_of(upper@).to_multiset()) == ids_of(
                    old(self).nodes@.take(k as int),
                ).to_multiset(),
                forall|t: int|
                    0 <= t < lower@.len() ==> key_val(old(self).start@) <= key_val(
                        (#[trigger] lower@[t]).id@,
                    ) <= m,
                forall|t: int|
                    0 <= t < upper@.len() ==> m < key_val((#[trigger] upper@[t]).id@) <= key_val(
                        old(self).end@,
                    ),
            decreases self.nodes@.len() - k,
        {
            let ghost prefix = old(self).nodes@.take(k as int);
            let ghost lower0 = lower@;
            let ghost upper0 = upper@;
            let n = self.nodes[k];
            proof {
                assert(old(self).nodes@[k as int] == n);
                assert(old(self).nodes@.take(k + 1) =~= prefix.push(n));
                lemma_entries_split_push(prefix, m, n);
                lemma_ids_of_push(prefix, n);
                lemma_ids_of_push(lower0, n);
                lemma_ids_of_push(upper0, n);
            }
            if key_le(&n.id, &mid) {
                lower.push(n);
            } else {
                upper.push(n);
            }
            proof {
                assert(prefix.push(n).to_multiset() == prefix.to_multiset().insert(n));
                assert(ids_of(prefix).push(n.id@).to_multiset() == ids_of(
                    prefix,
                ).to_multiset().insert(n.id@));
                assert(ids_of(lower@).to_multiset().add(ids_of(upper@).to_multiset()) =~= ids_of(
                    prefix.push(n),
                ).to_multiset());
            }
            k += 1;
        }
        proof {
            assert(old(self).nodes@.take(old(self).nodes@.len() as int) =~= old(self).nodes@);
        }
        self.nodes = lower;
        self.end = mid;
        Bucket::new_with_nodes(upper, upper_start, old_end)
    }
}

} // verus!
