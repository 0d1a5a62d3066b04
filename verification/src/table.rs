//! The routing table: an ordered chain of buckets partitioning the
//! identifier space, refined around the local node's own identifier.

use vstd::multiset::Multiset;
use vstd::prelude::*;

use crate::bucket::Bucket;
use crate::key::key_le;
use crate::key::key_max_val;
use crate::key::key_val;
use crate::key::lemma_key_val_in_space;
use crate::key::lemma_key_val_injective;
use crate::key::Key;
use crate::key::KEY_LEN;
use crate::node::Node;

verus! {

broadcast use vstd::seq_lib::group_to_multiset_ensures;

/// The outcome of recording a peer with `Buckets::add_node`.
#[derive(Clone, Copy, PartialEq, Eq, Structural, Debug)]
pub enum AddResult {
    /// The peer was new and was appended to the bucket owning its identifier.
    Inserted,
    /// The peer was already known; its record was refreshed in place.
    Refreshed,
    /// The peer was new, but the bucket owning its identifier is full and is
    /// not the own bucket: the insertion was dropped.
    Dropped,
}

/// Each bucket's range begins one past its predecessor's end, so the chain
/// has no gap and no overlap.
pub open spec fn chain_linked(bs: Seq<Bucket>) -> bool {
    forall|i: int, j: int|
        0 <= i && j == i + 1 && j < bs.len() ==> key_val((#[trigger] bs[j]).start@) == key_val(
            (#[trigger] bs[i]).end@,
        ) + 1
}

/// Every bucket of the chain is well formed.
pub open spec fn buckets_wf(bs: Seq<Bucket>) -> bool {
    forall|i: int| 0 <= i < bs.len() ==> (#[trigger] bs[i]).wf()
}

/// The index of the bucket owning the value `v`: the first bucket whose end
/// is at or above `v`.
pub open spec fn owner_of(bs: Seq<Bucket>, v: int) -> int
    decreases bs.len(),
{
    if bs.len() <= 1 {
        0
    } else if v <= key_val(bs[0].end@) {
        0
    } else {
        1 + owner_of(bs.drop_first(), v)
    }
}

/// Whether some bucket of the chain holds an entry for `id`.
pub open spec fn chain_contains(bs: Seq<Bucket>, id: Seq<u8>) -> bool {
    exists|i: int| 0 <= i < bs.len() && (#[trigger] bs[i]).has_id(id)
}

/// The identifiers recorded along a chain, as a multiset.
pub open spec fn chain_ids(bs: Seq<Bucket>) -> Multiset<Seq<u8>>
    decreases bs.len(),
{
    if bs.len() == 0 {
        Multiset::empty()
    } else {
        chain_ids(bs.drop_last()).add(bs.last().ids().to_multiset())
    }
}

/// Bucket ranges advance strictly along a linked chain.
pub proof fn lemma_chain_monotonic(bs: Seq<Bucket>, i: int, j: int)
    requires
        buckets_wf(bs),
        chain_linked(bs),
        0 <= i <= j < bs.len(),
    ensures
        key_val(bs[i].end@) <= key_val(bs[j].end@),
        key_val(bs[i].start@) <= key_val(bs[j].start@),
        i < j ==> key_val(bs[i].end@) < key_val(bs[j].start@),
    decreases j - i,
{
    if i < j {
        lemma_chain_monotonic(bs, i, j - 1);
        assert(bs[j - 1].wf());
        assert(bs[j].wf());
        assert(key_val(bs[(j - 1) + 1].start@) == key_val(bs[j - 1].end@) + 1);
    } else {
        assert(bs[i].wf());
    }
}

/// The owner index names the one bucket of a linked chain covering `v`.
pub proof fn lemma_owner_of_correct(bs: Seq<Bucket>, v: int)
    requires
        bs.len() >= 1,
        buckets_wf(bs),
        chain_linked(bs),
        key_val(bs[0].start@) <= v <= key_val(bs[bs.len() - 1].end@),
    ensures
        0 <= owner_of(bs, v) < bs.len(),
        bs[owner_of(bs, v)].covers(v),
        forall|j: int| 0 <= j < bs.len() && j != owner_of(bs, v) ==> !(#[trigger] bs[j]).covers(v),
    decreases bs.len(),
{
    let w = owner_of(bs, v);
    if bs.len() == 1 {
        assert(bs[0].covers(v));
    } else if v <= key_val(bs[0].end@) {
        assert(bs[0].covers(v));
        assert forall|j: int| 1 <= j < bs.len() implies !(#[trigger] bs[j]).covers(v) by {
            lemma_chain_monotonic(bs, 0, j);
        }
    } else {
        let rest = bs.drop_first();
        assert(rest.len() == bs.len() - 1);
        assert(forall|t: int| 0 <= t < rest.len() ==> rest[t] == bs[t + 1]);
        assert(buckets_wf(rest)) by {
            assert forall|t: int| 0 <= t < rest.len() implies (#[trigger] rest[t]).wf() by {
                assert(rest[t] == bs[t + 1]);
            }
        }
        assert(chain_linked(rest)) by {
            assert forall|t: int, t2: int| 0 <= t && t2 == t + 1 && t2 < rest.len() implies key_val(
                (#[trigger] rest[t2]).start@,
            ) == key_val((#[trigger] rest[t]).end@) + 1 by {
                assert(rest[t] == bs[t + 1]);
                assert(rest[t2] == bs[t + 2]);
                assert(key_val(bs[t + 2].start@) == key_val(bs[t + 1].end@) + 1);
            }
        }
        let z: int = 0;
        assert(key_val(bs[z + 1].start@) == key_val(bs[z].end@) + 1);
        lemma_owner_of_correct(rest, v);
        assert(w == 1 + owner_of(rest, v));
        assert(bs[w] == rest[w - 1]);
        assert(bs[w].covers(v));
        assert forall|j: int| 0 <= j < bs.len() && j != w implies !(#[trigger] bs[j]).covers(v) by {
            if j == 0 {
            } else {
                assert(rest[j - 1] == bs[j]);
                assert(!rest[j - 1].covers(v));
            }
        }
    }
}

/// `chain_ids` distributes over concatenation.
pub proof fn lemma_chain_ids_concat(x: Seq<Bucket>, y: Seq<Bucket>)
    ensures
        chain_ids(x + y) == chain_ids(x).add(chain_ids(y)),
    decreases y.len(),
{
    if y.len() == 0 {
        assert(x + y =~= x);
        assert(chain_ids(x + y) =~= chain_ids(x).add(chain_ids(y)));
    } else {
        lemma_chain_ids_concat(x, y.drop_last());
        assert((x + y).drop_last() =~= x + y.drop_last());
        assert((x + y).last() == y.last());
        assert(chain_ids(x + y) =~= chain_ids(x).add(chain_ids(y)));
    }
}

/// `chain_ids` decomposes around any one bucket.
pub proof fn lemma_chain_ids_decompose(bs: Seq<Bucket>, i: int)
    requires
        0 <= i < bs.len(),
    ensures
        chain_ids(bs) == chain_ids(bs.take(i)).add(bs[i].ids().to_multiset()).add(
            chain_ids(bs.skip(i + 1)),
        ),
{
    let mid = seq![bs[i]];
    assert(bs =~= bs.take(i) + (mid + bs.skip(i + 1)));
    lemma_chain_ids_concat(bs.take(i), mid + bs.skip(i + 1));
    lemma_chain_ids_concat(mid, bs.skip(i + 1));
    assert(mid.drop_last() =~= Seq::<Bucket>::empty());
    assert(chain_ids(Seq::<Bucket>::empty()) == Multiset::<Seq<u8>>::empty());
    assert(chain_ids(mid) =~= bs[i].ids().to_multiset());
    assert(chain_ids(bs) =~= chain_ids(bs.take(i)).add(bs[i].ids().to_multiset()).add(
        chain_ids(bs.skip(i + 1)),
    ));
}

/// An identifier occurs in a bucket's multiset exactly when some entry
/// carries it.
pub proof fn lemma_bucket_ids_count(b: Bucket, id: Seq<u8>)
    ensures
        b.has_id(id) <==> b.ids().to_multiset().count(id) > 0,
{
    if b.has_id(id) {
        let j = choose|j: int| 0 <= j < b.nodes@.len() && (#[trigger] b.nodes@[j]).id@ == id;
        assert(b.ids()[j] == id);
        assert(b.ids().contains(id));
    }
    if b.ids().to_multiset().count(id) > 0 {
        assert(b.ids().contains(id));
        let j = choose|j: int| 0 <= j < b.ids().len() && b.ids()[j] == id;
        assert(b.nodes@[j].id@ == id);
    }
}

/// An identifier occurs in a chain's multiset exactly when some bucket
/// holds an entry for it.
pub proof fn lemma_chain_ids_count(bs: Seq<Bucket>, id: Seq<u8>)
    ensures
        (chain_ids(bs).count(id) > 0) <==> chain_contains(bs, id),
    decreases bs.len(),
{
    if bs.len() > 0 {
        let d = bs.drop_last();
        lemma_chain_ids_count(d, id);
        lemma_bucket_ids_count(bs.last(), id);
        if chain_ids(bs).count(id) > 0 {
            if chain_ids(d).count(id) > 0 {
                let i = choose|i: int| 0 <= i < d.len() && (#[trigger] d[i]).has_id(id);
                assert(bs[i] == d[i]);
                assert(bs[i].has_id(id));
            } else {
                assert(bs.last().has_id(id));
                assert(bs[bs.len() - 1].has_id(id));
            }
        }
        if exists|i: int| 0 <= i < bs.len() && (#[trigger] bs[i]).has_id(id) {
            let i = choose|i: int| 0 <= i < bs.len() && (#[trigger] bs[i]).has_id(id);
            if i < bs.len() - 1 {
                assert(d[i] == bs[i]);
                assert(d[i].has_id(id));
            } else {
                assert(bs.last().has_id(id));
            }
            assert(chain_ids(bs).count(id) > 0);
        }
    }
}

/// Replacing a bucket by two adjacent buckets that together hold the same
/// identifiers leaves the chain's identifier multiset unchanged.
pub proof fn lemma_chain_ids_split(bs: Seq<Bucket>, i: int, lo: Bucket, hi: Bucket)
    requires
        0 <= i < bs.len(),
        lo.ids().to_multiset().add(hi.ids().to_multiset()) == bs[i].ids().to_multiset(),
    ensures
        chain_ids(bs.update(i, lo).insert(i + 1, hi)) == chain_ids(bs),
{
    let s = bs.update(i, lo).insert(i + 1, hi);
    assert(s =~= bs.take(i) + (seq![lo, hi] + bs.skip(i + 1)));
    lemma_chain_ids_concat(bs.take(i), seq![lo, hi] + bs.skip(i + 1));
    lemma_chain_ids_concat(seq![lo, hi], bs.skip(i + 1));
    assert(seq![lo, hi].drop_last() =~= seq![lo]);
    assert(seq![lo].drop_last() =~= Seq::<Bucket>::empty());
    assert(chain_ids(Seq::<Bucket>::empty()) == Multiset::<Seq<u8>>::empty());
    assert(chain_ids(seq![lo]) =~= lo.ids().to_multiset());
    assert(chain_ids(seq![lo, hi]) =~= lo.ids().to_multiset().add(hi.ids().to_multiset()));
    lemma_chain_ids_decompose(bs, i);
    assert(chain_ids(s) =~= chain_ids(bs));
}

/// An identifier that the bucket covering it does not hold is absent from
/// the whole table.
pub proof fn lemma_absent(t: Buckets, i: int, id: Seq<u8>)
    requires
        t.wf(),
        0 <= i < t.buckets@.len(),
        t.buckets@[i].covers(key_val(id)),
        !t.buckets@[i].has_id(id),
        id.len() == KEY_LEN,
    ensures
        !t.contains_id(id),
{
    lemma_key_val_in_space(id);
    lemma_owner_of_correct(t.buckets@, key_val(id));
    let w = owner_of(t.buckets@, key_val(id));
    assert(i == w);
    assert forall|j: int| 0 <= j < t.buckets@.len() implies !(#[trigger] t.buckets@[j]).has_id(id) by {
        if t.buckets@[j].has_id(id) {
            let k = choose|k: int|
                0 <= k < t.buckets@[j].nodes@.len() && (#[trigger] t.buckets@[j].nodes@[k]).id@
                    == id;
            assert(t.buckets@[j].wf());
            assert(t.buckets@[j].covers(key_val(t.buckets@[j].nodes@[k].id@)));
            assert(t.buckets@[j].covers(key_val(id)));
            assert(j == w);
        }
    }
}

/// A bucket that covers `v` is the owner of `v`.
pub proof fn lemma_covers_is_owner(bs: Seq<Bucket>, i: int, v: int)
    requires
        bs.len() >= 1,
        buckets_wf(bs),
        chain_linked(bs),
        key_val(bs[0].start@) <= v <= key_val(bs[bs.len() - 1].end@),
        0 <= i < bs.len(),
        bs[i].covers(v),
    ensures
        owner_of(bs, v) == i,
{
    lemma_owner_of_correct(bs, v);
}

/// When no bucket up to `i` covers `v`, the walk can advance: a later bucket
/// covers `v`, and ranges keep growing.
pub proof fn lemma_advance(bs: Seq<Bucket>, i: int, v: int)
    requires
        bs.len() >= 1,
        buckets_wf(bs),
        chain_linked(bs),
        key_val(bs[0].start@) <= v <= key_val(bs[bs.len() - 1].end@),
        0 <= i < bs.len(),
        forall|j: int| 0 <= j <= i ==> !(#[trigger] bs[j]).covers(v),
    ensures
        i + 1 < bs.len(),
        key_val(bs[i].start@) < key_val(bs[i + 1].start@),
        key_val(bs[i + 1].start@) <= key_val(bs[i + 1].end@),
        key_val(bs[i + 1].end@) <= key_val(bs[bs.len() - 1].end@),
{
    lemma_owner_of_correct(bs, v);
    let w = owner_of(bs, v);
    assert(!bs[i].covers(v));
    assert(w > i);
    lemma_chain_monotonic(bs, i, i + 1);
    lemma_chain_monotonic(bs, i + 1, bs.len() - 1);
    assert(bs[i + 1].wf());
    assert(bs[i].wf());
}

/// Replacing bucket `i` of a well-formed chain by two adjacent buckets that
/// cut its range in two and share out its entries yields a well-formed chain
/// with the same recorded identifiers.
#[verifier::rlimit(100)]
pub proof fn lemma_chain_split(bsp: Seq<Bucket>, i: int, lo: Bucket, hi: Bucket, max: int)
    requires
        0 <= i < bsp.len(),
        buckets_wf(bsp),
        chain_linked(bsp),
        key_val(bsp[0].start@) == 0,
        key_val(bsp[bsp.len() - 1].end@) == key_max_val(),
        forall|t: int| 0 <= t < bsp.len() ==> (#[trigger] bsp[t]).nodes@.len() <= max,
        lo.wf(),
        hi.wf(),
        lo.start == bsp[i].start,
        hi.end == bsp[i].end,
        key_val(hi.start@) == key_val(lo.end@) + 1,
        key_val(lo.end@) < key_val(bsp[i].end@),
        lo.nodes@.len() + hi.nodes@.len() == bsp[i].nodes@.len(),
        lo.ids().to_multiset().add(hi.ids().to_multiset()) == bsp[i].ids().to_multiset(),
    ensures
        ({
            let bs2 = bsp.update(i, lo).insert(i + 1, hi);
            &&& bs2.len() == bsp.len() + 1
            &&& buckets_wf(bs2)
            &&& chain_linked(bs2)
            &&& key_val(bs2[0].start@) == 0
            &&& key_val(bs2[bs2.len() - 1].end@) == key_max_val()
            &&& (forall|t: int| 0 <= t < bs2.len() ==> (#[trigger] bs2[t]).nodes@.len() <= max)
            &&& chain_ids(bs2) == chain_ids(bsp)
            &&& (forall|x: Seq<u8>| #[trigger] chain_contains(bs2, x) <==> chain_contains(bsp, x))
            &&& (forall|t: int| 0 <= t < i ==> bs2[t] == bsp[t])
            &&& bs2[i] == lo
            &&& bs2[i + 1] == hi
        }),
{
    let bs2 = bsp.update(i, lo).insert(i + 1, hi);
    let u = bsp.update(i, lo);
    assert(bs2 == u.subrange(0, i + 1).push(hi) + u.subrange(i + 1, u.len() as int));
    assert(bs2.len() == bsp.len() + 1);
    assert forall|t: int| 0 <= t < i implies bs2[t] == bsp[t] by {
        assert(bs2[t] == u.subrange(0, i + 1)[t]);
    }
    assert(bs2[i] == lo);
    assert(bs2[i + 1] == hi);
    assert forall|t: int| i + 1 < t < bs2.len() implies bs2[t] == bsp[t - 1] by {
        assert(bs2[t] == u.subrange(i + 1, u.len() as int)[t - i - 2]);
    }
    assert(buckets_wf(bs2)) by {
        assert forall|t: int| 0 <= t < bs2.len() implies (#[trigger] bs2[t]).wf() by {
            if t < i {
                assert(bs2[t] == bsp[t]);
                assert(bsp[t].wf());
            } else if t > i + 1 {
                assert(bs2[t] == bsp[t - 1]);
                assert(bsp[t - 1].wf());
            }
        }
    }
    assert(chain_linked(bs2)) by {
        assert forall|t: int, t2: int| 0 <= t && t2 == t + 1 && t2 < bs2.len() implies key_val(
            (#[trigger] bs2[t2]).start@,
        ) == key_val((#[trigger] bs2[t]).end@) + 1 by {
            if t < i - 1 {
                assert(bs2[t] == bsp[t]);
                assert(bs2[t2] == bsp[t + 1]);
                assert(key_val(bsp[t + 1].start@) == key_val(bsp[t].end@) + 1);
            } else if t == i - 1 {
                assert(bs2[t] == bsp[t]);
                assert(key_val(bsp[t + 1].start@) == key_val(bsp[t].end@) + 1);
            } else if t == i || t == i + 1 {
            } else {
                assert(bs2[t] == bsp[t - 1]);
                assert(bs2[t2] == bsp[t]);
                assert(key_val(bsp[t].start@) == key_val(bsp[t - 1].end@) + 1);
            }
        }
    }
    assert(key_val(bs2[0].start@) == 0);
    assert(key_val(bs2[bs2.len() - 1].end@) == key_max_val()) by {
        if i + 1 == bs2.len() - 1 {
        } else {
            assert(bs2[bs2.len() - 1] == bsp[bsp.len() - 1]);
        }
    }
    assert forall|t: int| 0 <= t < bs2.len() implies (#[trigger] bs2[t]).nodes@.len() <= max by {
        if t < i {
            assert(bs2[t] == bsp[t]);
        } else if t > i + 1 {
            assert(bs2[t] == bsp[t - 1]);
        }
    }
    lemma_chain_ids_split(bsp, i, lo, hi);
    assert forall|x: Seq<u8>| #[trigger] chain_contains(bs2, x) <==> chain_contains(bsp, x) by {
        lemma_chain_ids_count(bs2, x);
        lemma_chain_ids_count(bsp, x);
    }
}

/// The routing table: the local node's identifier, the configured maximum
/// bucket size, and the ordered bucket chain partitioning the key space.
pub struct Buckets {
    pub buckets: Vec<Bucket>,
    pub own_id: Key,
    pub max_bucket_size: usize,
}

impl Buckets {
    /// The table invariant: the chain is non-empty, starts at the least
    /// identifier, ends at the greatest, is linked with no gap and no
    /// overlap, every bucket is well formed, and no bucket exceeds the
    /// configured maximum size.
    pub open spec fn wf(self) -> bool {
        &&& self.buckets@.len() >= 1
        &&& self.max_bucket_size >= 1
        &&& key_val(self.buckets@[0].start@) == 0
        &&& key_val(self.buckets@[self.buckets@.len() - 1].end@) == key_max_val()
        &&& buckets_wf(self.buckets@)
        &&& chain_linked(self.buckets@)
        &&& forall|i: int|
            0 <= i < self.buckets@.len() ==> (#[trigger] self.buckets@[i]).nodes@.len()
                <= self.max_bucket_size
    }

    /// Whether some bucket holds an entry for `id`.
    pub open spec fn contains_id(self, id: Seq<u8>) -> bool {
        chain_contains(self.buckets@, id)
    }

    /// All identifiers recorded in the table, as a multiset.
    pub open spec fn ids(self) -> Multiset<Seq<u8>> {
        chain_ids(self.buckets@)
    }

    /// The index of the bucket owning the value `v`.
    pub open spec fn owner_index(self, v: int) -> int {
        owner_of(self.buckets@, v)
    }

    /// The insertion that `add_node` rejects: the peer is new, but the
    /// bucket owning its identifier is full and is not the own bucket.
    pub open spec fn far_overflow(self, id: Seq<u8>) -> bool {
        &&& !self.contains_id(id)
        &&& self.buckets@[self.owner_index(key_val(id))].nodes@.len() >= self.max_bucket_size
        &&& !self.buckets@[self.owner_index(key_val(id))].covers(key_val(self.own_id@))
    }

    /// A table with the default maximum bucket size of 16, seeded with a
    /// single full-space bucket holding one entry for `own_id`.
    pub fn new(own_id: Key) -> (r: Buckets)
        ensures
            r.wf(),
            r.own_id == own_id,
            r.max_bucket_size == 16,
            r.buckets@.len() == 1,
            r.contains_id(own_id@),
            r.ids() == Multiset::<Seq<u8>>::empty().insert(own_id@),
    {
        match Buckets::new_with_size(own_id, 16) {
            Some(t) => t,
            None => vstd::pervasive::unreached(),
        }
    }

    /// A table with the given maximum bucket size, seeded with a single
    /// full-space bucket holding one entry for `own_id`.  A size of zero is
    /// rejected: it would leave every non-own bucket permanently rejecting
    /// and the own bucket splitting without bound.
    pub fn new_with_size(own_id: Key, max_bucket_size: usize) -> (r: Option<Buckets>)
        ensures
            r is Some <==> max_bucket_size >= 1,
            (match r {
                Some(t) => {
                    &&& t.wf()
                    &&& t.own_id == own_id
                    &&& t.max_bucket_size == max_bucket_size
                    &&& t.buckets@.len() == 1
                    &&& t.contains_id(own_id@)
                    &&& t.ids() == Multiset::<Seq<u8>>::empty().insert(own_id@)
                },
                None => true,
            }),
    {
        if max_bucket_size == 0 {
            return None;
        }
        let mut first = Bucket::new(max_bucket_size);
        first.nodes.push(Node::new(own_id));
        let mut buckets: Vec<Bucket> = Vec::new();
        buckets.push(first);
        let t = Buckets { buckets, own_id, max_bucket_size };
        proof {
            lemma_key_val_in_space(own_id@);
            assert(t.buckets@[0] == first);
            assert(first.nodes@[0].id@ == own_id@);
            assert(t.buckets@[0].has_id(own_id@));
            assert(t.wf());
            assert(t.buckets@.drop_last() =~= Seq::<Bucket>::empty());
            assert(chain_ids(Seq::<Bucket>::empty()) == Multiset::<Seq<u8>>::empty());
            assert(first.ids() =~= Seq::<Seq<u8>>::empty().push(own_id@));
            assert(Seq::<Seq<u8>>::empty().to_multiset() =~= Multiset::<Seq<u8>>::empty());
            assert(first.ids().to_multiset() == Seq::<Seq<u8>>::empty().to_multiset().insert(
                own_id@,
            ));
            assert(t.ids() =~= Multiset::<Seq<u8>>::empty().insert(own_id@));
        }
        Some(t)
    }

    /// Replace the record at position `j` of bucket `i` with a fresh record
    /// of the same peer, refreshing its observation time.
    #[verifier::rlimit(60)]
    fn refresh_at(&mut self, i: usize, j: usize, node: Key)
        requires
            old(self).wf(),
            i < old(self).buckets@.len(),
            j < old(self).buckets@[i as int].nodes@.len(),
            old(self).buckets@[i as int].nodes@[j as int].id@ == node@,
        ensures
            final(self).wf(),
            final(self).own_id == old(self).own_id,
            final(self).max_bucket_size == old(self).max_bucket_size,
            final(self).buckets@.len() == old(self).buckets@.len(),
            final(self).ids() == old(self).ids(),
            final(self).contains_id(node@),
            forall|t: int|
                0 <= t < old(self).buckets@.len() ==> (#[trigger] final(self).buckets@[t]).start
                    == old(self).buckets@[t].start && final(self).buckets@[t].end == old(
                    self,
                ).buckets@[t].end,
    {
        let ghost bsp = self.buckets@;
        let ghost ii = i as int;
        let fresh = Node::new(node);
        self.buckets[i].nodes[j] = fresh;
        proof {
            let b0 = bsp[ii];
            let b1 = self.buckets@[ii];
            assert(self.buckets@ =~= bsp.update(ii, b1));
            assert(b1.nodes@ == b0.nodes@.update(j as int, fresh));
            assert(b1.wf()) by {
                assert forall|t: int| 0 <= t < b1.nodes@.len() implies b1.covers(
                    key_val((#[trigger] b1.nodes@[t]).id@),
                ) by {
                    if t != j {
                        assert(b1.nodes@[t] == b0.nodes@[t]);
                    }
                    assert(b0.covers(key_val(b0.nodes@[t].id@)));
                }
            }
            assert(self.wf());
            assert(b1.ids() =~= b0.ids());
            lemma_chain_ids_decompose(bsp, ii);
            lemma_chain_ids_decompose(self.buckets@, ii);
            assert(self.buckets@.take(ii) =~= bsp.take(ii));
            assert(self.buckets@.skip(ii + 1) =~= bsp.skip(ii + 1));
            assert(self.ids() == chain_ids(bsp));
            assert(b1.nodes@[j as int].id@ == node@);
            assert(b1.has_id(node@));
            assert(self.contains_id(node@));
        }
    }

    /// Append a fresh record for a new peer to bucket `i`, which covers the
    /// peer's identifier and has room.
    #[verifier::rlimit(60)]
    fn push_at(&mut self, i: usize, node: Key)
        requires
            old(self).wf(),
            i < old(self).buckets@.len(),
            old(self).buckets@[i as int].covers(key_val(node@)),
            old(self).buckets@[i as int].nodes@.len() < old(self).max_bucket_size,
        ensures
            final(self).wf(),
            final(self).own_id == old(self).own_id,
            final(self).max_bucket_size == old(self).max_bucket_size,
            final(self).buckets@.len() == old(self).buckets@.len(),
            final(self).ids() == old(self).ids().insert(node@),
            final(self).contains_id(node@),
    {
        let ghost bsp = self.buckets@;
        let ghost ii = i as int;
        let fresh = Node::new(node);
        self.buckets[i].nodes.push(fresh);
        proof {
            let b0 = bsp[ii];
            let b1 = self.buckets@[ii];
            assert(self.buckets@ =~= bsp.update(ii, b1));
            assert(b1.nodes@ == b0.nodes@.push(fresh));
            assert(b1.wf()) by {
                assert forall|t: int| 0 <= t < b1.nodes@.len() implies b1.covers(
                    key_val((#[trigger] b1.nodes@[t]).id@),
                ) by {
                    if t < b0.nodes@.len() {
                        assert(b1.nodes@[t] == b0.nodes@[t]);
                        assert(b0.covers(key_val(b0.nodes@[t].id@)));
                    }
                }
            }
            assert(self.wf());
            assert(b1.ids() =~= b0.ids().push(node@));
            assert(b1.ids().to_multiset() == b0.ids().to_multiset().insert(node@));
            lemma_chain_ids_decompose(bsp, ii);
            lemma_chain_ids_decompose(self.buckets@, ii);
            assert(self.buckets@.take(ii) =~= bsp.take(ii));
            assert(self.buckets@.skip(ii + 1) =~= bsp.skip(ii + 1));
            assert(self.ids() =~= chain_ids(bsp).insert(node@));
            assert(b1.nodes@[b0.nodes@.len() as int].id@ == node@);
            assert(b1.has_id(node@));
            assert(self.contains_id(node@));
        }
    }

    /// Split bucket `i` at the midpoint of its range and chain the new
    /// sibling immediately after it.  The recorded identifiers are unchanged;
    /// only the partition is refined.
    #[verifier::rlimit(100)]
    fn split_at(&mut self, i: usize)
        requires
            old(self).wf(),
            i < old(self).buckets@.len(),
            key_val(old(self).buckets@[i as int].start@) < key_val(
                old(self).buckets@[i as int].end@,
            ),
        ensures
            final(self).wf(),
            final(self).own_id == old(self).own_id,
            final(self).max_bucket_size == old(self).max_bucket_size,
            final(self).buckets@.len() == old(self).buckets@.len() + 1,
            final(self).ids() == old(self).ids(),
            forall|x: Seq<u8>|
                #[trigger] final(self).contains_id(x) <==> old(self).contains_id(x),
            forall|t: int| 0 <= t < i ==> final(self).buckets@[t] == old(self).buckets@[t],
            final(self).buckets@[i as int].start == old(self).buckets@[i as int].start,
            key_val(final(self).buckets@[i as int].end@) < key_val(
                old(self).buckets@[i as int].end@,
            ),
            final(self).buckets@[i as int + 1].end == old(self).buckets@[i as int].end,
    {
        let ghost bsp = self.buckets@;
        let ghost ii = i as int;
        let n = self.buckets.len();
        assert(i < n);
        let sib = self.buckets[i].split();
        let ghost lo = self.buckets@[ii];
        self.buckets.insert(i + 1, sib);
        proof {
            let b0 = bsp[ii];
            vstd::arithmetic::div_mod::lemma_fundamental_div_mod(
                key_val(b0.start@) + key_val(b0.end@),
                2,
            );
            assert(key_val(lo.end@) < key_val(b0.end@));
            lemma_chain_split(bsp, ii, lo, sib, self.max_bucket_size as int);
            assert(self.buckets@ == bsp.update(ii, lo).insert(ii + 1, sib));
            assert(self.wf());
        }
    }

    /// Record the peer `node` in the table.  If the peer is already known
    /// its record is refreshed in place (identifiers are never duplicated).
    /// Otherwise the walk finds the bucket owning the identifier: if it has
    /// room the peer is appended; while it is full and contains the local
    /// node's own identifier it is split and the position re-evaluated; if
    /// it is full and is not the own bucket the insertion is dropped.  The
    /// walk never falls off the end of the chain: the ranges partition the
    /// space, so some bucket owns every identifier.
    #[verifier::rlimit(100)]
    pub fn add_node(&mut self, node: Key) -> (r: AddResult)
        requires
            old(self).wf(),
        ensures
            final(self).wf(),
            final(self).own_id == old(self).own_id,
            final(self).max_bucket_size == old(self).max_bucket_size,
            final(self).buckets@.len() >= old(self).buckets@.len(),
            (r == AddResult::Refreshed) <==> old(self).contains_id(node@),
            r == AddResult::Refreshed ==> final(self).buckets@.len() == old(self).buckets@.len()
                && (forall|t: int|
                0 <= t < old(self).buckets@.len() ==> (#[trigger] final(self).buckets@[t]).start
                    == old(self).buckets@[t].start && final(self).buckets@[t].end == old(
                    self,
                ).buckets@[t].end),
            final(self).contains_id(node@) <==> r != AddResult::Dropped,
            r == AddResult::Inserted ==> final(self).ids() == old(self).ids().insert(node@),
            r != AddResult::Inserted ==> final(self).ids() == old(self).ids(),
            r == AddResult::Dropped ==> final(self).far_overflow(node@),
            old(self).far_overflow(node@) ==> r == AddResult::Dropped && *final(self) == *old(
                self,
            ),
            (!old(self).contains_id(node@) && old(self).buckets@[old(self).owner_index(
                key_val(node@),
            )].nodes@.len() < old(self).max_bucket_size) ==> r == AddResult::Inserted,
    {
        let ghost vv = key_val(node@);
        proof {
            lemma_key_val_in_space(node@);
        }
        let mut i: usize = 0;
        loop
            invariant
                old(self).wf(),
                self.wf(),
                self.own_id == old(self).own_id,
                self.max_bucket_size == old(self).max_bucket_size,
                self.buckets@.len() >= old(self).buckets@.len(),
                i < self.buckets@.len(),
                vv == key_val(node@),
                node@.len() == KEY_LEN,
                0 <= vv <= key_max_val(),
                forall|j: int| 0 <= j < i ==> !(#[trigger] self.buckets@[j]).covers(vv),
                self.ids() == old(self).ids(),
                self.contains_id(node@) <==> old(self).contains_id(node@),
                old(self).contains_id(node@) ==> *self == *old(self),
                old(self).far_overflow(node@) ==> *self == *old(self),
                (!old(self).contains_id(node@) && old(self).buckets@[old(self).owner_index(
                    vv,
                )].nodes@.len() < old(self).max_bucket_size) ==> *self == *old(self),
            decreases
                    key_max_val() - key_val(self.buckets@[i as int].start@),
                    key_val(self.buckets@[i as int].end@) - key_val(
                        self.buckets@[i as int].start@,
                    ),
        {
            let ghost ii = i as int;
            let ghost pre = *self;
            let in_lo = key_le(&self.buckets[i].start, &node);
            let in_hi = key_le(&node, &self.buckets[i].end);
            if !(in_lo && in_hi) {
                let n = self.buckets.len();
                assert(i < n);
                proof {
                    assert(!self.buckets@[ii].covers(vv));
                    lemma_advance(self.buckets@, ii, vv);
                }
                i += 1;
                continue;
            }
            // the current bucket owns the identifier
            let found = self.buckets[i].find(&node);
            match found {
                Some(j) => {
                    // the peer is already known: refresh its record in place
                    proof {
                        assert(pre.buckets@[ii].has_id(node@));
                        assert(pre.contains_id(node@));
                    }
                    self.refresh_at(i, j, node);
                    return AddResult::Refreshed;
                },
                None => {
                    if self.buckets[i].nodes.len() < self.max_bucket_size {
                        // room in the owning bucket: append the new peer
                        proof {
                            lemma_absent(pre, ii, node@);
                            if old(self).far_overflow(node@) {
                                lemma_covers_is_owner(pre.buckets@, ii, vv);
                                assert(false);
                            }
                        }
                        self.push_at(i, node);
                        return AddResult::Inserted;
                    }
                    let own_lo = key_le(&self.buckets[i].start, &self.own_id);
                    let own_hi = key_le(&self.own_id, &self.buckets[i].end);
                    if own_lo && own_hi {
                        // the full bucket is the own bucket: split and retry
                        proof {
                            lemma_absent(pre, ii, node@);
                            let b = pre.buckets@[ii];
                            if key_val(b.start@) >= key_val(b.end@) {
                                assert(b.nodes@.len() >= 1);
                                let e = b.nodes@[0];
                                assert(b.covers(key_val(e.id@)));
                                assert(key_val(e.id@) == key_val(node@));
                                lemma_key_val_injective(e.id@, node@);
                                assert(b.has_id(node@));
                                assert(false);
                            }
                            if pre.far_overflow(node@) {
                                lemma_covers_is_owner(pre.buckets@, ii, vv);
                                assert(false);
                            }
                            if !old(self).contains_id(node@) && old(self).buckets@[old(
                                self,
                            ).owner_index(vv)].nodes@.len() < old(self).max_bucket_size {
                                lemma_covers_is_owner(pre.buckets@, ii, vv);
                                assert(false);
                            }
                        }
                        self.split_at(i);
                    } else {
                        // full and not the own bucket: drop the insertion
                        proof {
                            lemma_covers_is_owner(self.buckets@, ii, vv);
                            lemma_absent(*self, ii, node@);
                            assert(self.far_overflow(node@));
                            if !old(self).contains_id(node@) && old(self).buckets@[old(
                                self,
                            ).owner_index(vv)].nodes@.len() < old(self).max_bucket_size {
                                lemma_covers_is_owner(old(self).buckets@, ii, vv);
                                assert(false);
                            }
                        }
                        return AddResult::Dropped;
                    }
                },
            }
        }
    }

    /// Whether some bucket holds an entry for `id`.
    pub fn contains(&self, id: &Key) -> (r: bool)
        ensures
            r <==> self.contains_id(id@),
    {
        let mut i: usize = 0;
        while i < self.buckets.len()
            invariant
                i <= self.buckets@.len(),
                forall|j: int| 0 <= j < i ==> !(#[trigger] self.buckets@[j]).has_id(id@),
            decreases self.buckets@.len() - i,
        {
            if self.buckets[i].find(id).is_some() {
                proof {
                    assert(self.buckets@[i as int].has_id(id@));
                }
                return true;
            }
            i += 1;
        }
        false
    }
}

/// Partition coverage: in a well-formed table, every point of the identifier
/// space is covered by exactly one bucket — the union of all bucket ranges
/// is the whole space, with no gap and no overlap.
pub proof fn lemma_partition_coverage(t: Buckets, v: int)
    requires
        t.wf(),
        0 <= v <= key_max_val(),
    ensures
        0 <= t.owner_index(v) < t.buckets@.len(),
        t.buckets@[t.owner_index(v)].covers(v),
        forall|j: int|
            0 <= j < t.buckets@.len() && j != t.owner_index(v) ==> !(#[trigger] t.buckets@[j]).covers(
                v,
            ),
{
    lemma_owner_of_correct(t.buckets@, v);
}

/// Own-bucket containment: exactly one bucket's range contains the local
/// node's own identifier.
pub proof fn lemma_own_bucket_unique(t: Buckets)
    requires
        t.wf(),
    ensures
        0 <= t.owner_index(key_val(t.own_id@)) < t.buckets@.len(),
        t.buckets@[t.owner_index(key_val(t.own_id@))].covers(key_val(t.own_id@)),
        forall|j: int|
            0 <= j < t.buckets@.len() && j != t.owner_index(key_val(t.own_id@)) ==> !(
            #[trigger] t.buckets@[j]).covers(key_val(t.own_id@)),
{
    lemma_key_val_in_space(t.own_id@);
    lemma_owner_of_correct(t.buckets@, key_val(t.own_id@));
}

/// Capacity bound: no bucket of a well-formed table holds more entries than
/// the configured maximum bucket size.
pub proof fn lemma_capacity_bound(t: Buckets, i: int)
    requires
        t.wf(),
        0 <= i < t.buckets@.len(),
    ensures
        t.buckets@[i].nodes@.len() <= t.max_bucket_size,
{
}

} // verus!
