use roaring::RoaringTreemap;
use vstd::prelude::*;

use crate::bitmap::{tm_insert, tm_new, tm_union, treemap_set};
use crate::diff::Insert;
use crate::hlc::Hlc;
use crate::peer_id::PeerId;

verus! {

/// The HLCs that the delete records `ds` hold for peer `id`.
pub open spec fn deletes_of(ds: Seq<(PeerId, RoaringTreemap)>, id: Seq<u8>) -> Set<u64>
    decreases ds.len(),
{
    if ds.len() == 0 {
        Set::empty()
    } else {
        deletes_of(ds.drop_last(), id).union(
            if ds.last().0@ == id {
                treemap_set(ds.last().1)
            } else {
                Set::empty()
            },
        )
    }
}

/// The records `ds` after record `i` is replaced by `x`.
proof fn lemma_deletes_update(ds: Seq<(PeerId, RoaringTreemap)>, i: int, x: (PeerId, RoaringTreemap), q: Seq<u8>)
    requires
        0 <= i < ds.len(),
        x.0@ == ds[i].0@,
        treemap_set(x.1) == treemap_set(ds[i].1).union(treemap_set(x.1)),
    ensures
        deletes_of(ds.update(i, x), q) == deletes_of(ds, q).union(
            if q == x.0@ {
                treemap_set(x.1)
            } else {
                Set::empty()
            },
        ),
    decreases ds.len(),
{
    let nd = ds.update(i, x);
    if i == ds.len() - 1 {
        assert(nd.drop_last() =~= ds.drop_last());
    } else {
        assert(nd.drop_last() =~= ds.drop_last().update(i, x));
        lemma_deletes_update(ds.drop_last(), i, x, q);
    }
    assert(deletes_of(nd, q) =~= deletes_of(ds, q).union(
        if q == x.0@ {
            treemap_set(x.1)
        } else {
            Set::empty()
        },
    )) by {
        if q == x.0@ {
            lemma_deletes_sub(ds, i, q);
        }
    }
}

/// Record `i` of `ds`, when it is for `q`, is part of what `ds` holds for `q`.
proof fn lemma_deletes_sub(ds: Seq<(PeerId, RoaringTreemap)>, i: int, q: Seq<u8>)
    requires
        0 <= i < ds.len(),
        ds[i].0@ == q,
    ensures
        treemap_set(ds[i].1).subset_of(deletes_of(ds, q)),
    decreases ds.len(),
{
    if i < ds.len() - 1 {
        lemma_deletes_sub(ds.drop_last(), i, q);
    }
}

/// Op set for incremental diffs during a live connection: the writes of one
/// peer, and the HLCs of writes it deleted, per author.
pub struct OpSet {
    pub peer_id: PeerId,
    pub inserts: Vec<Insert<Vec<u8>, Vec<u8>>>,
    pub deletes: Vec<(PeerId, RoaringTreemap)>,
}

impl OpSet {
    /// The deleted HLCs recorded for peer `id`.
    pub open spec fn deleted(&self, id: Seq<u8>) -> Set<u64> {
        deletes_of(self.deletes@, id)
    }

    /// An empty op set of peer `peer_id`.
    pub fn new(peer_id: PeerId) -> (r: Self)
        ensures
            r.peer_id == peer_id,
            r.inserts@.len() == 0,
            r.deletes@.len() == 0,
    {
        OpSet { peer_id, inserts: Vec::new(), deletes: Vec::new() }
    }

    /// Adds an insert to the op set
    pub fn add_insert(&mut self, item: Insert<Vec<u8>, Vec<u8>>)
        ensures
            final(self).peer_id == old(self).peer_id,
            final(self).inserts@ == old(self).inserts@.push(item),
            final(self).deletes@ == old(self).deletes@,
    {
        self.inserts.push(item);
    }

    /// Adds a delete to the op set
    pub fn add_delete(&mut self, peer_id: PeerId, hlc: Hlc)
        ensures
            final(self).peer_id == old(self).peer_id,
            final(self).inserts@ == old(self).inserts@,
            forall|q: Seq<u8>|
                #[trigger] final(self).deleted(q) == old(self).deleted(q).union(
                    if q == peer_id@ {
                        set![hlc.0]
                    } else {
                        Set::empty()
                    },
                ),
    {
        let mut single = tm_new();
        tm_insert(&mut single, hlc.0);
        proof {
            assert(treemap_set(single) =~= set![hlc.0]);
        }
        self.merge_deletes(peer_id, &single);
    }

    /// Adds the HLCs of `t` to what is recorded for `peer_id`.
    fn merge_deletes(&mut self, peer_id: PeerId, t: &RoaringTreemap)
        ensures
            final(self).peer_id == old(self).peer_id,
            final(self).inserts@ == old(self).inserts@,
            forall|q: Seq<u8>|
                #[trigger] final(self).deleted(q) == old(self).deleted(q).union(
                    if q == peer_id@ {
                        treemap_set(*t)
                    } else {
                        Set::empty()
                    },
                ),
    {
        let mut i: usize = 0;
        while i < self.deletes.len()
            invariant
                i <= self.deletes@.len(),
                *self == *old(self),
            decreases self.deletes@.len() - i,
        {
            if self.deletes[i].0.same(&peer_id) {
                let ghost d0 = self.deletes@;
                let u = tm_union(&self.deletes[i].1, t);
                let x = (peer_id, u);
                proof {
                    assert(treemap_set(x.1) =~= treemap_set(d0[i as int].1).union(treemap_set(x.1)));
                }
                self.deletes.set(i, x);
                proof {
                    assert forall|q: Seq<u8>| #[trigger] deletes_of(self.deletes@, q) == deletes_of(d0, q).union(
                        if q == peer_id@ {
                            treemap_set(*t)
                        } else {
                            Set::empty()
                        },
                    ) by {
                        lemma_deletes_update(d0, i as int, x, q);
                        if q == peer_id@ {
                            lemma_deletes_sub(d0, i as int, q);
                            assert(deletes_of(self.deletes@, q) =~= deletes_of(d0, q).union(treemap_set(*t)));
                        } else {
                            assert(deletes_of(self.deletes@, q) =~= deletes_of(d0, q).union(Set::empty()));
                        }
                    }
                }
                return;
            }
            i = i + 1;
        }
        let ghost d0 = self.deletes@;
        let c = tm_union(t, &tm_new());
        self.deletes.push((peer_id, c));
        proof {
            assert forall|q: Seq<u8>| #[trigger] deletes_of(self.deletes@, q) == deletes_of(d0, q).union(
                if q == peer_id@ {
                    treemap_set(*t)
                } else {
                    Set::empty()
                },
            ) by {
                assert(self.deletes@.drop_last() =~= d0);
                assert(treemap_set(c) =~= treemap_set(*t));
            }
        }
    }

    /// Merge one op set into another: the inserts of `other` follow those of
    /// `self`, and the delete sets are united per peer.
    pub fn merge(&mut self, other: OpSet)
        ensures
            final(self).peer_id == old(self).peer_id,
            final(self).inserts@ == old(self).inserts@ + other.inserts@,
            forall|q: Seq<u8>| #[trigger] final(self).deleted(q) == old(self).deleted(q).union(other.deleted(q)),
    {
        let OpSet { peer_id: _, inserts: mut other_inserts, deletes: other_deletes } = other;
        self.inserts.append(&mut other_inserts);
        let ghost s1 = *self;
        let mut j: usize = 0;
        while j < other_deletes.len()
            invariant
                j <= other_deletes@.len(),
                self.peer_id == s1.peer_id,
                self.inserts@ == s1.inserts@,
                forall|q: Seq<u8>| #[trigger] self.deleted(q) == s1.deleted(q).union(deletes_of(other_deletes@.take(j as int), q)),
            decreases other_deletes@.len() - j,
        {
            let ghost before = *self;
            let id = other_deletes[j].0.copy();
            self.merge_deletes(id, &other_deletes[j].1);
            proof {
                let tk = other_deletes@.take(j + 1);
                assert(tk.drop_last() =~= other_deletes@.take(j as int));
                assert forall|q: Seq<u8>| #[trigger] self.deleted(q) == s1.deleted(q).union(deletes_of(tk, q)) by {
                    assert(self.deleted(q) == before.deleted(q).union(
                        if q == other_deletes@[j as int].0@ {
                            treemap_set(other_deletes@[j as int].1)
                        } else {
                            Set::empty()
                        },
                    ));
                    assert(self.deleted(q) =~= s1.deleted(q).union(deletes_of(tk, q)));
                }
            }
            j = j + 1;
        }
        proof {
            assert(other_deletes@.take(other_deletes@.len() as int) =~= other_deletes@);
        }
    }
}

} // verus!
