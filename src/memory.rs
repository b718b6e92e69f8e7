use std::collections::HashMap;
use vstd::prelude::*;

use crate::bitmap::{
    range_set, strictly_increasing, treemap_size, tm_clone, tm_contains, tm_difference, tm_insert, tm_is_empty,
    tm_new, tm_remove, tm_remove_range, tm_to_vec, treemap_set,
};
use crate::diff::{Diff, DiffPeerState, DiffRequest, DiffRequestPeerState, Insert};
use crate::hlc::{lemma_aligned, lemma_next_increases, next_spec, Hlc, L_MASK};
use crate::opset::OpSet;
use crate::peer_id::{
    bytes_eq, bytes_lt, copy_bytes, lemma_bytes_lt_strict_total, lemma_bytes_lt_trans, PeerId,
};
use vstd::string::StringSliceAdditionalSpecFns;

verus! {

/// The write currently held at a key.
pub struct Entry {
    pub key: Vec<u8>,
    pub value: Vec<u8>,
    /// Position of the author in the replica's peer table.
    pub author: usize,
    pub hlc: Hlc,
}

/// What a replica knows of the writes of one peer.
pub struct PeerState {
    pub id: PeerId,
    /// HLCs of this peer's writes that the replica holds live.
    pub index: roaring::RoaringTreemap,
    /// The key of each live write (and of own writes since replaced).
    pub keys: HashMap<u64, Vec<u8>>,
    /// The greatest HLC ever seen from this peer.
    pub bookmark: Hlc,
}

/// An in-memory replica of the store.
pub struct MemStore {
    name: String,
    /// One entry per key; the local peer is `peers[0]`.
    entries: Vec<Entry>,
    peers: Vec<PeerState>,
    /// Operations captured since the last `take_opset`, when capture is on.
    opset: Option<OpSet>,
}

/// Keys of `es` are pairwise different.
pub open spec fn keys_distinct(es: Seq<Entry>) -> bool {
    forall|i: int, j: int| 0 <= i < j < es.len() ==> es[i].key@ != es[j].key@
}

pub open spec fn has_key(es: Seq<Entry>, k: Seq<u8>) -> bool {
    exists|i: int| 0 <= i < es.len() && #[trigger] es[i].key@ == k
}

pub open spec fn pos_of(es: Seq<Entry>, k: Seq<u8>) -> int {
    choose|i: int| 0 <= i < es.len() && #[trigger] es[i].key@ == k
}

/// The key-value mapping that a sequence of entries holds.
pub open spec fn kv_of(es: Seq<Entry>) -> Map<Seq<u8>, Seq<u8>> {
    Map::new(|k: Seq<u8>| has_key(es, k), |k: Seq<u8>| es[pos_of(es, k)].value@)
}

/// Entry `i` is the live write `h` of peer `p`.
pub open spec fn is_write(es: Seq<Entry>, i: int, p: int, h: u64) -> bool {
    0 <= i < es.len() && es[i].author == p && es[i].hlc.0 == h
}

pub proof fn lemma_pos_of(es: Seq<Entry>, i: int)
    requires
        keys_distinct(es),
        0 <= i < es.len(),
    ensures
        has_key(es, es[i].key@),
        pos_of(es, es[i].key@) == i,
        kv_of(es).contains_key(es[i].key@),
        kv_of(es)[es[i].key@] == es[i].value@,
{
    let k = es[i].key@;
    assert(es[i].key@ == k);
    let j = pos_of(es, k);
    if j != i {
        if j < i {
            assert(es[j].key@ != es[i].key@);
        } else {
            assert(es[i].key@ != es[j].key@);
        }
    }
}

proof fn lemma_kv_update(es: Seq<Entry>, i: int, e: Entry)
    requires
        keys_distinct(es),
        0 <= i < es.len(),
        e.key@ == es[i].key@,
    ensures
        keys_distinct(es.update(i, e)),
        kv_of(es.update(i, e)) == kv_of(es).insert(e.key@, e.value@),
{
    let ns = es.update(i, e);
    assert(keys_distinct(ns));
    assert forall|k: Seq<u8>| has_key(ns, k) == (has_key(es, k) || k == e.key@) by {
        if has_key(es, k) {
            let j = pos_of(es, k);
            assert(ns[j].key@ == k);
        }
        if has_key(ns, k) {
            let j = pos_of(ns, k);
            assert(es[j].key@ == k || j == i);
        }
        if k == e.key@ {
            assert(ns[i].key@ == k);
        }
    }
    assert forall|k: Seq<u8>| #[trigger] has_key(ns, k) implies kv_of(ns)[k] == kv_of(es).insert(e.key@, e.value@)[k] by {
        let j = pos_of(ns, k);
        lemma_pos_of(ns, j);
        if k != e.key@ {
            assert(es[j].key@ == k);
            lemma_pos_of(es, j);
        }
    }
    assert(kv_of(ns) =~= kv_of(es).insert(e.key@, e.value@));
}

proof fn lemma_kv_push(es: Seq<Entry>, e: Entry)
    requires
        keys_distinct(es),
        !has_key(es, e.key@),
    ensures
        keys_distinct(es.push(e)),
        kv_of(es.push(e)) == kv_of(es).insert(e.key@, e.value@),
{
    let ns = es.push(e);
    assert forall|i: int, j: int| 0 <= i < j < ns.len() implies ns[i].key@ != ns[j].key@ by {
        if j == es.len() {
            if ns[i].key@ == e.key@ {
                assert(es[i].key@ == e.key@);
            }
        }
    }
    assert forall|k: Seq<u8>| has_key(ns, k) == (has_key(es, k) || k == e.key@) by {
        if has_key(es, k) {
            let j = pos_of(es, k);
            assert(ns[j].key@ == k);
        }
        if has_key(ns, k) {
            let j = pos_of(ns, k);
            assert(es[j].key@ == k || j == es.len());
        }
        if k == e.key@ {
            assert(ns[es.len() as int].key@ == k);
        }
    }
    assert forall|k: Seq<u8>| #[trigger] has_key(ns, k) implies kv_of(ns)[k] == kv_of(es).insert(e.key@, e.value@)[k] by {
        let j = pos_of(ns, k);
        lemma_pos_of(ns, j);
        if k != e.key@ {
            assert(es[j].key@ == k);
            lemma_pos_of(es, j);
        }
    }
    assert(kv_of(ns) =~= kv_of(es).insert(e.key@, e.value@));
}

proof fn lemma_kv_remove(es: Seq<Entry>, i: int)
    requires
        keys_distinct(es),
        0 <= i < es.len(),
    ensures
        keys_distinct(es.remove(i)),
        kv_of(es.remove(i)) == kv_of(es).remove(es[i].key@),
{
    let ns = es.remove(i);
    let k0 = es[i].key@;
    assert forall|a: int, b: int| 0 <= a < b < ns.len() implies ns[a].key@ != ns[b].key@ by {
        let a2 = if a < i { a } else { a + 1 };
        let b2 = if b < i { b } else { b + 1 };
        assert(ns[a] == es[a2]);
        assert(ns[b] == es[b2]);
    }
    assert forall|k: Seq<u8>| has_key(ns, k) == (has_key(es, k) && k != k0) by {
        if has_key(es, k) && k != k0 {
            let j = pos_of(es, k);
            if j < i {
                assert(ns[j].key@ == k);
            } else {
                assert(j != i);
                assert(ns[j - 1].key@ == k);
            }
        }
        if has_key(ns, k) {
            let j = pos_of(ns, k);
            let j2 = if j < i { j } else { j + 1 };
            assert(ns[j] == es[j2]);
            assert(es[j2].key@ == k);
            if k == k0 {
                assert(j2 != i);
                if j2 < i {
                    assert(es[j2].key@ != es[i].key@);
                } else {
                    assert(es[i].key@ != es[j2].key@);
                }
            }
        }
    }
    assert forall|k: Seq<u8>| #[trigger] has_key(ns, k) implies kv_of(ns)[k] == kv_of(es)[k] by {
        let j = pos_of(ns, k);
        lemma_pos_of(ns, j);
        let j2 = if j < i { j } else { j + 1 };
        assert(ns[j] == es[j2]);
        lemma_pos_of(es, j2);
    }
    assert(kv_of(ns) =~= kv_of(es).remove(k0));
}

/// `r` is the value that `m` held at `k`, if any.
pub open spec fn prior_value(m: Map<Seq<u8>, Seq<u8>>, k: Seq<u8>, r: Option<Vec<u8>>) -> bool {
    match r {
        Some(v) => m.contains_key(k) && m[k] == v@,
        None => !m.contains_key(k),
    }
}

/// Key, value and HLC of each insert, in order.
pub open spec fn insert_views(ins: Seq<Insert<Vec<u8>, Vec<u8>>>) -> Seq<(Seq<u8>, Seq<u8>, u64)> {
    ins.map_values(|x: Insert<Vec<u8>, Vec<u8>>| (x.key@, x.value@, x.hlc.0))
}

/// The HLCs of a sequence of inserts, in order.
pub open spec fn insert_hlcs(ins: Seq<Insert<Vec<u8>, Vec<u8>>>) -> Seq<u64> {
    ins.map_values(|x: Insert<Vec<u8>, Vec<u8>>| x.hlc.0)
}

/// Block `j` is the first one of the request that names `id`.
pub open spec fn is_first(req: Seq<(PeerId, DiffRequestPeerState)>, id: Seq<u8>, j: int) -> bool {
    &&& 0 <= j < req.len()
    &&& req[j].0@ == id
    &&& forall|k: int| 0 <= k < j ==> #[trigger] req[k].0@ != id
}

/// The position of the first block of the request that names `id`.
pub open spec fn req_pos(req: Seq<(PeerId, DiffRequestPeerState)>, id: Seq<u8>) -> Option<int> {
    if exists|j: int| is_first(req, id, j) {
        Some(choose|j: int| is_first(req, id, j))
    } else {
        None
    }
}

/// Some block of the diff names `id`.
pub open spec fn diff_names(d: Seq<(PeerId, DiffPeerState)>, id: Seq<u8>) -> bool {
    exists|j: int| 0 <= j < d.len() && #[trigger] d[j].0@ == id
}

/// A diff block is sent when it has inserts, or has no deletes.
pub open spec fn block_sent(ins: Set<u64>, del: Set<u64>) -> bool {
    ins != Set::<u64>::empty() || del == Set::<u64>::empty()
}

/// Last-writer-wins: a write `(h, id)` displaces the write `(ho, ido)` when it
/// is greater, HLC first and author as the tiebreak.
pub open spec fn lww_wins(ho: u64, ido: Seq<u8>, h: u64, id: Seq<u8>) -> bool {
    ho < h || (ho == h && bytes_lt(ido, id))
}

/// `m` after the staged deletes `dels`, in order.
pub open spec fn apply_deletes(m: Map<Seq<u8>, Seq<u8>>, dels: Seq<Vec<u8>>) -> Map<Seq<u8>, Seq<u8>>
    decreases dels.len(),
{
    if dels.len() == 0 {
        m
    } else {
        apply_deletes(m, dels.drop_last()).remove(dels.last()@)
    }
}

/// The first HLC a commit of `n` staged inserts at physical time `pt`
/// gives out after the local bookmark `bk`: the clock's next value, or just
/// past the bookmark when that leaves too little room for them all.
pub open spec fn start_hlc(bk: u64, pt: u64, n: nat) -> u64 {
    if next_spec(bk, pt & L_MASK) < u64::MAX - n {
        next_spec(bk, pt & L_MASK)
    } else {
        (bk + 1) as u64
    }
}

/// Some key of `ds` is `k`.
pub open spec fn listed(ds: Seq<Vec<u8>>, k: Seq<u8>) -> bool {
    exists|j: int| 0 <= j < ds.len() && #[trigger] ds[j]@ == k
}

/// A transaction: staged inserts (one per key, in the order they were first
/// staged) and staged deletes, applied together by `commit`.
pub struct MemStoreTxn {
    /// Staged writes; author and HLC are assigned on commit.
    inserts: Vec<Entry>,
    deletes: Vec<Vec<u8>>,
}

impl MemStoreTxn {
    /// The staged inserts, as a key-value mapping.
    pub closed spec fn staged(&self) -> Map<Seq<u8>, Seq<u8>> {
        kv_of(self.inserts@)
    }

    pub closed spec fn staged_count(&self) -> nat {
        self.inserts@.len()
    }

    pub closed spec fn staged_deletes(&self) -> Seq<Vec<u8>> {
        self.deletes@
    }

    pub closed spec fn wf(&self) -> bool {
        keys_distinct(self.inserts@)
    }

    /// The key of the `i`-th staged insert.
    pub closed spec fn staged_key(&self, i: int) -> Seq<u8> {
        self.inserts@[i].key@
    }

    /// Committing this transaction took `s0` to `s1` with the HLCs `h0`,
    /// `h0 + 1`, ... given to the staged inserts in staging order: each key
    /// not staged for deletion holds the local write of its HLC, and the
    /// local bookmark is the last of them.
    pub open spec fn hlcs_from(&self, s0: &MemStore, h0: u64, s1: &MemStore) -> bool {
        &&& h0 > s0.bookmark_of(0)
        &&& self.staged_count() > 0 ==> s1.bookmark_of(0) == h0 + self.staged_count() - 1
        &&& forall|i: int|
            0 <= i < self.staged_count() && !listed(self.staged_deletes(), #[trigger] self.staged_key(i))
                ==> s1.kv().contains_key(self.staged_key(i)) && s1.author_at(self.staged_key(i)) == 0 && s1.hlc_at(
                self.staged_key(i),
            ) == h0 + i
    }

    /// Stages `key -> value`, replacing what was staged for `key`.
    pub fn insert(&mut self, key: Vec<u8>, value: Vec<u8>)
        requires
            old(self).wf(),
        ensures
            final(self).wf(),
            final(self).staged() == old(self).staged().insert(key@, value@),
            final(self).staged_deletes() == old(self).staged_deletes(),
            final(self).staged_count() <= old(self).staged_count() + 1,
    {
        let e = Entry { key, value, author: 0, hlc: Hlc(0) };
        match find(&self.inserts, e.key.as_slice()) {
            Some(i) => {
                let ghost s0 = self.inserts@;
                self.inserts.set(i, e);
                proof {
                    lemma_kv_update(s0, i as int, e);
                }
            },
            None => {
                let ghost s0 = self.inserts@;
                self.inserts.push(e);
                proof {
                    lemma_kv_push(s0, e);
                }
            },
        }
    }

    /// Stages the removal of `key`, dropping what was staged for it.
    pub fn remove(&mut self, key: &Vec<u8>)
        requires
            old(self).wf(),
        ensures
            final(self).wf(),
            final(self).staged() == old(self).staged().remove(key@),
            final(self).staged_deletes().len() == old(self).staged_deletes().len() + 1,
            final(self).staged_deletes().drop_last() == old(self).staged_deletes(),
            final(self).staged_deletes().last()@ == key@,
            final(self).staged_count() <= old(self).staged_count(),
    {
        match find(&self.inserts, key.as_slice()) {
            Some(i) => {
                let ghost s0 = self.inserts@;
                self.inserts.remove(i);
                proof {
                    lemma_kv_remove(s0, i as int);
                }
            },
            None => {
                assert(self.staged() =~= self.staged().remove(key@));
            },
        }
        let ghost d0 = self.deletes@;
        self.deletes.push(copy_bytes(key.as_slice()));
        assert(self.deletes@.drop_last() =~= d0);
    }

    /// Aborts the transaction: nothing staged is applied.
    pub fn abort(self) {
    }

    /// Commits the transaction to `store`: the staged inserts get
    /// consecutive HLCs after the local bookmark, in staging order, then the
    /// staged deletes are applied.
    pub fn commit(self, store: &mut MemStore)
        requires
            self.wf(),
            old(store).wf(),
            old(store).bookmark_of(0) + self.staged_count() < u64::MAX,
        ensures
            final(store).wf(),
            final(store).same_peers(&*old(store)),
            final(store).kv() == apply_deletes(old(store).kv().union_prefer_right(self.staged()), self.staged_deletes()),
            final(store).bookmark_of(0) >= old(store).bookmark_of(0) + self.staged_count(),
            forall|p: int| 1 <= p < final(store).peer_count() ==> #[trigger] final(store).bookmark_of(p) == old(store).bookmark_of(p),
            self.staged_count() == 0 ==> final(store).bookmark_of(0) == old(store).bookmark_of(0),
            exists|h0: u64| self.hlcs_from(&*old(store), h0, &*final(store)),
    {
        store.commit(self, None)
    }

    /// `commit` with the physical time `pt` given by the caller instead of
    /// read from the system clock; like the clock's, its low 16 bits are
    /// masked off.
    pub fn commit_at(self, store: &mut MemStore, pt: u64)
        requires
            self.wf(),
            old(store).wf(),
            old(store).bookmark_of(0) + self.staged_count() < u64::MAX,
        ensures
            final(store).wf(),
            final(store).same_peers(&*old(store)),
            final(store).kv() == apply_deletes(old(store).kv().union_prefer_right(self.staged()), self.staged_deletes()),
            final(store).bookmark_of(0) >= old(store).bookmark_of(0) + self.staged_count(),
            forall|p: int| 1 <= p < final(store).peer_count() ==> #[trigger] final(store).bookmark_of(p) == old(store).bookmark_of(p),
            self.staged_count() == 0 ==> final(store).bookmark_of(0) == old(store).bookmark_of(0),
            exists|h0: u64|
                self.hlcs_from(&*old(store), h0, &*final(store)) && (self.staged_count() > 0 ==> h0 == start_hlc(
                    old(store).bookmark_of(0),
                    pt,
                    self.staged_count(),
                )),
    {
        store.commit(self, Some(pt))
    }
}

/// Keys of the pairs strictly increase.
pub open spec fn keys_increasing(ps: Seq<(Vec<u8>, Vec<u8>)>) -> bool {
    forall|i: int, j: int| 0 <= i < j < ps.len() ==> bytes_lt(ps[i].0@, ps[j].0@)
}

/// Relies on std's `sort_unstable` on `(Vec<u8>, Vec<u8>)` pairs, ordered
/// lexicographically as std documents for tuples and vectors: the same pairs,
/// with keys in non-decreasing order.
#[verifier::external_body]
fn sort_pairs(v: &mut Vec<(Vec<u8>, Vec<u8>)>)
    ensures
        final(v)@.to_multiset() == old(v)@.to_multiset(),
        forall|i: int, j: int|
            0 <= i < j < final(v)@.len() ==> final(v)@[i].0@ == final(v)@[j].0@ || bytes_lt(
                final(v)@[i].0@,
                final(v)@[j].0@,
            ),
{
    v.sort_unstable();
}

/// The entries of a replica, in key order.
#[derive(Debug, PartialEq, Eq)]
pub struct Entries(pub Vec<(Vec<u8>, Vec<u8>)>);

impl Entries {
    /// The value at `key`.
    pub fn get(&self, key: &Vec<u8>) -> (r: Option<&Vec<u8>>)
        ensures
            match r {
                Some(v) => exists|i: int| 0 <= i < self.0@.len() && #[trigger] self.0@[i].0@ == key@ && self.0@[i].1 == *v,
                None => forall|i: int| 0 <= i < self.0@.len() ==> #[trigger] self.0@[i].0@ != key@,
            },
    {
        let mut i: usize = 0;
        while i < self.0.len()
            invariant
                i <= self.0@.len(),
                forall|j: int| 0 <= j < i ==> #[trigger] self.0@[j].0@ != key@,
            decreases self.0@.len() - i,
        {
            if bytes_eq(self.0[i].0.as_slice(), key.as_slice()) {
                return Some(&self.0[i].1);
            }
            i = i + 1;
        }
        None
    }

    /// The key-value pairs, in key order.
    pub fn iter(&self) -> (r: &[(Vec<u8>, Vec<u8>)])
        ensures
            r@ == self.0@,
    {
        self.0.as_slice()
    }
}

/// Of two different writes, exactly one displaces the other under
/// last-writer-wins, so which one a key ends up holding does not depend on
/// the order in which they arrive; and a write never displaces itself, so
/// receiving it again changes nothing.
pub proof fn lemma_lww_strict_total(h1: u64, id1: Seq<u8>, h2: u64, id2: Seq<u8>)
    ensures
        !lww_wins(h1, id1, h1, id1),
        (h1, id1) != (h2, id2) ==> lww_wins(h1, id1, h2, id2) != lww_wins(h2, id2, h1, id1),
{
    lemma_bytes_lt_strict_total(id1, id2);
    lemma_bytes_lt_strict_total(id2, id1);
}

/// Last-writer-wins is transitive.
pub proof fn lemma_lww_trans(h1: u64, id1: Seq<u8>, h2: u64, id2: Seq<u8>, h3: u64, id3: Seq<u8>)
    requires
        lww_wins(h1, id1, h2, id2),
        lww_wins(h2, id2, h3, id3),
    ensures
        lww_wins(h1, id1, h3, id3),
{
    if h1 == h2 && h2 == h3 {
        lemma_bytes_lt_trans(id1, id2, id3);
    }
}

/// Position of the entry at `key`, if any.
fn find(es: &Vec<Entry>, key: &[u8]) -> (r: Option<usize>)
    requires
        keys_distinct(es@),
    ensures
        match r {
            Some(i) => i < es@.len() && es@[i as int].key@ == key@,
            None => !has_key(es@, key@),
        },
{
    let mut i: usize = 0;
    while i < es.len()
        invariant
            i <= es@.len(),
            forall|j: int| 0 <= j < i ==> es@[j].key@ != key@,
        decreases es@.len() - i,
    {
        if bytes_eq(es[i].key.as_slice(), key) {
            return Some(i);
        }
        i = i + 1;
    }
    None
}

/// One step of integrating remote state, naming its peer by identifier.
pub enum Op {
    /// Delete the write `h` of peer `id`, if the peer is known.
    Delete { id: Seq<u8>, h: u64 },
    /// Add peer `id` to the peer table, if it is new.
    Admit { id: Seq<u8> },
    /// Integrate the write `h` of the known peer `id`, `key -> value`.
    Write { id: Seq<u8>, key: Seq<u8>, value: Seq<u8>, h: u64 },
    /// Raise the bookmark of the known peer `id` to at least `bk`.
    Raise { id: Seq<u8>, bk: u64 },
}

/// The deletes of peer `id`'s writes `hs`, in order.
pub open spec fn delete_ops(id: Seq<u8>, hs: Seq<u64>) -> Seq<Op> {
    hs.map_values(|h: u64| Op::Delete { id, h })
}

/// The deletes of each peer `ids[j]`'s writes `hss[j]`, peer after peer.
pub open spec fn deletes_ops(ids: Seq<Seq<u8>>, hss: Seq<Seq<u64>>) -> Seq<Op>
    decreases hss.len(),
{
    if hss.len() == 0 || ids.len() != hss.len() {
        Seq::empty()
    } else {
        deletes_ops(ids.drop_last(), hss.drop_last()) + delete_ops(ids.last(), hss.last())
    }
}

/// The writes `ins` of peer `id`, in order.
pub open spec fn write_ops(id: Seq<u8>, ins: Seq<Insert<Vec<u8>, Vec<u8>>>) -> Seq<Op> {
    ins.map_values(|x: Insert<Vec<u8>, Vec<u8>>| Op::Write { id, key: x.key@, value: x.value@, h: x.hlc.0 })
}

/// For each block of a diff, in order: admit its peer, integrate its writes,
/// raise its peer's bookmark to the block's.
pub open spec fn diff_write_ops(d: Seq<(PeerId, DiffPeerState)>) -> Seq<Op>
    decreases d.len(),
{
    if d.len() == 0 {
        Seq::empty()
    } else {
        diff_write_ops(d.drop_last()) + seq![Op::Admit { id: d.last().0@ }] + write_ops(
            d.last().0@,
            d.last().1.inserts@,
        ) + seq![Op::Raise { id: d.last().0@, bk: d.last().1.bookmark.0 }]
    }
}

/// `hs` lists the integers of `t` in increasing order.
pub open spec fn enumerates(hs: Seq<u64>, t: Set<u64>) -> bool {
    strictly_increasing(hs) && hs.to_set() == t
}

/// The steps of integrating the diff `d`, where `hss[j]` lists the deletes
/// of block `j` in increasing order: all deletes first, then the writes and
/// bookmarks, block by block.
pub open spec fn diff_ops(d: Seq<(PeerId, DiffPeerState)>, hss: Seq<Seq<u64>>) -> Seq<Op> {
    deletes_ops(d.map_values(|b: (PeerId, DiffPeerState)| b.0@), hss) + diff_write_ops(d)
}

/// `hss[j]` lists the deletes of block `j` of `d` in increasing order.
pub open spec fn diff_deletes_listed(d: Seq<(PeerId, DiffPeerState)>, hss: Seq<Seq<u64>>) -> bool {
    &&& hss.len() == d.len()
    &&& forall|j: int| 0 <= j < d.len() ==> enumerates(#[trigger] hss[j], treemap_set(d[j].1.deletes))
}

/// `hss[j]` lists the deletes of record `j` of an op set in increasing order.
pub open spec fn opset_deletes_listed(ds: Seq<(PeerId, roaring::RoaringTreemap)>, hss: Seq<Seq<u64>>) -> bool {
    &&& hss.len() == ds.len()
    &&& forall|j: int| 0 <= j < ds.len() ==> enumerates(#[trigger] hss[j], treemap_set(ds[j].1))
}

/// The steps of integrating an op set: its deletes, record by record, then
/// its peer's admission and its writes.
pub open spec fn opset_ops(op: OpSet, hss: Seq<Seq<u64>>) -> Seq<Op> {
    deletes_ops(op.deletes@.map_values(|b: (PeerId, roaring::RoaringTreemap)| b.0@), hss) + seq![
        Op::Admit { id: op.peer_id@ },
    ] + write_ops(op.peer_id@, op.inserts@)
}

/// The first block of the request that names `id`.
fn find_request(req: &Vec<(PeerId, DiffRequestPeerState)>, id: &PeerId) -> (r: Option<usize>)
    ensures
        match r {
            Some(j) => is_first(req@, id@, j as int),
            None => forall|k: int| 0 <= k < req@.len() ==> #[trigger] req@[k].0@ != id@,
        },
{
    let mut k: usize = 0;
    while k < req.len()
        invariant
            k <= req@.len(),
            forall|i: int| 0 <= i < k ==> #[trigger] req@[i].0@ != id@,
        decreases req@.len() - k,
    {
        if req[k].0.same(id) {
            return Some(k);
        }
        k = k + 1;
    }
    None
}

impl PeerState {
    /// The part of this state that a diff request carries.
    pub fn diff_request(&self) -> (r: DiffRequestPeerState)
        ensures
            treemap_set(r.index) == treemap_set(self.index),
            treemap_size(r.index) == treemap_size(self.index),
            r.bookmark == self.bookmark,
    {
        DiffRequestPeerState { index: tm_clone(&self.index), bookmark: self.bookmark }
    }
}

impl MemStore {
    /// The live set of peer `p`.
    pub closed spec fn idx(&self, p: int) -> Set<u64> {
        treemap_set(self.peers@[p].index)
    }

    /// The recorded keys of peer `p`.
    pub closed spec fn keys_of(&self, p: int) -> Map<u64, Vec<u8>> {
        self.peers@[p].keys@
    }

    /// The serialized size of peer `p`'s live set.
    pub closed spec fn index_size_of(&self, p: int) -> nat {
        treemap_size(self.peers@[p].index)
    }

    pub closed spec fn bookmark_of(&self, p: int) -> u64 {
        self.peers@[p].bookmark.0
    }

    pub closed spec fn peer_count(&self) -> int {
        self.peers@.len() as int
    }

    pub closed spec fn peer_id_of(&self, p: int) -> Seq<u8> {
        self.peers@[p].id@
    }

    pub closed spec fn entry_seq(&self) -> Seq<Entry> {
        self.entries@
    }

    /// The key-value mapping the replica holds.
    pub closed spec fn kv(&self) -> Map<Seq<u8>, Seq<u8>> {
        kv_of(self.entries@)
    }

    pub closed spec fn name_view(&self) -> Seq<char> {
        self.name@
    }

    /// Every entry is live in its author's index, under its own key.
    pub closed spec fn entries_indexed(&self) -> bool {
        forall|i: int|
            0 <= i < self.entries@.len() ==> {
                let e = #[trigger] self.entries@[i];
                &&& e.author < self.peers@.len()
                &&& self.idx(e.author as int).contains(e.hlc.0)
                &&& self.keys_of(e.author as int).contains_key(e.hlc.0)
                &&& self.keys_of(e.author as int)[e.hlc.0]@ == e.key@
            }
    }

    /// No live HLC lies beyond its peer's bookmark.
    pub closed spec fn within_bookmarks(&self) -> bool {
        forall|p: int, h: u64|
            0 <= p < self.peers@.len() && #[trigger] self.idx(p).contains(h) ==> h
                <= self.bookmark_of(p)
    }

    /// Every live HLC belongs to exactly one entry, at the key recorded for it.
    pub closed spec fn index_backed(&self) -> bool {
        forall|p: int, h: u64|
            0 <= p < self.peers@.len() && #[trigger] self.idx(p).contains(h) ==> {
                &&& self.keys_of(p).contains_key(h)
                &&& exists|i: int|
                    is_write(self.entries@, i, p, h) && #[trigger] self.entries@[i].key@
                        == self.keys_of(p)[h]@
            }
    }

    pub closed spec fn ids_distinct(&self) -> bool {
        forall|a: int, b: int|
            0 <= a < b < self.peers@.len() ==> self.peers@[a].id@ != self.peers@[b].id@
    }

    /// The replica's invariant.
    pub open spec fn wf(&self) -> bool {
        &&& self.peer_count() >= 1
        &&& self.ids_distinct()
        &&& keys_distinct(self.entry_seq())
        &&& self.entries_indexed()
        &&& self.within_bookmarks()
        &&& self.index_backed()
    }

    /// Creates a new, empty CRDT
    pub fn new(id: &str) -> (r: Self)
        ensures
            r.wf(),
            !r.capturing(),
            r.kv() == Map::<Seq<u8>, Seq<u8>>::empty(),
            r.peer_count() == 1,
            r.peer_id_of(0) == id.spec_bytes(),
            r.idx(0) == Set::<u64>::empty(),
            r.index_size_of(0) == 8,
            r.bookmark_of(0) == 0,
            r.name_view() == id@,
    {
        let local = PeerState {
            id: PeerId::from_str(id),
            index: tm_new(),
            keys: HashMap::new(),
            bookmark: Hlc(0),
        };
        let mut peers: Vec<PeerState> = Vec::new();
        peers.push(local);
        let r = MemStore { name: id.to_owned(), entries: Vec::new(), peers, opset: None };
        assert(kv_of(r.entries@) =~= Map::<Seq<u8>, Seq<u8>>::empty());
        r
    }

    /// Returns the local peer ID
    pub fn id(&self) -> (r: &str)
        ensures
            r@ == self.name_view(),
    {
        self.name.as_str()
    }

    /// Returns a reference to the value corresponding to the key.
    pub fn get(&self, key: &Vec<u8>) -> (r: Option<&Vec<u8>>)
        requires
            self.wf(),
        ensures
            match r {
                Some(v) => self.kv().contains_key(key@) && self.kv()[key@] == v@,
                None => !self.kv().contains_key(key@),
            },
    {
        match find(&self.entries, key.as_slice()) {
            Some(i) => {
                proof {
                    lemma_pos_of(self.entries@, i as int);
                }
                Some(&self.entries[i].value)
            },
            None => None,
        }
    }

    /// Whether operations are being captured into an op set.
    pub closed spec fn capturing(&self) -> bool {
        self.opset is Some
    }

    /// The inserts captured so far.
    pub closed spec fn recorded(&self) -> Seq<(Seq<u8>, Seq<u8>, u64)> {
        match self.opset {
            Some(op) => insert_views(op.inserts@),
            None => Seq::empty(),
        }
    }

    /// The HLCs of peer `id`'s writes captured as deleted so far.
    pub closed spec fn recorded_deletes(&self, id: Seq<u8>) -> Set<u64> {
        match self.opset {
            Some(op) => op.deleted(id),
            None => Set::empty(),
        }
    }

    /// The author (by position in the peer table) of the entry at `k`.
    pub closed spec fn author_at(&self, k: Seq<u8>) -> int {
        self.entries@[pos_of(self.entries@, k)].author as int
    }

    /// The HLC of the entry at `k`.
    pub closed spec fn hlc_at(&self, k: Seq<u8>) -> u64 {
        self.entries@[pos_of(self.entries@, k)].hlc.0
    }

    /// The peer table is the same in `self` and `o` but for what the
    /// indices, key records and bookmarks hold.
    pub open spec fn same_peers(&self, o: &Self) -> bool {
        &&& self.peer_count() == o.peer_count()
        &&& forall|p: int| 0 <= p < self.peer_count() ==> #[trigger] self.peer_id_of(p) == o.peer_id_of(p)
        &&& self.name_view() == o.name_view()
    }

    proof fn lemma_same_peers_trans(&self, b: &Self, c: &Self)
        requires
            b.same_peers(self),
            c.same_peers(b),
        ensures
            c.same_peers(self),
    {
        assert forall|q: int| 0 <= q < c.peer_count() implies #[trigger] c.peer_id_of(q) == self.peer_id_of(q) by {
            assert(c.peer_id_of(q) == b.peer_id_of(q));
            assert(b.peer_id_of(q) == self.peer_id_of(q));
        }
    }

    /// Every key of `s0` but `k` holds the same write in `s1`.
    pub open spec fn others_kept(s0: &Self, k: Seq<u8>, s1: &Self) -> bool {
        forall|k2: Seq<u8>|
            k2 != k && #[trigger] s0.kv().contains_key(k2) ==> s1.kv().contains_key(k2) && s1.author_at(k2)
                == s0.author_at(k2) && s1.hlc_at(k2) == s0.hlc_at(k2)
    }

    /// The write that `s0` held at `k` is no longer live in `s1`, and its key
    /// record is kept only when the local peer wrote it.
    pub open spec fn displaced(s0: &Self, k: Seq<u8>, s1: &Self) -> bool {
        let a = s0.author_at(k);
        let ho = s0.hlc_at(k);
        &&& !s1.idx(a).contains(ho)
        &&& a != 0 ==> !s1.keys_of(a).contains_key(ho)
        &&& a == 0 ==> s1.keys_of(0).contains_key(ho) == s0.keys_of(0).contains_key(ho)
    }

    /// The key-value mapping of a well-formed replica is finite, with one
    /// key per entry.
    pub proof fn lemma_kv_finite(&self)
        requires
            self.wf(),
        ensures
            self.kv().dom().finite(),
            self.kv().len() == self.entry_seq().len(),
    {
        self.lemma_len();
    }

    /// The invariant holds of a state with the entries and peers of a
    /// well-formed one.
    proof fn lemma_wf_frame(&self, o: &Self)
        requires
            o.wf(),
            self.entries@ == o.entries@,
            self.peers@ == o.peers@,
        ensures
            self.wf(),
    {
        assert forall|q: int, g: u64|
            0 <= q < self.peers@.len() && #[trigger] self.idx(q).contains(g) implies {
                &&& self.keys_of(q).contains_key(g)
                &&& exists|j: int|
                    is_write(self.entries@, j, q, g) && #[trigger] self.entries@[j].key@
                        == self.keys_of(q)[g]@
            } by {
            assert(o.idx(q).contains(g));
            let j = choose|j: int|
                is_write(o.entries@, j, q, g) && #[trigger] o.entries@[j].key@ == o.keys_of(q)[g]@;
            assert(is_write(self.entries@, j, q, g));
        }
    }

    /// Two entries of a well-formed replica that are the same write are the
    /// same entry.
    proof fn lemma_write_unique(&self, i: int, j: int)
        requires
            self.wf(),
            0 <= i < self.entries@.len(),
            0 <= j < self.entries@.len(),
            self.entries@[i].author == self.entries@[j].author,
            self.entries@[i].hlc == self.entries@[j].hlc,
        ensures
            i == j,
    {
        let ei = self.entries@[i];
        let ej = self.entries@[j];
        assert(self.keys_of(ei.author as int)[ei.hlc.0]@ == ei.key@);
        assert(self.keys_of(ej.author as int)[ej.hlc.0]@ == ej.key@);
        if i < j {
            assert(ei.key@ != ej.key@);
        } else if j < i {
            assert(ej.key@ != ei.key@);
        }
    }

    /// Places `key -> value` as the live write `h` of peer `p`, replacing
    /// the write that held the key before. The displaced write leaves its
    /// author's index (and, unless the local peer wrote it, its key record)
    /// on every path, integration included, so that every live HLC keeps an
    /// entry.
    fn put_write(&mut self, p: usize, key: Vec<u8>, value: Vec<u8>, h: u64) -> (r: Option<Vec<u8>>)
        requires
            old(self).wf(),
            p < old(self).peers@.len(),
            !old(self).idx(p as int).contains(h),
            h <= old(self).bookmark_of(p as int),
        ensures
            final(self).opset == old(self).opset,
            final(self).wf(),
            final(self).same_peers(&*old(self)),
            final(self).kv() == old(self).kv().insert(key@, value@),
            prior_value(old(self).kv(), key@, r),
            forall|q: int| 0 <= q < final(self).peer_count() ==> #[trigger] final(self).bookmark_of(q) == old(self).bookmark_of(q),
            final(self).author_at(key@) == p,
            final(self).hlc_at(key@) == h,
            final(self).idx(p as int).contains(h),
            forall|q: int, g: u64|
                0 <= q < final(self).peer_count() && #[trigger] final(self).idx(q).contains(g) && (q != p || g != h)
                    ==> old(self).idx(q).contains(g),
            old(self).kv().contains_key(key@) ==> MemStore::displaced(&*old(self), key@, &*final(self)),
            MemStore::others_kept(&*old(self), key@, &*final(self)),
    {
        let ghost s0 = *self;
        let pos = find(&self.entries, key.as_slice());
        let kc = copy_bytes(key.as_slice());
        let entry = Entry { key, value, author: p, hlc: Hlc(h) };
        let r = match pos {
            None => {
                self.entries.push(entry);
                proof {
                    lemma_kv_push(s0.entries@, entry);
                }
                None
            },
            Some(i) => {
                let mut prev = entry;
                std::mem::swap(&mut self.entries[i], &mut prev);
                let a = prev.author;
                proof {
                    assert(prev == s0.entries@[i as int]);
                    lemma_kv_update(s0.entries@, i as int, entry);
                }
                tm_remove(&mut self.peers[a].index, prev.hlc.0);
                if a != 0 {
                    self.peers[a].keys.remove(&prev.hlc.0);
                }
                Some(prev.value)
            },
        };
        tm_insert(&mut self.peers[p].index, h);
        self.peers[p].keys.insert(h, kc);
        proof {
            let es = self.entries@;
            let n = s0.entries@.len();
            // the entry now holding the key
            let ki: int = match pos {
                Some(i) => i as int,
                None => n as int,
            };
            lemma_pos_of(es, ki);
            match pos {
                Some(i) => {
                    lemma_pos_of(s0.entries@, i as int);
                },
                None => {},
            }
            assert forall|k2: Seq<u8>|
                k2 != key@ && #[trigger] s0.kv().contains_key(k2) implies self.kv().contains_key(k2) && self.author_at(k2)
                    == s0.author_at(k2) && self.hlc_at(k2) == s0.hlc_at(k2) by {
                let j = pos_of(s0.entries@, k2);
                assert(s0.entries@[j].key@ == k2);
                assert(j != ki);
                assert(es[j] == s0.entries@[j]);
                lemma_pos_of(es, j);
            }
            let ao: int = match pos {
                Some(i) => s0.entries@[i as int].author as int,
                None => -1,
            };
            let ho: u64 = match pos {
                Some(i) => s0.entries@[i as int].hlc.0,
                None => 0,
            };
            assert forall|j: int| 0 <= j < es.len() implies {
                let e = #[trigger] es[j];
                &&& e.author < self.peers@.len()
                &&& self.idx(e.author as int).contains(e.hlc.0)
                &&& self.keys_of(e.author as int).contains_key(e.hlc.0)
                &&& self.keys_of(e.author as int)[e.hlc.0]@ == e.key@
            } by {
                if j != ki {
                    assert(es[j] == s0.entries@[j]);
                    assert(s0.idx(es[j].author as int).contains(es[j].hlc.0));
                    if es[j].author == ao && es[j].hlc.0 == ho {
                        s0.lemma_write_unique(ki, j);
                    }
                }
            }
            assert forall|q: int, g: u64|
                0 <= q < self.peers@.len() && #[trigger] self.idx(q).contains(g) implies g <= self.bookmark_of(q) by {
                if q != p || g != h {
                    assert(s0.idx(q).contains(g));
                }
            }
            assert forall|q: int, g: u64|
                0 <= q < self.peers@.len() && #[trigger] self.idx(q).contains(g) implies {
                    &&& self.keys_of(q).contains_key(g)
                    &&& exists|j: int|
                        is_write(self.entries@, j, q, g) && #[trigger] self.entries@[j].key@
                            == self.keys_of(q)[g]@
                } by {
                if q == p && g == h {
                    assert(is_write(es, ki, q, g));
                    assert(es[ki].key@ == self.keys_of(q)[g]@);
                } else {
                    assert(s0.idx(q).contains(g));
                    let j = choose|j: int|
                        is_write(s0.entries@, j, q, g) && #[trigger] s0.entries@[j].key@
                            == s0.keys_of(q)[g]@;
                    assert(j != ki);
                    assert(es[j] == s0.entries@[j]);
                    assert(is_write(es, j, q, g));
                    assert(es[j].key@ == self.keys_of(q)[g]@);
                }
            }
        }
        r
    }

    // Writes `key -> value` as the local peer's write `hlc`.
    fn insert_with_hlc(&mut self, key: Vec<u8>, value: Vec<u8>, hlc: Hlc) -> (r: Option<Vec<u8>>)
        requires
            old(self).wf(),
            hlc.0 > old(self).bookmark_of(0),
        ensures
            final(self).wf(),
            final(self).same_peers(&*old(self)),
            final(self).kv() == old(self).kv().insert(key@, value@),
            prior_value(old(self).kv(), key@, r),
            final(self).bookmark_of(0) == hlc.0,
            forall|p: int| 1 <= p < final(self).peer_count() ==> #[trigger] final(self).bookmark_of(p) == old(self).bookmark_of(p),
            final(self).author_at(key@) == 0,
            final(self).hlc_at(key@) == hlc.0,
            final(self).capturing() == old(self).capturing(),
            final(self).recorded() == if old(self).capturing() {
                old(self).recorded().push((key@, value@, hlc.0))
            } else {
                old(self).recorded()
            },
            old(self).kv().contains_key(key@) ==> MemStore::displaced(&*old(self), key@, &*final(self)),
            MemStore::others_kept(&*old(self), key@, &*final(self)),
    {
        let ghost s0 = *self;
        self.peers[0].bookmark = hlc;
        proof {
            assert forall|q: int, g: u64|
                0 <= q < self.peers@.len() && #[trigger] self.idx(q).contains(g) implies g <= self.bookmark_of(q) by {
                assert(s0.idx(q).contains(g));
            }
            assert(self.entries_indexed());
            assert forall|q: int, g: u64|
                0 <= q < self.peers@.len() && #[trigger] self.idx(q).contains(g) implies {
                    &&& self.keys_of(q).contains_key(g)
                    &&& exists|j: int|
                        is_write(self.entries@, j, q, g) && #[trigger] self.entries@[j].key@
                            == self.keys_of(q)[g]@
                } by {
                assert(s0.idx(q).contains(g));
                let j = choose|j: int|
                    is_write(s0.entries@, j, q, g) && #[trigger] s0.entries@[j].key@
                        == s0.keys_of(q)[g]@;
                assert(is_write(self.entries@, j, q, g));
            }
        }
        let ghost s1 = *self;
        let mut cur: Option<OpSet> = None;
        std::mem::swap(&mut self.opset, &mut cur);
        let rec = match cur {
            Some(mut op) => {
                op.add_insert(Insert { key: copy_bytes(key.as_slice()), value: copy_bytes(value.as_slice()), hlc });
                Some(op)
            },
            None => None,
        };
        self.opset = rec;
        proof {
            self.lemma_wf_frame(&s1);
        }
        let ghost s2 = *self;
        let ghost k = key@;
        let r = self.put_write(0, key, value, hlc.0);
        proof {
            assert(s2.entries@ == s0.entries@);
            assert(s2.author_at(k) == s0.author_at(k));
            assert(s2.hlc_at(k) == s0.hlc_at(k));
            assert forall|q: int| 0 <= q < s0.peer_count() implies #[trigger] s2.keys_of(q) == s0.keys_of(q) && s2.idx(q) == s0.idx(q) by {}
            assert forall|k2: Seq<u8>|
                k2 != k && #[trigger] s0.kv().contains_key(k2) implies self.kv().contains_key(k2) && self.author_at(k2)
                    == s0.author_at(k2) && self.hlc_at(k2) == s0.hlc_at(k2) by {
                assert(s2.kv().contains_key(k2));
                assert(s2.author_at(k2) == s0.author_at(k2));
                assert(s2.hlc_at(k2) == s0.hlc_at(k2));
            }
        }
        r
    }

    /// Inserts a key-value pair into the CRDT, returning the value it replaces.
    pub fn insert(&mut self, key: Vec<u8>, value: Vec<u8>) -> (r: Option<Vec<u8>>)
        requires
            old(self).wf(),
            old(self).bookmark_of(0) < u64::MAX,
        ensures
            final(self).wf(),
            final(self).same_peers(&*old(self)),
            final(self).kv() == old(self).kv().insert(key@, value@),
            prior_value(old(self).kv(), key@, r),
            final(self).bookmark_of(0) > old(self).bookmark_of(0),
            forall|p: int| 1 <= p < final(self).peer_count() ==> #[trigger] final(self).bookmark_of(p) == old(self).bookmark_of(p),
            final(self).author_at(key@) == 0,
            final(self).hlc_at(key@) == final(self).bookmark_of(0),
            final(self).capturing() == old(self).capturing(),
            final(self).recorded() == if old(self).capturing() {
                old(self).recorded().push((key@, value@, final(self).bookmark_of(0)))
            } else {
                old(self).recorded()
            },
            old(self).kv().contains_key(key@) ==> MemStore::displaced(&*old(self), key@, &*final(self)),
    {
        let hlc = self.peers[0].bookmark.next();
        self.insert_with_hlc(key, value, hlc)
    }

    /// `insert` with the physical time `pt` given by the caller instead of
    /// read from the system clock; like the clock's, its low 16 bits are
    /// masked off.
    pub fn insert_at(&mut self, key: Vec<u8>, value: Vec<u8>, pt: u64) -> (r: Option<Vec<u8>>)
        requires
            old(self).wf(),
            old(self).bookmark_of(0) < u64::MAX,
        ensures
            final(self).wf(),
            final(self).same_peers(&*old(self)),
            final(self).kv() == old(self).kv().insert(key@, value@),
            prior_value(old(self).kv(), key@, r),
            final(self).bookmark_of(0) == next_spec(old(self).bookmark_of(0), pt & L_MASK),
            forall|p: int| 1 <= p < final(self).peer_count() ==> #[trigger] final(self).bookmark_of(p) == old(self).bookmark_of(p),
            final(self).author_at(key@) == 0,
            final(self).hlc_at(key@) == final(self).bookmark_of(0),
            old(self).kv().contains_key(key@) ==> MemStore::displaced(&*old(self), key@, &*final(self)),
    {
        proof {
            lemma_aligned(pt);
        }
        let pt = pt & L_MASK;
        proof {
            lemma_next_increases(self.peers@[0].bookmark.0, pt);
        }
        let hlc = self.peers[0].bookmark.next_at(pt);
        self.insert_with_hlc(key, value, hlc)
    }

    /// Removes entry `i` and unindexes its write.
    fn remove_at(&mut self, i: usize) -> (r: Entry)
        requires
            old(self).wf(),
            i < old(self).entries@.len(),
        ensures
            final(self).opset == old(self).opset,
            final(self).wf(),
            final(self).same_peers(&*old(self)),
            r == old(self).entries@[i as int],
            final(self).kv() == old(self).kv().remove(r.key@),
            forall|p: int| 0 <= p < final(self).peer_count() ==> #[trigger] final(self).bookmark_of(p) == old(self).bookmark_of(p),
            !final(self).idx(r.author as int).contains(r.hlc.0),
            forall|p: int, h: u64| 0 <= p < final(self).peer_count() && (p != r.author || h != r.hlc.0)
                ==> (#[trigger] final(self).idx(p).contains(h) == old(self).idx(p).contains(h)),
            !final(self).keys_of(r.author as int).contains_key(r.hlc.0),
            MemStore::others_kept(&*old(self), r.key@, &*final(self)),
            final(self).idx(r.author as int) == old(self).idx(r.author as int).remove(r.hlc.0),
            final(self).keys_of(r.author as int) == old(self).keys_of(r.author as int).remove(r.hlc.0),
            forall|q: int| 0 <= q < final(self).peer_count() && q != r.author ==> #[trigger] final(self).idx(q) == old(self).idx(q),
            forall|q: int| 0 <= q < final(self).peer_count() && q != r.author ==> #[trigger] final(self).keys_of(q) == old(self).keys_of(q),
    {
        let ghost s0 = *self;
        let prev = self.entries.remove(i);
        let a = prev.author;
        tm_remove(&mut self.peers[a].index, prev.hlc.0);
        self.peers[a].keys.remove(&prev.hlc.0);
        proof {
            let es = self.entries@;
            let ho = prev.hlc.0;
            lemma_kv_remove(s0.entries@, i as int);
            lemma_pos_of(s0.entries@, i as int);
            assert forall|k2: Seq<u8>|
                k2 != prev.key@ && #[trigger] s0.kv().contains_key(k2) implies self.kv().contains_key(k2) && self.author_at(k2)
                    == s0.author_at(k2) && self.hlc_at(k2) == s0.hlc_at(k2) by {
                let j = pos_of(s0.entries@, k2);
                assert(s0.entries@[j].key@ == k2);
                assert(j != i);
                let j2 = if j < i { j } else { j - 1 };
                assert(es[j2] == s0.entries@[j]);
                lemma_pos_of(es, j2);
            }
            assert forall|j: int| 0 <= j < es.len() implies {
                let e = #[trigger] es[j];
                &&& e.author < self.peers@.len()
                &&& self.idx(e.author as int).contains(e.hlc.0)
                &&& self.keys_of(e.author as int).contains_key(e.hlc.0)
                &&& self.keys_of(e.author as int)[e.hlc.0]@ == e.key@
            } by {
                let j2 = if j < i { j } else { j + 1 };
                assert(es[j] == s0.entries@[j2]);
                if es[j].author == a && es[j].hlc.0 == ho {
                    s0.lemma_write_unique(i as int, j2);
                }
            }
            assert forall|p: int, h: u64|
                0 <= p < self.peers@.len() && #[trigger] self.idx(p).contains(h) implies h <= self.bookmark_of(p) by {
                assert(s0.idx(p).contains(h));
            }
            assert forall|p: int, h: u64|
                0 <= p < self.peers@.len() && #[trigger] self.idx(p).contains(h) implies {
                    &&& self.keys_of(p).contains_key(h)
                    &&& exists|j: int|
                        is_write(self.entries@, j, p, h) && #[trigger] self.entries@[j].key@
                            == self.keys_of(p)[h]@
                } by {
                assert(s0.idx(p).contains(h));
                let j = choose|j: int|
                    is_write(s0.entries@, j, p, h) && #[trigger] s0.entries@[j].key@
                        == s0.keys_of(p)[h]@;
                assert(j != i);
                let j2 = if j < i { j } else { j - 1 };
                assert(es[j2] == s0.entries@[j]);
                assert(is_write(es, j2, p, h));
                assert(es[j2].key@ == self.keys_of(p)[h]@);
            }
        }
        prev
    }

    /// Removes a key from the CRDT, returning the value at the key if the key
    /// was previously in the CRDT.
    pub fn remove(&mut self, key: &Vec<u8>) -> (r: Option<Vec<u8>>)
        requires
            old(self).wf(),
        ensures
            final(self).wf(),
            final(self).same_peers(&*old(self)),
            final(self).kv() == old(self).kv().remove(key@),
            prior_value(old(self).kv(), key@, r),
            forall|p: int| 0 <= p < final(self).peer_count() ==> #[trigger] final(self).bookmark_of(p) == old(self).bookmark_of(p),
            final(self).capturing() == old(self).capturing(),
            final(self).recorded() == old(self).recorded(),
            old(self).kv().contains_key(key@) ==> !final(self).idx(old(self).author_at(key@)).contains(
                old(self).hlc_at(key@),
            ) && !final(self).keys_of(old(self).author_at(key@)).contains_key(old(self).hlc_at(key@)),
            !old(self).kv().contains_key(key@) ==> *final(self) == *old(self),
            MemStore::others_kept(&*old(self), key@, &*final(self)),
            old(self).kv().contains_key(key@) ==> final(self).idx(old(self).author_at(key@)) == old(self).idx(
                old(self).author_at(key@),
            ).remove(old(self).hlc_at(key@)) && final(self).keys_of(old(self).author_at(key@)) == old(self).keys_of(
                old(self).author_at(key@),
            ).remove(old(self).hlc_at(key@)),
            old(self).kv().contains_key(key@) ==> forall|q: int|
                0 <= q < final(self).peer_count() && q != old(self).author_at(key@) ==> #[trigger] final(self).idx(q)
                    == old(self).idx(q) && final(self).keys_of(q) == old(self).keys_of(q),
            forall|q: Seq<u8>|
                #[trigger] final(self).recorded_deletes(q) == if old(self).capturing() && old(self).kv().contains_key(key@)
                    && q == old(self).peer_id_of(old(self).author_at(key@)) {
                    old(self).recorded_deletes(q).insert(old(self).hlc_at(key@))
                } else {
                    old(self).recorded_deletes(q)
                },
    {
        let ghost s0 = *self;
        match find(&self.entries, key.as_slice()) {
            Some(i) => {
                proof {
                    lemma_pos_of(self.entries@, i as int);
                }
                let prev = self.remove_at(i);
                let ghost s1 = *self;
                let mut cur: Option<OpSet> = None;
                std::mem::swap(&mut self.opset, &mut cur);
                let rec = match cur {
                    Some(mut op) => {
                        let ghost op0 = op;
                        let id = self.peers[prev.author].id.copy();
                        op.add_delete(id, prev.hlc);
                        proof {
                            assert(s1.opset == Some(op0));
                            assert(s0.entries@[i as int] == prev);
                            assert(prev.author < s0.peers@.len());
                            assert(s1.peer_id_of(prev.author as int) == s0.peer_id_of(prev.author as int));
                            assert(id@ == s0.peer_id_of(prev.author as int));
                            assert forall|q: Seq<u8>| #[trigger] op.deleted(q) == if q == id@ {
                                op0.deleted(q).insert(prev.hlc.0)
                            } else {
                                op0.deleted(q)
                            } by {
                                assert(op0.deleted(q).union(set![prev.hlc.0]) =~= op0.deleted(q).insert(prev.hlc.0));
                                assert(op0.deleted(q).union(Set::empty()) =~= op0.deleted(q));
                            }
                        }
                        Some(op)
                    },
                    None => None,
                };
                self.opset = rec;
                proof {
                    self.lemma_wf_frame(&s1);
                    assert forall|p: int| 0 <= p < self.peer_count() implies #[trigger] self.bookmark_of(p) == s1.bookmark_of(p) by {}
                    assert(self.same_peers(&s1));
                    s0.lemma_same_peers_trans(&s1, self);
                    assert forall|k2: Seq<u8>|
                        k2 != key@ && #[trigger] s0.kv().contains_key(k2) implies self.kv().contains_key(k2) && self.author_at(k2)
                            == s0.author_at(k2) && self.hlc_at(k2) == s0.hlc_at(k2) by {
                        assert(s1.kv().contains_key(k2));
                    }
                    lemma_pos_of(s0.entries@, i as int);
                    assert(s0.author_at(key@) == prev.author);
                    assert forall|q: int|
                        0 <= q < self.peer_count() && q != s0.author_at(key@) implies #[trigger] self.idx(q) == s0.idx(q)
                            && self.keys_of(q) == s0.keys_of(q) by {
                        assert(s1.idx(q) == s0.idx(q));
                        assert(s1.keys_of(q) == s0.keys_of(q));
                    }
                    assert forall|q: Seq<u8>|
                        #[trigger] self.recorded_deletes(q) == if s0.capturing() && s0.kv().contains_key(key@) && q
                            == s0.peer_id_of(s0.author_at(key@)) {
                            s0.recorded_deletes(q).insert(s0.hlc_at(key@))
                        } else {
                            s0.recorded_deletes(q)
                        } by {
                        assert(s1.opset == s0.opset);
                        assert(s0.author_at(key@) == prev.author);
                        assert(s0.hlc_at(key@) == prev.hlc.0);
                    }
                }
                Some(prev.value)
            },
            None => {
                assert(self.kv() =~= self.kv().remove(key@));
                None
            },
        }
    }

    /// Returns the number of elements in the CRDT
    pub fn len(&self) -> (r: usize)
        requires
            self.wf(),
        ensures
            r == self.kv().len(),
    {
        proof {
            self.lemma_len();
        }
        self.entries.len()
    }

    /// Returns `true` if the CRDT contains no entries
    pub fn is_empty(&self) -> (r: bool)
        requires
            self.wf(),
        ensures
            r == (self.kv().len() == 0),
    {
        proof {
            self.lemma_len();
        }
        self.entries.len() == 0
    }

    proof fn lemma_len(&self)
        requires
            self.wf(),
        ensures
            self.kv().len() == self.entries@.len(),
            self.kv().dom().finite(),
    {
        let es = self.entries@;
        let ks = es.map_values(|e: Entry| e.key@);
        assert forall|i: int, j: int| 0 <= i < ks.len() && 0 <= j < ks.len() && i != j implies ks[i] != ks[j] by {
            if i < j {
                assert(es[i].key@ != es[j].key@);
            } else {
                assert(es[j].key@ != es[i].key@);
            }
        }
        assert(ks.no_duplicates());
        ks.unique_seq_to_set();
        assert forall|k: Seq<u8>| self.kv().dom().contains(k) == ks.to_set().contains(k) by {
            if has_key(es, k) {
                let i = pos_of(es, k);
                assert(ks[i] == k);
            }
            if ks.to_set().contains(k) {
                let i = choose|i: int| 0 <= i < ks.len() && ks[i] == k;
                assert(es[i].key@ == k);
            }
        }
        assert(self.kv().dom() =~= ks.to_set());
    }

    /// The HLCs of peer `p` that a responder in state `self` sends as inserts
    /// to a requester that sent `req`: its live writes that the requester does
    /// not list and has never seen.
    pub open spec fn diff_inserts(&self, req: Seq<(PeerId, DiffRequestPeerState)>, p: int) -> Set<u64> {
        match req_pos(req, self.peer_id_of(p)) {
            Some(j) => self.idx(p).difference(treemap_set(req[j].1.index)).difference(
                range_set(0, req[j].1.bookmark.0),
            ),
            None => self.idx(p),
        }
    }

    /// The HLCs of peer `p` that the requester holds live and the responder
    /// has seen and no longer holds.
    pub open spec fn diff_deletes(&self, req: Seq<(PeerId, DiffRequestPeerState)>, p: int) -> Set<u64> {
        match req_pos(req, self.peer_id_of(p)) {
            Some(j) => treemap_set(req[j].1.index).difference(self.idx(p)).difference(
                range_set(self.bookmark_of(p), u64::MAX),
            ),
            None => Set::<u64>::empty(),
        }
    }

    /// `ins` materializes the live writes `hs` of peer `p`, in increasing
    /// HLC order, with their current keys and values.
    pub open spec fn materializes(&self, p: int, hs: Set<u64>, ins: Seq<Insert<Vec<u8>, Vec<u8>>>) -> bool {
        &&& strictly_increasing(insert_hlcs(ins))
        &&& insert_hlcs(ins).to_set() == hs
        &&& forall|i: int|
            0 <= i < ins.len() ==> {
                let x = #[trigger] ins[i];
                &&& self.keys_of(p)[x.hlc.0]@ == x.key@
                &&& self.kv().contains_key(x.key@)
                &&& self.kv()[x.key@] == x.value@
                &&& self.author_at(x.key@) == p
                &&& self.hlc_at(x.key@) == x.hlc.0
            }
    }

    /// `b` is the block for peer `p` in the answer to `req`.
    pub open spec fn block_for(&self, req: Seq<(PeerId, DiffRequestPeerState)>, p: int, b: DiffPeerState) -> bool {
        &&& self.materializes(p, self.diff_inserts(req, p), b.inserts@)
        &&& treemap_set(b.deletes) == self.diff_deletes(req, p)
        &&& b.bookmark.0 == self.bookmark_of(p)
    }

    /// `b` is the block, for some peer the replica knows, of the answer to `req`.
    pub open spec fn answers(&self, req: Seq<(PeerId, DiffRequestPeerState)>, b: (PeerId, DiffPeerState)) -> bool {
        exists|p: int| 0 <= p < self.peer_count() && #[trigger] self.peer_id_of(p) == b.0@ && self.block_for(req, p, b.1)
    }

    /// Returns a diff request object
    pub fn request_diff(&self) -> (r: DiffRequest)
        requires
            self.wf(),
        ensures
            r.0@.len() == self.peer_count(),
            forall|p: int|
                0 <= p < self.peer_count() ==> {
                    &&& (#[trigger] r.0@[p]).0@ == self.peer_id_of(p)
                    &&& treemap_set(r.0@[p].1.index) == self.idx(p)
                    &&& treemap_size(r.0@[p].1.index) == self.index_size_of(p)
                    &&& r.0@[p].1.bookmark.0 == self.bookmark_of(p)
                },
    {
        let mut out: Vec<(PeerId, DiffRequestPeerState)> = Vec::new();
        let mut p: usize = 0;
        while p < self.peers.len()
            invariant
                p <= self.peers@.len(),
                out@.len() == p,
                forall|q: int|
                    0 <= q < p ==> {
                        &&& (#[trigger] out@[q]).0@ == self.peer_id_of(q)
                        &&& treemap_set(out@[q].1.index) == self.idx(q)
                        &&& treemap_size(out@[q].1.index) == self.index_size_of(q)
                        &&& out@[q].1.bookmark.0 == self.bookmark_of(q)
                    },
            decreases self.peers@.len() - p,
        {
            let ps = &self.peers[p];
            out.push((ps.id.copy(), ps.diff_request()));
            p = p + 1;
        }
        DiffRequest(out)
    }

    /// Inserts for the live writes `hs` of peer `p`.
    fn materialize(&self, p: usize, hs: &roaring::RoaringTreemap) -> (r: Vec<Insert<Vec<u8>, Vec<u8>>>)
        requires
            self.wf(),
            p < self.peers@.len(),
            treemap_set(*hs).subset_of(self.idx(p as int)),
        ensures
            self.materializes(p as int, treemap_set(*hs), r@),
    {
        let hv = tm_to_vec(hs);
        let mut out: Vec<Insert<Vec<u8>, Vec<u8>>> = Vec::new();
        let mut k: usize = 0;
        while k < hv.len()
            invariant
                self.wf(),
                p < self.peers@.len(),
                treemap_set(*hs).subset_of(self.idx(p as int)),
                hv@.to_set() == treemap_set(*hs),
                strictly_increasing(hv@),
                k <= hv@.len(),
                insert_hlcs(out@) == hv@.subrange(0, k as int),
                forall|i: int|
                    0 <= i < out@.len() ==> {
                        let x = #[trigger] out@[i];
                        &&& self.keys_of(p as int)[x.hlc.0]@ == x.key@
                        &&& self.kv().contains_key(x.key@)
                        &&& self.kv()[x.key@] == x.value@
                        &&& self.author_at(x.key@) == p
                        &&& self.hlc_at(x.key@) == x.hlc.0
                    },
            decreases hv@.len() - k,
        {
            let h = hv[k];
            proof {
                assert(hv@.to_set().contains(hv@[k as int]));
                assert(self.idx(p as int).contains(h));
            }
            let ghost w = choose|i: int|
                is_write(self.entries@, i, p as int, h) && #[trigger] self.entries@[i].key@
                    == self.keys_of(p as int)[h]@;
            if let Some(key) = self.peers[p].keys.get(&h) {
                if let Some(i) = find(&self.entries, key.as_slice()) {
                    proof {
                        lemma_pos_of(self.entries@, i as int);
                        lemma_pos_of(self.entries@, w);
                    }
                    let ghost before = out@;
                    let x = Insert {
                        key: copy_bytes(key.as_slice()),
                        value: copy_bytes(self.entries[i].value.as_slice()),
                        hlc: Hlc(h),
                    };
                    out.push(x);
                    proof {
                        assert(insert_hlcs(out@) =~= insert_hlcs(before).push(h));
                        assert(hv@.subrange(0, k + 1) =~= hv@.subrange(0, k as int).push(h));
                    }
                } else {
                    proof {
                        assert(self.entries@[w].key@ == key@);
                    }
                }
            }
            k = k + 1;
        }
        proof {
            assert(hv@.subrange(0, k as int) =~= hv@);
        }
        out
    }

    /// Returns the diff that brings a replica that sent `request` up to date
    /// with this one.
    pub fn build_diff(&self, request: DiffRequest) -> (r: Diff)
        requires
            self.wf(),
        ensures
            forall|j: int| 0 <= j < r.0@.len() ==> self.answers(request.0@, #[trigger] r.0@[j]),
            forall|i: int, j: int| 0 <= i < j < r.0@.len() ==> r.0@[i].0@ != r.0@[j].0@,
            forall|p: int|
                0 <= p < self.peer_count() ==> (block_sent(
                    self.diff_inserts(request.0@, p),
                    self.diff_deletes(request.0@, p),
                ) <==> diff_names(r.0@, #[trigger] self.peer_id_of(p))),
            forall|p: int, j: int|
                0 <= p < self.peer_count() && 0 <= j < r.0@.len() && #[trigger] r.0@[j].0@ == #[trigger] self.peer_id_of(p)
                    ==> self.block_for(request.0@, p, r.0@[j].1),
    {
        let req = &request.0;
        let mut out: Vec<(PeerId, DiffPeerState)> = Vec::new();
        let ghost src: Seq<int> = Seq::empty();
        let mut p: usize = 0;
        while p < self.peers.len()
            invariant
                self.wf(),
                p <= self.peers@.len(),
                req == &request.0,
                src.len() == out@.len(),
                forall|j: int| 0 <= j < out@.len() ==> 0 <= #[trigger] src[j] < p,
                forall|i: int, j: int| 0 <= i < j < out@.len() ==> src[i] < src[j],
                forall|j: int|
                    0 <= j < out@.len() ==> self.peer_id_of(#[trigger] src[j]) == out@[j].0@
                        && self.block_for(req@, src[j], out@[j].1),
                forall|q: int|
                    0 <= q < p ==> (block_sent(self.diff_inserts(req@, q), self.diff_deletes(req@, q))
                        <==> exists|j: int| 0 <= j < out@.len() && #[trigger] src[j] == q),
            decreases self.peers@.len() - p,
        {
            let ps = &self.peers[p];
            let found = find_request(req, &ps.id);
            let (ins, dels) = match found {
                Some(j) => {
                    let rq = &req[j].1;
                    let mut ins = tm_difference(&ps.index, &rq.index);
                    tm_remove_range(&mut ins, 0, rq.bookmark.0);
                    let mut dels = tm_difference(&rq.index, &ps.index);
                    tm_remove_range(&mut dels, ps.bookmark.0, u64::MAX);
                    (ins, dels)
                },
                None => (tm_clone(&ps.index), tm_new()),
            };
            proof {
                match found {
                    Some(j) => {
                        assert(is_first(req@, ps.id@, j as int));
                        assert(req_pos(req@, ps.id@) == Some(j as int));
                    },
                    None => {
                        assert(req_pos(req@, ps.id@) == None::<int>);
                    },
                }
                assert(treemap_set(ins) =~= self.diff_inserts(req@, p as int));
                assert(treemap_set(dels) =~= self.diff_deletes(req@, p as int));
            }
            let inserts = self.materialize(p, &ins);
            let block = DiffPeerState { inserts, deletes: dels, bookmark: ps.bookmark };
            let ghost old_src = src;
            let no_dels = tm_is_empty(&block.deletes);
            if block.inserts.len() > 0 || no_dels {
                proof {
                    if block.inserts@.len() > 0 {
                        assert(insert_hlcs(block.inserts@).to_set().contains(insert_hlcs(block.inserts@)[0]));
                    }
                }
                out.push((ps.id.copy(), block));
                proof {
                    src = src.push(p as int);
                }
            } else {
                proof {
                    assert(insert_hlcs(block.inserts@) =~= Seq::<u64>::empty());
                    assert(insert_hlcs(block.inserts@).to_set() =~= Set::<u64>::empty());
                }
            }
            proof {
                assert forall|q: int|
                    0 <= q < p + 1 implies (block_sent(self.diff_inserts(req@, q), self.diff_deletes(req@, q))
                        <==> exists|j: int| 0 <= j < out@.len() && #[trigger] src[j] == q) by {
                    if q < p {
                        if exists|j: int| 0 <= j < old_src.len() && #[trigger] old_src[j] == q {
                            let j = choose|j: int| 0 <= j < old_src.len() && #[trigger] old_src[j] == q;
                            assert(src[j] == q);
                        }
                        if exists|j: int| 0 <= j < out@.len() && #[trigger] src[j] == q {
                            let j = choose|j: int| 0 <= j < out@.len() && #[trigger] src[j] == q;
                            assert(j < old_src.len());
                            assert(old_src[j] == q);
                        }
                    } else {
                        if src.len() > old_src.len() {
                            assert(src[old_src.len() as int] == q);
                        }
                    }
                }
            }
            p = p + 1;
        }
        proof {
            assert forall|i: int, j: int| 0 <= i < j < out@.len() implies out@[i].0@ != out@[j].0@ by {
                assert(self.peer_id_of(src[i]) == out@[i].0@);
                assert(self.peer_id_of(src[j]) == out@[j].0@);
                assert(src[i] < src[j]);
                assert(self.peers@[src[i]].id@ != self.peers@[src[j]].id@);
            }
            assert forall|j: int| 0 <= j < out@.len() implies self.answers(request.0@, #[trigger] out@[j]) by {
                let q = src[j];
                assert(0 <= q < self.peer_count());
                assert(self.peer_id_of(q) == out@[j].0@);
                assert(self.block_for(request.0@, q, out@[j].1));
            }
            assert forall|q: int| 0 <= q < self.peer_count() implies (block_sent(
                self.diff_inserts(request.0@, q),
                self.diff_deletes(request.0@, q),
            ) <==> diff_names(out@, #[trigger] self.peer_id_of(q))) by {
                if exists|j: int| 0 <= j < out@.len() && #[trigger] src[j] == q {
                    let j = choose|j: int| 0 <= j < out@.len() && #[trigger] src[j] == q;
                    assert(out@[j].0@ == self.peer_id_of(q));
                }
                if exists|j: int| 0 <= j < out@.len() && out@[j].0@ == self.peer_id_of(q) {
                    let j = choose|j: int| 0 <= j < out@.len() && out@[j].0@ == self.peer_id_of(q);
                    let q2 = src[j];
                    assert(self.peer_id_of(q2) == self.peer_id_of(q));
                    if q2 < q {
                        assert(self.peers@[q2].id@ != self.peers@[q].id@);
                    } else if q < q2 {
                        assert(self.peers@[q].id@ != self.peers@[q2].id@);
                    }
                    assert(src[j] == q);
                }
            }
        }
        proof {
            assert forall|p: int, j: int|
                0 <= p < self.peer_count() && 0 <= j < out@.len() && #[trigger] out@[j].0@ == #[trigger] self.peer_id_of(p)
                    implies self.block_for(request.0@, p, out@[j].1) by {
                let q = src[j];
                assert(self.peer_id_of(q) == out@[j].0@);
                self.lemma_ids_distinct(p, q);
            }
        }
        Diff(out)
    }

    /// `self` holds the entries and the peers of `o`, and perhaps more peers.
    pub open spec fn extends(&self, o: &Self) -> bool {
        &&& self.peer_count() >= o.peer_count()
        &&& forall|p: int| 0 <= p < o.peer_count() ==> #[trigger] self.peer_id_of(p) == o.peer_id_of(p)
        &&& self.name_view() == o.name_view()
    }

    /// Every peer's bookmark is at least what it was in `o`.
    pub open spec fn bookmarks_grown(&self, o: &Self) -> bool {
        forall|p: int| 0 <= p < o.peer_count() ==> #[trigger] self.bookmark_of(p) >= o.bookmark_of(p)
    }

    /// Position of the peer `id` in the peer table.
    fn peer_pos(&self, id: &PeerId) -> (r: Option<usize>)
        ensures
            match r {
                Some(p) => p < self.peers@.len() && self.peer_id_of(p as int) == id@,
                None => forall|p: int| 0 <= p < self.peers@.len() ==> #[trigger] self.peer_id_of(p) != id@,
            },
    {
        let mut p: usize = 0;
        while p < self.peers.len()
            invariant
                p <= self.peers@.len(),
                forall|q: int| 0 <= q < p ==> #[trigger] self.peer_id_of(q) != id@,
            decreases self.peers@.len() - p,
        {
            if self.peers[p].id.same(id) {
                return Some(p);
            }
            p = p + 1;
        }
        None
    }

    /// Position of the peer `id`, which is added, with nothing seen from it,
    /// if the replica did not know it.
    fn peer_or_add(&mut self, id: &PeerId) -> (r: usize)
        requires
            old(self).wf(),
        ensures
            final(self).wf(),
            final(self).extends(&*old(self)),
            r < final(self).peers@.len(),
            final(self).peer_id_of(r as int) == id@,
            final(self).kv() == old(self).kv(),
            forall|p: int| 0 <= p < old(self).peers@.len() ==> #[trigger] final(self).bookmark_of(p) == old(self).bookmark_of(p),
            old(self).has_peer(id@) ==> *final(self) == *old(self),
            !old(self).has_peer(id@) ==> MemStore::admit_step(&*old(self), id@, &*final(self)),
    {
        match self.peer_pos(id) {
            Some(p) => p,
            None => {
                let ghost s0 = *self;
                let ps = PeerState { id: id.copy(), index: tm_new(), keys: HashMap::new(), bookmark: Hlc(0) };
                self.peers.push(ps);
                proof {
                    let n = s0.peers@.len() as int;
                    assert forall|a: int, b: int| 0 <= a < b < self.peers@.len() implies self.peers@[a].id@ != self.peers@[b].id@ by {
                        if b == n {
                            assert(s0.peer_id_of(a) != id@);
                        } else {
                            assert(s0.peers@[a].id@ != s0.peers@[b].id@);
                        }
                    }
                    assert forall|i: int| 0 <= i < self.entries@.len() implies {
                        let e = #[trigger] self.entries@[i];
                        &&& e.author < self.peers@.len()
                        &&& self.idx(e.author as int).contains(e.hlc.0)
                        &&& self.keys_of(e.author as int).contains_key(e.hlc.0)
                        &&& self.keys_of(e.author as int)[e.hlc.0]@ == e.key@
                    } by {
                        assert(s0.entries@[i] == self.entries@[i]);
                    }
                    assert forall|q: int, g: u64|
                        0 <= q < self.peers@.len() && #[trigger] self.idx(q).contains(g) implies g <= self.bookmark_of(q) by {
                        assert(q < n);
                        assert(s0.idx(q).contains(g));
                    }
                    assert forall|q: int, g: u64|
                        0 <= q < self.peers@.len() && #[trigger] self.idx(q).contains(g) implies {
                            &&& self.keys_of(q).contains_key(g)
                            &&& exists|j: int|
                                is_write(self.entries@, j, q, g) && #[trigger] self.entries@[j].key@
                                    == self.keys_of(q)[g]@
                        } by {
                        assert(q < n);
                        assert(s0.idx(q).contains(g));
                        let j = choose|j: int|
                            is_write(s0.entries@, j, q, g) && #[trigger] s0.entries@[j].key@
                                == s0.keys_of(q)[g]@;
                        assert(is_write(self.entries@, j, q, g));
                    }
                    assert(!s0.has_peer(id@));
                    assert(MemStore::admit_step(&s0, id@, self));
                }
                self.peers.len() - 1
            },
        }
    }

    /// Raises the bookmark of peer `p` to at least `h`.
    fn raise_bookmark(&mut self, p: usize, h: u64)
        requires
            old(self).wf(),
            p < old(self).peers@.len(),
        ensures
            final(self).opset == old(self).opset,
            final(self).wf(),
            final(self).same_peers(&*old(self)),
            final(self).kv() == old(self).kv(),
            final(self).entries@ == old(self).entries@,
            final(self).bookmark_of(p as int) == if h > old(self).bookmark_of(p as int) { h } else { old(self).bookmark_of(p as int) },
            forall|q: int| 0 <= q < final(self).peer_count() && q != p ==> #[trigger] final(self).bookmark_of(q) == old(self).bookmark_of(q),
            forall|q: int| 0 <= q < final(self).peer_count() ==> #[trigger] final(self).idx(q) == old(self).idx(q),
            forall|q: int| 0 <= q < final(self).peer_count() ==> #[trigger] final(self).keys_of(q) == old(self).keys_of(q),
    {
        if h > self.peers[p].bookmark.0 {
            let ghost s0 = *self;
            self.peers[p].bookmark = Hlc(h);
            proof {
                assert forall|q: int, g: u64|
                    0 <= q < self.peers@.len() && #[trigger] self.idx(q).contains(g) implies g <= self.bookmark_of(q) by {
                    assert(s0.idx(q).contains(g));
                }
                assert(self.entries_indexed());
                assert forall|q: int, g: u64|
                    0 <= q < self.peers@.len() && #[trigger] self.idx(q).contains(g) implies {
                        &&& self.keys_of(q).contains_key(g)
                        &&& exists|j: int|
                            is_write(self.entries@, j, q, g) && #[trigger] self.entries@[j].key@
                                == self.keys_of(q)[g]@
                    } by {
                    assert(s0.idx(q).contains(g));
                    let j = choose|j: int|
                        is_write(s0.entries@, j, q, g) && #[trigger] s0.entries@[j].key@
                            == s0.keys_of(q)[g]@;
                    assert(is_write(self.entries@, j, q, g));
                }
            }
        }
    }

    /// Whether the write `h` of peer `p` at key `k` takes the key: it is not
    /// live already, and the key is free or holds a write it displaces.
    pub open spec fn insert_applies(&self, p: int, k: Seq<u8>, h: u64) -> bool {
        !self.idx(p).contains(h) && (!self.kv().contains_key(k) || lww_wins(
            self.hlc_at(k),
            self.peer_id_of(self.author_at(k)),
            h,
            self.peer_id_of(p),
        ))
    }

    /// `s1` is `s0` after integrating the write `h` of peer `p`, `k -> v`.
    pub open spec fn insert_step(s0: &Self, p: int, k: Seq<u8>, v: Seq<u8>, h: u64, s1: &Self) -> bool {
        &&& s1.same_peers(s0)
        &&& s1.bookmark_of(p) == if h > s0.bookmark_of(p) { h } else { s0.bookmark_of(p) }
        &&& forall|q: int| 0 <= q < s1.peer_count() && q != p ==> #[trigger] s1.bookmark_of(q) == s0.bookmark_of(q)
        &&& if s0.insert_applies(p, k, h) {
            &&& s1.kv() == s0.kv().insert(k, v)
            &&& s1.idx(p).contains(h)
            &&& forall|q: int, g: u64|
                0 <= q < s1.peer_count() && #[trigger] s1.idx(q).contains(g) && (q != p || g != h)
                    ==> s0.idx(q).contains(g)
            &&& s1.author_at(k) == p
            &&& s1.hlc_at(k) == h
            &&& s0.kv().contains_key(k) ==> MemStore::displaced(s0, k, s1)
        } else {
            &&& s1.kv() == s0.kv()
            &&& s1.entry_seq() == s0.entry_seq()
            &&& forall|q: int| 0 <= q < s1.peer_count() ==> #[trigger] s1.idx(q) == s0.idx(q)
        }
    }

    /// `s1` is `s0` after integrating the delete of write `h` of peer `p`.
    pub open spec fn delete_step(s0: &Self, p: int, h: u64, s1: &Self) -> bool {
        &&& s1.same_peers(s0)
        &&& forall|q: int| 0 <= q < s1.peer_count() ==> #[trigger] s1.bookmark_of(q) == s0.bookmark_of(q)
        &&& forall|q: int, g: u64|
            0 <= q < s1.peer_count() && (q != p || g != h) ==> (#[trigger] s1.idx(q).contains(g) == s0.idx(q).contains(g))
        &&& if s0.idx(p).contains(h) {
            let k = s0.keys_of(p)[h]@;
            &&& s0.kv().contains_key(k)
            &&& s0.author_at(k) == p
            &&& s0.hlc_at(k) == h
            &&& s1.kv() == s0.kv().remove(k)
            &&& s1.keys_of(p) == s0.keys_of(p).remove(h)
        } else {
            &&& s1.kv() == s0.kv()
            &&& s1.keys_of(p) == s0.keys_of(p)
        }
        &&& forall|q: int| 0 <= q < s1.peer_count() && q != p ==> #[trigger] s1.keys_of(q) == s0.keys_of(q)
        &&& !s1.idx(p).contains(h)
    }

    /// The replica knows peer `id`.
    pub open spec fn has_peer(&self, id: Seq<u8>) -> bool {
        exists|p: int| 0 <= p < self.peer_count() && #[trigger] self.peer_id_of(p) == id
    }

    /// The position of peer `id` in the peer table.
    pub open spec fn pos(&self, id: Seq<u8>) -> int {
        choose|p: int| 0 <= p < self.peer_count() && #[trigger] self.peer_id_of(p) == id
    }

    /// `s1` is `s0` with peer `id` added, having nothing seen from it.
    pub open spec fn admit_step(s0: &Self, id: Seq<u8>, s1: &Self) -> bool {
        &&& s1.peer_count() == s0.peer_count() + 1
        &&& s1.peer_id_of(s0.peer_count()) == id
        &&& s1.idx(s0.peer_count()) == Set::<u64>::empty()
        &&& s1.bookmark_of(s0.peer_count()) == 0
        &&& forall|q: int| 0 <= q < s0.peer_count() ==> #[trigger] s1.peer_id_of(q) == s0.peer_id_of(q)
        &&& forall|q: int| 0 <= q < s0.peer_count() ==> #[trigger] s1.idx(q) == s0.idx(q)
        &&& forall|q: int| 0 <= q < s0.peer_count() ==> #[trigger] s1.bookmark_of(q) == s0.bookmark_of(q)
        &&& s1.entry_seq() == s0.entry_seq()
        &&& s1.kv() == s0.kv()
        &&& s1.name_view() == s0.name_view()
    }

    /// `s1` is `s0` with the bookmark of peer `p` raised to at least `bk`.
    pub open spec fn raise_step(s0: &Self, p: int, bk: u64, s1: &Self) -> bool {
        &&& s1.same_peers(s0)
        &&& s1.entry_seq() == s0.entry_seq()
        &&& s1.kv() == s0.kv()
        &&& s1.bookmark_of(p) == if bk > s0.bookmark_of(p) { bk } else { s0.bookmark_of(p) }
        &&& forall|q: int| 0 <= q < s1.peer_count() && q != p ==> #[trigger] s1.bookmark_of(q) == s0.bookmark_of(q)
        &&& forall|q: int| 0 <= q < s1.peer_count() ==> #[trigger] s1.idx(q) == s0.idx(q)
    }

    /// `s1` is `s0` after the step `op`.
    pub open spec fn op_step(s0: &Self, op: Op, s1: &Self) -> bool {
        match op {
            Op::Delete { id, h } => if s0.has_peer(id) {
                MemStore::delete_step(s0, s0.pos(id), h, s1)
            } else {
                *s1 == *s0
            },
            Op::Admit { id } => if s0.has_peer(id) {
                *s1 == *s0
            } else {
                MemStore::admit_step(s0, id, s1)
            },
            Op::Write { id, key, value, h } => s0.has_peer(id) && MemStore::insert_step(
                s0,
                s0.pos(id),
                key,
                value,
                h,
                s1,
            ),
            Op::Raise { id, bk } => s0.has_peer(id) && MemStore::raise_step(s0, s0.pos(id), bk, s1),
        }
    }

    /// The states `ss` go through the steps `ops`, one after the other.
    pub open spec fn runs(ss: Seq<MemStore>, ops: Seq<Op>) -> bool {
        &&& ss.len() == ops.len() + 1
        &&& forall|i: int| #![trigger ops[i]] 0 <= i < ops.len() ==> MemStore::op_step(&ss[i], ops[i], &ss[i + 1])
    }

    /// `s1` is `s0` after the steps `ops`, one after the other.
    pub open spec fn reaches(s0: &Self, ops: Seq<Op>, s1: &Self) -> bool {
        exists|ss: Seq<MemStore>| MemStore::runs(ss, ops) && ss[0] == *s0 && ss.last() == *s1
    }

    proof fn lemma_reaches_start(&self)
        ensures
            MemStore::reaches(self, Seq::empty(), self),
    {
        let ss = seq![*self];
        assert(MemStore::runs(ss, Seq::<Op>::empty()));
        assert(ss[0] == *self && ss.last() == *self);
    }

    proof fn lemma_reaches_step(&self, ops: Seq<Op>, b: &Self, op: Op, c: &Self)
        requires
            MemStore::reaches(self, ops, b),
            MemStore::op_step(b, op, c),
        ensures
            MemStore::reaches(self, ops.push(op), c),
    {
        let ss = choose|ss: Seq<MemStore>| MemStore::runs(ss, ops) && ss[0] == *self && ss.last() == *b;
        let ns = ss.push(*c);
        assert forall|i: int| #![trigger ops.push(op)[i]] 0 <= i < ops.push(op).len() implies MemStore::op_step(&ns[i], ops.push(op)[i], &ns[i + 1]) by {
            if i < ops.len() {
                assert(ops.push(op)[i] == ops[i]);
                assert(MemStore::op_step(&ss[i], ops[i], &ss[i + 1]));
            }
        }
        assert(MemStore::runs(ns, ops.push(op)));
        assert(ns[0] == *self && ns.last() == *c);
    }

    proof fn lemma_reaches_concat(&self, o1: Seq<Op>, b: &Self, o2: Seq<Op>, c: &Self)
        requires
            MemStore::reaches(self, o1, b),
            MemStore::reaches(b, o2, c),
        ensures
            MemStore::reaches(self, o1 + o2, c),
    {
        let s1 = choose|ss: Seq<MemStore>| MemStore::runs(ss, o1) && ss[0] == *self && ss.last() == *b;
        let s2 = choose|ss: Seq<MemStore>| MemStore::runs(ss, o2) && ss[0] == *b && ss.last() == *c;
        let ns = s1 + s2.skip(1);
        let os = o1 + o2;
        let n1 = o1.len() as int;
        assert forall|i: int| n1 <= i < ns.len() implies #[trigger] ns[i] == s2[i - n1] by {
            if i > n1 {
                assert(ns[i] == s2.skip(1)[i - s1.len()]);
            }
        }
        assert forall|i: int| #![trigger os[i]] 0 <= i < os.len() implies MemStore::op_step(&ns[i], os[i], &ns[i + 1]) by {
            if i < n1 {
                assert(os[i] == o1[i]);
                assert(MemStore::op_step(&s1[i], o1[i], &s1[i + 1]));
            } else {
                assert(os[i] == o2[i - n1]);
                assert(ns[i] == s2[i - n1]);
                assert(ns[i + 1] == s2[i - n1 + 1]);
                assert(MemStore::op_step(&s2[i - n1], o2[i - n1], &s2[i - n1 + 1]));
            }
        }
        assert(MemStore::runs(ns, os));
        assert(ns[0] == *self);
        assert(ns.last() == s2.last());
    }

    /// Deletes the live writes of peer `id` listed in `t`, if the peer is
    /// known; returns them in the order they were taken.
    fn integrate_delete_set(&mut self, id: &PeerId, t: &roaring::RoaringTreemap) -> (r: Vec<u64>)
        requires
            old(self).wf(),
        ensures
            final(self).wf(),
            final(self).same_peers(&*old(self)),
            forall|q: int| 0 <= q < final(self).peer_count() ==> #[trigger] final(self).bookmark_of(q) == old(self).bookmark_of(q),
            enumerates(r@, treemap_set(*t)),
            MemStore::reaches(&*old(self), delete_ops(id@, r@), &*final(self)),
    {
        let ghost s0 = *self;
        let found = self.peer_pos(id);
        let hv = tm_to_vec(t);
        proof {
            s0.lemma_reaches_start();
            assert(delete_ops(id@, hv@.take(0)) =~= Seq::<Op>::empty());
            assert(self.same_peers(&s0));
        }
        let mut k: usize = 0;
        while k < hv.len()
            invariant
                self.wf(),
                s0.wf(),
                self.same_peers(&s0),
                forall|q: int| 0 <= q < self.peer_count() ==> #[trigger] self.bookmark_of(q) == s0.bookmark_of(q),
                k <= hv@.len(),
                match found {
                    Some(p) => p < s0.peer_count() && s0.peer_id_of(p as int) == id@,
                    None => forall|q: int| 0 <= q < s0.peer_count() ==> #[trigger] s0.peer_id_of(q) != id@,
                },
                MemStore::reaches(&s0, delete_ops(id@, hv@.take(k as int)), self),
            decreases hv@.len() - k,
        {
            let ghost before = *self;
            let op = Ghost(Op::Delete { id: id@, h: hv@[k as int] });
            match found {
                Some(p) => {
                    self.integrate_delete(p, hv[k]);
                    proof {
                        before.lemma_pos(p as int);
                        s0.lemma_same_peers_trans(&before, self);
                    }
                },
                None => {
                    proof {
                        if before.has_peer(id@) {
                            let q = choose|q: int| 0 <= q < before.peer_count() && #[trigger] before.peer_id_of(q) == id@;
                            assert(s0.peer_id_of(q) != id@);
                        }
                    }
                },
            }
            proof {
                assert(MemStore::op_step(&before, op@, self));
                s0.lemma_reaches_step(delete_ops(id@, hv@.take(k as int)), &before, op@, self);
                assert(delete_ops(id@, hv@.take(k as int)).push(op@) =~= delete_ops(id@, hv@.take(k + 1)));
                assert forall|q: int| 0 <= q < self.peer_count() implies #[trigger] self.bookmark_of(q) == s0.bookmark_of(q) by {
                    assert(before.bookmark_of(q) == s0.bookmark_of(q));
                }
            }
            k = k + 1;
        }
        proof {
            assert(hv@.take(hv@.len() as int) =~= hv@);
        }
        hv
    }

    /// Peers of a well-formed replica have distinct identifiers: a peer's
    /// identifier names its one position in the peer table.
    pub proof fn lemma_ids_distinct(&self, a: int, b: int)
        requires
            self.wf(),
            0 <= a < self.peer_count(),
            0 <= b < self.peer_count(),
            self.peer_id_of(a) == self.peer_id_of(b),
        ensures
            a == b,
    {
        if a < b {
            assert(self.peers@[a].id@ != self.peers@[b].id@);
        } else if b < a {
            assert(self.peers@[b].id@ != self.peers@[a].id@);
        }
    }

    /// A well-formed replica finds a peer at its one position.
    proof fn lemma_pos(&self, p: int)
        requires
            self.wf(),
            0 <= p < self.peer_count(),
        ensures
            self.has_peer(self.peer_id_of(p)),
            self.pos(self.peer_id_of(p)) == p,
    {
        let id = self.peer_id_of(p);
        assert(self.peer_id_of(p) == id);
        let q = self.pos(id);
        if q != p {
            if q < p {
                assert(self.peers@[q].id@ != self.peers@[p].id@);
            } else {
                assert(self.peers@[p].id@ != self.peers@[q].id@);
            }
        }
    }

    /// Deletes the write `h` of peer `p`, if it is live.
    fn integrate_delete(&mut self, p: usize, h: u64)
        requires
            old(self).wf(),
            p < old(self).peers@.len(),
        ensures
            final(self).wf(),
            final(self).same_peers(&*old(self)),
            MemStore::delete_step(&*old(self), p as int, h, &*final(self)),
            forall|q: int| 0 <= q < final(self).peer_count() ==> #[trigger] final(self).bookmark_of(q) == old(self).bookmark_of(q),
    {
        if !tm_contains(&self.peers[p].index, h) {
            return;
        }
        assert(self.idx(p as int).contains(h));
        let ghost w = choose|i: int|
            is_write(self.entries@, i, p as int, h) && #[trigger] self.entries@[i].key@
                == self.keys_of(p as int)[h]@;
        if let Some(key) = self.peers[p].keys.get(&h) {
            if let Some(i) = find(&self.entries, key.as_slice()) {
                proof {
                    lemma_pos_of(self.entries@, i as int);
                    lemma_pos_of(self.entries@, w);
                }
                let ghost s0 = *self;
                let r = self.remove_at(i);
                proof {
                    assert(r.author == p && r.hlc.0 == h);
                    assert(s0.author_at(key@) == p as int);
                }
            } else {
                proof {
                    assert(self.entries@[w].key@ == key@);
                }
            }
        }
    }

    /// Integrates the write `x` of peer `p`: it takes its key unless the key
    /// holds a greater write, or the write is already live. The peer's
    /// bookmark is raised to the write's HLC first, so that every live HLC
    /// stays within its bookmark even when a block's inserts run past the
    /// block's own bookmark; for a diff that does not, this is the raise the
    /// block's bookmark makes anyway.
    fn integrate_insert(&mut self, p: usize, x: &Insert<Vec<u8>, Vec<u8>>)
        requires
            old(self).wf(),
            p < old(self).peers@.len(),
        ensures
            final(self).wf(),
            final(self).same_peers(&*old(self)),
            MemStore::insert_step(&*old(self), p as int, x.key@, x.value@, x.hlc.0, &*final(self)),
            final(self).bookmark_of(p as int) >= x.hlc.0,
            final(self).bookmark_of(p as int) >= old(self).bookmark_of(p as int),
            forall|q: int| 0 <= q < final(self).peer_count() && q != p ==> #[trigger] final(self).bookmark_of(q) == old(self).bookmark_of(q),
    {
        let ghost s0 = *self;
        let h = x.hlc.0;
        self.raise_bookmark(p, h);
        let ghost s1 = *self;
        proof {
            assert(s1.idx(p as int) == s0.idx(p as int));
            assert(s1.kv() == s0.kv());
            assert(s1.entries@ == s0.entries@);
            assert(s1.author_at(x.key@) == s0.author_at(x.key@));
            assert(s1.hlc_at(x.key@) == s0.hlc_at(x.key@));
            if s0.kv().contains_key(x.key@) {
                lemma_entry_indexed(&s0, x.key@);
            }
            assert(s1.insert_applies(p as int, x.key@, h) == s0.insert_applies(p as int, x.key@, h));
        }
        if tm_contains(&self.peers[p].index, h) {
            return;
        }
        let wins = match find(&self.entries, x.key.as_slice()) {
            None => true,
            Some(i) => {
                proof {
                    lemma_pos_of(self.entries@, i as int);
                }
                let ho = self.entries[i].hlc.0;
                ho < h || (ho == h && self.peers[self.entries[i].author].id.less_than(&self.peers[p].id))
            },
        };
        assert(wins == s1.insert_applies(p as int, x.key@, h));
        if wins {
            self.put_write(p, copy_bytes(x.key.as_slice()), copy_bytes(x.value.as_slice()), h);
            proof {
                s0.lemma_same_peers_trans(&s1, self);
                assert forall|q: int, g: u64|
                    0 <= q < self.peer_count() && #[trigger] self.idx(q).contains(g) && (q != p || g != h)
                        implies s0.idx(q).contains(g) by {
                    assert(s1.idx(q) == s0.idx(q));
                }
                assert forall|q: int| 0 <= q < self.peer_count() && q != p implies #[trigger] self.bookmark_of(q) == s0.bookmark_of(q) by {
                    assert(s1.bookmark_of(q) == s0.bookmark_of(q));
                }
                if s0.kv().contains_key(x.key@) {
                    lemma_entry_indexed(&s0, x.key@);
                    let a = s0.author_at(x.key@);
                    assert(s1.keys_of(a) == s0.keys_of(a));
                    assert(s1.idx(a) == s0.idx(a));
                    assert(s1.keys_of(0) == s0.keys_of(0));
                }
            }
        }
    }

    /// The replica knows peer `id` and has seen its writes up to `bk`.
    pub open spec fn knows(&self, id: Seq<u8>, bk: u64) -> bool {
        exists|p: int| 0 <= p < self.peer_count() && #[trigger] self.peer_id_of(p) == id && self.bookmark_of(p) >= bk
    }

    proof fn lemma_grown_trans(&self, b: &Self, c: &Self)
        requires
            b.extends(self),
            b.bookmarks_grown(self),
            c.extends(b),
            c.bookmarks_grown(b),
        ensures
            c.extends(self),
            c.bookmarks_grown(self),
    {
        assert forall|p: int| 0 <= p < self.peers@.len() implies #[trigger] c.bookmark_of(p) >= self.bookmark_of(p) by {
            assert(b.bookmark_of(p) >= self.bookmark_of(p));
            assert(c.bookmark_of(p) >= b.bookmark_of(p));
        }
        assert forall|p: int| 0 <= p < self.peers@.len() implies #[trigger] c.peer_id_of(p) == self.peer_id_of(p) by {
            assert(b.peer_id_of(p) == self.peer_id_of(p));
            assert(c.peer_id_of(p) == b.peer_id_of(p));
        }
    }

    proof fn lemma_knows_kept(&self, b: &Self, d: Seq<(PeerId, DiffPeerState)>, n: int)
        requires
            b.extends(self),
            b.bookmarks_grown(self),
            0 <= n <= d.len(),
            forall|j: int| 0 <= j < n ==> self.knows(#[trigger] d[j].0@, d[j].1.bookmark.0),
        ensures
            forall|j: int| 0 <= j < n ==> b.knows(#[trigger] d[j].0@, d[j].1.bookmark.0),
    {
        assert forall|j: int| 0 <= j < n implies b.knows(#[trigger] d[j].0@, d[j].1.bookmark.0) by {
            assert(self.knows(d[j].0@, d[j].1.bookmark.0));
            let p = choose|p: int| 0 <= p < self.peers@.len() && #[trigger] self.peer_id_of(p) == d[j].0@ && self.bookmark_of(p) >= d[j].1.bookmark.0;
            assert(b.peer_id_of(p) == self.peer_id_of(p));
            assert(b.bookmark_of(p) >= self.bookmark_of(p));
            assert(b.peer_id_of(p) == d[j].0@);
        }
    }

    /// Integrates a diff into the local CRDT: first the deletes of every
    /// block, then, block by block, the inserts under last-writer-wins and
    /// the block's bookmark. The final state is the old one after exactly
    /// the steps `diff_ops`.
    pub fn integrate_diff(&mut self, diff: Diff)
        requires
            old(self).wf(),
        ensures
            final(self).wf(),
            final(self).extends(&*old(self)),
            final(self).bookmarks_grown(&*old(self)),
            forall|j: int| 0 <= j < diff.0@.len() ==> final(self).knows(#[trigger] diff.0@[j].0@, diff.0@[j].1.bookmark.0),
            exists|hss: Seq<Seq<u64>>|
                diff_deletes_listed(diff.0@, hss) && MemStore::reaches(
                    &*old(self),
                    diff_ops(diff.0@, hss),
                    &*final(self),
                ),
    {
        let ghost s0 = *self;
        let ghost d = diff.0@;
        let ghost ids = d.map_values(|b: (PeerId, DiffPeerState)| b.0@);
        let ghost mut hss: Seq<Seq<u64>> = Seq::empty();
        proof {
            s0.lemma_reaches_start();
            assert(deletes_ops(ids.take(0), hss) =~= Seq::<Op>::empty());
        }
        let mut j: usize = 0;
        while j < diff.0.len()
            invariant
                self.wf(),
                self.extends(&s0),
                self.bookmarks_grown(&s0),
                j <= diff.0@.len(),
                d == diff.0@,
                ids == d.map_values(|b: (PeerId, DiffPeerState)| b.0@),
                hss.len() == j,
                forall|i: int| 0 <= i < j ==> enumerates(#[trigger] hss[i], treemap_set(d[i].1.deletes)),
                MemStore::reaches(&s0, deletes_ops(ids.take(j as int), hss), self),
            decreases diff.0@.len() - j,
        {
            let ghost before = *self;
            let hv = self.integrate_delete_set(&diff.0[j].0, &diff.0[j].1.deletes);
            proof {
                s0.lemma_reaches_concat(deletes_ops(ids.take(j as int), hss), &before, delete_ops(ids[j as int], hv@), self);
                let nh = hss.push(hv@);
                assert(ids.take(j + 1).drop_last() =~= ids.take(j as int));
                assert(nh.drop_last() =~= hss);
                assert(deletes_ops(ids.take(j + 1), nh) == deletes_ops(ids.take(j as int), hss) + delete_ops(ids[j as int], hv@));
                hss = nh;
                assert(self.extends(&before));
                assert(self.bookmarks_grown(&before));
                s0.lemma_grown_trans(&before, self);
            }
            j = j + 1;
        }
        proof {
            assert(ids.take(d.len() as int) =~= ids);
            assert(diff_write_ops(d.take(0)) =~= Seq::<Op>::empty());
            assert(deletes_ops(ids, hss) + diff_write_ops(d.take(0)) =~= deletes_ops(ids, hss));
        }
        let ghost dels = deletes_ops(ids, hss);
        let mut j: usize = 0;
        while j < diff.0.len()
            invariant
                self.wf(),
                self.extends(&s0),
                self.bookmarks_grown(&s0),
                j <= diff.0@.len(),
                d == diff.0@,
                forall|i: int| 0 <= i < j ==> self.knows(#[trigger] diff.0@[i].0@, diff.0@[i].1.bookmark.0),
                MemStore::reaches(&s0, dels + diff_write_ops(d.take(j as int)), self),
            decreases diff.0@.len() - j,
        {
            let ghost sj = *self;
            let ghost id = d[j as int].0@;
            let p = self.peer_or_add(&diff.0[j].0);
            proof {
                assert(self.bookmarks_grown(&sj));
                s0.lemma_grown_trans(&sj, self);
                assert(MemStore::op_step(&sj, Op::Admit { id }, self));
                s0.lemma_reaches_step(dels + diff_write_ops(d.take(j as int)), &sj, Op::Admit { id }, self);
            }
            let ghost base = (dels + diff_write_ops(d.take(j as int))).push(Op::Admit { id });
            let block = &diff.0[j].1;
            proof {
                assert(base + write_ops(id, block.inserts@.take(0)) =~= base);
            }
            let mut k: usize = 0;
            while k < block.inserts.len()
                invariant
                    self.wf(),
                    self.extends(&s0),
                    self.bookmarks_grown(&s0),
                    self.extends(&sj),
                    self.bookmarks_grown(&sj),
                    p < self.peers@.len(),
                    self.peer_id_of(p as int) == id,
                    id == diff.0@[j as int].0@,
                    block == &diff.0@[j as int].1,
                    k <= block.inserts@.len(),
                    MemStore::reaches(&s0, base + write_ops(id, block.inserts@.take(k as int)), self),
                decreases block.inserts@.len() - k,
            {
                let ghost before = *self;
                self.integrate_insert(p, &block.inserts[k]);
                proof {
                    let x = block.inserts@[k as int];
                    let op = Op::Write { id, key: x.key@, value: x.value@, h: x.hlc.0 };
                    before.lemma_pos(p as int);
                    assert(MemStore::op_step(&before, op, self));
                    s0.lemma_reaches_step(base + write_ops(id, block.inserts@.take(k as int)), &before, op, self);
                    assert((base + write_ops(id, block.inserts@.take(k as int))).push(op) =~= base + write_ops(
                        id,
                        block.inserts@.take(k + 1),
                    ));
                    assert(self.extends(&before));
                    assert(self.bookmarks_grown(&before));
                    s0.lemma_grown_trans(&before, self);
                    sj.lemma_grown_trans(&before, self);
                }
                k = k + 1;
            }
            let ghost before = *self;
            self.raise_bookmark(p, block.bookmark.0);
            proof {
                let op = Op::Raise { id, bk: block.bookmark.0 };
                before.lemma_pos(p as int);
                assert(MemStore::op_step(&before, op, self));
                assert(block.inserts@.take(block.inserts@.len() as int) =~= block.inserts@);
                s0.lemma_reaches_step(base + write_ops(id, block.inserts@), &before, op, self);
                let dj = d.take(j + 1);
                assert(dj.drop_last() =~= d.take(j as int));
                assert(dj.last() == d[j as int]);
                assert((base + write_ops(id, block.inserts@)).push(op) =~= dels + diff_write_ops(d.take(j + 1)));
                assert(self.extends(&before));
                assert(self.bookmarks_grown(&before));
                s0.lemma_grown_trans(&before, self);
                sj.lemma_grown_trans(&before, self);
                sj.lemma_knows_kept(self, diff.0@, j as int);
                assert(self.knows(diff.0@[j as int].0@, diff.0@[j as int].1.bookmark.0)) by {
                    assert(self.peer_id_of(p as int) == diff.0@[j as int].0@);
                }
            }
            j = j + 1;
        }
        proof {
            assert(d.take(d.len() as int) =~= d);
            assert(diff_deletes_listed(diff.0@, hss));
            assert(dels + diff_write_ops(d) == diff_ops(diff.0@, hss));
        }
    }

    /// The key-value pairs of the replica, in key order.
    pub fn entries(&self) -> (r: Entries)
        requires
            self.wf(),
        ensures
            keys_increasing(r.0@),
            r.0@.len() == self.kv().len(),
            forall|i: int|
                0 <= i < r.0@.len() ==> self.kv().contains_key((#[trigger] r.0@[i]).0@) && self.kv()[r.0@[i].0@]
                    == r.0@[i].1@,
    {
        let mut v: Vec<(Vec<u8>, Vec<u8>)> = Vec::new();
        let mut i: usize = 0;
        while i < self.entries.len()
            invariant
                self.wf(),
                i <= self.entries@.len(),
                v@.len() == i,
                forall|j: int|
                    0 <= j < i ==> (#[trigger] v@[j]).0@ == self.entries@[j].key@ && v@[j].1@
                        == self.entries@[j].value@,
            decreases self.entries@.len() - i,
        {
            let e = &self.entries[i];
            v.push((copy_bytes(e.key.as_slice()), copy_bytes(e.value.as_slice())));
            i = i + 1;
        }
        let ghost v0 = v@;
        sort_pairs(&mut v);
        proof {
            broadcast use vstd::seq_lib::group_to_multiset_ensures;
            self.lemma_len();
            let es = self.entries@;
            assert(v@.len() == v@.to_multiset().len());
            assert(v0.len() == v0.to_multiset().len());
            assert forall|a: int| #![trigger v@[a]] 0 <= a < v@.len() implies exists|j: int| 0 <= j < es.len() && v@[a] == #[trigger] v0[j] by {
                assert(v@.to_multiset().count(v@[a]) > 0);
                assert(v0.contains(v@[a]));
            }
            assert forall|a: int| 0 <= a < v@.len() implies self.kv().contains_key((#[trigger] v@[a]).0@) && self.kv()[v@[a].0@]
                == v@[a].1@ by {
                let j = choose|j: int| 0 <= j < es.len() && v@[a] == #[trigger] v0[j];
                lemma_pos_of(es, j);
            }
            assert forall|a: int, b: int| 0 <= a < b < v@.len() implies bytes_lt(v@[a].0@, v@[b].0@) by {
                let ja = choose|j: int| 0 <= j < es.len() && v@[a] == #[trigger] v0[j];
                let jb = choose|j: int| 0 <= j < es.len() && v@[b] == #[trigger] v0[j];
                if v@[a].0@ == v@[b].0@ {
                    if ja == jb {
                        // the same pair twice: impossible, each pair occurs once
                        self.lemma_pairs_unique(v0);
                        v0.lemma_multiset_has_no_duplicates();
                        assert(v@.to_multiset().contains(v@[a]));
                        v@.lemma_multiset_has_no_duplicates_conv();
                        assert(v@[a] != v@[b]);
                    } else if ja < jb {
                        assert(es[ja].key@ != es[jb].key@);
                    } else {
                        assert(es[jb].key@ != es[ja].key@);
                    }
                }
            }
        }
        Entries(v)
    }

    proof fn lemma_pairs_unique(&self, v0: Seq<(Vec<u8>, Vec<u8>)>)
        requires
            self.wf(),
            v0.len() == self.entries@.len(),
            forall|j: int|
                0 <= j < v0.len() ==> (#[trigger] v0[j]).0@ == self.entries@[j].key@,
        ensures
            v0.no_duplicates(),
    {
        assert forall|a: int, b: int| 0 <= a < v0.len() && 0 <= b < v0.len() && a != b implies v0[a] != v0[b] by {
            if a < b {
                assert(self.entries@[a].key@ != self.entries@[b].key@);
            } else {
                assert(self.entries@[b].key@ != self.entries@[a].key@);
            }
        }
    }

    /// Opens a transaction; nothing is staged yet.
    pub fn begin(&self) -> (r: MemStoreTxn)
        ensures
            r.wf(),
            r.staged() == Map::<Seq<u8>, Seq<u8>>::empty(),
            r.staged_count() == 0,
            r.staged_deletes() == Seq::<Vec<u8>>::empty(),
    {
        let r = MemStoreTxn { inserts: Vec::new(), deletes: Vec::new() };
        assert(r.staged() =~= Map::<Seq<u8>, Seq<u8>>::empty());
        r
    }

    /// Applies a transaction: see `MemStoreTxn::commit`.
    fn commit(&mut self, txn: MemStoreTxn, pt: Option<u64>)
        requires
            txn.wf(),
            old(self).wf(),
            old(self).bookmark_of(0) + txn.staged_count() < u64::MAX,
        ensures
            final(self).wf(),
            final(self).same_peers(&*old(self)),
            final(self).kv() == apply_deletes(old(self).kv().union_prefer_right(txn.staged()), txn.staged_deletes()),
            final(self).bookmark_of(0) >= old(self).bookmark_of(0) + txn.staged_count(),
            forall|p: int| 1 <= p < final(self).peer_count() ==> #[trigger] final(self).bookmark_of(p) == old(self).bookmark_of(p),
            txn.staged_count() == 0 ==> final(self).bookmark_of(0) == old(self).bookmark_of(0),
            exists|h0: u64|
                txn.hlcs_from(&*old(self), h0, &*final(self)) && (pt is Some && txn.staged_count() > 0 ==> h0
                    == start_hlc(old(self).bookmark_of(0), pt->0, txn.staged_count())),
    {
        let ghost s0 = *self;
        let n = txn.inserts.len();
        let bk = self.peers[0].bookmark;
        // consecutive HLCs from the clock's next value, or from just past the
        // bookmark when the clock's value leaves too little room for them all
        let mut h: u64 = bk.0 + 1;
        if n > 0 {
            let h0 = match pt {
                Some(t) => {
                    proof {
                        lemma_aligned(t);
                        lemma_next_increases(bk.0, t & L_MASK);
                    }
                    bk.next_at(t & L_MASK)
                },
                None => bk.next(),
            };
            if h0.0 < u64::MAX - n as u64 {
                h = h0.0;
            }
        }
        let ghost h0 = h;
        let ins = &txn.inserts;
        let mut k: usize = 0;
        while k < n
            invariant
                self.wf(),
                self.same_peers(&s0),
                n == ins@.len(),
                ins == &txn.inserts,
                keys_distinct(ins@),
                k <= n,
                h == h0 + k,
                h0 > s0.bookmark_of(0),
                self.bookmark_of(0) < h,
                k > 0 ==> self.bookmark_of(0) == h - 1,
                k == 0 ==> self.bookmark_of(0) == s0.bookmark_of(0),
                pt is Some && n > 0 ==> h0 == start_hlc(s0.bookmark_of(0), pt->0, n as nat),
                self.bookmark_of(0) >= s0.bookmark_of(0) + k,
                h as int + (n - k) <= u64::MAX,
                h >= s0.bookmark_of(0) + 1 + k,
                self.kv() == s0.kv().union_prefer_right(kv_of(ins@.take(k as int))),
                forall|p: int| 1 <= p < self.peer_count() ==> #[trigger] self.bookmark_of(p) == s0.bookmark_of(p),
                forall|i: int|
                    0 <= i < k ==> self.kv().contains_key((#[trigger] ins@[i]).key@) && self.author_at(ins@[i].key@) == 0
                        && self.hlc_at(ins@[i].key@) == h0 + i,
            decreases n - k,
        {
            let ghost before = *self;
            let e = &ins[k];
            self.insert_with_hlc(copy_bytes(e.key.as_slice()), copy_bytes(e.value.as_slice()), Hlc(h));
            proof {
                let t = ins@.take(k as int);
                assert(ins@.take(k + 1) =~= t.push(ins@[k as int]));
                assert(keys_distinct(t));
                assert(!has_key(t, e.key@)) by {
                    if has_key(t, e.key@) {
                        let j = pos_of(t, e.key@);
                        assert(ins@[j].key@ != ins@[k as int].key@);
                    }
                }
                lemma_kv_push(t, ins@[k as int]);
                assert(self.kv() =~= s0.kv().union_prefer_right(kv_of(ins@.take(k + 1))));
                assert(self.same_peers(&s0));
                assert forall|i: int|
                    0 <= i < k + 1 implies self.kv().contains_key((#[trigger] ins@[i]).key@) && self.author_at(ins@[i].key@) == 0
                        && self.hlc_at(ins@[i].key@) == h0 + i by {
                    if i < k {
                        assert(ins@[i].key@ != ins@[k as int].key@);
                        assert(before.kv().contains_key(ins@[i].key@));
                    }
                }
            }
            h = h + 1;
            k = k + 1;
        }
        proof {
            assert(ins@.take(n as int) =~= ins@);
        }
        let ghost m = self.kv();
        let ghost s1 = *self;
        let dels = &txn.deletes;
        let mut k: usize = 0;
        while k < dels.len()
            invariant
                self.wf(),
                self.same_peers(&s0),
                k <= dels@.len(),
                dels == &txn.deletes,
                n == ins@.len(),
                ins == &txn.inserts,
                self.bookmark_of(0) >= s0.bookmark_of(0) + n,
                self.bookmark_of(0) == s1.bookmark_of(0),
                h0 > s0.bookmark_of(0),
                n > 0 ==> s1.bookmark_of(0) == h0 + n - 1,
                n == 0 ==> s1.bookmark_of(0) == s0.bookmark_of(0),
                self.kv() == apply_deletes(m, dels@.take(k as int)),
                forall|p: int| 1 <= p < self.peer_count() ==> #[trigger] self.bookmark_of(p) == s0.bookmark_of(p),
                forall|i: int|
                    0 <= i < n && !listed(dels@.take(k as int), (#[trigger] ins@[i]).key@) ==> self.kv().contains_key(
                        ins@[i].key@,
                    ) && self.author_at(ins@[i].key@) == 0 && self.hlc_at(ins@[i].key@) == h0 + i,
            decreases dels@.len() - k,
        {
            let ghost before = *self;
            self.remove(&dels[k]);
            proof {
                assert(dels@.take(k + 1).drop_last() =~= dels@.take(k as int));
                assert forall|i: int|
                    0 <= i < n && !listed(dels@.take(k + 1), (#[trigger] ins@[i]).key@) implies self.kv().contains_key(
                        ins@[i].key@,
                    ) && self.author_at(ins@[i].key@) == 0 && self.hlc_at(ins@[i].key@) == h0 + i by {
                    assert(dels@.take(k + 1)[k as int] == dels@[k as int]);
                    if listed(dels@.take(k as int), ins@[i].key@) {
                        let j = choose|j: int| 0 <= j < dels@.take(k as int).len() && #[trigger] dels@.take(k as int)[j]@ == ins@[i].key@;
                        assert(dels@.take(k + 1)[j] == dels@.take(k as int)[j]);
                    }
                    assert(ins@[i].key@ != dels@[k as int]@);
                    assert(before.kv().contains_key(ins@[i].key@));
                }
            }
            k = k + 1;
        }
        proof {
            assert(dels@.take(dels@.len() as int) =~= dels@);
            assert(txn.hlcs_from(&s0, h0, self));
            assert(txn.hlcs_from(&s0, h0, self) && (pt is Some && txn.staged_count() > 0 ==> h0
                == start_hlc(s0.bookmark_of(0), pt->0, txn.staged_count())));
        }
    }

    /// Turns on the capture of local operations into an op set.
    pub fn with_opset(self) -> (r: Self)
        requires
            self.wf(),
        ensures
            r.wf(),
            r.capturing(),
            r.recorded() == Seq::<(Seq<u8>, Seq<u8>, u64)>::empty(),
            forall|q: Seq<u8>| #[trigger] r.recorded_deletes(q) == Set::<u64>::empty(),
            r.kv() == self.kv(),
            r.same_peers(&self),
    {
        let ghost s0 = self;
        let mut r = self;
        let op = OpSet::new(r.peers[0].id.copy());
        r.opset = Some(op);
        proof {
            assert(insert_views(op.inserts@) =~= Seq::<(Seq<u8>, Seq<u8>, u64)>::empty());
            r.lemma_wf_frame(&s0);
        }
        r
    }

    /// Drains the captured operations, leaving an empty op set in their
    /// place; without capture, the result is empty.
    pub fn take_opset(&mut self) -> (r: OpSet)
        requires
            old(self).wf(),
        ensures
            final(self).wf(),
            final(self).kv() == old(self).kv(),
            final(self).same_peers(&*old(self)),
            final(self).capturing() == old(self).capturing(),
            final(self).recorded() == Seq::<(Seq<u8>, Seq<u8>, u64)>::empty(),
            insert_views(r.inserts@) == old(self).recorded(),
            forall|q: Seq<u8>| #[trigger] r.deleted(q) == old(self).recorded_deletes(q),
            forall|q: Seq<u8>| #[trigger] final(self).recorded_deletes(q) == Set::<u64>::empty(),
    {
        let ghost s0 = *self;
        let fresh = OpSet::new(self.peers[0].id.copy());
        let mut cur: Option<OpSet> = None;
        std::mem::swap(&mut self.opset, &mut cur);
        let r = match cur {
            Some(op) => {
                self.opset = Some(fresh);
                op
            },
            None => fresh,
        };
        proof {
            assert(insert_views(fresh.inserts@) =~= Seq::<(Seq<u8>, Seq<u8>, u64)>::empty());
            self.lemma_wf_frame(&s0);
        }
        r
    }

    /// Integrates an op set: its deletes, then its inserts as writes of its
    /// peer, whose bookmark rises to the greatest HLC among them. The final
    /// state is the old one after exactly the steps `opset_ops`.
    pub fn integrate_opset(&mut self, op: OpSet)
        requires
            old(self).wf(),
        ensures
            final(self).wf(),
            final(self).extends(&*old(self)),
            final(self).bookmarks_grown(&*old(self)),
            forall|i: int| 0 <= i < op.inserts@.len() ==> final(self).knows(op.peer_id@, (#[trigger] op.inserts@[i]).hlc.0),
            exists|hss: Seq<Seq<u64>>|
                opset_deletes_listed(op.deletes@, hss) && MemStore::reaches(&*old(self), opset_ops(op, hss), &*final(self)),
    {
        let ghost s0 = *self;
        let ghost ds = op.deletes@;
        let ghost ids = ds.map_values(|b: (PeerId, roaring::RoaringTreemap)| b.0@);
        let ghost mut hss: Seq<Seq<u64>> = Seq::empty();
        proof {
            s0.lemma_reaches_start();
            assert(deletes_ops(ids.take(0), hss) =~= Seq::<Op>::empty());
        }
        let mut j: usize = 0;
        while j < op.deletes.len()
            invariant
                self.wf(),
                self.extends(&s0),
                self.bookmarks_grown(&s0),
                j <= op.deletes@.len(),
                ds == op.deletes@,
                ids == ds.map_values(|b: (PeerId, roaring::RoaringTreemap)| b.0@),
                hss.len() == j,
                forall|i: int| 0 <= i < j ==> enumerates(#[trigger] hss[i], treemap_set(ds[i].1)),
                MemStore::reaches(&s0, deletes_ops(ids.take(j as int), hss), self),
            decreases op.deletes@.len() - j,
        {
            let ghost before = *self;
            let hv = self.integrate_delete_set(&op.deletes[j].0, &op.deletes[j].1);
            proof {
                s0.lemma_reaches_concat(deletes_ops(ids.take(j as int), hss), &before, delete_ops(ids[j as int], hv@), self);
                let nh = hss.push(hv@);
                assert(ids.take(j + 1).drop_last() =~= ids.take(j as int));
                assert(nh.drop_last() =~= hss);
                assert(deletes_ops(ids.take(j + 1), nh) == deletes_ops(ids.take(j as int), hss) + delete_ops(ids[j as int], hv@));
                hss = nh;
                assert(self.extends(&before));
                assert(self.bookmarks_grown(&before));
                s0.lemma_grown_trans(&before, self);
            }
            j = j + 1;
        }
        proof {
            assert(ids.take(ds.len() as int) =~= ids);
        }
        let ghost id = op.peer_id@;
        let ghost sj = *self;
        let p = self.peer_or_add(&op.peer_id);
        proof {
            assert(self.bookmarks_grown(&sj));
            s0.lemma_grown_trans(&sj, self);
            assert(MemStore::op_step(&sj, Op::Admit { id }, self));
            s0.lemma_reaches_step(deletes_ops(ids, hss), &sj, Op::Admit { id }, self);
        }
        let ghost base = deletes_ops(ids, hss).push(Op::Admit { id });
        proof {
            assert(base + write_ops(id, op.inserts@.take(0)) =~= base);
        }
        let mut k: usize = 0;
        while k < op.inserts.len()
            invariant
                self.wf(),
                self.extends(&s0),
                self.bookmarks_grown(&s0),
                p < self.peers@.len(),
                self.peer_id_of(p as int) == op.peer_id@,
                id == op.peer_id@,
                k <= op.inserts@.len(),
                forall|i: int| 0 <= i < k ==> self.bookmark_of(p as int) >= (#[trigger] op.inserts@[i]).hlc.0,
                MemStore::reaches(&s0, base + write_ops(id, op.inserts@.take(k as int)), self),
            decreases op.inserts@.len() - k,
        {
            let ghost before = *self;
            self.integrate_insert(p, &op.inserts[k]);
            proof {
                let x = op.inserts@[k as int];
                let o = Op::Write { id, key: x.key@, value: x.value@, h: x.hlc.0 };
                before.lemma_pos(p as int);
                assert(MemStore::op_step(&before, o, self));
                s0.lemma_reaches_step(base + write_ops(id, op.inserts@.take(k as int)), &before, o, self);
                assert((base + write_ops(id, op.inserts@.take(k as int))).push(o) =~= base + write_ops(
                    id,
                    op.inserts@.take(k + 1),
                ));
                assert(self.extends(&before));
                assert(self.bookmarks_grown(&before));
                s0.lemma_grown_trans(&before, self);
            }
            k = k + 1;
        }
        proof {
            assert(op.inserts@.take(op.inserts@.len() as int) =~= op.inserts@);
            assert(base + write_ops(id, op.inserts@) == opset_ops(op, hss));
            assert(opset_deletes_listed(op.deletes@, hss));
        }
        assert forall|i: int| 0 <= i < op.inserts@.len() implies self.knows(op.peer_id@, (#[trigger] op.inserts@[i]).hlc.0) by {
            assert(self.peer_id_of(p as int) == op.peer_id@);
            assert(self.bookmark_of(p as int) >= op.inserts@[i].hlc.0);
        }
    }
}

/// Every entry of a well-formed replica is live in its author's index, and
/// the author's key record for its HLC is its key.
pub proof fn lemma_entry_indexed(s: &MemStore, k: Seq<u8>)
    requires
        s.wf(),
        s.kv().contains_key(k),
    ensures
        0 <= s.author_at(k) < s.peer_count(),
        s.idx(s.author_at(k)).contains(s.hlc_at(k)),
        s.keys_of(s.author_at(k)).contains_key(s.hlc_at(k)),
        s.keys_of(s.author_at(k))[s.hlc_at(k)]@ == k,
{
    let i = pos_of(s.entries@, k);
    assert(s.entries@[i].key@ == k);
}

/// No HLC that a well-formed replica holds live for a peer lies beyond that
/// peer's bookmark.
pub proof fn lemma_live_within_bookmark(s: &MemStore, p: int, h: u64)
    requires
        s.wf(),
        0 <= p < s.peer_count(),
        s.idx(p).contains(h),
    ensures
        h <= s.bookmark_of(p),
{
}

/// Receiving the same write twice leaves the key-value mapping as receiving
/// it once.
pub proof fn lemma_insert_step_idempotent(
    s0: &MemStore,
    s1: &MemStore,
    s2: &MemStore,
    p: int,
    k: Seq<u8>,
    v: Seq<u8>,
    h: u64,
)
    requires
        s0.wf(),
        0 <= p < s0.peer_count(),
        MemStore::insert_step(s0, p, k, v, h, s1),
        MemStore::insert_step(s1, p, k, v, h, s2),
    ensures
        s2.kv() == s1.kv(),
{
    if !s0.insert_applies(p, k, h) && s0.kv().contains_key(k) {
        lemma_entry_indexed(s0, k);
        assert(s1.hlc_at(k) == s0.hlc_at(k));
        assert(s1.author_at(k) == s0.author_at(k));
        assert(s1.peer_id_of(s0.author_at(k)) == s0.peer_id_of(s0.author_at(k)));
        assert(s1.peer_id_of(p) == s0.peer_id_of(p));
        assert(s1.idx(p) == s0.idx(p));
    }
    if !s0.insert_applies(p, k, h) && !s0.kv().contains_key(k) {
        assert(s1.idx(p) == s0.idx(p));
    }
}

/// Receiving the same delete twice leaves the key-value mapping as receiving
/// it once.
pub proof fn lemma_delete_step_idempotent(s0: &MemStore, s1: &MemStore, s2: &MemStore, p: int, h: u64)
    requires
        MemStore::delete_step(s0, p, h, s1),
        MemStore::delete_step(s1, p, h, s2),
    ensures
        s2.kv() == s1.kv(),
{
}

/// Two different writes to one key, neither of them live yet, leave the same
/// key-value mapping whichever of them is integrated first.
pub proof fn lemma_insert_steps_commute(
    s0: &MemStore,
    s1: &MemStore,
    s2: &MemStore,
    t1: &MemStore,
    t2: &MemStore,
    k: Seq<u8>,
    pa: int,
    v1: Seq<u8>,
    h1: u64,
    pb: int,
    v2: Seq<u8>,
    h2: u64,
)
    requires
        s0.wf(),
        0 <= pa < s0.peer_count(),
        0 <= pb < s0.peer_count(),
        pa != pb || h1 != h2,
        !s0.idx(pa).contains(h1),
        !s0.idx(pb).contains(h2),
        MemStore::insert_step(s0, pa, k, v1, h1, s1),
        MemStore::insert_step(s1, pb, k, v2, h2, s2),
        MemStore::insert_step(s0, pb, k, v2, h2, t1),
        MemStore::insert_step(t1, pa, k, v1, h1, t2),
    ensures
        s2.kv() == t2.kv(),
{
    let id1 = s0.peer_id_of(pa);
    let id2 = s0.peer_id_of(pb);
    assert(s1.peer_id_of(pa) == id1 && s1.peer_id_of(pb) == id2);
    assert(t1.peer_id_of(pa) == id1 && t1.peer_id_of(pb) == id2);
    if pa != pb {
        if pa < pb {
            assert(s0.peer_id_of(pa) != s0.peer_id_of(pb));
        } else {
            assert(s0.peer_id_of(pb) != s0.peer_id_of(pa));
        }
    }
    lemma_lww_strict_total(h1, id1, h2, id2);
    // whether the second write finds itself live after the first
    if s0.insert_applies(pa, k, h1) {
        if s1.idx(pb).contains(h2) {
            assert(s0.idx(pb).contains(h2));
        }
    } else {
        assert(s1.idx(pb) == s0.idx(pb));
    }
    if s0.insert_applies(pb, k, h2) {
        if t1.idx(pa).contains(h1) {
            assert(s0.idx(pa).contains(h1));
        }
    } else {
        assert(t1.idx(pa) == s0.idx(pa));
    }
    if s0.kv().contains_key(k) {
        lemma_entry_indexed(s0, k);
        let a = s0.author_at(k);
        let hw = s0.hlc_at(k);
        let idw = s0.peer_id_of(a);
        assert(s1.peer_id_of(a) == idw && t1.peer_id_of(a) == idw);
        lemma_lww_strict_total(hw, idw, h1, id1);
        lemma_lww_strict_total(hw, idw, h2, id2);
        if lww_wins(hw, idw, h1, id1) && lww_wins(h1, id1, h2, id2) {
            lemma_lww_trans(hw, idw, h1, id1, h2, id2);
        }
        if lww_wins(hw, idw, h2, id2) && lww_wins(h2, id2, h1, id1) {
            lemma_lww_trans(hw, idw, h2, id2, h1, id1);
        }
        if lww_wins(h1, id1, hw, idw) && lww_wins(hw, idw, h2, id2) {
            lemma_lww_trans(h1, id1, hw, idw, h2, id2);
        }
        if lww_wins(h2, id2, hw, idw) && lww_wins(hw, idw, h1, id1) {
            lemma_lww_trans(h2, id2, hw, idw, h1, id1);
        }
    }
}

} // verus!
