use roaring::RoaringTreemap;
use vstd::prelude::*;

use crate::bitmap::{tm_serialized_size, treemap_size};
use crate::hlc::Hlc;
use crate::peer_id::PeerId;

verus! {

/// The serialized sizes of the first `n` request blocks' bitmaps, summed,
/// saturating at `usize::MAX`.
pub open spec fn size_sum(req: Seq<(PeerId, DiffRequestPeerState)>, n: int) -> nat
    decreases n,
{
    if n <= 0 {
        0
    } else {
        let s = size_sum(req, n - 1) + treemap_size(req[n - 1].1.index);
        if s > usize::MAX {
            usize::MAX as nat
        } else {
            s
        }
    }
}

/// A summary of what a replica holds: for each peer it knows, its live set of
/// HLCs and the highest HLC it has seen from that peer.
pub struct DiffRequest(pub Vec<(PeerId, DiffRequestPeerState)>);

pub struct DiffRequestPeerState {
    pub index: RoaringTreemap,
    pub bookmark: Hlc,
}

/// The answer to a `DiffRequest`: for each peer, the writes the requester
/// lacks, the HLCs it should delete, and the responder's bookmark.
pub struct Diff(pub Vec<(PeerId, DiffPeerState)>);

pub struct DiffPeerState {
    pub inserts: Vec<Insert<Vec<u8>, Vec<u8>>>,
    pub deletes: RoaringTreemap,
    pub bookmark: Hlc,
}

/// One write: a key, its value, and the HLC its author gave it.
pub struct Insert<K, V> {
    pub key: K,
    pub value: V,
    pub hlc: Hlc,
}

impl DiffRequest {
    /// Returns the index size, in bytes: the serialized sizes of all peer
    /// bitmaps, summed (saturating at `usize::MAX`).
    pub fn index_size(&self) -> (r: usize)
        ensures
            r == size_sum(self.0@, self.0@.len() as int),
    {
        let mut total: usize = 0;
        let mut i: usize = 0;
        while i < self.0.len()
            invariant
                i <= self.0@.len(),
                total == size_sum(self.0@, i as int),
            decreases self.0@.len() - i,
        {
            total = total.saturating_add(self.0[i].1.index_size());
            i = i + 1;
        }
        total
    }
}

impl DiffRequestPeerState {
    /// Returns the index size, in bytes
    pub fn index_size(&self) -> (r: usize)
        ensures
            r == treemap_size(self.index),
    {
        tm_serialized_size(&self.index)
    }
}

} // verus!
