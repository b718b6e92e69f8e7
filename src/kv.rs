//! The decisions of the SQLite storage binding, which itself stays outside
//! the verified library: how a peer's stored bitmap changes on commit, and
//! whether a reopened store matches the identifier it was asked for.
use roaring::RoaringTreemap;
use vstd::prelude::*;

use crate::bitmap::{tm_difference, tm_is_empty, tm_union, treemap_set};
use crate::peer_id::bytes_eq;

verus! {

/// The bitmap a peer's row holds after a commit: what it held, with the
/// transaction's new HLCs added and the HLCs of overwritten or deleted
/// entries taken out. `None` when nothing is left, and the row goes.
pub fn committed_bitmap(
    current: &RoaringTreemap,
    inserts: &RoaringTreemap,
    deletes: &RoaringTreemap,
) -> (r: Option<RoaringTreemap>)
    ensures
        match r {
            Some(t) => treemap_set(t) == treemap_set(*current).union(treemap_set(*inserts)).difference(
                treemap_set(*deletes),
            ) && treemap_set(t) != Set::<u64>::empty(),
            None => treemap_set(*current).union(treemap_set(*inserts)).difference(treemap_set(*deletes))
                == Set::<u64>::empty(),
        },
{
    let joined = tm_union(current, inserts);
    let left = tm_difference(&joined, deletes);
    if tm_is_empty(&left) {
        None
    } else {
        Some(left)
    }
}

/// Whether a store whose local peer is `stored` may be opened as `provided`
/// (any identifier, when none is asked for).
pub fn local_id_matches(provided: Option<&[u8]>, stored: &[u8]) -> (r: bool)
    ensures
        r == match provided {
            Some(p) => p@ == stored@,
            None => true,
        },
{
    match provided {
        Some(p) => bytes_eq(p, stored),
        None => true,
    }
}

} // verus!
