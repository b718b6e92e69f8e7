//! The compressed integer sets of the causal index, held in roaring's
//! `RoaringTreemap`. What a treemap holds is named by `treemap_set`, and
//! each operation the index uses is a small wrapper that states its effect on
//! that set.
use roaring::RoaringTreemap;
use vstd::prelude::*;

verus! {

#[verifier::external_type_specification]
#[verifier::external_body]
pub struct ExRoaringTreemap(roaring::RoaringTreemap);

/// The set of integers that a treemap holds.
pub uninterp spec fn treemap_set(t: RoaringTreemap) -> Set<u64>;

/// The length in bytes of a treemap's serialized form.
pub uninterp spec fn treemap_size(t: RoaringTreemap) -> nat;

/// A sequence of integers in strictly increasing order.
pub open spec fn strictly_increasing(s: Seq<u64>) -> bool {
    forall|i: int, j: int| 0 <= i < j < s.len() ==> s[i] < s[j]
}

/// The integers in `lo..=hi`.
pub open spec fn range_set(lo: u64, hi: u64) -> Set<u64> {
    Set::new(|x: u64| lo <= x && x <= hi)
}

/// Relies on `RoaringTreemap::new`: an empty treemap, whose serialized
/// form is its 8-byte count of inner bitmaps.
#[verifier::external_body]
pub(crate) fn tm_new() -> (r: RoaringTreemap)
    ensures
        treemap_set(r) == Set::<u64>::empty(),
        treemap_size(r) == 8,
{
    RoaringTreemap::new()
}

/// Relies on `RoaringTreemap::clone`: a treemap with the same integers and
/// the same inner bitmaps, hence the same serialized size.
#[verifier::external_body]
pub(crate) fn tm_clone(t: &RoaringTreemap) -> (r: RoaringTreemap)
    ensures
        treemap_set(r) == treemap_set(*t),
        treemap_size(r) == treemap_size(*t),
{
    t.clone()
}

/// Relies on `RoaringTreemap::insert`: adds `v` to the set.
#[verifier::external_body]
pub(crate) fn tm_insert(t: &mut RoaringTreemap, v: u64)
    ensures
        treemap_set(*final(t)) == treemap_set(*old(t)).insert(v),
{
    t.insert(v);
}

/// Relies on `RoaringTreemap::remove`: takes `v` out of the set.
#[verifier::external_body]
pub(crate) fn tm_remove(t: &mut RoaringTreemap, v: u64)
    ensures
        treemap_set(*final(t)) == treemap_set(*old(t)).remove(v),
{
    t.remove(v);
}

/// Relies on `RoaringTreemap::contains`: membership of `v`.
#[verifier::external_body]
pub(crate) fn tm_contains(t: &RoaringTreemap, v: u64) -> (r: bool)
    ensures
        r == treemap_set(*t).contains(v),
{
    t.contains(v)
}

/// Relies on `RoaringTreemap::is_empty`: whether the set is empty.
#[verifier::external_body]
pub(crate) fn tm_is_empty(t: &RoaringTreemap) -> (r: bool)
    ensures
        r == (treemap_set(*t) == Set::<u64>::empty()),
{
    t.is_empty()
}

/// Relies on `Sub for &RoaringTreemap`: the set difference `a \ b`.
#[verifier::external_body]
pub(crate) fn tm_difference(a: &RoaringTreemap, b: &RoaringTreemap) -> (r: RoaringTreemap)
    ensures
        treemap_set(r) == treemap_set(*a).difference(treemap_set(*b)),
{
    a - b
}

/// Relies on `BitOr for &RoaringTreemap`: the union of two sets.
#[verifier::external_body]
pub(crate) fn tm_union(a: &RoaringTreemap, b: &RoaringTreemap) -> (r: RoaringTreemap)
    ensures
        treemap_set(r) == treemap_set(*a).union(treemap_set(*b)),
{
    a | b
}

/// Relies on `RoaringTreemap::remove_range`: takes every integer of
/// `lo..=hi` out of the set.
#[verifier::external_body]
pub(crate) fn tm_remove_range(t: &mut RoaringTreemap, lo: u64, hi: u64)
    ensures
        treemap_set(*final(t)) == treemap_set(*old(t)).difference(range_set(lo, hi)),
{
    t.remove_range(lo..=hi);
}

/// Relies on `RoaringTreemap::iter`, which yields each integer of the set
/// once, in increasing order.
#[verifier::external_body]
pub(crate) fn tm_to_vec(t: &RoaringTreemap) -> (r: Vec<u64>)
    ensures
        r@.to_set() == treemap_set(*t),
        strictly_increasing(r@),
{
    t.iter().collect()
}

/// Relies on `RoaringTreemap::serialized_size`: the length in bytes of the
/// treemap's serialized form.
#[verifier::external_body]
pub(crate) fn tm_serialized_size(t: &RoaringTreemap) -> (r: usize)
    ensures
        r == treemap_size(*t),
{
    t.serialized_size()
}

} // verus!
