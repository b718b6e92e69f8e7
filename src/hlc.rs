use vstd::prelude::*;

use crate::clock::makept;

verus! {

/// Mask of the physical-time part `l` (the high 48 bits) of an HLC.
pub const L_MASK: u64 = 0xFFFF_FFFF_FFFF_0000;

/// Mask of the logical-counter part `c` (the low 16 bits) of an HLC.
pub const C_MASK: u64 = 0xFFFF;

/// Hybrid Logical Clock used to uniquely identify each row from a single editor.
#[derive(Clone, Copy, PartialEq, Eq, Structural, PartialOrd, Ord, Default, Hash, Debug)]
pub struct Hlc(pub u64);

/// The physical-time field of a raw HLC value.
pub open spec fn l_of(v: u64) -> u64 {
    v & L_MASK
}

/// The counter field of a raw HLC value.
pub open spec fn c_of(v: u64) -> u16 {
    (v & C_MASK) as u16
}

/// The packing of `l` and `c` into one value.
pub open spec fn pack(l: u64, c: u16) -> u64 {
    (l & L_MASK) | (c as u64)
}

/// What `next` yields from `h` when the physical time read is `pt`.
pub open spec fn next_spec(h: u64, pt: u64) -> u64 {
    if pt <= l_of(h) {
        (h + 1) as u64
    } else {
        pt & L_MASK
    }
}

proof fn lemma_mask_small(c: u64)
    requires
        c <= 0xFFFF,
    ensures
        c & 0xFFFF == c,
{
    assert(c <= 0xFFFF ==> c & 0xFFFF == c) by (bit_vector);
}

proof fn lemma_mask_idem(l: u64)
    ensures
        (l & 0xFFFF_FFFF_FFFF_0000) & 0xFFFF_FFFF_FFFF_0000 == l & 0xFFFF_FFFF_FFFF_0000,
{
    assert((l & 0xFFFF_FFFF_FFFF_0000) & 0xFFFF_FFFF_FFFF_0000 == l & 0xFFFF_FFFF_FFFF_0000)
        by (bit_vector);
}

proof fn lemma_pack(l: u64, c: u64)
    requires
        l & 0xFFFF_FFFF_FFFF_0000 == l,
        c <= 0xFFFF,
    ensures
        (l | c) & 0xFFFF_FFFF_FFFF_0000 == l,
        (l | c) & 0xFFFF == c,
        l | 0 == l,
{
    assert(l | 0 == l) by (bit_vector);
    assert(l & 0xFFFF_FFFF_FFFF_0000 == l && c <= 0xFFFF ==> (l | c) & 0xFFFF_FFFF_FFFF_0000 == l)
        by (bit_vector);
    assert(l & 0xFFFF_FFFF_FFFF_0000 == l && c <= 0xFFFF ==> (l | c) & 0xFFFF == c)
        by (bit_vector);
}

/// A value with its low 16 bits masked off is aligned.
pub proof fn lemma_aligned(x: u64)
    ensures
        (x & L_MASK) & 0xFFFF == 0,
{
    assert((x & 0xFFFF_FFFF_FFFF_0000) & 0xFFFF == 0) by (bit_vector);
}

/// `next` moves strictly forward when the physical time it reads is aligned
/// (as the system clock always is): the new value is greater than the old,
/// and on a jump of physical time the counter restarts at zero.
pub proof fn lemma_next_increases(h: u64, pt: u64)
    requires
        h < u64::MAX,
        pt & 0xFFFF == 0,
    ensures
        next_spec(h, pt) > h,
        next_spec(h, pt) == h + 1 || c_of(next_spec(h, pt)) == 0,
{
    if pt > l_of(h) {
        assert(pt & 0xFFFF == 0 && pt > h & 0xFFFF_FFFF_FFFF_0000 ==> pt > h) by (bit_vector);
        assert(pt & 0xFFFF == 0 ==> pt & 0xFFFF_FFFF_FFFF_0000 == pt) by (bit_vector);
        assert(pt & 0xFFFF == 0 ==> (pt & 0xFFFF) as u16 == 0) by (bit_vector);
    }
}

/// Incrementing an HLC whose counter is full carries into the physical-time
/// field: the counter restarts at zero and `l` moves up by one step of 2^16.
pub proof fn lemma_counter_carry(h: u64)
    requires
        c_of(h) == 0xFFFF,
        h < u64::MAX,
    ensures
        c_of((h + 1) as u64) == 0,
        l_of((h + 1) as u64) == l_of(h) + 0x10000,
{
    assert(h & 0xFFFF == 0xFFFF && h < 0xFFFF_FFFF_FFFF_FFFF ==> ((h + 1) as u64) & 0xFFFF == 0) by (bit_vector);
    assert(h & 0xFFFF == 0xFFFF && h < 0xFFFF_FFFF_FFFF_FFFF ==> ((h + 1) as u64) & 0xFFFF_FFFF_FFFF_0000 == (h & 0xFFFF_FFFF_FFFF_0000) + 0x10000) by (bit_vector);
    assert((h & 0xFFFF) as u16 == 0xFFFF ==> h & 0xFFFF == 0xFFFF) by (bit_vector);
    assert(((h + 1) as u64) & 0xFFFF == 0 ==> (((h + 1) as u64) & 0xFFFF) as u16 == 0) by (bit_vector);
}

impl Hlc {
    #[inline]
    pub fn new(l: u64, c: u16) -> (r: Self)
        ensures
            r.0 == pack(l, c),
            l_of(r.0) == l & L_MASK,
            c_of(r.0) == c,
            c == 0 ==> r.0 == l & L_MASK,
    {
        let lm = l & L_MASK;
        proof {
            lemma_mask_small(c as u64);
            lemma_mask_idem(l);
        }
        let cm = c as u64 & C_MASK;
        proof {
            lemma_pack(lm, cm);
        }
        let r = lm | cm;
        Hlc(r)
    }

    #[inline]
    pub fn to_u64(self) -> (r: u64)
        ensures
            r == self.0,
    {
        self.0
    }

    #[inline]
    pub fn from_u64(i: u64) -> (r: Self)
        ensures
            r.0 == i,
    {
        Hlc(i)
    }

    #[inline]
    pub fn l(self) -> (r: u64)
        ensures
            r == l_of(self.0),
    {
        self.0 & L_MASK
    }

    #[inline]
    pub fn c(self) -> (r: u16)
        ensures
            r == c_of(self.0),
    {
        (self.0 & C_MASK) as u16
    }

    /// Creates a new HLC from an existing, local HLC, reading the system clock.
    /// If physical time (pt) has moved past `l`, `l` is set to pt and `c` to 0.
    /// Otherwise the value is incremented by one.
    #[inline]
    pub fn next(self) -> (r: Self)
        requires
            self.0 < u64::MAX,
        ensures
            r.0 > self.0,
            r.0 == self.0 + 1 || c_of(r.0) == 0,
    {
        let pt = makept();
        proof {
            lemma_next_increases(self.0, pt);
        }
        self.next_at(pt)
    }

    /// `next` with the physical time `pt` given by the caller.
    #[inline]
    pub fn next_at(self, pt: u64) -> (r: Self)
        requires
            self.0 < u64::MAX,
        ensures
            r.0 == next_spec(self.0, pt),
    {
        let l = if self.l() >= pt { self.l() } else { pt };
        if l == self.l() {
            Hlc(self.0 + 1)
        } else {
            Hlc::new(l, 0)
        }
    }

    /// Increments the HLC by one
    #[inline]
    pub fn inc(self) -> (r: Self)
        requires
            self.0 < u64::MAX,
        ensures
            r.0 == self.0 + 1,
    {
        Hlc(self.0 + 1)
    }
}

} // verus!
