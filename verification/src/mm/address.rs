//! Page numbers and the split of a virtual page number into table indices.
use vstd::prelude::*;

verus! {

/// Physical page number.
#[derive(Clone, Copy, Debug, PartialEq, Eq, Structural)]
pub struct PhysPageNum(pub usize);

/// Virtual page number.
#[derive(Clone, Copy, Debug, PartialEq, Eq, Structural)]
pub struct VirtPageNum(pub usize);

/// Index into the root (level-0) table: bits 18..27 of the page number.
pub open spec fn idx0(vpn: usize) -> usize {
    (vpn >> 18usize) & 0x1ffusize
}

/// Index into a level-1 table: bits 9..18 of the page number.
pub open spec fn idx1(vpn: usize) -> usize {
    (vpn >> 9usize) & 0x1ffusize
}

/// Index into a level-2 (leaf) table: bits 0..9 of the page number.
pub open spec fn idx2(vpn: usize) -> usize {
    vpn & 0x1ffusize
}

/// The 27 bits of a page number that SV39 translates.
pub open spec fn vpn_key(vpn: usize) -> usize {
    vpn & 0x7ff_ffffusize
}

/// The three table indices are each below 512, and together they determine
/// the 27 translated bits of the page number.
pub proof fn lemma_indices(v: usize, w: usize)
    ensures
        idx0(v) < 512,
        idx1(v) < 512,
        idx2(v) < 512,
        (idx0(v) == idx0(w) && idx1(v) == idx1(w) && idx2(v) == idx2(w)) <==> vpn_key(v) == vpn_key(w),
        vpn_key(vpn_key(v)) == vpn_key(v),
        idx0(vpn_key(v)) == idx0(v),
        idx1(vpn_key(v)) == idx1(v),
        idx2(vpn_key(v)) == idx2(v),
        v < 0x800_0000 ==> vpn_key(v) == v,
{
    assert(((v >> 18usize) & 0x1ffusize) < 512 && ((v >> 9usize) & 0x1ffusize) < 512 && (v
        & 0x1ffusize) < 512 && ((((v >> 18usize) & 0x1ffusize) == ((w >> 18usize) & 0x1ffusize) && ((v
        >> 9usize) & 0x1ffusize) == ((w >> 9usize) & 0x1ffusize) && (v & 0x1ffusize) == (w
        & 0x1ffusize)) <==> (v & 0x7ff_ffffusize) == (w & 0x7ff_ffffusize)) && ((v & 0x7ff_ffffusize)
        & 0x7ff_ffffusize) == (v & 0x7ff_ffffusize) && (((v & 0x7ff_ffffusize) >> 18usize) & 0x1ffusize)
        == ((v >> 18usize) & 0x1ffusize) && (((v & 0x7ff_ffffusize) >> 9usize) & 0x1ffusize) == ((v
        >> 9usize) & 0x1ffusize) && ((v & 0x7ff_ffffusize) & 0x1ffusize) == (v & 0x1ffusize) && (v
        < 0x800_0000 ==> (v & 0x7ff_ffffusize) == v)) by (bit_vector);
}

impl VirtPageNum {
    /// The indices into the level-0, level-1 and level-2 tables.
    pub fn indexes(&self) -> (r: [usize; 3])
        ensures
            r@ == seq![idx0(self.0), idx1(self.0), idx2(self.0)],
            r@[0] < 512,
            r@[1] < 512,
            r@[2] < 512,
    {
        proof {
            lemma_indices(self.0, self.0);
        }
        let vpn = self.0;
        let r = [(vpn >> 18) & 511, (vpn >> 9) & 511, vpn & 511];
        assert(r@ =~= seq![idx0(self.0), idx1(self.0), idx2(self.0)]);
        r
    }
}

} // verus!
