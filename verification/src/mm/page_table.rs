//! Page-table entries and flags, and the three-level SV39 page table kept
//! in physical memory.
use vstd::prelude::*;

use crate::mm::address::{idx0, idx1, idx2, lemma_indices, vpn_key, PhysPageNum, VirtPageNum};
use crate::mm::memory::{FrameTracker, PhysMemory};

verus! {

/// Flags held in the low byte of a page-table entry.
#[derive(Clone, Copy, Debug, PartialEq, Eq, Structural)]
pub struct PTEFlags {
    pub bits: u8,
}

impl PTEFlags {
    /// Valid
    #[allow(non_snake_case)]
    pub fn V() -> (f: PTEFlags)
        ensures
            f.bits == 1,
    {
        PTEFlags { bits: 1 }
    }

    /// Readable
    #[allow(non_snake_case)]
    pub fn R() -> (f: PTEFlags)
        ensures
            f.bits == 2,
    {
        PTEFlags { bits: 2 }
    }

    /// Writable
    #[allow(non_snake_case)]
    pub fn W() -> (f: PTEFlags)
        ensures
            f.bits == 4,
    {
        PTEFlags { bits: 4 }
    }

    /// eXecutable
    #[allow(non_snake_case)]
    pub fn X() -> (f: PTEFlags)
        ensures
            f.bits == 8,
    {
        PTEFlags { bits: 8 }
    }

    /// User
    #[allow(non_snake_case)]
    pub fn U() -> (f: PTEFlags)
        ensures
            f.bits == 16,
    {
        PTEFlags { bits: 16 }
    }

    /// Global
    #[allow(non_snake_case)]
    pub fn G() -> (f: PTEFlags)
        ensures
            f.bits == 32,
    {
        PTEFlags { bits: 32 }
    }

    /// Accessed
    #[allow(non_snake_case)]
    pub fn A() -> (f: PTEFlags)
        ensures
            f.bits == 64,
    {
        PTEFlags { bits: 64 }
    }

    /// Dirty
    #[allow(non_snake_case)]
    pub fn D() -> (f: PTEFlags)
        ensures
            f.bits == 128,
    {
        PTEFlags { bits: 128 }
    }

    /// No flag set.
    pub fn empty() -> (f: PTEFlags)
        ensures
            f.bits == 0,
    {
        PTEFlags { bits: 0 }
    }

    /// Every flag set.
    pub fn all() -> (f: PTEFlags)
        ensures
            f.bits == 0xff,
    {
        PTEFlags { bits: 0xff }
    }

    /// The raw bits.
    pub fn bits(&self) -> (r: u8)
        ensures
            r == self.bits,
    {
        self.bits
    }

    /// The flags with these bits; every bit of a `u8` names a flag, so this
    /// never fails.
    pub fn from_bits(bits: u8) -> (r: Option<PTEFlags>)
        ensures
            r == Some(PTEFlags { bits }),
    {
        Some(PTEFlags { bits })
    }

    /// The flags with these bits.
    pub fn from_bits_truncate(bits: u8) -> (r: PTEFlags)
        ensures
            r.bits == bits,
    {
        PTEFlags { bits }
    }

    /// Whether no flag is set.
    pub fn is_empty(&self) -> (r: bool)
        ensures
            r == (self.bits == 0),
    {
        self.bits == 0
    }

    /// Whether every flag of `other` is set here.
    pub fn contains(&self, other: PTEFlags) -> (r: bool)
        ensures
            r == (self.bits & other.bits == other.bits),
    {
        self.bits & other.bits == other.bits
    }

    /// Whether some flag of `other` is set here.
    pub fn intersects(&self, other: PTEFlags) -> (r: bool)
        ensures
            r == (self.bits & other.bits != 0),
    {
        self.bits & other.bits != 0
    }

    /// The flags set here or in `other`.
    pub fn union(self, other: PTEFlags) -> (r: PTEFlags)
        ensures
            r.bits == self.bits | other.bits,
    {
        PTEFlags { bits: self.bits | other.bits }
    }

    /// The flags set both here and in `other`.
    pub fn intersection(self, other: PTEFlags) -> (r: PTEFlags)
        ensures
            r.bits == self.bits & other.bits,
    {
        PTEFlags { bits: self.bits & other.bits }
    }
}

/// The entry's valid bit.
pub open spec fn pte_valid(e: u64) -> bool {
    e & 1u64 != 0
}

/// The physical page number held in bits 10..54 of an entry.
pub open spec fn pte_ppn(e: u64) -> usize {
    ((e >> 10u64) & 0xfff_ffff_ffffu64) as usize
}

/// The bits of an entry that maps page `ppn` with flag bits `flags`.
pub open spec fn pte_bits(ppn: usize, flags: u8) -> u64 {
    ((ppn as u64) << 10u64) | (flags as u64)
}

/// Page-table entry: a physical page number and eight flag bits.
#[derive(Clone, Copy, Debug, PartialEq, Eq, Structural)]
pub struct PageTableEntry {
    pub bits: u64,
}

impl PageTableEntry {
    /// The entry mapping `ppn` with `flags`.
    pub fn new(ppn: PhysPageNum, flags: PTEFlags) -> (r: Self)
        ensures
            r.bits == pte_bits(ppn.0, flags.bits),
    {
        PageTableEntry { bits: (ppn.0 as u64) << 10 | flags.bits as u64 }
    }

    /// The entry with no bit set.
    pub fn empty() -> (r: Self)
        ensures
            r.bits == 0,
    {
        PageTableEntry { bits: 0 }
    }

    /// The physical page number of the entry.
    pub fn ppn(&self) -> (r: PhysPageNum)
        ensures
            r.0 == pte_ppn(self.bits),
    {
        PhysPageNum(((self.bits >> 10) & 0xfff_ffff_ffff) as usize)
    }

    /// The flags of the entry.
    pub fn flags(&self) -> (r: PTEFlags)
        ensures
            r.bits == self.bits as u8,
    {
        PTEFlags::from_bits(self.bits as u8).unwrap()
    }

    /// Whether the valid flag is set.
    pub fn is_valid(&self) -> (r: bool)
        ensures
            r == pte_valid(self.bits),
    {
        let f = self.flags().intersection(PTEFlags::V());
        proof {
            lemma_flag_bits(self.bits);
        }
        f != PTEFlags::empty()
    }

    /// Whether the readable flag is set.
    pub fn readable(&self) -> (r: bool)
        ensures
            r == (self.bits & 2u64 != 0),
    {
        let f = self.flags().intersection(PTEFlags::R());
        proof {
            lemma_flag_bits(self.bits);
        }
        f != PTEFlags::empty()
    }

    /// Whether the writable flag is set.
    pub fn writable(&self) -> (r: bool)
        ensures
            r == (self.bits & 4u64 != 0),
    {
        let f = self.flags().intersection(PTEFlags::W());
        proof {
            lemma_flag_bits(self.bits);
        }
        f != PTEFlags::empty()
    }

    /// Whether the executable flag is set.
    pub fn executable(&self) -> (r: bool)
        ensures
            r == (self.bits & 8u64 != 0),
    {
        let f = self.flags().intersection(PTEFlags::X());
        proof {
            lemma_flag_bits(self.bits);
        }
        f != PTEFlags::empty()
    }
}

proof fn lemma_flag_bits(b: u64)
    ensures
        ((b as u8) & 1u8 != 0u8) == (b & 1u64 != 0u64),
        ((b as u8) & 2u8 != 0u8) == (b & 2u64 != 0u64),
        ((b as u8) & 4u8 != 0u8) == (b & 4u64 != 0u64),
        ((b as u8) & 8u8 != 0u8) == (b & 8u64 != 0u64),
{
    assert(((b as u8) & 1u8 != 0u8) == (b & 1u64 != 0u64) && ((b as u8) & 2u8 != 0u8) == (b & 2u64
        != 0u64) && ((b as u8) & 4u8 != 0u8) == (b & 4u64 != 0u64) && ((b as u8) & 8u8 != 0u8) == (b
        & 8u64 != 0u64)) by (bit_vector);
}

/// Setting `V` among the flags makes a valid entry, whatever the page number.
proof fn lemma_pte_valid_with_v(ppn: usize, flags: u8)
    ensures
        pte_valid(pte_bits(ppn, flags | 1u8)),
        pte_valid(pte_bits(ppn, 1u8)),
{
    let q = ppn as u64;
    assert((((q << 10u64) | ((flags | 1u8) as u64)) & 1u64) != 0 && (((q << 10u64) | (1u8 as u64))
        & 1u64) != 0) by (bit_vector);
}

/// An entry built from a page number below 2^44 and some flags gives both
/// back: its page number is that number, its flags are those flags, and it
/// is valid exactly when the flags hold `V`.
pub proof fn lemma_pte_new(ppn: usize, flags: u8)
    requires
        ppn < 0x1000_0000_0000,
    ensures
        pte_ppn(pte_bits(ppn, flags)) == ppn,
        pte_bits(ppn, flags) as u8 == flags,
        pte_valid(pte_bits(ppn, flags)) == (flags & 1u8 != 0),
{
    let q = ppn as u64;
    let g = flags as u64;
    assert(q < 0x1000_0000_0000 && g < 256 ==> (((q << 10u64) | g) >> 10u64) & 0xfff_ffff_ffffu64
        == q && ((q << 10u64) | g) as u8 == g as u8 && ((((q << 10u64) | g) & 1u64) != 0) == ((g as u8
        & 1u8) != 0)) by (bit_vector);
}


// ---------------------------------------------------------------------------
// The page table as a three-level tree of frames in physical memory.
// ---------------------------------------------------------------------------

/// The level-1 table named by slot `i0` of the root table, when that slot is valid.
pub open spec fn l1_table(mem: PhysMemory, root: usize, i0: usize) -> Option<usize> {
    let e = mem.word(root, i0);
    if pte_valid(e) {
        Some(pte_ppn(e))
    } else {
        None
    }
}

/// The level-2 table named by slot `i1` of the level-1 table under slot `i0`.
pub open spec fn l2_table(mem: PhysMemory, root: usize, i0: usize, i1: usize) -> Option<usize> {
    match l1_table(mem, root, i0) {
        Some(t) => {
            let e = mem.word(t, i1);
            if pte_valid(e) {
                Some(pte_ppn(e))
            } else {
                None
            }
        },
        None => None,
    }
}

/// The leaf slot (table frame, index) that translates `vpn`, when the walk
/// through the two upper levels meets valid entries.
pub open spec fn walk(mem: PhysMemory, root: usize, vpn: usize) -> Option<(usize, usize)> {
    match l2_table(mem, root, idx0(vpn), idx1(vpn)) {
        Some(t) => Some((t, idx2(vpn))),
        None => None,
    }
}

/// The valid leaf entry that maps `vpn`, if any.
pub open spec fn lookup(mem: PhysMemory, root: usize, vpn: usize) -> Option<u64> {
    match walk(mem, root, vpn) {
        Some((t, i)) => if pte_valid(mem.word(t, i)) {
            Some(mem.word(t, i))
        } else {
            None
        },
        None => None,
    }
}

/// Every frame the walk for `vpn` reads is a frame of memory.
pub open spec fn walk_in_bounds(mem: PhysMemory, root: usize, vpn: usize) -> bool {
    &&& root < mem.frame_count()
    &&& (l1_table(mem, root, idx0(vpn)) matches Some(t) ==> t < mem.frame_count())
    &&& (l2_table(mem, root, idx0(vpn), idx1(vpn)) matches Some(t) ==> t < mem.frame_count())
}

/// The mappings of the table: each translated page number to its valid leaf entry.
pub open spec fn mapping(mem: PhysMemory, root: usize) -> Map<usize, u64> {
    Map::new(
        |v: usize| v < 0x800_0000 && lookup(mem, root, v) is Some,
        |v: usize| lookup(mem, root, v)->0,
    )
}

/// The tables under `root` form a tree of frames handed out by the
/// allocator: the root, the level-1 tables and the level-2 tables are
/// pairwise distinct frames.
pub open spec fn table_wf(mem: PhysMemory, root: usize) -> bool {
    &&& mem.wf()
    &&& root < mem.allocated()
    &&& forall|i0: usize|
        #![trigger l1_table(mem, root, i0)]
        i0 < 512 && l1_table(mem, root, i0) is Some ==> {
            &&& l1_table(mem, root, i0)->0 < mem.allocated()
            &&& l1_table(mem, root, i0)->0 != root
        }
    &&& forall|i0: usize, j0: usize|
        #![trigger l1_table(mem, root, i0), l1_table(mem, root, j0)]
        i0 < 512 && j0 < 512 && i0 != j0 && l1_table(mem, root, i0) is Some && l1_table(
            mem,
            root,
            j0,
        ) is Some ==> l1_table(mem, root, i0)->0 != l1_table(mem, root, j0)->0
    &&& forall|i0: usize, i1: usize|
        #![trigger l2_table(mem, root, i0, i1)]
        i0 < 512 && i1 < 512 && l2_table(mem, root, i0, i1) is Some ==> {
            &&& l2_table(mem, root, i0, i1)->0 < mem.allocated()
            &&& l2_table(mem, root, i0, i1)->0 != root
        }
    &&& forall|i0: usize, i1: usize, j0: usize|
        #![trigger l2_table(mem, root, i0, i1), l1_table(mem, root, j0)]
        i0 < 512 && i1 < 512 && j0 < 512 && l2_table(mem, root, i0, i1) is Some && l1_table(
            mem,
            root,
            j0,
        ) is Some ==> l2_table(mem, root, i0, i1)->0 != l1_table(mem, root, j0)->0
    &&& forall|i0: usize, i1: usize, j0: usize, j1: usize|
        #![trigger l2_table(mem, root, i0, i1), l2_table(mem, root, j0, j1)]
        i0 < 512 && i1 < 512 && j0 < 512 && j1 < 512 && (i0 != j0 || i1 != j1) && l2_table(
            mem,
            root,
            i0,
            i1,
        ) is Some && l2_table(mem, root, j0, j1) is Some ==> l2_table(mem, root, i0, i1)->0
            != l2_table(mem, root, j0, j1)->0
}

/// Frame `p` is one of the tables the walk for `vpn` passes through.
pub open spec fn path_frame(mem: PhysMemory, root: usize, vpn: usize, p: usize) -> bool {
    ||| p == root
    ||| l1_table(mem, root, idx0(vpn)) == Some(p)
    ||| l2_table(mem, root, idx0(vpn), idx1(vpn)) == Some(p)
}

/// Frame `p` is the root or a table of the tree.
pub open spec fn table_frame(mem: PhysMemory, root: usize, p: usize) -> bool {
    ||| p == root
    ||| exists|i0: usize| i0 < 512 && #[trigger] l1_table(mem, root, i0) == Some(p)
    ||| exists|i0: usize, i1: usize| i0 < 512 && i1 < 512 && #[trigger] l2_table(mem, root, i0, i1) == Some(p)
}

/// Every table of `m1` stays in its slot in `m2`, and every other table of
/// `m2` is a frame handed out at or after `m1.allocated()`.
pub open spec fn tables_grown(m1: PhysMemory, m2: PhysMemory, root: usize) -> bool {
    &&& forall|i0: usize|
        #![trigger l1_table(m1, root, i0)]
        i0 < 512 && l1_table(m1, root, i0) is Some ==> l1_table(m2, root, i0) == l1_table(m1, root, i0)
    &&& forall|i0: usize|
        #![trigger l1_table(m2, root, i0)]
        i0 < 512 && l1_table(m2, root, i0) is Some ==> l1_table(m2, root, i0) == l1_table(m1, root, i0)
            || l1_table(m2, root, i0)->0 >= m1.allocated()
    &&& forall|i0: usize, i1: usize|
        #![trigger l2_table(m1, root, i0, i1)]
        i0 < 512 && i1 < 512 && l2_table(m1, root, i0, i1) is Some ==> l2_table(m2, root, i0, i1)
            == l2_table(m1, root, i0, i1)
    &&& forall|i0: usize, i1: usize|
        #![trigger l2_table(m2, root, i0, i1)]
        i0 < 512 && i1 < 512 && l2_table(m2, root, i0, i1) is Some ==> l2_table(m2, root, i0, i1)
            == l2_table(m1, root, i0, i1) || l2_table(m2, root, i0, i1)->0 >= m1.allocated()
}

/// A frame of the walk for `vpn` is a table frame.
pub proof fn lemma_path_is_table(mem: PhysMemory, root: usize, vpn: usize, p: usize)
    requires
        path_frame(mem, root, vpn, p),
    ensures
        table_frame(mem, root, p),
{
    lemma_indices(vpn, vpn);
    if l1_table(mem, root, idx0(vpn)) == Some(p) {
        assert(exists|i0: usize| i0 < 512 && #[trigger] l1_table(mem, root, i0) == Some(p));
    } else if l2_table(mem, root, idx0(vpn), idx1(vpn)) == Some(p) {
        assert(exists|i0: usize, i1: usize| i0 < 512 && i1 < 512 && #[trigger] l2_table(mem, root, i0, i1) == Some(p));
    }
}

/// After the tables grew from `m1` to `m2`, a frame below `m1.allocated()`
/// that is no table of `m1` is no table of `m2`, and a table of `m1` is a
/// table of `m2`.
pub proof fn lemma_tables_grown_frames(m1: PhysMemory, m2: PhysMemory, root: usize, p: usize)
    requires
        tables_grown(m1, m2, root),
    ensures
        p < m1.allocated() && !table_frame(m1, root, p) ==> !table_frame(m2, root, p),
        table_frame(m1, root, p) ==> table_frame(m2, root, p),
{
    if p < m1.allocated() && !table_frame(m1, root, p) && table_frame(m2, root, p) {
        if p != root {
            if exists|i0: usize| i0 < 512 && #[trigger] l1_table(m2, root, i0) == Some(p) {
                let i0 = choose|i0: usize| i0 < 512 && #[trigger] l1_table(m2, root, i0) == Some(p);
                assert(l1_table(m1, root, i0) == Some(p));
            } else {
                let (i0, i1) = choose|i0: usize, i1: usize|
                    i0 < 512 && i1 < 512 && #[trigger] l2_table(m2, root, i0, i1) == Some(p);
                assert(l2_table(m1, root, i0, i1) == Some(p));
            }
        }
    }
    if table_frame(m1, root, p) && p != root {
        if exists|i0: usize| i0 < 512 && #[trigger] l1_table(m1, root, i0) == Some(p) {
            let i0 = choose|i0: usize| i0 < 512 && #[trigger] l1_table(m1, root, i0) == Some(p);
            assert(l1_table(m2, root, i0) == Some(p));
        } else {
            let (i0, i1) = choose|i0: usize, i1: usize|
                i0 < 512 && i1 < 512 && #[trigger] l2_table(m1, root, i0, i1) == Some(p);
            assert(l2_table(m2, root, i0, i1) == Some(p));
        }
    }
}

proof fn lemma_tables_grown_trans(a: PhysMemory, b: PhysMemory, c: PhysMemory, root: usize)
    requires
        tables_grown(a, b, root),
        tables_grown(b, c, root),
        a.allocated() <= b.allocated(),
    ensures
        tables_grown(a, c, root),
{
    assert forall|i0: usize| #![trigger l1_table(c, root, i0)]
        i0 < 512 && l1_table(c, root, i0) is Some implies l1_table(c, root, i0) == l1_table(a, root, i0)
            || l1_table(c, root, i0)->0 >= a.allocated() by {
        if l1_table(c, root, i0) == l1_table(b, root, i0) {
            assert(l1_table(b, root, i0) is Some);
        }
    }
    assert forall|i0: usize, i1: usize| #![trigger l2_table(c, root, i0, i1)]
        i0 < 512 && i1 < 512 && l2_table(c, root, i0, i1) is Some implies l2_table(c, root, i0, i1)
            == l2_table(a, root, i0, i1) || l2_table(c, root, i0, i1)->0 >= a.allocated() by {
        if l2_table(c, root, i0, i1) == l2_table(b, root, i0, i1) {
            assert(l2_table(b, root, i0, i1) is Some);
        }
    }
    assert forall|i0: usize| #![trigger l1_table(a, root, i0)]
        i0 < 512 && l1_table(a, root, i0) is Some implies l1_table(c, root, i0) == l1_table(a, root, i0) by {
        assert(l1_table(b, root, i0) == l1_table(a, root, i0));
    }
    assert forall|i0: usize, i1: usize| #![trigger l2_table(a, root, i0, i1)]
        i0 < 512 && i1 < 512 && l2_table(a, root, i0, i1) is Some implies l2_table(c, root, i0, i1)
            == l2_table(a, root, i0, i1) by {
        assert(l2_table(b, root, i0, i1) == l2_table(a, root, i0, i1));
    }
}

/// A frame not handed out yet is no table of a well-formed tree.
pub proof fn lemma_fresh_not_table(mem: PhysMemory, root: usize, p: usize)
    requires
        table_wf(mem, root),
        p >= mem.allocated(),
    ensures
        !table_frame(mem, root, p),
{
    if exists|i0: usize| i0 < 512 && #[trigger] l1_table(mem, root, i0) == Some(p) {
        let i0 = choose|i0: usize| i0 < 512 && #[trigger] l1_table(mem, root, i0) == Some(p);
        assert(l1_table(mem, root, i0)->0 < mem.allocated());
    }
    if exists|i0: usize, i1: usize| i0 < 512 && i1 < 512 && #[trigger] l2_table(mem, root, i0, i1) == Some(p) {
        let (i0, i1) = choose|i0: usize, i1: usize|
            i0 < 512 && i1 < 512 && #[trigger] l2_table(mem, root, i0, i1) == Some(p);
        assert(l2_table(mem, root, i0, i1)->0 < mem.allocated());
    }
}

/// The word `i` of frame `p` after the walk for `vpn` was built in `m`: a
/// missing level-1 table becomes the first frame handed out, named by root
/// slot `idx0(vpn)` with only `V` set; a missing level-2 table becomes the
/// next frame handed out, named the same way by slot `idx1(vpn)` of the
/// level-1 table; the new frames are clear apart from those slots, and every
/// other word keeps its value.
pub open spec fn created_word(m: PhysMemory, root: usize, vpn: usize, p: usize, i: usize) -> u64 {
    let a = m.allocated() as usize;
    let i0 = idx0(vpn);
    let i1 = idx1(vpn);
    if l1_table(m, root, i0) is None {
        if p == root && i == i0 {
            pte_bits(a, 1u8)
        } else if p == a {
            if i == i1 {
                pte_bits((a + 1) as usize, 1u8)
            } else {
                0
            }
        } else if p == a + 1 {
            0
        } else {
            m.word(p, i)
        }
    } else if l2_table(m, root, i0, i1) is None {
        if p == l1_table(m, root, i0)->0 && i == i1 {
            pte_bits(a, 1u8)
        } else if p == a {
            0
        } else {
            m.word(p, i)
        }
    } else {
        m.word(p, i)
    }
}

/// After the walk for `vpn` was built in a well-formed tree and its leaf slot
/// written, every root slot other than `idx0(vpn)` names the table it named
/// before, and every level-1 slot other than the one on the walk names a table
/// exactly when it did before.
pub(crate) proof fn lemma_built_tables(m: PhysMemory, m2: PhysMemory, root: usize, vpn: usize, e: u64)
    requires
        table_wf(m, root),
        table_wf(m2, root),
        m2.frame_count() == m.frame_count(),
        m.allocated() + frames_needed(m, root, vpn) <= m.frame_count(),
        walk(m2, root, vpn) is Some,
        forall|p: usize, i: usize|
            p < m.frame_count() && i < 512 ==> #[trigger] m2.word(p, i) == if walk(m2, root, vpn) == Some(
                (p, i),
            ) {
                e
            } else {
                created_word(m, root, vpn, p, i)
            },
    ensures
        forall|i0: usize|
            i0 < 512 && i0 != idx0(vpn) ==> #[trigger] l1_table(m2, root, i0) == l1_table(m, root, i0),
        forall|i0: usize, i1: usize|
            i0 < 512 && i1 < 512 && (i0 != idx0(vpn) || i1 != idx1(vpn)) ==> (#[trigger] l2_table(
                m2,
                root,
                i0,
                i1,
            ) is Some <==> l2_table(m, root, i0, i1) is Some),
{
    lemma_indices(vpn, vpn);
    m.lemma_allocated_bound();
    let a = m.allocated() as usize;
    let t = walk(m2, root, vpn).unwrap().0;
    assert(l2_table(m2, root, idx0(vpn), idx1(vpn)) == Some(t));
    assert(t != root);
    assert forall|i0: usize| i0 < 512 && i0 != idx0(vpn) implies #[trigger] l1_table(m2, root, i0)
        == l1_table(m, root, i0) by {
        assert(walk(m2, root, vpn) != Some((root, i0)));
        assert(m2.word(root, i0) == created_word(m, root, vpn, root, i0));
        assert(root != a);
        assert(created_word(m, root, vpn, root, i0) == m.word(root, i0));
    }
    assert forall|i0: usize, i1: usize|
        i0 < 512 && i1 < 512 && (i0 != idx0(vpn) || i1 != idx1(vpn)) implies (#[trigger] l2_table(
            m2,
            root,
            i0,
            i1,
        ) is Some <==> l2_table(m, root, i0, i1) is Some) by {
        if i0 != idx0(vpn) {
            assert(m2.word(root, i0) == created_word(m, root, vpn, root, i0));
            if let Some(u) = l1_table(m, root, i0) {
                assert(l1_table(m2, root, i0) == Some(u));
                assert(u != t);
                if let Some(g) = l1_table(m, root, idx0(vpn)) {
                    assert(u != g);
                }
                assert(m2.word(u, i1) == created_word(m, root, vpn, u, i1));
            }
        } else {
            assert(m2.word(root, i0) == created_word(m, root, vpn, root, i0));
            match l1_table(m, root, i0) {
                Some(u) => {
                    assert(l1_table(m2, root, i0) == Some(u));
                    assert(u != t);
                    assert(m2.word(u, i1) == created_word(m, root, vpn, u, i1));
                },
                None => {
                    lemma_pte_new(a, 1);
                    assert(l1_table(m2, root, i0) == Some(a));
                    assert(a != t);
                    assert(m2.word(a, i1) == created_word(m, root, vpn, a, i1));
                    assert(m2.word(a, i1) == 0);
                    assert(!pte_valid(0u64)) by (bit_vector);
                },
            }
        }
    }
}

/// Once the walk for `vpn` reaches a leaf slot, building it again takes no
/// frame and writes no word: a second `find_pte_create` (or `map`'s first
/// step) for the same page leaves memory as it is.
pub proof fn lemma_built_walk_stays(m: PhysMemory, root: usize, vpn: usize)
    requires
        walk(m, root, vpn) is Some,
    ensures
        frames_needed(m, root, vpn) == 0,
        forall|p: usize, i: usize| #[trigger] created_word(m, root, vpn, p, i) == m.word(p, i),
{
}

/// How many frames building the walk for `vpn` hands out.
pub open spec fn frames_needed(mem: PhysMemory, root: usize, vpn: usize) -> nat {
    if l1_table(mem, root, idx0(vpn)) is None {
        2
    } else if l2_table(mem, root, idx0(vpn), idx1(vpn)) is None {
        1
    } else {
        0
    }
}

/// A well-formed tree only walks through frames of memory.
pub proof fn lemma_wf_in_bounds(mem: PhysMemory, root: usize)
    requires
        table_wf(mem, root),
    ensures
        forall|v: usize| #[trigger] walk_in_bounds(mem, root, v),
        forall|v: usize|
            #[trigger] walk(mem, root, v) is Some ==> walk(mem, root, v).unwrap().0 < mem.allocated()
                && walk(mem, root, v).unwrap().1 < 512,
{
    mem.lemma_allocated_bound();
    assert forall|v: usize| #[trigger] walk_in_bounds(mem, root, v) by {
        lemma_indices(v, v);
    }
    assert forall|v: usize| #[trigger] walk(mem, root, v) is Some implies walk(mem, root, v).unwrap().0
        < mem.allocated() && walk(mem, root, v).unwrap().1 < 512 by {
        lemma_indices(v, v);
    }
}

/// `m2` is `m1` with word `idx` of frame `ppn` set to `v`.
pub open spec fn word_updated(m1: PhysMemory, m2: PhysMemory, ppn: usize, idx: usize, v: u64) -> bool {
    &&& m2.wf()
    &&& m2.frame_count() == m1.frame_count()
    &&& m2.allocated() == m1.allocated()
    &&& forall|p: usize, i: usize|
        p < m1.frame_count() && i < 512 ==> #[trigger] m2.word(p, i) == if p == ppn && i == idx {
            v
        } else {
            m1.word(p, i)
        }
}

/// A well-formed tree stays well formed when every slot names the table it
/// named before, but for at most one empty slot, of the root (`new_l1`) or of
/// a level-1 table (`new_l2`), that now names a frame `f` handed out and used
/// by no table of the tree.
proof fn lemma_wf_grown(
    m1: PhysMemory,
    m2: PhysMemory,
    root: usize,
    new_l1: Option<usize>,
    new_l2: Option<(usize, usize)>,
    f: usize,
)
    requires
        table_wf(m1, root),
        m2.wf(),
        m1.allocated() <= m2.allocated(),
        !(new_l1 is Some && new_l2 is Some),
        new_l1 is Some || new_l2 is Some ==> {
            &&& f < m2.allocated()
            &&& f != root
            &&& forall|j0: usize|
                j0 < 512 && #[trigger] l1_table(m1, root, j0) is Some ==> l1_table(m1, root, j0)->0 != f
            &&& forall|j0: usize, j1: usize|
                j0 < 512 && j1 < 512 && #[trigger] l2_table(m1, root, j0, j1) is Some ==> l2_table(
                    m1,
                    root,
                    j0,
                    j1,
                )->0 != f
        },
        forall|j0: usize|
            j0 < 512 ==> #[trigger] l1_table(m2, root, j0) == if new_l1 == Some(j0) {
                Some(f)
            } else {
                l1_table(m1, root, j0)
            },
        forall|j0: usize, j1: usize|
            j0 < 512 && j1 < 512 ==> #[trigger] l2_table(m2, root, j0, j1) == if new_l2 == Some((j0, j1)) {
                Some(f)
            } else {
                l2_table(m1, root, j0, j1)
            },
    ensures
        table_wf(m2, root),
{
    assert forall|j0: usize| #![trigger l1_table(m2, root, j0)]
        j0 < 512 && l1_table(m2, root, j0) is Some implies {
            &&& l1_table(m2, root, j0)->0 < m2.allocated()
            &&& l1_table(m2, root, j0)->0 != root
        } by {
        if new_l1 != Some(j0) {
            assert(l1_table(m2, root, j0) == l1_table(m1, root, j0));
        }
    }
    assert forall|j0: usize, k0: usize|
        #![trigger l1_table(m2, root, j0), l1_table(m2, root, k0)]
        j0 < 512 && k0 < 512 && j0 != k0 && l1_table(m2, root, j0) is Some && l1_table(m2, root, k0) is Some
        implies l1_table(m2, root, j0)->0 != l1_table(m2, root, k0)->0 by {
        if new_l1 != Some(j0) {
            assert(l1_table(m2, root, j0) == l1_table(m1, root, j0));
        }
        if new_l1 != Some(k0) {
            assert(l1_table(m2, root, k0) == l1_table(m1, root, k0));
        }
    }
    assert forall|j0: usize, j1: usize|
        #![trigger l2_table(m2, root, j0, j1)]
        j0 < 512 && j1 < 512 && l2_table(m2, root, j0, j1) is Some implies {
            &&& l2_table(m2, root, j0, j1)->0 < m2.allocated()
            &&& l2_table(m2, root, j0, j1)->0 != root
        } by {
        if new_l2 != Some((j0, j1)) {
            assert(l2_table(m2, root, j0, j1) == l2_table(m1, root, j0, j1));
        }
    }
    assert forall|j0: usize, j1: usize, k0: usize|
        #![trigger l2_table(m2, root, j0, j1), l1_table(m2, root, k0)]
        j0 < 512 && j1 < 512 && k0 < 512 && l2_table(m2, root, j0, j1) is Some && l1_table(m2, root, k0) is Some
        implies l2_table(m2, root, j0, j1)->0 != l1_table(m2, root, k0)->0 by {
        if new_l2 != Some((j0, j1)) {
            assert(l2_table(m2, root, j0, j1) == l2_table(m1, root, j0, j1));
        }
        if new_l1 != Some(k0) {
            assert(l1_table(m2, root, k0) == l1_table(m1, root, k0));
        }
    }
    assert forall|j0: usize, j1: usize, k0: usize, k1: usize|
        #![trigger l2_table(m2, root, j0, j1), l2_table(m2, root, k0, k1)]
        j0 < 512 && j1 < 512 && k0 < 512 && k1 < 512 && (j0 != k0 || j1 != k1) && l2_table(m2, root, j0, j1) is Some
            && l2_table(m2, root, k0, k1) is Some
        implies l2_table(m2, root, j0, j1)->0 != l2_table(m2, root, k0, k1)->0 by {
        if new_l2 != Some((j0, j1)) {
            assert(l2_table(m2, root, j0, j1) == l2_table(m1, root, j0, j1));
        }
        if new_l2 != Some((k0, k1)) {
            assert(l2_table(m2, root, k0, k1) == l2_table(m1, root, k0, k1));
        }
    }
}

/// When the root and the level-1 tables are unchanged, so are the level-1
/// and level-2 tables and every walk; a well-formed tree stays well formed
/// as long as no frame is given back.
proof fn lemma_upper_same(m1: PhysMemory, m2: PhysMemory, root: usize)
    requires
        m2.frame_same(m1, root),
        forall|i0: usize|
            i0 < 512 && #[trigger] l1_table(m1, root, i0) is Some ==> m2.frame_same(
                m1,
                l1_table(m1, root, i0)->0,
            ),
    ensures
        forall|i0: usize| i0 < 512 ==> #[trigger] l1_table(m2, root, i0) == l1_table(m1, root, i0),
        forall|i0: usize, i1: usize|
            i0 < 512 && i1 < 512 ==> #[trigger] l2_table(m2, root, i0, i1) == l2_table(
                m1,
                root,
                i0,
                i1,
            ),
        forall|v: usize| #[trigger] walk(m2, root, v) == walk(m1, root, v),
        m2.frame_count() == m1.frame_count() ==> forall|v: usize|
            #[trigger] walk_in_bounds(m2, root, v) == walk_in_bounds(m1, root, v),
        table_wf(m1, root) && m2.wf() && m1.allocated() <= m2.allocated() ==> table_wf(m2, root),
{
    assert forall|i0: usize| i0 < 512 implies #[trigger] l1_table(m2, root, i0) == l1_table(m1, root, i0) by {
        assert(m2.word(root, i0) == m1.word(root, i0));
    }
    assert forall|i0: usize, i1: usize|
        i0 < 512 && i1 < 512 implies #[trigger] l2_table(m2, root, i0, i1) == l2_table(m1, root, i0, i1) by {
        assert(l1_table(m2, root, i0) == l1_table(m1, root, i0));
        if l1_table(m1, root, i0) is Some {
            let t = l1_table(m1, root, i0)->0;
            assert(m2.frame_same(m1, t));
            assert(m2.word(t, i1) == m1.word(t, i1));
        }
    }
    assert forall|v: usize| #[trigger] walk(m2, root, v) == walk(m1, root, v) by {
        lemma_indices(v, v);
        assert(l2_table(m2, root, idx0(v), idx1(v)) == l2_table(m1, root, idx0(v), idx1(v)));
    }
    if m2.frame_count() == m1.frame_count() {
        assert forall|v: usize| #[trigger] walk_in_bounds(m2, root, v) == walk_in_bounds(m1, root, v) by {
            lemma_indices(v, v);
            assert(l1_table(m2, root, idx0(v)) == l1_table(m1, root, idx0(v)));
            assert(l2_table(m2, root, idx0(v), idx1(v)) == l2_table(m1, root, idx0(v), idx1(v)));
        }
    }
    if table_wf(m1, root) && m2.wf() && m1.allocated() <= m2.allocated() {
        lemma_wf_grown(m1, m2, root, None, None, root);
    }
}

/// When every table frame of the tree is unchanged, so is every lookup too.
pub proof fn lemma_tables_same(m1: PhysMemory, m2: PhysMemory, root: usize)
    requires
        m2.frame_same(m1, root),
        forall|i0: usize|
            i0 < 512 && #[trigger] l1_table(m1, root, i0) is Some ==> m2.frame_same(
                m1,
                l1_table(m1, root, i0)->0,
            ),
        forall|i0: usize, i1: usize|
            i0 < 512 && i1 < 512 && #[trigger] l2_table(m1, root, i0, i1) is Some ==> m2.frame_same(
                m1,
                l2_table(m1, root, i0, i1)->0,
            ),
    ensures
        forall|i0: usize| i0 < 512 ==> #[trigger] l1_table(m2, root, i0) == l1_table(m1, root, i0),
        forall|i0: usize, i1: usize|
            i0 < 512 && i1 < 512 ==> #[trigger] l2_table(m2, root, i0, i1) == l2_table(
                m1,
                root,
                i0,
                i1,
            ),
        forall|v: usize| #[trigger] walk(m2, root, v) == walk(m1, root, v),
        forall|v: usize| #[trigger] lookup(m2, root, v) == lookup(m1, root, v),
        m2.frame_count() == m1.frame_count() ==> forall|v: usize|
            #[trigger] walk_in_bounds(m2, root, v) == walk_in_bounds(m1, root, v),
        table_wf(m1, root) && m2.wf() && m1.allocated() <= m2.allocated() ==> table_wf(m2, root),
{
    lemma_upper_same(m1, m2, root);
    assert forall|v: usize| #[trigger] lookup(m2, root, v) == lookup(m1, root, v) by {
        lemma_indices(v, v);
        assert(walk(m2, root, v) == walk(m1, root, v));
        if walk(m1, root, v) is Some {
            let t = l2_table(m1, root, idx0(v), idx1(v))->0;
            assert(m2.frame_same(m1, t));
            assert(m2.word(t, idx2(v)) == m1.word(t, idx2(v)));
        }
    }
}

/// Writing `v` into the leaf slot of `vpn` keeps the tree well formed and
/// changes the lookup of `vpn`'s translated bits alone.
proof fn lemma_leaf_write(m1: PhysMemory, m2: PhysMemory, root: usize, vpn: usize, t: usize, i: usize, v: u64)
    requires
        table_wf(m1, root),
        walk(m1, root, vpn) == Some((t, i)),
        word_updated(m1, m2, t, i, v),
    ensures
        table_wf(m2, root),
        forall|i0: usize| i0 < 512 ==> #[trigger] l1_table(m2, root, i0) == l1_table(m1, root, i0),
        forall|i0: usize, i1: usize|
            i0 < 512 && i1 < 512 ==> #[trigger] l2_table(m2, root, i0, i1) == l2_table(m1, root, i0, i1),
        forall|w: usize| #[trigger] walk(m2, root, w) == walk(m1, root, w),
        forall|w: usize|
            #[trigger] lookup(m2, root, w) == if vpn_key(w) == vpn_key(vpn) {
                if pte_valid(v) {
                    Some(v)
                } else {
                    None
                }
            } else {
                lookup(m1, root, w)
            },
{
    lemma_indices(vpn, vpn);
    m1.lemma_allocated_bound();
    assert(l2_table(m1, root, idx0(vpn), idx1(vpn)) == Some(t));
    assert forall|j: usize| j < 512 implies #[trigger] m2.word(root, j) == m1.word(root, j) by {}
    assert forall|i0: usize|
        i0 < 512 && #[trigger] l1_table(m1, root, i0) is Some implies m2.frame_same(m1, l1_table(m1, root, i0)->0) by {
        let t1 = l1_table(m1, root, i0)->0;
        assert(t1 != t);
        assert forall|j: usize| j < 512 implies #[trigger] m2.word(t1, j) == m1.word(t1, j) by {}
    }
    lemma_upper_same(m1, m2, root);
    assert forall|w: usize|
        #[trigger] lookup(m2, root, w) == if vpn_key(w) == vpn_key(vpn) {
            if pte_valid(v) {
                Some(v)
            } else {
                None
            }
        } else {
            lookup(m1, root, w)
        } by {
        lemma_indices(w, vpn);
        assert(walk(m2, root, w) == walk(m1, root, w));
        if walk(m1, root, w) is Some {
            let t2 = l2_table(m1, root, idx0(w), idx1(w))->0;
            if vpn_key(w) != vpn_key(vpn) {
                if t2 == t {
                    assert(idx0(w) == idx0(vpn) && idx1(w) == idx1(vpn));
                }
            }
        }
    }
}

/// The zero word is no valid entry.
proof fn lemma_zero_invalid()
    ensures
        !pte_valid(0u64),
{
    assert(0u64 & 1u64 == 0u64) by (bit_vector);
}

/// Pointing the empty root slot `i0` at a cleared frame `f` that no table of
/// the tree uses keeps the tree well formed and changes no walk or lookup.
proof fn lemma_install_l1(m1: PhysMemory, m2: PhysMemory, root: usize, i0: usize, f: usize, e: u64)
    requires
        table_wf(m1, root),
        i0 < 512,
        l1_table(m1, root, i0) is None,
        f < m1.allocated(),
        f != root,
        forall|j0: usize| j0 < 512 && #[trigger] l1_table(m1, root, j0) is Some ==> l1_table(m1, root, j0)->0 != f,
        forall|j0: usize, j1: usize|
            j0 < 512 && j1 < 512 && #[trigger] l2_table(m1, root, j0, j1) is Some ==> l2_table(m1, root, j0, j1)->0 != f,
        m1.frame_zero(f),
        pte_valid(e),
        pte_ppn(e) == f,
        word_updated(m1, m2, root, i0, e),
    ensures
        table_wf(m2, root),
        l1_table(m2, root, i0) == Some(f),
        forall|j0: usize| j0 < 512 && j0 != i0 ==> #[trigger] l1_table(m2, root, j0) == l1_table(m1, root, j0),
        forall|j0: usize, j1: usize|
            j0 < 512 && j1 < 512 ==> #[trigger] l2_table(m2, root, j0, j1) == l2_table(m1, root, j0, j1),
        forall|w: usize| #[trigger] walk(m2, root, w) == walk(m1, root, w),
        forall|w: usize| #[trigger] lookup(m2, root, w) == lookup(m1, root, w),
{
    m1.lemma_allocated_bound();
    assert forall|j0: usize| j0 < 512 && j0 != i0 implies #[trigger] l1_table(m2, root, j0) == l1_table(m1, root, j0) by {
        assert(m2.word(root, j0) == m1.word(root, j0));
    }
    assert(m2.word(root, i0) == e);
    assert forall|j0: usize, j1: usize|
        j0 < 512 && j1 < 512 implies #[trigger] l2_table(m2, root, j0, j1) == l2_table(m1, root, j0, j1) by {
        if j0 == i0 {
            assert(m2.word(f, j1) == m1.word(f, j1));
            assert(m1.word(f, j1) == 0);
            lemma_zero_invalid();
        } else {
            if l1_table(m1, root, j0) is Some {
                let t = l1_table(m1, root, j0)->0;
                assert(m2.word(t, j1) == m1.word(t, j1));
            }
        }
    }
    assert forall|w: usize| #[trigger] walk(m2, root, w) == walk(m1, root, w) by {
        lemma_indices(w, w);
        assert(l2_table(m2, root, idx0(w), idx1(w)) == l2_table(m1, root, idx0(w), idx1(w)));
    }
    assert forall|w: usize| #[trigger] lookup(m2, root, w) == lookup(m1, root, w) by {
        lemma_indices(w, w);
        assert(walk(m2, root, w) == walk(m1, root, w));
        if walk(m1, root, w) is Some {
            let t2 = l2_table(m1, root, idx0(w), idx1(w))->0;
            assert(m2.word(t2, idx2(w)) == m1.word(t2, idx2(w)));
        }
    }
    assert(l1_table(m2, root, i0) == Some(f));
    lemma_wf_grown(m1, m2, root, Some(i0), None, f);
}

/// Pointing the empty slot `i1` of the level-1 table under root slot `i0`
/// at a cleared frame `f` that no table of the tree uses keeps the tree well
/// formed and changes no lookup; the walks under `(i0, i1)` now end in `f`.
proof fn lemma_install_l2(m1: PhysMemory, m2: PhysMemory, root: usize, i0: usize, i1: usize, f: usize, e: u64)
    requires
        table_wf(m1, root),
        i0 < 512,
        i1 < 512,
        l1_table(m1, root, i0) is Some,
        l2_table(m1, root, i0, i1) is None,
        f < m1.allocated(),
        f != root,
        forall|j0: usize| j0 < 512 && #[trigger] l1_table(m1, root, j0) is Some ==> l1_table(m1, root, j0)->0 != f,
        forall|j0: usize, j1: usize|
            j0 < 512 && j1 < 512 && #[trigger] l2_table(m1, root, j0, j1) is Some ==> l2_table(m1, root, j0, j1)->0 != f,
        m1.frame_zero(f),
        pte_valid(e),
        pte_ppn(e) == f,
        word_updated(m1, m2, l1_table(m1, root, i0)->0, i1, e),
    ensures
        table_wf(m2, root),
        l2_table(m2, root, i0, i1) == Some(f),
        forall|j0: usize| j0 < 512 ==> #[trigger] l1_table(m2, root, j0) == l1_table(m1, root, j0),
        forall|j0: usize, j1: usize|
            j0 < 512 && j1 < 512 && (j0 != i0 || j1 != i1) ==> #[trigger] l2_table(m2, root, j0, j1)
                == l2_table(m1, root, j0, j1),
        forall|w: usize| #[trigger] lookup(m2, root, w) == lookup(m1, root, w),
        forall|w: usize|
            #[trigger] walk(m2, root, w) == if idx0(w) == i0 && idx1(w) == i1 {
                Some((f, idx2(w)))
            } else {
                walk(m1, root, w)
            },
{
    m1.lemma_allocated_bound();
    let t1 = l1_table(m1, root, i0)->0;
    assert forall|j0: usize| j0 < 512 implies #[trigger] l1_table(m2, root, j0) == l1_table(m1, root, j0) by {
        assert(m2.word(root, j0) == m1.word(root, j0));
    }
    assert(m2.word(t1, i1) == e);
    assert forall|j0: usize, j1: usize|
        j0 < 512 && j1 < 512 && (j0 != i0 || j1 != i1) implies #[trigger] l2_table(m2, root, j0, j1)
            == l2_table(m1, root, j0, j1) by {
        assert(l1_table(m2, root, j0) == l1_table(m1, root, j0));
        if l1_table(m1, root, j0) is Some {
            let t = l1_table(m1, root, j0)->0;
            if j0 != i0 {
                assert(t != t1);
            }
            assert(m2.word(t, j1) == m1.word(t, j1));
        }
    }
    assert(l2_table(m2, root, i0, i1) == Some(f)) by {
        assert(l1_table(m2, root, i0) == l1_table(m1, root, i0));
    }
    assert forall|w: usize|
        #[trigger] walk(m2, root, w) == if idx0(w) == i0 && idx1(w) == i1 {
            Some((f, idx2(w)))
        } else {
            walk(m1, root, w)
        } by {
        lemma_indices(w, w);
        if !(idx0(w) == i0 && idx1(w) == i1) {
            assert(l2_table(m2, root, idx0(w), idx1(w)) == l2_table(m1, root, idx0(w), idx1(w)));
        }
    }
    assert forall|w: usize| #[trigger] lookup(m2, root, w) == lookup(m1, root, w) by {
        lemma_indices(w, w);
        if idx0(w) == i0 && idx1(w) == i1 {
            assert(m2.word(f, idx2(w)) == m1.word(f, idx2(w)));
            assert(m1.word(f, idx2(w)) == 0);
            lemma_zero_invalid();
        } else {
            assert(l2_table(m2, root, idx0(w), idx1(w)) == l2_table(m1, root, idx0(w), idx1(w)));
            if walk(m1, root, w) is Some {
                let t2 = l2_table(m1, root, idx0(w), idx1(w))->0;
                assert(t2 != t1);
                assert(m2.word(t2, idx2(w)) == m1.word(t2, idx2(w)));
            }
        }
    }
    lemma_wf_grown(m1, m2, root, None, Some((i0, i1)), f);
}

/// Handing out a frame above every table keeps the tree, its walks and its
/// lookups as they were.
pub proof fn lemma_tables_same_after_alloc(m1: PhysMemory, m2: PhysMemory, root: usize)
    requires
        table_wf(m1, root),
        m2.wf(),
        m2.frame_count() == m1.frame_count(),
        m1.allocated() <= m2.allocated(),
        forall|p: usize| p < m1.allocated() ==> #[trigger] m2.frame_same(m1, p),
    ensures
        table_wf(m2, root),
        forall|i0: usize| i0 < 512 ==> #[trigger] l1_table(m2, root, i0) == l1_table(m1, root, i0),
        forall|i0: usize, i1: usize|
            i0 < 512 && i1 < 512 ==> #[trigger] l2_table(m2, root, i0, i1) == l2_table(m1, root, i0, i1),
        forall|v: usize| #[trigger] walk(m2, root, v) == walk(m1, root, v),
        forall|v: usize| #[trigger] lookup(m2, root, v) == lookup(m1, root, v),
        forall|v: usize| #[trigger] frames_needed(m2, root, v) == frames_needed(m1, root, v),
{
    assert(m2.frame_same(m1, root));
    lemma_tables_same(m1, m2, root);
    assert forall|v: usize| #[trigger] frames_needed(m2, root, v) == frames_needed(m1, root, v) by {
        lemma_indices(v, v);
    }
}

/// Frame numbers `start`, `start + 1`, ..., `start + n - 1`.
pub open spec fn fresh_frames(start: nat, n: nat) -> Seq<usize> {
    Seq::new(n, |k: int| (start + k) as usize)
}

/// When every lookup but that of `vpn`'s translated bits is unchanged, the
/// mappings change at that key alone.
proof fn lemma_mapping_update(m1: PhysMemory, m2: PhysMemory, root: usize, vpn: usize, new: Option<u64>)
    requires
        forall|w: usize|
            #[trigger] lookup(m2, root, w) == if vpn_key(w) == vpn_key(vpn) {
                new
            } else {
                lookup(m1, root, w)
            },
    ensures
        mapping(m2, root) == match new {
            Some(b) => mapping(m1, root).insert(vpn_key(vpn), b),
            None => mapping(m1, root).remove(vpn_key(vpn)),
        },
{
    lemma_indices(vpn, vpn);
    let k = vpn_key(vpn);
    assert(k < 0x800_0000) by {
        assert((vpn & 0x7ff_ffffusize) < 0x800_0000) by (bit_vector);
    }
    assert(lookup(m2, root, k) == new);
    let target = match new {
        Some(b) => mapping(m1, root).insert(k, b),
        None => mapping(m1, root).remove(k),
    };
    assert forall|w: usize| #[trigger] mapping(m2, root).contains_key(w) == target.contains_key(w) by {
        lemma_indices(w, vpn);
    }
    assert forall|w: usize| #[trigger] mapping(m2, root).contains_key(w) implies mapping(m2, root)[w] == target[w] by {
        lemma_indices(w, vpn);
    }
    assert(mapping(m2, root) =~= target);
}

/// A page table: its root frame and the frames it handed out for its own tables.
pub struct PageTable {
    root_ppn: PhysPageNum,
    frames: Vec<FrameTracker>,
}

/// The page table is assumed not to run out of memory while creating or
/// mapping: those operations ask for enough free frames.
impl PageTable {
    /// The frame of the root table.
    pub closed spec fn root(&self) -> usize {
        self.root_ppn.0
    }

    /// The frames the table owns, in the order it took them.
    pub closed spec fn frame_ppns(&self) -> Seq<usize> {
        self.frames@.map_values(|f: FrameTracker| f.ppn.0)
    }

    /// A new page table whose root is a freshly handed-out, cleared frame.
    pub fn new(mem: &mut PhysMemory) -> (pt: Self)
        requires
            old(mem).wf(),
            old(mem).allocated() < old(mem).frame_count(),
        ensures
            pt.root() == old(mem).allocated(),
            pt.frame_ppns() == seq![pt.root()],
            table_wf(*final(mem), pt.root()),
            final(mem).frame_count() == old(mem).frame_count(),
            final(mem).allocated() == old(mem).allocated() + 1,
            forall|v: usize| #[trigger] lookup(*final(mem), pt.root(), v) is None,
            mapping(*final(mem), pt.root()) == Map::<usize, u64>::empty(),
            final(mem).frame_zero(pt.root()),
            forall|v: usize| #[trigger] walk(*final(mem), pt.root(), v) is None,
            forall|p: usize|
                p < old(mem).frame_count() && p != pt.root() ==> #[trigger] final(mem).frame_same(*old(mem), p),
    {
        let frame = mem.frame_alloc().unwrap();
        let root = frame.ppn.0;
        let pt = PageTable { root_ppn: frame.ppn, frames: vec![frame] };
        proof {
            lemma_zero_invalid();
            let m = *mem;
            assert forall|i0: usize| i0 < 512 implies #[trigger] l1_table(m, root, i0) is None by {
                assert(m.word(root, i0) == 0);
            }
            assert forall|v: usize| #[trigger] lookup(m, root, v) is None by {
                lemma_indices(v, v);
                assert(l1_table(m, root, idx0(v)) is None);
            }
            assert forall|v: usize| #[trigger] walk(m, root, v) is None by {
                lemma_indices(v, v);
                assert(l1_table(m, root, idx0(v)) is None);
            }
            assert(pt.frame_ppns() =~= seq![root]);
            assert(mapping(m, root) =~= Map::<usize, u64>::empty());
        }
        pt
    }

    /// The page table whose root frame is named by the low 44 bits of `satp`;
    /// it owns no frames.
    pub fn from_token(satp: u64) -> (pt: Self)
        ensures
            pt.root() == (satp & 0xfff_ffff_ffffu64) as usize,
            pt.frame_ppns() == Seq::<usize>::empty(),
    {
        let pt = Self { root_ppn: PhysPageNum((satp & 0xfff_ffff_ffff) as usize), frames: Vec::new() };
        assert(pt.frame_ppns() =~= Seq::<usize>::empty());
        pt
    }

    /// The `satp` value that selects this table: SV39 mode (8) in the top
    /// four bits and the root frame number below.
    pub fn token(&self) -> (r: u64)
        ensures
            r == (8u64 << 60u64) | (self.root() as u64),
    {
        8u64 << 60 | self.root_ppn.0 as u64
    }

    /// The leaf slot for `vpn`, creating the missing tables on the way from
    /// freshly handed-out frames.
    fn find_pte_create(&mut self, mem: &mut PhysMemory, vpn: VirtPageNum) -> (r: (usize, usize))
        requires
            table_wf(*old(mem), old(self).root()),
            old(mem).allocated() + frames_needed(*old(mem), old(self).root(), vpn.0) <= old(
                mem,
            ).frame_count(),
        ensures
            final(self).root() == old(self).root(),
            table_wf(*final(mem), final(self).root()),
            final(mem).frame_count() == old(mem).frame_count(),
            final(mem).allocated() == old(mem).allocated() + frames_needed(
                *old(mem),
                final(self).root(),
                vpn.0,
            ),
            walk(*final(mem), final(self).root(), vpn.0) == Some(r),
            forall|w: usize| #[trigger] lookup(*final(mem), final(self).root(), w) == lookup(*old(mem), final(self).root(), w),
            final(self).frame_ppns() == old(self).frame_ppns() + fresh_frames(
                old(mem).allocated(),
                frames_needed(*old(mem), final(self).root(), vpn.0),
            ),
            forall|p: usize|
                p < old(mem).allocated() && !path_frame(*final(mem), final(self).root(), vpn.0, p)
                    ==> #[trigger] final(mem).frame_same(*old(mem), p),
            tables_grown(*old(mem), *final(mem), final(self).root()),
            forall|p: usize, i: usize|
                p < old(mem).frame_count() && i < 512 ==> #[trigger] final(mem).word(p, i) == created_word(
                    *old(mem),
                    final(self).root(),
                    vpn.0,
                    p,
                    i,
                ),
    {
        let ghost m0 = *mem;
        let ghost ppns0 = self.frame_ppns();
        let root = self.root_ppn.0;
        let idxs = vpn.indexes();
        let i0 = idxs[0];
        let i1 = idxs[1];
        proof {
            lemma_wf_in_bounds(m0, root);
            m0.lemma_allocated_bound();
            lemma_indices(vpn.0, vpn.0);
        }
        let pte0 = PageTableEntry { bits: mem.read_word(root, i0) };
        let t1 = if !pte0.is_valid() {
            let frame = mem.frame_alloc().unwrap();
            let f = frame.ppn.0;
            let ghost ma = *mem;
            proof {
                assert forall|p: usize| p < m0.allocated() implies #[trigger] ma.frame_same(m0, p) by {}
                lemma_tables_same(m0, ma, root);
                lemma_pte_new(f, 1);
                lemma_pte_valid_with_v(f, 1);
            }
            let e = PageTableEntry::new(frame.ppn, PTEFlags::V());
            mem.write_word(root, i0, e.bits);
            proof {
                lemma_install_l1(ma, *mem, root, i0, f, e.bits);
                assert forall|p: usize, i: usize| p < m0.frame_count() && i < 512 implies #[trigger] mem.word(p, i)
                    == (if p == root && i == i0 {
                        pte_bits(f, 1u8)
                    } else if p == f {
                        0
                    } else {
                        m0.word(p, i)
                    }) by {
                    if p != f {
                        assert(ma.frame_same(m0, p));
                        assert(ma.word(p, i) == m0.word(p, i));
                    } else {
                        assert(ma.word(p, i) == 0);
                    }
                }
                assert forall|p: usize| p < m0.allocated() && p != root implies #[trigger] mem.frame_same(m0, p) by {
                    assert(ma.frame_same(m0, p));
                    assert forall|i: usize| i < 512 implies #[trigger] mem.word(p, i) == m0.word(p, i) by {
                        assert(ma.word(p, i) == m0.word(p, i));
                    }
                }
            }
            self.frames.push(frame);
            proof {
                assert(self.frame_ppns() =~= ppns0.push(f));
            }
            f
        } else {
            pte0.ppn().0
        };
        let ghost m1 = *mem;
        let ghost ppns1 = self.frame_ppns();
        assert(l1_table(m1, root, i0) == Some(t1));
        assert(l1_table(m0, root, i0) is None ==> t1 == m0.allocated() && m1.allocated() == m0.allocated() + 1
            && m1.frame_zero(t1));
        assert(l1_table(m0, root, i0) is Some ==> m1 == m0);
        assert(forall|p: usize, i: usize| p < m0.frame_count() && i < 512 && l1_table(m0, root, i0) is None
            ==> #[trigger] m1.word(p, i) == (if p == root && i == i0 {
                pte_bits(t1, 1u8)
            } else if p == t1 {
                0
            } else {
                m0.word(p, i)
            }));
        assert(tables_grown(m0, m1, root));
        assert(m0.allocated() <= m1.allocated());
        assert(forall|p: usize| p < m0.allocated() && p != root ==> #[trigger] m1.frame_same(m0, p));
        proof {
            lemma_wf_in_bounds(m1, root);
            m1.lemma_allocated_bound();
        }
        let pte1 = PageTableEntry { bits: mem.read_word(t1, i1) };
        let t2 = if !pte1.is_valid() {
            let frame = mem.frame_alloc().unwrap();
            let f = frame.ppn.0;
            let ghost mb = *mem;
            proof {
                assert forall|p: usize| p < m1.allocated() implies #[trigger] mb.frame_same(m1, p) by {}
                lemma_tables_same(m1, mb, root);
                lemma_pte_new(f, 1);
                lemma_pte_valid_with_v(f, 1);
            }
            let e = PageTableEntry::new(frame.ppn, PTEFlags::V());
            mem.write_word(t1, i1, e.bits);
            proof {
                lemma_install_l2(mb, *mem, root, i0, i1, f, e.bits);
                assert forall|p: usize, i: usize| p < m0.frame_count() && i < 512 implies #[trigger] mem.word(p, i)
                    == (if p == t1 && i == i1 {
                        pte_bits(f, 1u8)
                    } else if p == f {
                        0
                    } else {
                        m1.word(p, i)
                    }) by {
                    if p != f {
                        assert(mb.frame_same(m1, p));
                        assert(mb.word(p, i) == m1.word(p, i));
                    } else {
                        assert(mb.word(p, i) == 0);
                    }
                }
                assert forall|p: usize| p < m0.allocated() && p != root && p != t1 implies #[trigger] mem.frame_same(m0, p) by {
                    assert(m1.frame_same(m0, p));
                    assert(mb.frame_same(m1, p));
                    assert forall|i: usize| i < 512 implies #[trigger] mem.word(p, i) == m0.word(p, i) by {
                        assert(mb.word(p, i) == m1.word(p, i));
                        assert(m1.word(p, i) == m0.word(p, i));
                    }
                }
            }
            self.frames.push(frame);
            proof {
                assert(self.frame_ppns() =~= ppns1.push(f));
            }
            f
        } else {
            pte1.ppn().0
        };
        proof {
            assert(self.frame_ppns() =~= ppns0 + fresh_frames(
                m0.allocated(),
                frames_needed(m0, root, vpn.0),
            ));
            assert(l1_table(*mem, root, i0) == Some(t1));
            assert(tables_grown(m1, *mem, root));
            lemma_tables_grown_trans(m0, m1, *mem, root);
            assert forall|p: usize|
                p < m0.allocated() && !path_frame(*mem, root, vpn.0, p) implies #[trigger] mem.frame_same(m0, p) by {
                assert(p != root && p != t1);
                assert(m1.frame_same(m0, p));
            }
            let a = m0.allocated() as usize;
            if l1_table(m0, root, i0) is None {
                assert(m1.word(t1, i1) == 0);
                lemma_zero_invalid();
                assert(l2_table(m1, root, i0, i1) is None);
            }
            assert forall|p: usize, i: usize| p < m0.frame_count() && i < 512 implies #[trigger] mem.word(p, i)
                == created_word(m0, root, vpn.0, p, i) by {
                if l2_table(m1, root, i0, i1) is None {
                    let b = m1.allocated() as usize;
                    assert(mem.word(p, i) == (if p == t1 && i == i1 {
                        pte_bits(b, 1u8)
                    } else if p == b {
                        0
                    } else {
                        m1.word(p, i)
                    }));
                    if l1_table(m0, root, i0) is None {
                        assert(m1.word(p, i) == (if p == root && i == i0 {
                            pte_bits(t1, 1u8)
                        } else if p == t1 {
                            0
                        } else {
                            m0.word(p, i)
                        }));
                    } else {
                        assert(l2_table(m0, root, i0, i1) is None);
                    }
                } else {
                    assert(l1_table(m0, root, i0) is Some);
                    assert(mem.word(p, i) == m0.word(p, i));
                }
            }
        }
        (t2, idxs[2])
    }

    /// The leaf slot for `vpn`, or `None` when the walk meets an invalid entry
    /// in an upper level.
    fn find_pte(&self, mem: &PhysMemory, vpn: VirtPageNum) -> (r: Option<(usize, usize)>)
        requires
            mem.wf(),
            walk_in_bounds(*mem, self.root(), vpn.0),
        ensures
            r == walk(*mem, self.root(), vpn.0),
    {
        let root = self.root_ppn.0;
        let idxs = vpn.indexes();
        let pte0 = PageTableEntry { bits: mem.read_word(root, idxs[0]) };
        if !pte0.is_valid() {
            return None;
        }
        let t1 = pte0.ppn().0;
        let pte1 = PageTableEntry { bits: mem.read_word(t1, idxs[1]) };
        if !pte1.is_valid() {
            return None;
        }
        Some((pte1.ppn().0, idxs[2]))
    }

    /// Maps `vpn` to `ppn` with `flags` (and `V`), creating missing tables.
    /// The page must not be mapped yet.
    pub fn map(&mut self, mem: &mut PhysMemory, vpn: VirtPageNum, ppn: PhysPageNum, flags: PTEFlags)
        requires
            table_wf(*old(mem), old(self).root()),
            old(mem).allocated() + frames_needed(*old(mem), old(self).root(), vpn.0) <= old(
                mem,
            ).frame_count(),
            lookup(*old(mem), old(self).root(), vpn.0) is None,
        ensures
            final(self).root() == old(self).root(),
            table_wf(*final(mem), final(self).root()),
            final(mem).frame_count() == old(mem).frame_count(),
            final(mem).allocated() == old(mem).allocated() + frames_needed(
                *old(mem),
                final(self).root(),
                vpn.0,
            ),
            forall|w: usize|
                #[trigger] lookup(*final(mem), final(self).root(), w) == if vpn_key(w) == vpn_key(vpn.0) {
                    Some(pte_bits(ppn.0, flags.bits | 1u8))
                } else {
                    lookup(*old(mem), final(self).root(), w)
                },
            mapping(*final(mem), final(self).root()) == mapping(*old(mem), final(self).root()).insert(
                vpn_key(vpn.0),
                pte_bits(ppn.0, flags.bits | 1u8),
            ),
            forall|p: usize|
                p < old(mem).allocated() && !path_frame(*final(mem), final(self).root(), vpn.0, p)
                    ==> #[trigger] final(mem).frame_same(*old(mem), p),
            tables_grown(*old(mem), *final(mem), final(self).root()),
            final(self).frame_ppns() == old(self).frame_ppns() + fresh_frames(
                old(mem).allocated(),
                frames_needed(*old(mem), final(self).root(), vpn.0),
            ),
            forall|p: usize, i: usize|
                p < old(mem).frame_count() && i < 512 ==> #[trigger] final(mem).word(p, i) == if walk(
                    *final(mem),
                    final(self).root(),
                    vpn.0,
                ) == Some((p, i)) {
                    pte_bits(ppn.0, flags.bits | 1u8)
                } else {
                    created_word(*old(mem), final(self).root(), vpn.0, p, i)
                },
    {
        let ghost m0 = *mem;
        let slot = self.find_pte_create(mem, vpn);
        let ghost m1 = *mem;
        proof {
            lemma_wf_in_bounds(m1, self.root());
        }
        let e = PageTableEntry::new(ppn, flags.union(PTEFlags::V()));
        let v = e.bits;
        proof {
            lemma_pte_valid_with_v(ppn.0, flags.bits);
        }
        mem.write_word(slot.0, slot.1, v);
        proof {
            let root = self.root();
            lemma_leaf_write(m1, *mem, root, vpn.0, slot.0, slot.1, v);
            lemma_mapping_update(m0, *mem, root, vpn.0, Some(v));
            assert(tables_grown(m1, *mem, root));
            lemma_tables_grown_trans(m0, m1, *mem, root);
            lemma_indices(vpn.0, vpn.0);
            assert(walk(*mem, root, vpn.0) == Some(slot));
            assert forall|p: usize|
                p < m0.allocated() && !path_frame(*mem, root, vpn.0, p) implies #[trigger] mem.frame_same(m0, p) by {
                assert(!path_frame(m1, root, vpn.0, p));
                assert(m1.frame_same(m0, p));
                m0.lemma_allocated_bound();
                assert forall|i: usize| i < 512 implies #[trigger] mem.word(p, i) == m0.word(p, i) by {
                    assert(mem.word(p, i) == m1.word(p, i));
                }
            }
        }
    }

    /// Removes the mapping of `vpn`, which must be mapped.
    pub fn unmap(&mut self, mem: &mut PhysMemory, vpn: VirtPageNum)
        requires
            table_wf(*old(mem), old(self).root()),
            lookup(*old(mem), old(self).root(), vpn.0) is Some,
        ensures
            *final(self) == *old(self),
            table_wf(*final(mem), final(self).root()),
            final(mem).frame_count() == old(mem).frame_count(),
            final(mem).allocated() == old(mem).allocated(),
            forall|w: usize|
                #[trigger] lookup(*final(mem), final(self).root(), w) == if vpn_key(w) == vpn_key(vpn.0) {
                    None
                } else {
                    lookup(*old(mem), final(self).root(), w)
                },
            mapping(*final(mem), final(self).root()) == mapping(*old(mem), final(self).root()).remove(
                vpn_key(vpn.0),
            ),
            forall|p: usize|
                p < old(mem).allocated() && !path_frame(*final(mem), final(self).root(), vpn.0, p)
                    ==> #[trigger] final(mem).frame_same(*old(mem), p),
            tables_grown(*old(mem), *final(mem), final(self).root()),
            forall|w: usize| #[trigger] walk(*final(mem), final(self).root(), w) == walk(*old(mem), final(self).root(), w),
            forall|p: usize, i: usize|
                p < old(mem).frame_count() && i < 512 ==> #[trigger] final(mem).word(p, i) == if walk(
                    *old(mem),
                    final(self).root(),
                    vpn.0,
                ) == Some((p, i)) {
                    0
                } else {
                    old(mem).word(p, i)
                },
    {
        let ghost m0 = *mem;
        proof {
            lemma_wf_in_bounds(m0, self.root());
        }
        let slot = self.find_pte(mem, vpn).unwrap();
        let e = PageTableEntry::empty();
        mem.write_word(slot.0, slot.1, e.bits);
        proof {
            let root = self.root();
            lemma_zero_invalid();
            lemma_leaf_write(m0, *mem, root, vpn.0, slot.0, slot.1, 0);
            lemma_mapping_update(m0, *mem, root, vpn.0, None);
            assert(tables_grown(m0, *mem, root));
            lemma_indices(vpn.0, vpn.0);
            assert forall|p: usize|
                p < m0.allocated() && !path_frame(*mem, root, vpn.0, p) implies #[trigger] mem.frame_same(m0, p) by {
                m0.lemma_allocated_bound();
                assert forall|i: usize| i < 512 implies #[trigger] mem.word(p, i) == m0.word(p, i) by {}
            }
        }
    }

    /// The leaf entry for `vpn`, valid or not, when the walk reaches a leaf table.
    pub fn translate(&self, mem: &PhysMemory, vpn: VirtPageNum) -> (r: Option<PageTableEntry>)
        requires
            mem.wf(),
            walk_in_bounds(*mem, self.root(), vpn.0),
        ensures
            r == match walk(*mem, self.root(), vpn.0) {
                Some((t, i)) => Some(PageTableEntry { bits: mem.word(t, i) }),
                None => None,
            },
    {
        match self.find_pte(mem, vpn) {
            Some(slot) => {
                proof {
                    lemma_indices(vpn.0, vpn.0);
                }
                Some(PageTableEntry { bits: mem.read_word(slot.0, slot.1) })
            },
            None => None,
        }
    }
}

/// The token of a table names its root again, for any root frame number
/// that fits the 44 bits of a physical page number.
pub proof fn lemma_token_roundtrip(root: usize)
    requires
        root < 0x1000_0000_0000,
    ensures
        ((((8u64 << 60u64) | (root as u64)) & 0xfff_ffff_ffffu64) as usize) == root,
{
    let r = root as u64;
    assert(r < 0x1000_0000_0000 ==> ((8u64 << 60u64) | r) & 0xfff_ffff_ffffu64 == r) by (bit_vector);
}

/// Mapping a page that was not mapped and then removing that mapping again
/// gives back the mappings the table had before.
pub proof fn lemma_map_then_unmap(m0: PhysMemory, m1: PhysMemory, m2: PhysMemory, root: usize, vpn: usize, bits: u64)
    requires
        lookup(m0, root, vpn) is None,
        mapping(m1, root) == mapping(m0, root).insert(vpn_key(vpn), bits),
        mapping(m2, root) == mapping(m1, root).remove(vpn_key(vpn)),
    ensures
        mapping(m2, root) == mapping(m0, root),
{
    lemma_indices(vpn, vpn);
    let k = vpn_key(vpn);
    assert(lookup(m0, root, k) == lookup(m0, root, vpn)) by {
        lemma_indices(k, vpn);
    }
    assert(!mapping(m0, root).contains_key(k));
    assert(mapping(m2, root) =~= mapping(m0, root));
}

} // verus!
