//! Anonymous user mappings: mapping a page-aligned range to fresh frames
//! with the permissions a user asks for, and removing such a range again.
use vstd::prelude::*;

use crate::mm::address::{idx0, idx1, lemma_indices, vpn_key, VirtPageNum};
use crate::mm::memory::PhysMemory;
use crate::mm::page_table::{
    lemma_fresh_not_table, lemma_path_is_table, lemma_pte_new, lemma_tables_grown_frames,
    lemma_tables_same_after_alloc, lemma_wf_in_bounds, path_frame, frames_needed, lemma_built_tables,
    l1_table, l2_table,
    lookup, pte_bits, pte_ppn, table_frame, table_wf, tables_grown, PTEFlags, PageTable,
};
use crate::mm::user_buffer::{end_vpn, first_vpn, VA_LIMIT};

verus! {

/// The entry flags of a user mapping with permission bits `port`
/// (bit 0 read, bit 1 write, bit 2 execute): `U` plus `R`, `W`, `X` as asked.
pub open spec fn port_flags(port: usize) -> u8 {
    ((((port & 7usize) as u8) << 1u8) | 16u8) as u8
}

/// The request `(start, len, port)` is well formed: `start` is page-aligned,
/// `len` is non-zero, `port` is a non-zero subset of `R/W/X`, and the range
/// lies in the SV39 address space.
pub open spec fn mmap_args_ok(start: usize, len: usize, port: usize) -> bool {
    &&& start % 4096 == 0
    &&& len > 0
    &&& port & !7usize == 0
    &&& port & 7usize != 0
    &&& start + len <= usize::MAX
    &&& start + len <= VA_LIMIT
}

/// Page `vpn` lies in `[lo, hi)`, by its translated bits.
pub open spec fn in_pages(vpn: usize, lo: nat, hi: nat) -> bool {
    lo <= vpn_key(vpn) < hi
}

/// No page of `[lo, hi)` is mapped.
pub open spec fn pages_unmapped(mem: PhysMemory, root: usize, lo: nat, hi: nat) -> bool {
    forall|v: usize| in_pages(v, lo, hi) ==> #[trigger] lookup(mem, root, v) is None
}

/// Every page of `[lo, hi)` is mapped.
pub open spec fn pages_mapped(mem: PhysMemory, root: usize, lo: nat, hi: nat) -> bool {
    forall|v: usize| in_pages(v, lo, hi) ==> #[trigger] lookup(mem, root, v) is Some
}

/// `mmap` succeeds on these arguments: they are well formed and no page of
/// the range is mapped yet.
pub open spec fn mmap_ok(mem: PhysMemory, root: usize, start: usize, len: usize, port: usize) -> bool {
    &&& mmap_args_ok(start, len, port)
    &&& pages_unmapped(mem, root, first_vpn(start as nat), end_vpn(start as nat, (start + len) as nat))
}

/// `munmap` succeeds on these arguments: `start` is page-aligned, the range
/// lies in the SV39 address space, and every page of it is mapped.
pub open spec fn munmap_ok(mem: PhysMemory, root: usize, start: usize, len: usize) -> bool {
    &&& start % 4096 == 0
    &&& start + len <= usize::MAX
    &&& start + len <= VA_LIMIT
    &&& pages_mapped(mem, root, first_vpn(start as nat), end_vpn(start as nat, (start + len) as nat))
}

/// `m2` maps every page of `[lo, hi)` with flags `flags` (and `V`) to a
/// cleared frame handed out after `base` that is no page-table frame,
/// distinct pages to distinct frames, and every other page as `m1` does;
/// the frames handed out before `base` that are no page-table frames are
/// unchanged.
pub open spec fn pages_added(m1: PhysMemory, m2: PhysMemory, root: usize, lo: nat, hi: nat, flags: u8, base: nat) -> bool {
    &&& forall|v: usize|
        #![trigger lookup(m2, root, v)]
        in_pages(v, lo, hi) ==> {
            &&& lookup(m2, root, v) is Some
            &&& lookup(m2, root, v)->0 == pte_bits(pte_ppn(lookup(m2, root, v)->0), flags | 1u8)
            &&& base <= pte_ppn(lookup(m2, root, v)->0) < m2.allocated()
            &&& m2.frame_zero(pte_ppn(lookup(m2, root, v)->0))
            &&& !table_frame(m2, root, pte_ppn(lookup(m2, root, v)->0))
        }
    &&& forall|v: usize, w: usize|
        #![trigger lookup(m2, root, v), lookup(m2, root, w)]
        in_pages(v, lo, hi) && in_pages(w, lo, hi) && vpn_key(v) != vpn_key(w) ==> pte_ppn(
            lookup(m2, root, v)->0,
        ) != pte_ppn(lookup(m2, root, w)->0)
    &&& forall|v: usize| !in_pages(v, lo, hi) ==> #[trigger] lookup(m2, root, v) == lookup(m1, root, v)
    &&& forall|p: usize| p < base && !table_frame(m2, root, p) ==> #[trigger] m2.frame_same(m1, p)
}

/// `m2` maps no page of `[lo, hi)` and every other page as `m1` does; the
/// frames handed out that are no page-table frames are unchanged.
pub open spec fn pages_removed(m1: PhysMemory, m2: PhysMemory, root: usize, lo: nat, hi: nat) -> bool {
    &&& forall|v: usize|
        #[trigger] lookup(m2, root, v) == if in_pages(v, lo, hi) {
            None
        } else {
            lookup(m1, root, v)
        }
    &&& forall|p: usize| p < m1.allocated() && !table_frame(m2, root, p) ==> #[trigger] m2.frame_same(m1, p)
}

/// The page-table frames that mapping page `v`, in a run of pages mapped one
/// after another from page `lo` on, takes from memory `m` as it was before
/// the run: a level-1 and a level-2 table when `v` is the first page of the
/// run under its root slot and that slot names no table in `m`; a level-2
/// table when `v` is the first of the run under its level-1 slot and that slot
/// names no table in `m`; none otherwise, the pages before it having built them.
pub open spec fn tables_new(m: PhysMemory, root: usize, lo: nat, v: nat) -> nat {
    let first_l1 = v == lo || idx0(v as usize) != idx0((v - 1) as usize);
    let first_l2 = first_l1 || idx1(v as usize) != idx1((v - 1) as usize);
    if first_l1 && l1_table(m, root, idx0(v as usize)) is None {
        2
    } else if first_l2 && l2_table(m, root, idx0(v as usize), idx1(v as usize)) is None {
        1
    } else {
        0
    }
}

/// The frames that mapping the pages `[lo, hi)` in order to fresh frames takes
/// from memory `m`: one frame per page and the tables of `tables_new`.
pub open spec fn range_frames(m: PhysMemory, root: usize, lo: nat, hi: nat) -> nat
    decreases hi,
{
    if hi <= lo {
        0
    } else {
        range_frames(m, root, lo, (hi - 1) as nat) + 1 + tables_new(m, root, lo, (hi - 1) as nat)
    }
}

/// `range_frames` grows with the end of the range.
pub proof fn lemma_range_frames_mono(m: PhysMemory, root: usize, lo: nat, a: nat, b: nat)
    requires
        a <= b,
    ensures
        range_frames(m, root, lo, a) <= range_frames(m, root, lo, b),
    decreases b,
{
    if a < b {
        lemma_range_frames_mono(m, root, lo, a, (b - 1) as nat);
    }
}

/// Between two pages of the SV39 range with the same root slot (or the same
/// root and level-1 slots), every page has those slots too.
proof fn lemma_slots_between(a: usize, b: usize, c: usize)
    requires
        a <= b <= c < 0x800_0000,
    ensures
        idx0(a) == idx0(c) ==> idx0(b) == idx0(a),
        idx0(a) == idx0(c) && idx1(a) == idx1(c) ==> idx0(b) == idx0(a) && idx1(b) == idx1(a),
{
    assert(a <= b <= c < 0x800_0000 ==> ((((a >> 18usize) & 0x1ffusize) == ((c >> 18usize) & 0x1ffusize))
        ==> ((b >> 18usize) & 0x1ffusize) == ((a >> 18usize) & 0x1ffusize))) by (bit_vector);
    assert(a <= b <= c < 0x800_0000 ==> ((((a >> 18usize) & 0x1ffusize) == ((c >> 18usize) & 0x1ffusize)
        && ((a >> 9usize) & 0x1ffusize) == ((c >> 9usize) & 0x1ffusize)) ==> ((b >> 9usize) & 0x1ffusize)
        == ((a >> 9usize) & 0x1ffusize))) by (bit_vector);
}

proof fn lemma_range_pages(start: usize, len: usize)
    requires
        start % 4096 == 0,
        start + len <= VA_LIMIT,
    ensures
        first_vpn(start as nat) * 4096 == start,
        end_vpn(start as nat, (start + len) as nat) <= 0x800_0000,
        first_vpn(start as nat) <= end_vpn(start as nat, (start + len) as nat),
{
    let e = (start + len) as nat;
    assert((start as nat / 4096) * 4096 == start) by (nonlinear_arith)
        requires
            start % 4096 == 0,
    ;
    if len > 0 {
        assert(((e - 1) as nat / 4096) < 0x800_0000) by (nonlinear_arith)
            requires
                e <= 0x80_0000_0000,
                e >= 1,
        ;
    }
}

proof fn lemma_page_flags(port: usize)
    requires
        port & !7usize == 0,
    ensures
        (((port as u8) << 1u8) | 16u8) == port_flags(port),
        port < 8,
{
    assert(port & !7usize == 0 ==> port < 8 && (((port as u8) << 1u8) | 16u8) == ((((port & 7usize) as u8)
        << 1u8) | 16u8)) by (bit_vector);
}

/// Maps every page of `[first, last)` to a fresh frame with `flags` (and `V`).
fn map_range(pt: &mut PageTable, mem: &mut PhysMemory, first: usize, last: usize, flags: PTEFlags)
    requires
        table_wf(*old(mem), old(pt).root()),
        first <= last <= 0x800_0000,
        pages_unmapped(*old(mem), old(pt).root(), first as nat, last as nat),
        old(mem).allocated() + range_frames(*old(mem), old(pt).root(), first as nat, last as nat) <= old(
            mem,
        ).frame_count(),
    ensures
        final(pt).root() == old(pt).root(),
        table_wf(*final(mem), final(pt).root()),
        final(mem).frame_count() == old(mem).frame_count(),
        final(mem).allocated() == old(mem).allocated() + range_frames(*old(mem), old(pt).root(), first as nat, last as nat),
        pages_added(*old(mem), *final(mem), old(pt).root(), first as nat, last as nat, flags.bits, old(mem).allocated()),
{
    let ghost m0 = *mem;
    let ghost root = pt.root();
    let ghost lo = first as nat;
    let ghost hi = last as nat;
    let mut vpn = first;
    while vpn < last
        invariant
            table_wf(*mem, root),
            pt.root() == root,
            mem.frame_count() == m0.frame_count(),
            lo == first,
            hi == last,
            hi <= 0x800_0000,
            first <= vpn <= last,
            pages_unmapped(m0, root, lo, hi),
            mem.allocated() == m0.allocated() + range_frames(m0, root, lo, vpn as nat),
            m0.allocated() + range_frames(m0, root, lo, hi) <= m0.frame_count(),
            forall|w: usize|
                #![trigger l1_table(*mem, root, idx0(w))]
                vpn <= w < hi ==> (l1_table(*mem, root, idx0(w)) is Some <==> (l1_table(m0, root, idx0(w)) is Some
                    || (vpn > lo && idx0(w) == idx0((vpn - 1) as usize)))),
            forall|w: usize|
                #![trigger l2_table(*mem, root, idx0(w), idx1(w))]
                vpn <= w < hi ==> (l2_table(*mem, root, idx0(w), idx1(w)) is Some <==> (l2_table(m0, root, idx0(w), idx1(w)) is Some
                    || (vpn > lo && idx0(w) == idx0((vpn - 1) as usize) && idx1(w) == idx1((vpn - 1) as usize)))),
            pages_added(m0, *mem, root, lo, vpn as nat, flags.bits, m0.allocated()),
            forall|v: usize| #![trigger lookup(*mem, root, v)] in_pages(v, vpn as nat, hi) ==> lookup(*mem, root, v) is None,
        decreases last - vpn,
    {
        let ghost m1 = *mem;
        proof {
            lemma_indices(vpn, vpn);
            lemma_wf_in_bounds(m1, root);
            m1.lemma_allocated_bound();
            assert(in_pages(vpn, vpn as nat, hi));
            lemma_range_frames_mono(m0, root, lo, vpn as nat + 1, hi);
            assert(range_frames(m0, root, lo, vpn as nat + 1) == range_frames(m0, root, lo, vpn as nat) + 1
                + tables_new(m0, root, lo, vpn as nat));
            assert(l1_table(m1, root, idx0(vpn)) is Some <==> (l1_table(m0, root, idx0(vpn)) is Some
                || (vpn > lo && idx0(vpn) == idx0((vpn - 1) as usize))));
            assert(l2_table(m1, root, idx0(vpn), idx1(vpn)) is Some <==> (l2_table(m0, root, idx0(vpn), idx1(vpn)) is Some
                || (vpn > lo && idx0(vpn) == idx0((vpn - 1) as usize) && idx1(vpn) == idx1((vpn - 1) as usize))));
            assert(frames_needed(m1, root, vpn) == tables_new(m0, root, lo, vpn as nat));
        }
        let frame = mem.frame_alloc().unwrap();
        let ghost m2 = *mem;
        proof {
            lemma_tables_same_after_alloc(m1, m2, root);
        }
        pt.map(mem, VirtPageNum(vpn), frame.ppn, flags);
        proof {
            let m3 = *mem;
            assert(lookup(m3, root, vpn) is Some);
            lemma_built_tables(m2, m3, root, vpn, pte_bits(frame.ppn.0, flags.bits | 1u8));
            assert forall|w: usize| #![trigger l1_table(m3, root, idx0(w))]
                vpn + 1 <= w < hi implies (l1_table(m3, root, idx0(w)) is Some <==> (l1_table(m0, root, idx0(w)) is Some
                    || (vpn + 1 > lo && idx0(w) == idx0(vpn)))) by {
                lemma_indices(w, vpn);
                assert(l1_table(m1, root, idx0(w)) is Some <==> (l1_table(m0, root, idx0(w)) is Some
                    || (vpn > lo && idx0(w) == idx0((vpn - 1) as usize))));
                if vpn > lo {
                    lemma_slots_between((vpn - 1) as usize, vpn, w);
                }
            }
            assert forall|w: usize| #![trigger l2_table(m3, root, idx0(w), idx1(w))]
                vpn + 1 <= w < hi implies (l2_table(m3, root, idx0(w), idx1(w)) is Some <==> (l2_table(m0, root, idx0(w), idx1(w)) is Some
                    || (vpn + 1 > lo && idx0(w) == idx0(vpn) && idx1(w) == idx1(vpn)))) by {
                lemma_indices(w, vpn);
                assert(l2_table(m1, root, idx0(w), idx1(w)) is Some <==> (l2_table(m0, root, idx0(w), idx1(w)) is Some
                    || (vpn > lo && idx0(w) == idx0((vpn - 1) as usize) && idx1(w) == idx1((vpn - 1) as usize))));
                if vpn > lo {
                    lemma_slots_between((vpn - 1) as usize, vpn, w);
                }
            }
            lemma_pte_new(frame.ppn.0, flags.bits | 1u8);
            assert forall|v: usize| #![trigger lookup(m3, root, v)]
                in_pages(v, lo, vpn as nat + 1) implies {
                    &&& lookup(m3, root, v) is Some
                    &&& lookup(m3, root, v)->0 == pte_bits(pte_ppn(lookup(m3, root, v)->0), flags.bits | 1u8)
                    &&& m0.allocated() <= pte_ppn(lookup(m3, root, v)->0) < m3.allocated()
                } by {
                lemma_indices(v, vpn);
                if vpn_key(v) != vpn_key(vpn) {
                    assert(lookup(m3, root, v) == lookup(m1, root, v));
                }
            }
            assert forall|v: usize, w: usize|
                #![trigger lookup(m3, root, v), lookup(m3, root, w)]
                in_pages(v, lo, vpn as nat + 1) && in_pages(w, lo, vpn as nat + 1) && vpn_key(v) != vpn_key(w)
                implies pte_ppn(lookup(m3, root, v)->0) != pte_ppn(lookup(m3, root, w)->0) by {
                lemma_indices(v, vpn);
                lemma_indices(w, vpn);
                if vpn_key(v) != vpn_key(vpn) {
                    assert(lookup(m3, root, v) == lookup(m1, root, v));
                }
                if vpn_key(w) != vpn_key(vpn) {
                    assert(lookup(m3, root, w) == lookup(m1, root, w));
                }
            }
            assert forall|v: usize| !in_pages(v, lo, vpn as nat + 1) implies #[trigger] lookup(m3, root, v) == lookup(m0, root, v) by {
                lemma_indices(v, vpn);
                assert(lookup(m3, root, v) == lookup(m1, root, v));
            }
            let f = frame.ppn.0;
            assert(tables_grown(m1, m2, root));
            lemma_fresh_not_table(m1, root, f);
            assert(tables_grown(m2, m1, root));
            lemma_tables_grown_frames(m2, m1, root, f);
            lemma_tables_grown_frames(m2, m3, root, f);
            assert(!path_frame(m3, root, vpn, f)) by {
                if path_frame(m3, root, vpn, f) {
                    lemma_path_is_table(m3, root, vpn, f);
                }
            }
            assert(m3.frame_same(m2, f));
            assert forall|i: usize| i < 512 implies #[trigger] m3.word(f, i) == 0 by {
                assert(m2.word(f, i) == 0);
            }
            assert forall|v: usize| #![trigger lookup(m3, root, v)]
                in_pages(v, lo, vpn as nat + 1) implies {
                    &&& m3.frame_zero(pte_ppn(lookup(m3, root, v)->0))
                    &&& !table_frame(m3, root, pte_ppn(lookup(m3, root, v)->0))
                } by {
                lemma_indices(v, vpn);
                if vpn_key(v) != vpn_key(vpn) {
                    assert(lookup(m3, root, v) == lookup(m1, root, v));
                    let g = pte_ppn(lookup(m1, root, v)->0);
                    assert(m1.frame_zero(g) && !table_frame(m1, root, g));
                    lemma_tables_grown_frames(m1, m2, root, g);
                    lemma_tables_grown_frames(m2, m3, root, g);
                    assert(!path_frame(m3, root, vpn, g)) by {
                        if path_frame(m3, root, vpn, g) {
                            lemma_path_is_table(m3, root, vpn, g);
                        }
                    }
                    assert(g != f);
                    assert(m2.frame_same(m1, g));
                    assert(m3.frame_same(m2, g));
                    assert forall|i: usize| i < 512 implies #[trigger] m3.word(g, i) == 0 by {
                        assert(m2.word(g, i) == m1.word(g, i));
                        assert(m1.word(g, i) == 0);
                    }
                }
            }
            assert forall|p: usize| p < m0.allocated() && !table_frame(m3, root, p) implies #[trigger] m3.frame_same(m0, p) by {
                lemma_tables_grown_frames(m1, m2, root, p);
                lemma_tables_grown_frames(m2, m3, root, p);
                assert(!table_frame(m1, root, p));
                assert(m1.frame_same(m0, p));
                assert(!path_frame(m3, root, vpn, p)) by {
                    if path_frame(m3, root, vpn, p) {
                        lemma_path_is_table(m3, root, vpn, p);
                    }
                }
                assert(m2.frame_same(m1, p));
                assert(m3.frame_same(m2, p));
                assert forall|i: usize| i < 512 implies #[trigger] m3.word(p, i) == m0.word(p, i) by {
                    assert(m3.word(p, i) == m2.word(p, i));
                    assert(m2.word(p, i) == m1.word(p, i));
                }
            }
            assert forall|v: usize| #![trigger lookup(m3, root, v)] in_pages(v, vpn as nat + 1, hi) implies lookup(m3, root, v) is None by {
                lemma_indices(v, vpn);
                assert(lookup(m3, root, v) == lookup(m1, root, v));
                assert(in_pages(v, vpn as nat, hi));
            }
        }
        vpn = vpn + 1;
    }
    proof {
        assert forall|v: usize| #![trigger lookup(m0, root, v)] in_pages(v, lo, hi) implies lookup(m0, root, v) is None by {}
    }
}

/// Removes the mapping of every page of `[first, last)`.
fn unmap_range(pt: &mut PageTable, mem: &mut PhysMemory, first: usize, last: usize)
    requires
        table_wf(*old(mem), old(pt).root()),
        first <= last <= 0x800_0000,
        pages_mapped(*old(mem), old(pt).root(), first as nat, last as nat),
    ensures
        *final(pt) == *old(pt),
        table_wf(*final(mem), final(pt).root()),
        final(mem).frame_count() == old(mem).frame_count(),
        final(mem).allocated() == old(mem).allocated(),
        pages_removed(*old(mem), *final(mem), old(pt).root(), first as nat, last as nat),
{
    let ghost m0 = *mem;
    let ghost root = pt.root();
    let ghost lo = first as nat;
    let ghost hi = last as nat;
    let mut vpn = first;
    while vpn < last
        invariant
            table_wf(*mem, root),
            pt.root() == root,
            *pt == *old(pt),
            mem.frame_count() == m0.frame_count(),
            mem.allocated() == m0.allocated(),
            lo == first,
            hi == last,
            hi <= 0x800_0000,
            first <= vpn <= last,
            pages_mapped(m0, root, lo, hi),
            pages_removed(m0, *mem, root, lo, vpn as nat),
            forall|v: usize| #![trigger lookup(*mem, root, v)] in_pages(v, vpn as nat, hi) ==> lookup(*mem, root, v) == lookup(m0, root, v),
        decreases last - vpn,
    {
        let ghost m1 = *mem;
        proof {
            lemma_indices(vpn, vpn);
            assert(in_pages(vpn, vpn as nat, hi));
            assert(in_pages(vpn, lo, hi));
        }
        pt.unmap(mem, VirtPageNum(vpn));
        proof {
            let m3 = *mem;
            assert forall|v: usize|
                #[trigger] lookup(m3, root, v) == if in_pages(v, lo, vpn as nat + 1) {
                    None
                } else {
                    lookup(m0, root, v)
                } by {
                lemma_indices(v, vpn);
                if vpn_key(v) != vpn_key(vpn) {
                    assert(lookup(m3, root, v) == lookup(m1, root, v));
                    if !in_pages(v, lo, vpn as nat) && !in_pages(v, vpn as nat, hi) {
                        assert(lookup(m1, root, v) == lookup(m0, root, v));
                    }
                }
            }
            assert forall|v: usize| #![trigger lookup(m3, root, v)] in_pages(v, vpn as nat + 1, hi) implies lookup(m3, root, v) == lookup(m0, root, v) by {
                lemma_indices(v, vpn);
                assert(lookup(m3, root, v) == lookup(m1, root, v));
                assert(in_pages(v, vpn as nat, hi));
            }
            assert forall|p: usize| p < m0.allocated() && !table_frame(m3, root, p) implies #[trigger] m3.frame_same(m0, p) by {
                lemma_tables_grown_frames(m1, m3, root, p);
                assert(!table_frame(m1, root, p));
                assert(m1.frame_same(m0, p));
                assert(!path_frame(m3, root, vpn, p)) by {
                    if path_frame(m3, root, vpn, p) {
                        lemma_path_is_table(m3, root, vpn, p);
                    }
                }
                assert(m3.frame_same(m1, p));
                assert forall|i: usize| i < 512 implies #[trigger] m3.word(p, i) == m0.word(p, i) by {
                    assert(m3.word(p, i) == m1.word(p, i));
                }
            }
        }
        vpn = vpn + 1;
    }
}

/// Maps the range `[start, start + len)`, rounded out to whole pages, to
/// fresh frames with `U` and the permissions of `port`. Fails, changing
/// nothing, when `start` is not page-aligned, `len` is zero, `port` is not a
/// non-zero subset of `R/W/X`, the range leaves the SV39 address space, or a
/// page of it is mapped already. On success it takes `range_frames` frames:
/// memory must hold that many free frames whenever the call is to succeed.
pub fn mmap(pt: &mut PageTable, mem: &mut PhysMemory, start: usize, len: usize, port: usize) -> (r: bool)
    requires
        table_wf(*old(mem), old(pt).root()),
        mmap_ok(*old(mem), old(pt).root(), start, len, port) ==> old(mem).allocated() + range_frames(
            *old(mem),
            old(pt).root(),
            first_vpn(start as nat),
            end_vpn(start as nat, (start + len) as nat),
        ) <= old(mem).frame_count(),
    ensures
        final(pt).root() == old(pt).root(),
        table_wf(*final(mem), final(pt).root()),
        final(mem).frame_count() == old(mem).frame_count(),
        r == mmap_ok(*old(mem), old(pt).root(), start, len, port),
        r <==> {
            &&& start % 4096 == 0
            &&& len > 0
            &&& (port & !7usize) == 0
            &&& (port & 7usize) != 0
            &&& start + len <= usize::MAX
            &&& start + len <= 0x80_0000_0000
            &&& forall|v: usize|
                start <= vpn_key(v) * 4096 < start + len ==> #[trigger] lookup(*old(mem), old(pt).root(), v) is None
        },
        r ==> pages_added(
            *old(mem),
            *final(mem),
            old(pt).root(),
            first_vpn(start as nat),
            end_vpn(start as nat, (start + len) as nat),
            port_flags(port),
            old(mem).allocated(),
        ),
        r ==> final(mem).allocated() == old(mem).allocated() + range_frames(
            *old(mem),
            old(pt).root(),
            first_vpn(start as nat),
            end_vpn(start as nat, (start + len) as nat),
        ),
        !r ==> *final(mem) == *old(mem),
{
    let ghost m0 = *mem;
    let ghost root = pt.root();
    proof {
        lemma_mmap_ok_iff(m0, root, start, len, port);
    }
    if start % 4096 != 0 || len == 0 || port & !7 != 0 || port & 7 == 0 {
        return false;
    }
    if start as u64 > VA_LIMIT || len as u64 > VA_LIMIT - start as u64 {
        return false;
    }
    let ghost lo = first_vpn(start as nat);
    let ghost hi = end_vpn(start as nat, (start + len) as nat);
    proof {
        lemma_range_pages(start, len);
        lemma_wf_in_bounds(m0, root);
        lemma_page_flags(port);
    }
    let end = match start.checked_add(len) {
        Some(e) => e,
        None => return false,
    };
    let first = start / 4096;
    let last = (end - 1) / 4096 + 1;
    let mut vpn = first;
    while vpn < last
        invariant
            table_wf(*mem, root),
            *mem == m0,
            pt.root() == root,
            lo == first,
            hi == last,
            lo == first_vpn(start as nat),
            hi == end_vpn(start as nat, (start + len) as nat),
            hi <= 0x800_0000,
            first <= vpn <= last,
            forall|v: usize| #![trigger lookup(m0, root, v)] lo <= vpn_key(v) < vpn ==> lookup(m0, root, v) is None,
        decreases last - vpn,
    {
        proof {
            lemma_wf_in_bounds(*mem, root);
        }
        match pt.translate(mem, VirtPageNum(vpn)) {
            Some(pte) => {
                if pte.is_valid() {
                    proof {
                        lemma_indices(vpn, vpn);
                        assert(lookup(m0, root, vpn) is Some);
                        assert(in_pages(vpn, lo, hi));
                        assert(!pages_unmapped(m0, root, lo, hi));
                    }
                    return false;
                }
            },
            None => {},
        }
        proof {
            assert forall|v: usize| #![trigger lookup(m0, root, v)] lo <= vpn_key(v) < vpn + 1 implies lookup(m0, root, v) is None by {
                lemma_indices(v, vpn);
            }
        }
        vpn = vpn + 1;
    }
    proof {
        assert(pages_unmapped(m0, root, lo, hi));
        assert(mmap_ok(m0, root, start, len, port));
    }
    let flags = PTEFlags::from_bits_truncate(((port as u8) << 1) | 16);
    map_range(pt, mem, first, last, flags);
    true
}

/// Removes the mappings of the range `[start, start + len)`, rounded out to
/// whole pages. Fails, changing nothing, when `start` is not page-aligned,
/// the range leaves the SV39 address space, or a page of it is not mapped.
pub fn munmap(pt: &mut PageTable, mem: &mut PhysMemory, start: usize, len: usize) -> (r: bool)
    requires
        table_wf(*old(mem), old(pt).root()),
    ensures
        *final(pt) == *old(pt),
        table_wf(*final(mem), final(pt).root()),
        final(mem).frame_count() == old(mem).frame_count(),
        final(mem).allocated() == old(mem).allocated(),
        r == munmap_ok(*old(mem), old(pt).root(), start, len),
        r ==> pages_removed(
            *old(mem),
            *final(mem),
            old(pt).root(),
            first_vpn(start as nat),
            end_vpn(start as nat, (start + len) as nat),
        ),
        !r ==> *final(mem) == *old(mem),
{
    let ghost m0 = *mem;
    let ghost root = pt.root();
    if start % 4096 != 0 {
        return false;
    }
    if start as u64 > VA_LIMIT || len as u64 > VA_LIMIT - start as u64 {
        return false;
    }
    let ghost lo = first_vpn(start as nat);
    let ghost hi = end_vpn(start as nat, (start + len) as nat);
    proof {
        lemma_range_pages(start, len);
    }
    let end = match start.checked_add(len) {
        Some(e) => e,
        None => return false,
    };
    let first = start / 4096;
    let last = if len == 0 {
        first
    } else {
        (end - 1) / 4096 + 1
    };
    let mut vpn = first;
    while vpn < last
        invariant
            table_wf(*mem, root),
            *mem == m0,
            pt.root() == root,
            lo == first,
            hi == last,
            lo == first_vpn(start as nat),
            hi == end_vpn(start as nat, (start + len) as nat),
            hi <= 0x800_0000,
            first <= vpn <= last,
            forall|v: usize| #![trigger lookup(m0, root, v)] lo <= vpn_key(v) < vpn ==> lookup(m0, root, v) is Some,
        decreases last - vpn,
    {
        proof {
            lemma_wf_in_bounds(*mem, root);
            lemma_indices(vpn, vpn);
        }
        let mapped = match pt.translate(mem, VirtPageNum(vpn)) {
            Some(pte) => pte.is_valid(),
            None => false,
        };
        if !mapped {
            proof {
                assert(lookup(m0, root, vpn) is None);
                assert(in_pages(vpn, lo, hi));
                assert(!pages_mapped(m0, root, lo, hi));
            }
            return false;
        }
        proof {
            assert forall|v: usize| #![trigger lookup(m0, root, v)] lo <= vpn_key(v) < vpn + 1 implies lookup(m0, root, v) is Some by {
                lemma_indices(v, vpn);
            }
        }
        vpn = vpn + 1;
    }
    unmap_range(pt, mem, first, last);
    true
}

/// The first page boundary at or above `a`.
pub open spec fn page_ceil(a: nat) -> nat {
    (a + 4095) / 4096
}

/// A task's heap: it starts at `heap_bottom` and ends at the program break.
/// The pages from the one holding `heap_bottom` up to the break are mapped.
#[derive(Clone, Copy, Debug, PartialEq, Eq, Structural)]
pub struct ProgramBrk {
    pub heap_bottom: usize,
    pub program_brk: usize,
}

/// Moves the program break by `size` bytes, mapping fresh readable, writable
/// and user-accessible frames to the pages the heap grows into, or removing
/// the mappings of the pages it gives up. Returns the old break, or `None`,
/// changing nothing, when the break would fall below the heap's bottom.
/// Growing takes `range_frames` frames of the pages grown into, which memory
/// must hold free.
pub fn change_program_brk(pt: &mut PageTable, mem: &mut PhysMemory, heap: &mut ProgramBrk, size: i32) -> (r: Option<usize>)
    requires
        table_wf(*old(mem), old(pt).root()),
        old(heap).heap_bottom <= old(heap).program_brk <= VA_LIMIT,
        size >= 0 ==> old(heap).program_brk + size <= VA_LIMIT,
        size >= 0 ==> old(heap).program_brk + size <= usize::MAX,
        size >= 0 ==> pages_unmapped(
            *old(mem),
            old(pt).root(),
            page_ceil(old(heap).program_brk as nat),
            page_ceil((old(heap).program_brk + size) as nat),
        ),
        size >= 0 ==> old(mem).allocated() + range_frames(
            *old(mem),
            old(pt).root(),
            page_ceil(old(heap).program_brk as nat),
            page_ceil((old(heap).program_brk + size) as nat),
        ) <= old(mem).frame_count(),
        size < 0 && old(heap).program_brk + size >= old(heap).heap_bottom ==> pages_mapped(
            *old(mem),
            old(pt).root(),
            page_ceil((old(heap).program_brk + size) as nat),
            page_ceil(old(heap).program_brk as nat),
        ),
    ensures
        final(pt).root() == old(pt).root(),
        table_wf(*final(mem), final(pt).root()),
        final(mem).frame_count() == old(mem).frame_count(),
        final(heap).heap_bottom == old(heap).heap_bottom,
        old(heap).program_brk + size < old(heap).heap_bottom ==> {
            &&& r is None
            &&& *final(heap) == *old(heap)
            &&& *final(mem) == *old(mem)
        },
        old(heap).program_brk + size >= old(heap).heap_bottom ==> {
            &&& r == Some(old(heap).program_brk)
            &&& final(heap).program_brk == old(heap).program_brk + size
        },
        old(heap).program_brk + size >= old(heap).heap_bottom && size >= 0 ==> pages_added(
            *old(mem),
            *final(mem),
            old(pt).root(),
            page_ceil(old(heap).program_brk as nat),
            page_ceil((old(heap).program_brk + size) as nat),
            0x16u8,
            old(mem).allocated(),
        ),
        size >= 0 ==> final(mem).allocated() == old(mem).allocated() + range_frames(
            *old(mem),
            old(pt).root(),
            page_ceil(old(heap).program_brk as nat),
            page_ceil((old(heap).program_brk + size) as nat),
        ),
        size < 0 ==> final(mem).allocated() == old(mem).allocated(),
        old(heap).program_brk + size >= old(heap).heap_bottom && size < 0 ==> pages_removed(
            *old(mem),
            *final(mem),
            old(pt).root(),
            page_ceil((old(heap).program_brk + size) as nat),
            page_ceil(old(heap).program_brk as nat),
        ),
{
    let old_break = heap.program_brk;
    let new_brk: i64 = old_break as i64 + size as i64;
    if new_brk < heap.heap_bottom as i64 {
        return None;
    }
    assert(0 <= new_brk <= usize::MAX);
    let new_brk = new_brk as usize;
    assert(new_brk == old_break + size);
    let old_end = (old_break as u64 + 4095) / 4096;
    let new_end = (new_brk as u64 + 4095) / 4096;
    proof {
        assert(old_end <= 0x800_0000) by (nonlinear_arith)
            requires
                old_end == (old_break as u64 + 4095) / 4096,
                old_break <= 0x80_0000_0000,
        ;
    }
    if size < 0 {
        proof {
            assert(new_end <= old_end) by (nonlinear_arith)
                requires
                    old_end == (old_break as u64 + 4095) / 4096,
                    new_end == (new_brk as u64 + 4095) / 4096,
                    new_brk <= old_break,
            ;
        }
        unmap_range(pt, mem, new_end as usize, old_end as usize);
    } else {
        proof {
            assert(old_end <= new_end <= 0x800_0000) by (nonlinear_arith)
                requires
                    old_end == (old_break as u64 + 4095) / 4096,
                    new_end == (new_brk as u64 + 4095) / 4096,
                    old_break <= new_brk <= 0x80_0000_0000,
            ;
        }
        let flags = PTEFlags::R().union(PTEFlags::W()).union(PTEFlags::U());
        assert(flags.bits == 0x16u8) by {
            assert((2u8 | 4u8) | 16u8 == 0x16u8) by (bit_vector);
        }
        map_range(pt, mem, old_end as usize, new_end as usize, flags);
    }
    heap.program_brk = new_brk;
    Some(old_break)
}

/// Page `k` lies in the page range of `[start, start + len)` exactly when it
/// begins inside that byte range, for a page-aligned `start` and `len > 0`.
proof fn lemma_page_in_range(start: nat, len: nat, k: nat)
    requires
        start % 4096 == 0,
        len > 0,
    ensures
        (first_vpn(start) <= k && k < end_vpn(start, start + len)) <==> (start <= k * 4096 && k * 4096 < start + len),
{
    assert(start / 4096 <= k <==> start <= k * 4096) by (nonlinear_arith)
        requires
            start % 4096 == 0,
    ;
    assert(k < ((start + len - 1) as nat) / 4096 + 1 <==> k * 4096 < start + len) by (nonlinear_arith)
        requires
            len > 0,
    ;
}

/// `mmap(start, len, port)` succeeds exactly when `start` is page-aligned,
/// `len` is non-zero, `port` has no bit above the three permission bits and
/// at least one of them, the range ends inside the SV39 space, and no page
/// that begins inside `[start, start + len)` is mapped.
pub proof fn lemma_mmap_ok_iff(mem: PhysMemory, root: usize, start: usize, len: usize, port: usize)
    ensures
        mmap_ok(mem, root, start, len, port) <==> {
            &&& start % 4096 == 0
            &&& len > 0
            &&& (port & !7usize) == 0
            &&& (port & 7usize) != 0
            &&& start + len <= usize::MAX
            &&& start + len <= 0x80_0000_0000
            &&& forall|v: usize|
                start <= vpn_key(v) * 4096 < start + len ==> #[trigger] lookup(mem, root, v) is None
        },
{
    if start % 4096 == 0 && len > 0 {
        let lo = first_vpn(start as nat);
        let hi = end_vpn(start as nat, (start + len) as nat);
        assert forall|v: usize| #[trigger] in_pages(v, lo, hi) <==> (start <= vpn_key(v) * 4096 < start + len) by {
            lemma_page_in_range(start as nat, len as nat, vpn_key(v) as nat);
        }
    }
}

/// Every port from 1 to 7 is a valid permission set, and the entry flags it
/// maps with are `U`, with `R`, `W` and `X` exactly as bits 0, 1 and 2 of the
/// port ask, and no other bit.
pub proof fn lemma_port_flags(port: usize)
    requires
        1 <= port <= 7,
    ensures
        port & !7usize == 0,
        port & 7usize != 0,
        (port_flags(port) & 2u8 != 0) == (port & 1usize != 0),
        (port_flags(port) & 4u8 != 0) == (port & 2usize != 0),
        (port_flags(port) & 8u8 != 0) == (port & 4usize != 0),
        port_flags(port) & 16u8 != 0,
        port_flags(port) & 0xe1u8 == 0,
{
    assert(1 <= port <= 7 ==> port & !7usize == 0 && port & 7usize != 0 && ((((((port & 7usize) as u8)
        << 1u8) | 16u8) as u8 & 2u8 != 0) == (port & 1usize != 0)) && ((((((port & 7usize) as u8) << 1u8)
        | 16u8) as u8 & 4u8 != 0) == (port & 2usize != 0)) && ((((((port & 7usize) as u8) << 1u8)
        | 16u8) as u8 & 8u8 != 0) == (port & 4usize != 0)) && (((((port & 7usize) as u8) << 1u8)
        | 16u8) as u8 & 16u8 != 0) && (((((port & 7usize) as u8) << 1u8) | 16u8) as u8 & 0xe1u8 == 0))
        by (bit_vector);
}

/// `page_ceil(a)` counts the pages that begin below byte `a`: page `p`
/// begins below `a` exactly when `p < page_ceil(a)`, so `page_ceil(a) * 4096`
/// is the first page boundary at or above `a`.
pub proof fn lemma_page_ceil(a: nat, p: nat)
    ensures
        page_ceil(a) * 4096 >= a,
        page_ceil(a) * 4096 < a + 4096,
        p < page_ceil(a) <==> p * 4096 < a,
{
    assert(p < (a + 4095) / 4096 <==> p * 4096 < a) by (nonlinear_arith);
}

/// When the heap grows from break `old` to break `new` and every page from
/// the one holding `bottom` up to `old` was mapped, every byte of the heap
/// `[bottom, new)` lies in a mapped page afterwards.
pub proof fn lemma_grown_heap_mapped(
    m1: PhysMemory,
    m2: PhysMemory,
    root: usize,
    bottom: nat,
    old: nat,
    new: nat,
    flags: u8,
    base: nat,
)
    requires
        bottom <= old <= new <= 0x80_0000_0000,
        pages_mapped(m1, root, bottom / 4096, page_ceil(old)),
        pages_added(m1, m2, root, page_ceil(old), page_ceil(new), flags, base),
    ensures
        pages_mapped(m2, root, bottom / 4096, page_ceil(new)),
        forall|a: nat| bottom <= a < new ==> #[trigger] lookup(m2, root, (a / 4096) as usize) is Some,
{
    assert forall|v: usize| in_pages(v, bottom / 4096, page_ceil(new)) implies #[trigger] lookup(m2, root, v) is Some by {
        if vpn_key(v) < page_ceil(old) {
            assert(in_pages(v, bottom / 4096, page_ceil(old)));
            assert(!in_pages(v, page_ceil(old), page_ceil(new)));
        } else {
            assert(in_pages(v, page_ceil(old), page_ceil(new)));
        }
    }
    assert forall|a: nat| bottom <= a < new implies #[trigger] lookup(m2, root, (a / 4096) as usize) is Some by {
        let k = a / 4096;
        lemma_page_ceil(new, k);
        assert(k * 4096 <= a) by (nonlinear_arith)
            requires
                k == a / 4096,
        ;
        assert(bottom / 4096 <= k) by (nonlinear_arith)
            requires
                bottom <= a,
                k == a / 4096,
        ;
        assert(k < 0x800_0000) by (nonlinear_arith)
            requires
                a < 0x80_0000_0000,
                k == a / 4096,
        ;
        let v = k as usize;
        lemma_indices(v, v);
        assert(in_pages(v, bottom / 4096, page_ceil(new)));
    }
}

/// Mapping a range of unmapped pages and then removing the mappings of the
/// same range gives back every lookup: what `mmap` then `munmap` do, and
/// what growing the heap and shrinking it back by the same size do.
pub proof fn lemma_added_then_removed(
    m0: PhysMemory,
    m1: PhysMemory,
    m2: PhysMemory,
    root: usize,
    lo: nat,
    hi: nat,
    flags: u8,
    base: nat,
)
    requires
        pages_unmapped(m0, root, lo, hi),
        pages_added(m0, m1, root, lo, hi, flags, base),
        pages_removed(m1, m2, root, lo, hi),
    ensures
        forall|v: usize| #[trigger] lookup(m2, root, v) == lookup(m0, root, v),
{
    assert forall|v: usize| #[trigger] lookup(m2, root, v) == lookup(m0, root, v) by {
        if in_pages(v, lo, hi) {
            assert(lookup(m0, root, v) is None);
        } else {
            assert(lookup(m1, root, v) == lookup(m0, root, v));
        }
    }
}

/// After `mmap` of a range succeeds, `munmap` of the same range succeeds,
/// and afterwards every page is mapped as it was before the `mmap`; a second
/// `mmap` of the same range fails.
pub proof fn lemma_mmap_then_munmap(
    m0: PhysMemory,
    m1: PhysMemory,
    m2: PhysMemory,
    root: usize,
    start: usize,
    len: usize,
    port: usize,
)
    requires
        mmap_ok(m0, root, start, len, port),
        pages_added(
            m0,
            m1,
            root,
            first_vpn(start as nat),
            end_vpn(start as nat, (start + len) as nat),
            port_flags(port),
            m0.allocated(),
        ),
    ensures
        munmap_ok(m1, root, start, len),
        !mmap_ok(m1, root, start, len, port),
        pages_removed(m1, m2, root, first_vpn(start as nat), end_vpn(start as nat, (start + len) as nat))
            ==> forall|v: usize| #[trigger] lookup(m2, root, v) == lookup(m0, root, v),
{
    let lo = first_vpn(start as nat);
    let hi = end_vpn(start as nat, (start + len) as nat);
    lemma_range_pages(start, len);
    assert forall|v: usize| in_pages(v, lo, hi) implies #[trigger] lookup(m1, root, v) is Some by {}
    let w = lo as usize;
    lemma_indices(w, w);
    assert(lo < hi) by (nonlinear_arith)
        requires
            lo == start as nat / 4096,
            hi == ((start + len - 1) as nat) / 4096 + 1,
            len > 0,
    ;
    assert(in_pages(w, lo, hi));
    assert(lookup(m1, root, w) is Some);
    if pages_removed(m1, m2, root, lo, hi) {
        assert forall|v: usize| #[trigger] lookup(m2, root, v) == lookup(m0, root, v) by {
            if in_pages(v, lo, hi) {
                assert(lookup(m0, root, v) is None);
            } else {
                assert(lookup(m1, root, v) == lookup(m0, root, v));
            }
        }
    }
}

} // verus!
