//! Access to user memory through a page table: the byte ranges of the
//! physical frames behind a user virtual range, checked against the page
//! permissions, and the copies between kernel buffers and user memory.
use vstd::prelude::*;

use crate::config::PAGE_SIZE;
use crate::mm::address::{idx2, lemma_indices, PhysPageNum, VirtPageNum};
use crate::mm::memory::PhysMemory;
use crate::mm::page_table::{
    l1_table, l2_table, lemma_tables_same, lemma_wf_in_bounds, lookup, pte_ppn, table_wf, walk,
    walk_in_bounds, PTEFlags, PageTable, PageTableEntry,
};

verus! {

/// First address past the SV39 virtual address space.
pub const VA_LIMIT: u64 = 0x80_0000_0000;

/// The byte range `[start, end)` of physical frame `ppn`.
#[derive(Clone, Copy, Debug, PartialEq, Eq, Structural)]
pub struct UserBuffer {
    pub ppn: PhysPageNum,
    pub start: usize,
    pub end: usize,
}

/// The root frame that a `satp` token names.
pub open spec fn token_root(satp: u64) -> usize {
    (satp & 0xfff_ffff_ffffu64) as usize
}

/// The first page of the range `[start, end)`.
pub open spec fn first_vpn(start: nat) -> nat {
    start / 4096
}

/// One past the last page of the range `[start, end)`; the range holds no
/// page when it is empty.
pub open spec fn end_vpn(start: nat, end: nat) -> nat {
    if start < end {
        ((end - 1) as nat) / 4096 + 1
    } else {
        start / 4096
    }
}

/// The leaf word that the walk for page `vpn` reaches, valid or not.
pub open spec fn leaf_word(mem: PhysMemory, root: usize, vpn: nat) -> u64 {
    match walk(mem, root, vpn as usize) {
        Some((t, i)) => mem.word(t, i),
        None => 0,
    }
}

/// The part of page `vpn` that the range `[start, end)` covers.
pub open spec fn buffer_of(mem: PhysMemory, root: usize, start: nat, end: nat, vpn: nat) -> UserBuffer {
    UserBuffer {
        ppn: PhysPageNum(pte_ppn(leaf_word(mem, root, vpn))),
        start: (if vpn * 4096 < start {
            start - vpn * 4096
        } else {
            0
        }) as usize,
        end: (if end < vpn * 4096 + 4096 {
            end - vpn * 4096
        } else {
            4096
        }) as usize,
    }
}

/// The byte ranges of the frames behind `[start, end)`, page by page.
pub open spec fn user_buffers(mem: PhysMemory, root: usize, start: nat, end: nat) -> Seq<UserBuffer> {
    Seq::new(
        (end_vpn(start, end) - first_vpn(start)) as nat,
        |k: int| buffer_of(mem, root, start, end, (first_vpn(start) + k) as nat),
    )
}

/// Page `vpn` is mapped by a valid entry that holds every flag of `required`.
pub open spec fn user_page_ok(mem: PhysMemory, root: usize, vpn: nat, required: u8) -> bool {
    lookup(mem, root, vpn as usize) matches Some(e) && (e as u8) & required == required
}

/// Every page in `[lo, hi)` is mapped with the `required` flags.
pub open spec fn pages_ok(mem: PhysMemory, root: usize, lo: nat, hi: nat, required: u8) -> bool {
    forall|vpn: nat| lo <= vpn < hi ==> #[trigger] user_page_ok(mem, root, vpn, required)
}

/// The range holds no address past the virtual address space and does not
/// wrap around.
pub open spec fn range_in_space(start: nat, len: nat) -> bool {
    &&& start + len <= usize::MAX
    &&& start < VA_LIMIT
    &&& start + len < VA_LIMIT
}

/// The user range `[start, start + len)` may be accessed with the `required`
/// flags: it is empty, or it lies in the virtual address space and each of
/// its pages is mapped with those flags.
pub open spec fn user_range_ok(mem: PhysMemory, root: usize, start: nat, len: nat, required: u8) -> bool {
    len == 0 || (range_in_space(start, len) && pages_ok(
        mem,
        root,
        first_vpn(start),
        end_vpn(start, start + len),
        required,
    ))
}

/// The check of the range only walks frames of memory: each page it walks,
/// the one after the last page that passed, has its walk in bounds.
pub open spec fn user_range_walkable(mem: PhysMemory, root: usize, start: nat, len: nat, required: u8) -> bool {
    len > 0 && range_in_space(start, len) ==> forall|vpn: nat|
        first_vpn(start) <= vpn < end_vpn(start, start + len) && pages_ok(
            mem,
            root,
            first_vpn(start),
            vpn,
            required,
        ) ==> #[trigger] walk_in_bounds(mem, root, vpn as usize)
}

/// When the range passes the check, the frames behind it are frames of memory.
pub open spec fn user_frames_present(mem: PhysMemory, root: usize, start: nat, len: nat, required: u8) -> bool {
    user_range_ok(mem, root, start, len, required) ==> forall|vpn: nat|
        first_vpn(start) <= vpn < end_vpn(start, start + len) ==> #[trigger] pte_ppn(
            leaf_word(mem, root, vpn),
        ) < mem.frame_count()
}

proof fn lemma_page_split(p: nat, off: nat)
    requires
        off < 4096,
    ensures
        (p * 4096 + off) / 4096 == p,
        (p * 4096 + off) % 4096 == off,
{
    assert((p * 4096 + off) / 4096 == p && (p * 4096 + off) % 4096 == off) by (nonlinear_arith)
        requires
            off < 4096,
    ;
}

proof fn lemma_page_of(a: nat)
    ensures
        (a / 4096) * 4096 <= a,
        a < (a / 4096) * 4096 + 4096,
        a % 4096 == a - (a / 4096) * 4096,
{
    assert((a / 4096) * 4096 <= a && a < (a / 4096) * 4096 + 4096 && a % 4096 == a - (a / 4096) * 4096)
        by (nonlinear_arith);
}

/// The byte ranges of the frames behind the user range `[ptr, ptr + len)`,
/// or `None` when the range wraps around, leaves the virtual address space,
/// or holds a page that is not mapped with every flag of `required_flags`.
pub fn checked_user_byte_buffers(
    mem: &PhysMemory,
    token: u64,
    ptr: usize,
    len: usize,
    required_flags: PTEFlags,
) -> (r: Option<Vec<UserBuffer>>)
    requires
        mem.wf(),
        user_range_walkable(*mem, token_root(token), ptr as nat, len as nat, required_flags.bits),
    ensures
        r is Some <==> user_range_ok(*mem, token_root(token), ptr as nat, len as nat, required_flags.bits),
        r matches Some(v) ==> v@ == user_buffers(*mem, token_root(token), ptr as nat, (ptr + len) as nat),
{
    let ghost root = token_root(token);
    if len == 0 {
        let v: Vec<UserBuffer> = Vec::new();
        assert(v@ =~= user_buffers(*mem, root, ptr as nat, (ptr + len) as nat));
        return Some(v);
    }
    let page_table = PageTable::from_token(token);
    let end = match ptr.checked_add(len) {
        Some(e) => e,
        None => return None,
    };
    if ptr as u64 >= VA_LIMIT || end as u64 >= VA_LIMIT {
        return None;
    }
    let ghost lo = first_vpn(ptr as nat);
    let ghost hi = end_vpn(ptr as nat, end as nat);
    let ghost bufs = user_buffers(*mem, root, ptr as nat, end as nat);
    proof {
        lemma_page_of(ptr as nat);
        lemma_page_of((end - 1) as nat);
    }
    let mut start = ptr;
    let mut v: Vec<UserBuffer> = Vec::new();
    while start < end
        invariant
            mem.wf(),
            page_table.root() == root,
            root == token_root(token),
            len > 0,
            end == ptr + len,
            range_in_space(ptr as nat, len as nat),
            user_range_walkable(*mem, root, ptr as nat, len as nat, required_flags.bits),
            lo == first_vpn(ptr as nat),
            hi == end_vpn(ptr as nat, end as nat),
            bufs == user_buffers(*mem, root, ptr as nat, end as nat),
            lo < hi,
            ptr <= start <= end,
            lo + v@.len() <= hi,
            v@.len() == 0 ==> start == ptr,
            v@.len() > 0 ==> start == if end < (lo + v@.len()) * 4096 { end as int } else { ((lo + v@.len()) * 4096) as int },
            v@.len() < hi - lo ==> start < end,
            v@.len() == hi - lo ==> start == end,
            pages_ok(*mem, root, lo, lo + v@.len(), required_flags.bits),
            v@ == bufs.take(v@.len() as int),
        decreases end - start,
    {
        let ghost k = v@.len();
        let vpn = start / PAGE_SIZE;
        proof {
            lemma_page_of(start as nat);
            if k > 0 {
                lemma_page_split((lo + k) as nat, 0);
            }
            assert(vpn == lo + k);
        }
        let pte = match page_table.translate(mem, VirtPageNum(vpn)) {
            Some(p) => p,
            None => {
                proof {
                    assert(!user_page_ok(*mem, root, (lo + k) as nat, required_flags.bits));
                }
                return None;
            },
        };
        if !pte.is_valid() || !pte.flags().contains(required_flags) {
            proof {
                assert(!user_page_ok(*mem, root, (lo + k) as nat, required_flags.bits));
            }
            return None;
        }
        let page_base = vpn * PAGE_SIZE;
        let end_va = if end - page_base <= PAGE_SIZE {
            end
        } else {
            page_base + PAGE_SIZE
        };
        let b = UserBuffer { ppn: pte.ppn(), start: start - page_base, end: end_va - page_base };
        proof {
            assert(user_page_ok(*mem, root, (lo + k) as nat, required_flags.bits));
            assert(b == bufs[k as int]);
        }
        v.push(b);
        start = end_va;
        proof {
            assert(v@ =~= bufs.take(v@.len() as int));
            lemma_page_of((end - 1) as nat);
        }
    }
    Some(v)
}

/// The frame behind user address `va`.
pub open spec fn user_frame(mem: PhysMemory, root: usize, va: nat) -> usize {
    pte_ppn(leaf_word(mem, root, va / 4096))
}

/// The byte behind user address `va`.
pub open spec fn user_byte(mem: PhysMemory, root: usize, va: nat) -> u8 {
    mem.byte(user_frame(mem, root, va), (va % 4096) as usize)
}

/// The bytes behind the user range `[start, start + len)`.
pub open spec fn user_bytes(mem: PhysMemory, root: usize, start: nat, len: nat) -> Seq<u8> {
    Seq::new(len, |k: int| user_byte(mem, root, (start + k) as nat))
}

/// The byte at offset `o` of frame `p` after the first `n` bytes of `data`
/// were stored, in order, behind the user addresses `start`, `start + 1`, ...;
/// the frames were found through `mem`, before any store.
pub open spec fn stored_byte(mem: PhysMemory, root: usize, start: nat, data: Seq<u8>, n: nat, p: usize, o: usize) -> u8
    decreases n,
{
    if n == 0 {
        mem.byte(p, o)
    } else if user_frame(mem, root, (start + n - 1) as nat) == p && (start + n - 1) % 4096 == o as int {
        data[n - 1]
    } else {
        stored_byte(mem, root, start, data, (n - 1) as nat, p, o)
    }
}

/// No byte among the first `n` stored behind `start` lands in frame `p`.
pub open spec fn frame_untouched(mem: PhysMemory, root: usize, start: nat, n: nat, p: usize) -> bool {
    forall|k: nat| k < n ==> #[trigger] user_frame(mem, root, start + k) != p
}

/// `m2` is `m1` after the first `n` bytes of `data` were stored behind the
/// user addresses from `start` on: every byte is as `stored_byte` says, and
/// the frames no store lands in are unchanged.
pub open spec fn user_stored(m1: PhysMemory, m2: PhysMemory, root: usize, start: nat, data: Seq<u8>, n: nat) -> bool {
    &&& m2.wf()
    &&& m2.frame_count() == m1.frame_count()
    &&& m2.allocated() == m1.allocated()
    &&& forall|p: usize, o: usize|
        p < m1.frame_count() && o < 4096 ==> #[trigger] m2.byte(p, o) == stored_byte(m1, root, start, data, n, p, o)
    &&& forall|p: usize, i: usize|
        p < m1.frame_count() && i < 512 && frame_untouched(m1, root, start, n, p) ==> #[trigger] m2.word(p, i)
            == m1.word(p, i)
}

/// The byte ranges of the frames behind the user range `[ptr, ptr + len)`,
/// without any check of the entries' flags.
pub fn translated_byte_buffer(mem: &PhysMemory, token: u64, ptr: usize, len: usize) -> (r: Vec<UserBuffer>)
    requires
        mem.wf(),
        ptr + len <= usize::MAX,
        ptr + len < VA_LIMIT,
        forall|vpn: nat|
            first_vpn(ptr as nat) <= vpn < end_vpn(ptr as nat, (ptr + len) as nat) ==> #[trigger] walk_in_bounds(
                *mem,
                token_root(token),
                vpn as usize,
            ) && walk(*mem, token_root(token), vpn as usize) is Some,
    ensures
        r@ == user_buffers(*mem, token_root(token), ptr as nat, (ptr + len) as nat),
{
    let ghost root = token_root(token);
    let page_table = PageTable::from_token(token);
    let end = ptr + len;
    let ghost lo = first_vpn(ptr as nat);
    let ghost hi = end_vpn(ptr as nat, end as nat);
    let ghost bufs = user_buffers(*mem, root, ptr as nat, end as nat);
    let mut start = ptr;
    let mut v: Vec<UserBuffer> = Vec::new();
    if len == 0 {
        assert(v@ =~= bufs);
        return v;
    }
    proof {
        lemma_page_of(ptr as nat);
        lemma_page_of((end - 1) as nat);
    }
    while start < end
        invariant
            mem.wf(),
            page_table.root() == root,
            len > 0,
            end == ptr + len,
            end < VA_LIMIT,
            forall|vpn: nat|
                lo <= vpn < hi ==> #[trigger] walk_in_bounds(*mem, root, vpn as usize) && walk(
                    *mem,
                    root,
                    vpn as usize,
                ) is Some,
            lo == first_vpn(ptr as nat),
            hi == end_vpn(ptr as nat, end as nat),
            bufs == user_buffers(*mem, root, ptr as nat, end as nat),
            lo < hi,
            ptr <= start <= end,
            lo + v@.len() <= hi,
            v@.len() == 0 ==> start == ptr,
            v@.len() > 0 ==> start == if end < (lo + v@.len()) * 4096 {
                end as int
            } else {
                ((lo + v@.len()) * 4096) as int
            },
            v@.len() < hi - lo ==> start < end,
            v@.len() == hi - lo ==> start == end,
            v@ == bufs.take(v@.len() as int),
        decreases end - start,
    {
        let ghost k = v@.len();
        let vpn = start / PAGE_SIZE;
        proof {
            lemma_page_of(start as nat);
            if k > 0 {
                lemma_page_split((lo + k) as nat, 0);
            }
            assert(vpn == lo + k);
            assert(walk_in_bounds(*mem, root, vpn));
        }
        let ppn = page_table.translate(mem, VirtPageNum(vpn)).unwrap().ppn();
        let page_base = vpn * PAGE_SIZE;
        let end_va = if end - page_base <= PAGE_SIZE {
            end
        } else {
            page_base + PAGE_SIZE
        };
        let b = UserBuffer { ppn, start: start - page_base, end: end_va - page_base };
        assert(b == bufs[k as int]);
        v.push(b);
        start = end_va;
        proof {
            assert(v@ =~= bufs.take(v@.len() as int));
            lemma_page_of((end - 1) as nat);
        }
    }
    assert(v@ =~= bufs);
    v
}

/// Copies the user range `[ptr, ptr + dst.len())` into `dst` when every page
/// of it is mapped readable and user-accessible (`R` and `U`); returns whether
/// it copied. On `false`, `dst` is left as it was.
pub fn copy_from_user(mem: &PhysMemory, token: u64, ptr: usize, dst: &mut [u8]) -> (r: bool)
    requires
        mem.wf(),
        user_range_walkable(*mem, token_root(token), ptr as nat, old(dst)@.len(), 18u8),
        user_frames_present(*mem, token_root(token), ptr as nat, old(dst)@.len(), 18u8),
    ensures
        r == user_range_ok(*mem, token_root(token), ptr as nat, old(dst)@.len(), 18u8),
        r ==> final(dst)@ == user_bytes(*mem, token_root(token), ptr as nat, old(dst)@.len()),
        !r ==> final(dst)@ == old(dst)@,
{
    let ghost root = token_root(token);
    let len = dst.len();
    let required = PTEFlags::R().union(PTEFlags::U());
    assert(required.bits == 18u8) by {
        assert(2u8 | 16u8 == 18u8) by (bit_vector);
    }
    let byte_buffers = match checked_user_byte_buffers(mem, token, ptr, len, required) {
        Some(b) => b,
        None => return false,
    };
    let ghost lo = first_vpn(ptr as nat);
    let ghost hi = end_vpn(ptr as nat, (ptr + len) as nat);
    let ghost end = (ptr + len) as nat;
    proof {
        lemma_page_of(ptr as nat);
        if len > 0 {
            lemma_page_of((end - 1) as nat);
        }
    }
    let mut copied: usize = 0;
    let mut i: usize = 0;
    while i < byte_buffers.len()
        invariant
            mem.wf(),
            root == token_root(token),
            dst@.len() == len,
            len == old(dst)@.len(),
            end == ptr + len,
            len > 0 ==> range_in_space(ptr as nat, len as nat),
            lo == first_vpn(ptr as nat),
            hi == end_vpn(ptr as nat, end),
            lo * 4096 <= ptr,
            len > 0 ==> end <= hi * 4096,
            len > 0 ==> (hi - 1) * 4096 < end,
            len == 0 ==> hi == lo,
            user_range_ok(*mem, root, ptr as nat, len as nat, 18u8),
            user_frames_present(*mem, root, ptr as nat, len as nat, 18u8),
            byte_buffers@ == user_buffers(*mem, root, ptr as nat, end),
            i <= byte_buffers@.len(),
            copied == if i == 0 {
                0
            } else if end < (lo + i) * 4096 {
                len as int
            } else {
                (lo + i) * 4096 - ptr
            },
            forall|j: int| 0 <= j < copied ==> dst@[j] == user_byte(*mem, root, (ptr + j) as nat),
        decreases byte_buffers@.len() - i,
    {
        let b = byte_buffers[i];
        let ghost vpn = (lo + i) as nat;
        assert(b == buffer_of(*mem, root, ptr as nat, end, vpn));
        assert(pte_ppn(leaf_word(*mem, root, vpn)) < mem.frame_count());
        let mut off = b.start;
        proof {
            if i > 0 {
                assert(ptr < vpn * 4096);
            }
        }
        while off < b.end
            invariant
                mem.wf(),
                dst@.len() == len,
                end == ptr + len,
                b == buffer_of(*mem, root, ptr as nat, end, vpn),
                b.ppn.0 < mem.frame_count(),
                b.end <= 4096,
                b.start <= off <= b.end,
                vpn * 4096 + b.end <= end,
                copied == vpn * 4096 + off - ptr,
                forall|j: int| 0 <= j < copied ==> dst@[j] == user_byte(*mem, root, (ptr + j) as nat),
            decreases b.end - off,
        {
            let byte = mem.read_byte(b.ppn.0, off);
            proof {
                lemma_page_split(vpn, off as nat);
            }
            dst[copied] = byte;
            copied = copied + 1;
            off = off + 1;
        }
        i = i + 1;
    }
    assert(dst@ =~= user_bytes(*mem, root, ptr as nat, len as nat));
    true
}

/// Copies `data` into the user range `[ptr, ptr + data.len())` when every page
/// of it is mapped writable and user-accessible (`W` and `U`); returns whether
/// it copied. On `false`, memory is left as it was.
pub fn copy_to_user(mem: &mut PhysMemory, token: u64, ptr: usize, data: &[u8]) -> (r: bool)
    requires
        old(mem).wf(),
        user_range_walkable(*old(mem), token_root(token), ptr as nat, data@.len(), 20u8),
        user_frames_present(*old(mem), token_root(token), ptr as nat, data@.len(), 20u8),
    ensures
        r == user_range_ok(*old(mem), token_root(token), ptr as nat, data@.len(), 20u8),
        r ==> user_stored(*old(mem), *final(mem), token_root(token), ptr as nat, data@, data@.len()),
        !r ==> *final(mem) == *old(mem),
{
    let ghost root = token_root(token);
    let ghost m0 = *mem;
    let len = data.len();
    let required = PTEFlags::W().union(PTEFlags::U());
    assert(required.bits == 20u8) by {
        assert(4u8 | 16u8 == 20u8) by (bit_vector);
    }
    let byte_buffers = match checked_user_byte_buffers(mem, token, ptr, len, required) {
        Some(b) => b,
        None => return false,
    };
    let ghost lo = first_vpn(ptr as nat);
    let ghost hi = end_vpn(ptr as nat, (ptr + len) as nat);
    let ghost end = (ptr + len) as nat;
    proof {
        lemma_page_of(ptr as nat);
        if len > 0 {
            lemma_page_of((end - 1) as nat);
        }
    }
    let mut copied: usize = 0;
    let mut i: usize = 0;
    while i < byte_buffers.len()
        invariant
            mem.wf(),
            root == token_root(token),
            data@.len() == len,
            end == ptr + len,
            len > 0 ==> range_in_space(ptr as nat, len as nat),
            lo == first_vpn(ptr as nat),
            hi == end_vpn(ptr as nat, end),
            lo * 4096 <= ptr,
            len > 0 ==> end <= hi * 4096,
            len > 0 ==> (hi - 1) * 4096 < end,
            len == 0 ==> hi == lo,
            user_range_ok(m0, root, ptr as nat, len as nat, 20u8),
            user_frames_present(m0, root, ptr as nat, len as nat, 20u8),
            byte_buffers@ == user_buffers(m0, root, ptr as nat, end),
            i <= byte_buffers@.len(),
            copied == if i == 0 {
                0
            } else if end < (lo + i) * 4096 {
                len as int
            } else {
                (lo + i) * 4096 - ptr
            },
            user_stored(m0, *mem, root, ptr as nat, data@, copied as nat),
        decreases byte_buffers@.len() - i,
    {
        let b = byte_buffers[i];
        let ghost vpn = (lo + i) as nat;
        assert(b == buffer_of(m0, root, ptr as nat, end, vpn));
        assert(pte_ppn(leaf_word(m0, root, vpn)) < m0.frame_count());
        let mut off = b.start;
        proof {
            if i > 0 {
                assert(ptr < vpn * 4096);
            }
        }
        while off < b.end
            invariant
                mem.wf(),
                data@.len() == len,
                end == ptr + len,
                b == buffer_of(m0, root, ptr as nat, end, vpn),
                b.ppn.0 < m0.frame_count(),
                b.end <= 4096,
                b.start <= off <= b.end,
                vpn * 4096 + b.end <= end,
                copied == vpn * 4096 + off - ptr,
                user_stored(m0, *mem, root, ptr as nat, data@, copied as nat),
            decreases b.end - off,
        {
            let ghost before = *mem;
            proof {
                lemma_page_split(vpn, off as nat);
            }
            mem.write_byte(b.ppn.0, off, data[copied]);
            proof {
                let n = copied as nat;
                assert(user_frame(m0, root, ptr as nat + n) == b.ppn.0);
                assert forall|p: usize, o: usize|
                    p < m0.frame_count() && o < 4096 implies #[trigger] mem.byte(p, o) == stored_byte(
                        m0,
                        root,
                        ptr as nat,
                        data@,
                        n + 1,
                        p,
                        o,
                    ) by {
                    assert(before.byte(p, o) == stored_byte(m0, root, ptr as nat, data@, n, p, o));
                }
                assert forall|p: usize, j: usize|
                    p < m0.frame_count() && j < 512 && frame_untouched(m0, root, ptr as nat, n + 1, p)
                    implies #[trigger] mem.word(p, j) == m0.word(p, j) by {
                    assert(user_frame(m0, root, ptr as nat + n) != p);
                    assert(frame_untouched(m0, root, ptr as nat, n, p));
                    assert(before.word(p, j) == m0.word(p, j));
                }
            }
            copied = copied + 1;
            off = off + 1;
        }
        i = i + 1;
    }
    true
}

/// Reads the byte at user address `ptr`, or `None` when its page is not
/// mapped readable and user-accessible.
pub fn read_user_byte(mem: &PhysMemory, token: u64, ptr: usize) -> (r: Option<u8>)
    requires
        mem.wf(),
        user_range_walkable(*mem, token_root(token), ptr as nat, 1, 18u8),
        user_frames_present(*mem, token_root(token), ptr as nat, 1, 18u8),
    ensures
        r is Some <==> user_range_ok(*mem, token_root(token), ptr as nat, 1, 18u8),
        r matches Some(b) ==> b == user_byte(*mem, token_root(token), ptr as nat),
{
    let mut byte: Vec<u8> = vec![0u8];
    if copy_from_user(mem, token, ptr, byte.as_mut_slice()) {
        Some(byte[0])
    } else {
        None
    }
}

/// Writes `data` at user address `ptr`; returns `false`, writing nothing,
/// when its page is not mapped writable and user-accessible.
pub fn write_user_byte(mem: &mut PhysMemory, token: u64, ptr: usize, data: u8) -> (r: bool)
    requires
        old(mem).wf(),
        user_range_walkable(*old(mem), token_root(token), ptr as nat, 1, 20u8),
        user_frames_present(*old(mem), token_root(token), ptr as nat, 1, 20u8),
    ensures
        r == user_range_ok(*old(mem), token_root(token), ptr as nat, 1, 20u8),
        r ==> user_stored(*old(mem), *final(mem), token_root(token), ptr as nat, seq![data], 1),
        !r ==> *final(mem) == *old(mem),
{
    let buf: Vec<u8> = vec![data];
    assert(buf@ =~= seq![data]);
    copy_to_user(mem, token, ptr, buf.as_slice())
}

/// Copies `data` into the user range `[ptr, ptr + data.len())`, which must be
/// mapped writable and user-accessible.
pub fn save_byte_to_user(mem: &mut PhysMemory, token: u64, ptr: usize, data: &[u8])
    requires
        old(mem).wf(),
        user_range_ok(*old(mem), token_root(token), ptr as nat, data@.len(), 20u8),
        user_range_walkable(*old(mem), token_root(token), ptr as nat, data@.len(), 20u8),
        user_frames_present(*old(mem), token_root(token), ptr as nat, data@.len(), 20u8),
    ensures
        user_stored(*old(mem), *final(mem), token_root(token), ptr as nat, data@, data@.len()),
{
    let copied = copy_to_user(mem, token, ptr, data);
    assert(copied);
}

proof fn lemma_stored_byte_at(mem: PhysMemory, root: usize, start: nat, data: Seq<u8>, n: nat, k: nat)
    requires
        k < n,
        forall|k1: nat, k2: nat|
            k1 < k2 < n ==> #[trigger] user_frame(mem, root, start + k1) != #[trigger] user_frame(
                mem,
                root,
                start + k2,
            ) || (start + k1) % 4096 != (start + k2) % 4096,
    ensures
        stored_byte(
            mem,
            root,
            start,
            data,
            n,
            user_frame(mem, root, start + k),
            ((start + k) % 4096) as usize,
        ) == data[k as int],
    decreases n,
{
    let p = user_frame(mem, root, start + k);
    let o = ((start + k) % 4096) as usize;
    if k == n - 1 {
    } else {
        let last = (n - 1) as nat;
        assert(user_frame(mem, root, start + k) != user_frame(mem, root, start + last) || (start + k)
            % 4096 != (start + last) % 4096);
        assert((start + n - 1) as nat == start + last);
        lemma_stored_byte_at(mem, root, start, data, last, k);
    }
}

/// What is stored behind a user range is what reads back from it: when the
/// bytes of the range land in distinct places, in frames of memory, and in
/// no frame of the page table itself (whose frames are frames of memory),
/// then after storing `data` there every lookup of the table is unchanged,
/// a well-formed tree stays well formed, and the bytes behind the range are
/// `data`.
pub proof fn lemma_read_back(m1: PhysMemory, m2: PhysMemory, root: usize, start: nat, data: Seq<u8>)
    requires
        user_stored(m1, m2, root, start, data, data.len()),
        forall|k: nat| k < data.len() ==> #[trigger] user_frame(m1, root, start + k) < m1.frame_count(),
        forall|k1: nat, k2: nat|
            k1 < k2 < data.len() ==> #[trigger] user_frame(m1, root, start + k1) != #[trigger] user_frame(
                m1,
                root,
                start + k2,
            ) || (start + k1) % 4096 != (start + k2) % 4096,
        root < m1.frame_count(),
        frame_untouched(m1, root, start, data.len(), root),
        forall|i0: usize|
            i0 < 512 && #[trigger] l1_table(m1, root, i0) is Some ==> {
                &&& l1_table(m1, root, i0)->0 < m1.frame_count()
                &&& frame_untouched(m1, root, start, data.len(), l1_table(m1, root, i0)->0)
            },
        forall|i0: usize, i1: usize|
            i0 < 512 && i1 < 512 && #[trigger] l2_table(m1, root, i0, i1) is Some ==> {
                &&& l2_table(m1, root, i0, i1)->0 < m1.frame_count()
                &&& frame_untouched(m1, root, start, data.len(), l2_table(m1, root, i0, i1)->0)
            },
    ensures
        table_wf(m1, root) ==> table_wf(m2, root),
        forall|v: usize| #[trigger] lookup(m2, root, v) == lookup(m1, root, v),
        forall|va: nat| #[trigger] user_frame(m2, root, va) == user_frame(m1, root, va),
        forall|req: u8, len: nat| #[trigger] user_range_ok(m2, root, start, len, req) == user_range_ok(
            m1,
            root,
            start,
            len,
            req,
        ),
        user_bytes(m2, root, start, data.len()) == data,
{
    assert forall|i: usize| i < 512 implies #[trigger] m2.word(root, i) == m1.word(root, i) by {}
    assert forall|i0: usize|
        i0 < 512 && #[trigger] l1_table(m1, root, i0) is Some implies m2.frame_same(m1, l1_table(m1, root, i0)->0) by {
        let t = l1_table(m1, root, i0)->0;
        assert forall|i: usize| i < 512 implies #[trigger] m2.word(t, i) == m1.word(t, i) by {}
    }
    assert forall|i0: usize, i1: usize|
        i0 < 512 && i1 < 512 && #[trigger] l2_table(m1, root, i0, i1) is Some implies m2.frame_same(
            m1,
            l2_table(m1, root, i0, i1)->0,
        ) by {
        let t = l2_table(m1, root, i0, i1)->0;
        assert forall|i: usize| i < 512 implies #[trigger] m2.word(t, i) == m1.word(t, i) by {}
    }
    lemma_tables_same(m1, m2, root);
    assert forall|va: nat| #[trigger] user_frame(m2, root, va) == user_frame(m1, root, va) by {
        let v = (va / 4096) as usize;
        assert(walk(m2, root, v) == walk(m1, root, v));
        if walk(m1, root, v) is Some {
            let t = walk(m1, root, v).unwrap().0;
            let i = walk(m1, root, v).unwrap().1;
            lemma_indices(v, v);
            assert(m2.frame_same(m1, t));
            assert(m2.word(t, i) == m1.word(t, i));
        }
    }
    assert forall|req: u8, len: nat| #[trigger] user_range_ok(m2, root, start, len, req) == user_range_ok(
        m1,
        root,
        start,
        len,
        req,
    ) by {
        assert forall|vpn: nat| #[trigger] user_page_ok(m2, root, vpn, req) == user_page_ok(m1, root, vpn, req) by {
            assert(lookup(m2, root, vpn as usize) == lookup(m1, root, vpn as usize));
        }
        let lo = first_vpn(start);
        let hi = end_vpn(start, start + len);
        if pages_ok(m1, root, lo, hi, req) {
            assert forall|vpn: nat| lo <= vpn < hi implies #[trigger] user_page_ok(m2, root, vpn, req) by {
                assert(user_page_ok(m1, root, vpn, req));
            }
        }
        if pages_ok(m2, root, lo, hi, req) {
            assert forall|vpn: nat| lo <= vpn < hi implies #[trigger] user_page_ok(m1, root, vpn, req) by {
                assert(user_page_ok(m2, root, vpn, req));
            }
        }
    }
    assert forall|k: int| 0 <= k < data.len() implies #[trigger] user_bytes(m2, root, start, data.len())[k]
        == data[k] by {
        let kk = k as nat;
        let p = user_frame(m1, root, start + kk);
        let o = ((start + kk) % 4096) as usize;
        assert((start + k) as nat == start + kk);
        lemma_stored_byte_at(m1, root, start, data, data.len(), kk);
        assert(m2.byte(p, o) == stored_byte(m1, root, start, data, data.len(), p, o));
    }
    assert(user_bytes(m2, root, start, data.len()) =~= data);
}

/// Whether checking the user range `[ptr, ptr + len)` against `required`
/// only walks frames of memory, and, when the range passes, the frames
/// behind it are frames of memory; a caller tests this before handing the
/// range to the copies.
pub fn user_range_in_memory(mem: &PhysMemory, token: u64, ptr: usize, len: usize, required: PTEFlags) -> (r: bool)
    requires
        mem.wf(),
    ensures
        r == (user_range_walkable(*mem, token_root(token), ptr as nat, len as nat, required.bits)
            && user_frames_present(*mem, token_root(token), ptr as nat, len as nat, required.bits)),
{
    let ghost root = token_root(token);
    let root_ppn = (token & 0xfff_ffff_ffff) as usize;
    let frames = mem.frames();
    if len == 0 {
        return true;
    }
    let end = match ptr.checked_add(len) {
        Some(e) => e,
        None => return true,
    };
    if ptr as u64 >= VA_LIMIT || end as u64 >= VA_LIMIT {
        return true;
    }
    let first = ptr / 4096;
    let last = (end - 1) / 4096 + 1;
    let ghost lo = first_vpn(ptr as nat);
    let ghost hi = end_vpn(ptr as nat, end as nat);
    proof {
        lemma_page_of(ptr as nat);
        lemma_page_of((end - 1) as nat);
    }
    if root_ppn >= frames {
        proof {
            assert(pages_ok(*mem, root, lo, lo, required.bits));
            assert(!walk_in_bounds(*mem, root, lo as usize));
        }
        return false;
    }
    let mut beyond = false;
    let ghost mut beyond_vpn: nat = 0;
    let mut vpn = first;
    while vpn < last
        invariant
            mem.wf(),
            root == token_root(token),
            root_ppn == root,
            root_ppn < mem.frame_count(),
            frames == mem.frame_count(),
            len > 0,
            end == ptr + len,
            range_in_space(ptr as nat, len as nat),
            lo == first,
            hi == last,
            lo == first_vpn(ptr as nat),
            hi == end_vpn(ptr as nat, end as nat),
            lo < hi,
            hi <= 0x800_0000,
            first <= vpn <= last,
            pages_ok(*mem, root, lo, vpn as nat, required.bits),
            forall|v: nat| lo <= v < vpn ==> #[trigger] walk_in_bounds(*mem, root, v as usize),
            !beyond ==> forall|v: nat|
                lo <= v < vpn ==> #[trigger] pte_ppn(leaf_word(*mem, root, v)) < mem.frame_count(),
            beyond ==> lo <= beyond_vpn < vpn && pte_ppn(leaf_word(*mem, root, beyond_vpn)) >= mem.frame_count(),
        decreases last - vpn,
    {
        proof {
            lemma_indices(vpn, vpn);
        }
        let indexes = VirtPageNum(vpn).indexes();
        let e0 = PageTableEntry { bits: mem.read_word(root_ppn, indexes[0]) };
        if !e0.is_valid() {
            proof {
                lemma_page_fails(*mem, root, ptr as nat, len as nat, required.bits, vpn as nat);
            }
            return true;
        }
        let t1 = e0.ppn().0;
        if t1 >= frames {
            proof {
                assert(!walk_in_bounds(*mem, root, vpn));
            }
            return false;
        }
        let e1 = PageTableEntry { bits: mem.read_word(t1, indexes[1]) };
        if !e1.is_valid() {
            proof {
                lemma_page_fails(*mem, root, ptr as nat, len as nat, required.bits, vpn as nat);
            }
            return true;
        }
        let t2 = e1.ppn().0;
        if t2 >= frames {
            proof {
                assert(!walk_in_bounds(*mem, root, vpn));
            }
            return false;
        }
        let leaf = PageTableEntry { bits: mem.read_word(t2, indexes[2]) };
        let ghost walked = walk(*mem, root, vpn);
        assert(walked == Some((t2, idx2(vpn))));
        if !leaf.is_valid() || !leaf.flags().contains(required) {
            proof {
                assert(!user_page_ok(*mem, root, vpn as nat, required.bits));
                lemma_page_fails(*mem, root, ptr as nat, len as nat, required.bits, vpn as nat);
            }
            return true;
        }
        proof {
            assert(walk_in_bounds(*mem, root, vpn));
            assert(user_page_ok(*mem, root, vpn as nat, required.bits));
            assert(leaf_word(*mem, root, vpn as nat) == leaf.bits);
        }
        if leaf.ppn().0 >= frames && !beyond {
            beyond = true;
            proof {
                beyond_vpn = vpn as nat;
            }
        }
        vpn = vpn + 1;
    }
    proof {
        assert(user_range_ok(*mem, root, ptr as nat, len as nat, required.bits));
        if beyond {
            assert(pte_ppn(leaf_word(*mem, root, beyond_vpn)) >= mem.frame_count());
        }
    }
    !beyond
}

/// When page `vpn` of a range in space fails the check after every earlier
/// page passed, every walk the check makes is one it has made already, and
/// the range does not pass.
proof fn lemma_page_fails(mem: PhysMemory, root: usize, start: nat, len: nat, required: u8, vpn: nat)
    requires
        len > 0,
        range_in_space(start, len),
        first_vpn(start) <= vpn < end_vpn(start, start + len),
        pages_ok(mem, root, first_vpn(start), vpn, required),
        forall|v: nat| first_vpn(start) <= v < vpn ==> #[trigger] walk_in_bounds(mem, root, v as usize),
        walk_in_bounds(mem, root, vpn as usize),
        !user_page_ok(mem, root, vpn, required),
    ensures
        user_range_walkable(mem, root, start, len, required),
        user_frames_present(mem, root, start, len, required),
{
    let lo = first_vpn(start);
    let hi = end_vpn(start, start + len);
    assert forall|v: nat|
        lo <= v < hi && pages_ok(mem, root, lo, v, required) implies #[trigger] walk_in_bounds(mem, root, v as usize) by {
        if v > vpn {
            assert(user_page_ok(mem, root, vpn, required));
        }
    }
    assert(!pages_ok(mem, root, lo, hi, required));
}

/// The number of bytes the buffers hold together.
pub open spec fn buffers_len(bufs: Seq<UserBuffer>) -> int
    decreases bufs.len(),
{
    if bufs.len() == 0 {
        0
    } else {
        buffers_len(bufs.drop_last()) + (bufs.last().end - bufs.last().start)
    }
}

proof fn lemma_buffers_prefix_len(mem: PhysMemory, root: usize, start: nat, end: nat, k: nat)
    requires
        start < end,
        0 < k <= end_vpn(start, end) - first_vpn(start),
    ensures
        buffers_len(user_buffers(mem, root, start, end).take(k as int)) == if end < (first_vpn(start) + k)
            * 4096 {
            end - start
        } else {
            (first_vpn(start) + k) * 4096 - start
        },
    decreases k,
{
    let bufs = user_buffers(mem, root, start, end);
    let lo = first_vpn(start);
    lemma_page_of(start);
    lemma_page_of((end - 1) as nat);
    let t = bufs.take(k as int);
    assert(t.drop_last() =~= bufs.take(k - 1));
    assert(t.last() == bufs[k - 1]);
    let vpn = (lo + k - 1) as nat;
    let b = buffer_of(mem, root, start, end, vpn);
    assert(bufs[k - 1] == b);
    assert(vpn * 4096 <= end - 1);
    let lo_off: int = if vpn * 4096 < start {
        start - vpn * 4096
    } else {
        0
    };
    let hi_off: int = if end < vpn * 4096 + 4096 {
        end - vpn * 4096
    } else {
        4096
    };
    assert(0 <= lo_off < 4096);
    assert(0 < hi_off <= 4096);
    assert(b.start == lo_off);
    assert(b.end == hi_off);
    assert(buffers_len(t) == buffers_len(bufs.take(k - 1)) + (hi_off - lo_off));
    if k > 1 {
        lemma_buffers_prefix_len(mem, root, start, end, (k - 1) as nat);
    } else {
        assert(bufs.take(0) =~= Seq::<UserBuffer>::empty());
    }
}

/// The byte ranges behind a user range hold exactly its bytes: their lengths
/// add up to the length of the range.
pub proof fn lemma_buffers_cover(mem: PhysMemory, root: usize, start: nat, end: nat)
    requires
        start <= end,
    ensures
        buffers_len(user_buffers(mem, root, start, end)) == end - start,
{
    let bufs = user_buffers(mem, root, start, end);
    if start < end {
        let n = (end_vpn(start, end) - first_vpn(start)) as nat;
        lemma_page_of(start);
        lemma_page_of((end - 1) as nat);
        lemma_buffers_prefix_len(mem, root, start, end, n);
        assert(bufs.take(n as int) =~= bufs);
    } else {
        assert(bufs =~= Seq::<UserBuffer>::empty());
    }
}

} // verus!
