//! A model of physical memory: a run of 4 KiB frames, each seen as 512
//! 64-bit words, with a frame allocator that hands out frames in order
//! and clears each one before handing it out.
use vstd::prelude::*;

use crate::mm::address::PhysPageNum;

verus! {

/// The byte `k` (0 = least significant) of a 64-bit word.
pub open spec fn byte_of(w: u64, k: nat) -> u8 {
    ((w >> (8 * k) as u64) & 0xffu64) as u8
}

/// `w` with its byte `k` replaced by `b`.
pub open spec fn with_byte(w: u64, k: nat, b: u8) -> u64 {
    (w & !(0xffu64 << (8 * k) as u64)) | ((b as u64) << (8 * k) as u64)
}

proof fn lemma_with_byte(w: u64, k: u64, j: u64, b: u8)
    requires
        k < 8,
        j < 8,
    ensures
        byte_of(with_byte(w, k as nat, b), j as nat) == if j == k { b } else { byte_of(w, j as nat) },
{
    let bb = b as u64;
    assert(((((w & !(0xffu64 << (8 * k))) | (bb << (8 * k))) >> (8 * k)) & 0xffu64) == bb)
        by (bit_vector)
        requires
            k < 8,
            bb < 256,
    ;
    assert(j != k ==> ((((w & !(0xffu64 << (8 * k))) | (bb << (8 * k))) >> (8 * j)) & 0xffu64)
        == ((w >> (8 * j)) & 0xffu64)) by (bit_vector)
        requires
            k < 8,
            j < 8,
            bb < 256,
    ;
}

proof fn lemma_word_index(frames: nat, p: nat, i: nat)
    requires
        p < frames,
        i < 512,
    ensures
        p * 512 + i < frames * 512,
{
    assert(p * 512 + i < frames * 512) by (nonlinear_arith)
        requires
            p < frames,
            i < 512,
    ;
}

proof fn lemma_word_index_inj(p: nat, i: nat, q: nat, j: nat)
    requires
        i < 512,
        j < 512,
        p * 512 + i == q * 512 + j,
    ensures
        p == q,
        i == j,
{
    assert(p == q) by (nonlinear_arith)
        requires
            i < 512,
            j < 512,
            p * 512 + i == q * 512 + j,
    ;
}

/// Owns one frame handed out by the allocator.
pub struct FrameTracker {
    pub ppn: PhysPageNum,
}

/// Physical memory: `frames` frames of 512 words each, frames numbered from 0.
/// Frames below `next_free` have been handed out by the allocator.
pub struct PhysMemory {
    words: Vec<u64>,
    frames: usize,
    next_free: usize,
}

impl PhysMemory {
    /// Number of frames of memory.
    pub closed spec fn frame_count(&self) -> nat {
        self.frames as nat
    }

    /// Number of frames handed out so far; they are the frames numbered below it.
    pub closed spec fn allocated(&self) -> nat {
        self.next_free as nat
    }

    /// The word `idx` of frame `ppn`.
    pub closed spec fn word(&self, ppn: usize, idx: usize) -> u64 {
        self.words@[ppn * 512 + idx]
    }

    /// The words fill the frames exactly, frame numbers fit an entry's 44
    /// bits, and the allocator has not run past the end of memory.
    pub closed spec fn wf(&self) -> bool {
        &&& self.words@.len() == self.frames * 512
        &&& self.frames * 512 <= usize::MAX
        &&& self.frames <= 0x1000_0000_0000
        &&& self.next_free <= self.frames
    }

    /// The byte at offset `off` of frame `ppn` (words are little-endian).
    pub open spec fn byte(&self, ppn: usize, off: usize) -> u8 {
        byte_of(self.word(ppn, off / 8), (off % 8) as nat)
    }

    /// Every word of frame `ppn` is the same in both memories.
    pub open spec fn frame_same(&self, other: PhysMemory, ppn: usize) -> bool {
        forall|i: usize| i < 512 ==> #[trigger] self.word(ppn, i) == other.word(ppn, i)
    }

    /// Every word of frame `ppn` is zero.
    pub open spec fn frame_zero(&self, ppn: usize) -> bool {
        forall|i: usize| i < 512 ==> #[trigger] self.word(ppn, i) == 0
    }

    /// The frames handed out are frames of memory, and frame numbers fit the
    /// 44 bits that an entry holds.
    pub proof fn lemma_allocated_bound(&self)
        requires
            self.wf(),
        ensures
            self.allocated() <= self.frame_count(),
            self.frame_count() <= 0x1000_0000_0000,
            self.frame_count() <= usize::MAX,
    {
    }

    /// Memory of `frames` zeroed frames, none of them handed out.
    pub fn new(frames: usize) -> (m: PhysMemory)
        requires
            frames * 512 <= usize::MAX,
            frames <= 0x1000_0000_0000,
        ensures
            m.wf(),
            m.frame_count() == frames,
            m.allocated() == 0,
            forall|p: usize, i: usize| p < frames && i < 512 ==> #[trigger] m.word(p, i) == 0,
    {
        let n: usize = frames * 512;
        let mut words: Vec<u64> = Vec::new();
        let mut k: usize = 0;
        while k < n
            invariant
                k <= n,
                words@.len() == k,
                forall|j: int| 0 <= j < k ==> words@[j] == 0,
            decreases n - k,
        {
            words.push(0);
            k = k + 1;
        }
        let m = PhysMemory { words, frames, next_free: 0 };
        assert forall|p: usize, i: usize| p < frames && i < 512 implies #[trigger] m.word(p, i) == 0 by {
            lemma_word_index(frames as nat, p as nat, i as nat);
        }
        m
    }

    /// Number of frames of memory.
    pub fn frames(&self) -> (r: usize)
        ensures
            r == self.frame_count(),
    {
        self.frames
    }

    /// Number of frames handed out so far.
    pub fn allocated_frames(&self) -> (r: usize)
        ensures
            r == self.allocated(),
    {
        self.next_free
    }

    /// Reads word `idx` of frame `ppn`.
    pub fn read_word(&self, ppn: usize, idx: usize) -> (r: u64)
        requires
            self.wf(),
            ppn < self.frame_count(),
            idx < 512,
        ensures
            r == self.word(ppn, idx),
    {
        proof {
            lemma_word_index(self.frames as nat, ppn as nat, idx as nat);
        }
        self.words[ppn * 512 + idx]
    }

    /// Writes `v` into word `idx` of frame `ppn`.
    pub fn write_word(&mut self, ppn: usize, idx: usize, v: u64)
        requires
            old(self).wf(),
            ppn < old(self).frame_count(),
            idx < 512,
        ensures
            final(self).wf(),
            final(self).frame_count() == old(self).frame_count(),
            final(self).allocated() == old(self).allocated(),
            forall|p: usize, i: usize|
                p < old(self).frame_count() && i < 512 ==> #[trigger] final(self).word(p, i) == if p
                    == ppn && i == idx {
                    v
                } else {
                    old(self).word(p, i)
                },
    {
        proof {
            lemma_word_index(self.frames as nat, ppn as nat, idx as nat);
        }
        let k = ppn * 512 + idx;
        self.words.set(k, v);
        proof {
            assert forall|p: usize, i: usize|
                p < old(self).frame_count() && i < 512 implies #[trigger] self.word(p, i) == if p
                    == ppn && i == idx {
                    v
                } else {
                    old(self).word(p, i)
                } by {
                lemma_word_index(self.frames as nat, p as nat, i as nat);
                if p * 512 + i == k {
                    lemma_word_index_inj(p as nat, i as nat, ppn as nat, idx as nat);
                }
            }
        }
    }

    /// Reads the byte at offset `off` of frame `ppn`.
    pub fn read_byte(&self, ppn: usize, off: usize) -> (r: u8)
        requires
            self.wf(),
            ppn < self.frame_count(),
            off < 4096,
        ensures
            r == self.byte(ppn, off),
    {
        let w = self.read_word(ppn, off / 8);
        let s: u64 = (8 * (off % 8)) as u64;
        ((w >> s) & 0xff) as u8
    }

    /// Writes `b` into the byte at offset `off` of frame `ppn`.
    pub fn write_byte(&mut self, ppn: usize, off: usize, b: u8)
        requires
            old(self).wf(),
            ppn < old(self).frame_count(),
            off < 4096,
        ensures
            final(self).wf(),
            final(self).frame_count() == old(self).frame_count(),
            final(self).allocated() == old(self).allocated(),
            forall|p: usize, i: usize|
                p < old(self).frame_count() && i < 512 && p != ppn ==> #[trigger] final(self).word(p, i)
                    == old(self).word(p, i),
            forall|p: usize, o: usize|
                p < old(self).frame_count() && o < 4096 ==> #[trigger] final(self).byte(p, o) == if p
                    == ppn && o == off {
                    b
                } else {
                    old(self).byte(p, o)
                },
    {
        let w = self.read_word(ppn, off / 8);
        let s: u64 = (8 * (off % 8)) as u64;
        let nw = (w & !(0xffu64 << s)) | ((b as u64) << s);
        assert(nw == with_byte(w, (off % 8) as nat, b));
        self.write_word(ppn, off / 8, nw);
        proof {
            assert forall|p: usize, o: usize|
                p < old(self).frame_count() && o < 4096 implies #[trigger] self.byte(p, o) == if p
                    == ppn && o == off {
                    b
                } else {
                    old(self).byte(p, o)
                } by {
                if p == ppn && o / 8 == off / 8 {
                    lemma_with_byte(w, (off % 8) as u64, (o % 8) as u64, b);
                    if o % 8 == off % 8 {
                        assert(o == off);
                    }
                }
            }
        }
    }

    /// Hands out the next free frame, cleared, or `None` when memory is exhausted.
    pub fn frame_alloc(&mut self) -> (r: Option<FrameTracker>)
        requires
            old(self).wf(),
        ensures
            final(self).wf(),
            final(self).frame_count() == old(self).frame_count(),
            match r {
                Some(f) => {
                    &&& old(self).allocated() < old(self).frame_count()
                    &&& f.ppn.0 == old(self).allocated()
                    &&& final(self).allocated() == old(self).allocated() + 1
                    &&& final(self).frame_zero(f.ppn.0)
                    &&& forall|p: usize|
                        p < old(self).frame_count() && p != f.ppn.0
                            ==> #[trigger] final(self).frame_same(*old(self), p)
                },
                None => {
                    &&& old(self).allocated() == old(self).frame_count()
                    &&& *final(self) == *old(self)
                },
            },
    {
        if self.next_free >= self.frames {
            return None;
        }
        let ppn = self.next_free;
        let mut i: usize = 0;
        while i < 512
            invariant
                self.wf(),
                self.frames == old(self).frames,
                self.next_free == old(self).next_free,
                ppn == old(self).next_free,
                ppn < self.frames,
                i <= 512,
                forall|j: usize| j < i ==> #[trigger] self.word(ppn, j) == 0,
                forall|p: usize, j: usize|
                    p < self.frames && j < 512 && p != ppn ==> #[trigger] self.word(p, j)
                        == old(self).word(p, j),
            decreases 512 - i,
        {
            self.write_word(ppn, i, 0);
            i = i + 1;
        }
        let ghost cleared = *self;
        self.next_free = self.next_free + 1;
        proof {
            assert forall|p: usize, j: usize| p < self.frames && j < 512 implies #[trigger] self.word(p, j)
                == cleared.word(p, j) by {}
            assert forall|p: usize| p < old(self).frame_count() && p != ppn implies #[trigger] self.frame_same(*old(self), p) by {
                assert forall|j: usize| j < 512 implies #[trigger] self.word(p, j) == old(self).word(p, j) by {
                    assert(cleared.word(p, j) == old(self).word(p, j));
                }
            }
            assert forall|j: usize| j < 512 implies #[trigger] self.word(ppn, j) == 0 by {
                assert(cleared.word(ppn, j) == 0);
            }
        }
        Some(FrameTracker { ppn: PhysPageNum(ppn) })
    }
}

} // verus!
