use std::collections::BTreeMap;

use rcore_os::mm::address::VirtPageNum;
use rcore_os::mm::memory::PhysMemory;
use rcore_os::mm::memory_set::ProgramBrk;
use rcore_os::mm::page_table::{PTEFlags, PageTable};
use rcore_os::mm::user_buffer::copy_from_user;
use rcore_os::syscall::process::{
    sys_exit, sys_get_time, sys_mmap, sys_munmap, sys_sbrk, sys_trace, sys_yield, TimeVal,
};
use rcore_os::task::manager::TaskManager;
use rcore_os::task::processor::Processor;
use rcore_os::task::task::TaskControlBlock;

fn space() -> (PhysMemory, PageTable) {
    let mut mem = PhysMemory::new(64);
    let mut pt = PageTable::new(&mut mem);
    let f = mem.frame_alloc().unwrap().ppn;
    pt.map(&mut mem, VirtPageNum(0x10), f, PTEFlags::R().union(PTEFlags::W()).union(PTEFlags::U()));
    let g = mem.frame_alloc().unwrap().ppn;
    pt.map(&mut mem, VirtPageNum(0x11), g, PTEFlags::R().union(PTEFlags::U()));
    (mem, pt)
}

#[test]
fn time_val_bytes_are_two_little_endian_words() {
    let t = TimeVal { sec: 0x0102, usec: 0x0a0b0c };
    assert_eq!(
        t.to_bytes(),
        vec![0x02, 0x01, 0, 0, 0, 0, 0, 0, 0x0c, 0x0b, 0x0a, 0, 0, 0, 0, 0]
    );
}

#[test]
fn get_time_fills_user_time_val() {
    let (mut mem, pt) = space();
    let token = pt.token();
    let ts = 0x10 * 4096 + 8;
    assert_eq!(sys_get_time(&mut mem, token, ts, 3_500_017), 0);
    let mut back = [0u8; 16];
    assert!(copy_from_user(&mem, token, ts, &mut back));
    assert_eq!(back, TimeVal { sec: 3, usec: 500_017 }.to_bytes()[..]);
}

#[test]
fn get_time_rejects_unwritable_buffer() {
    let (mut mem, pt) = space();
    let token = pt.token();
    assert_eq!(sys_get_time(&mut mem, token, 0x11 * 4096, 7), -1);
    // straddles into the read-only page
    assert_eq!(sys_get_time(&mut mem, token, 0x11 * 4096 - 8, 7), -1);
    let mut back = [1u8; 8];
    assert!(copy_from_user(&mem, token, 0x11 * 4096 - 8, &mut back));
    assert_eq!(back, [0u8; 8]);
}

#[test]
fn trace_reads_and_writes_user_bytes() {
    let (mut mem, pt) = space();
    let token = pt.token();
    let counter = BTreeMap::new();
    let addr = 0x10 * 4096 + 3;
    assert_eq!(sys_trace(&mut mem, token, &counter, 1, addr, 0x1ab), 0);
    assert_eq!(sys_trace(&mut mem, token, &counter, 0, addr, 0), 0xab);
    // read-only page: reads work, writes do not
    assert_eq!(sys_trace(&mut mem, token, &counter, 0, 0x11 * 4096, 0), 0);
    assert_eq!(sys_trace(&mut mem, token, &counter, 1, 0x11 * 4096, 5), -1);
    // unmapped page
    assert_eq!(sys_trace(&mut mem, token, &counter, 0, 0x12 * 4096, 0), -1);
    assert_eq!(sys_trace(&mut mem, token, &counter, 1, 0x12 * 4096, 5), -1);
}

#[test]
fn trace_counts_syscalls() {
    let (mut mem, pt) = space();
    let mut counter = BTreeMap::new();
    counter.insert(64usize, 3usize);
    counter.insert(169usize, 1usize);
    assert_eq!(sys_trace(&mut mem, pt.token(), &counter, 2, 64, 0), 3);
    assert_eq!(sys_trace(&mut mem, pt.token(), &counter, 2, 169, 0), 1);
    assert_eq!(sys_trace(&mut mem, pt.token(), &counter, 2, 93, 0), 0);
}

#[test]
fn trace_rejects_unknown_requests() {
    let (mut mem, pt) = space();
    let counter = BTreeMap::new();
    assert_eq!(sys_trace(&mut mem, pt.token(), &counter, 3, 0x10 * 4096, 0), -1);
    assert_eq!(sys_trace(&mut mem, pt.token(), &counter, usize::MAX, 0, 0), -1);
}

#[test]
fn mmap_maps_fresh_user_pages() {
    let (mut mem, mut pt) = space();
    let start = 0x4000_0000;
    assert_eq!(sys_mmap(&mut pt, &mut mem, start, 4096 + 1, 0b011), 0);
    for vpn in [start / 4096, start / 4096 + 1] {
        let pte = pt.translate(&mem, VirtPageNum(vpn)).unwrap();
        assert!(pte.is_valid());
        assert!(pte.readable());
        assert!(pte.writable());
        assert!(!pte.executable());
        assert!(pte.flags().contains(PTEFlags::U()));
    }
    let next = pt.translate(&mem, VirtPageNum(start / 4096 + 2));
    assert!(next.map_or(true, |p| !p.is_valid()));
    let a = pt.translate(&mem, VirtPageNum(start / 4096)).unwrap().ppn();
    let b = pt.translate(&mem, VirtPageNum(start / 4096 + 1)).unwrap().ppn();
    assert_ne!(a, b);
}

#[test]
fn mmap_rejects_bad_requests() {
    let (mut mem, mut pt) = space();
    let before = mem.allocated_frames();
    assert_eq!(sys_mmap(&mut pt, &mut mem, 0x4000_0001, 4096, 1), -1);
    assert_eq!(sys_mmap(&mut pt, &mut mem, 0x4000_0000, 0, 1), -1);
    assert_eq!(sys_mmap(&mut pt, &mut mem, 0x4000_0000, 4096, 0), -1);
    assert_eq!(sys_mmap(&mut pt, &mut mem, 0x4000_0000, 4096, 8), -1);
    assert_eq!(sys_mmap(&mut pt, &mut mem, 0x4000_0000, 4096, 0x17), -1);
    // overlaps page 0x10
    assert_eq!(sys_mmap(&mut pt, &mut mem, 0xf000, 0x2000, 1), -1);
    // leaves the SV39 address space
    assert_eq!(sys_mmap(&mut pt, &mut mem, (1 << 39) - 4096, 8192, 1), -1);
    assert_eq!(mem.allocated_frames(), before);
}

#[test]
fn mmap_twice_fails_and_munmap_undoes_it() {
    let (mut mem, mut pt) = space();
    let start = 0x20_0000;
    assert_eq!(sys_mmap(&mut pt, &mut mem, start, 3 * 4096, 0b100), 0);
    assert_eq!(sys_mmap(&mut pt, &mut mem, start + 4096, 4096, 0b001), -1);
    assert!(pt.translate(&mem, VirtPageNum(start / 4096 + 2)).unwrap().executable());
    assert_eq!(sys_munmap(&mut pt, &mut mem, start, 3 * 4096), 0);
    for k in 0..3 {
        assert!(!pt.translate(&mem, VirtPageNum(start / 4096 + k)).unwrap().is_valid());
    }
    // page 0x10 stays mapped
    assert!(pt.translate(&mem, VirtPageNum(0x10)).unwrap().is_valid());
    assert_eq!(sys_mmap(&mut pt, &mut mem, start, 3 * 4096, 0b001), 0);
}

#[test]
fn munmap_needs_every_page_mapped() {
    let (mut mem, mut pt) = space();
    assert_eq!(sys_munmap(&mut pt, &mut mem, 0x10 * 4096, 3 * 4096), -1);
    assert!(pt.translate(&mem, VirtPageNum(0x10)).unwrap().is_valid());
    assert_eq!(sys_munmap(&mut pt, &mut mem, 0x10 * 4096 + 1, 4096), -1);
    assert_eq!(sys_munmap(&mut pt, &mut mem, 0x10 * 4096, 2 * 4096), 0);
    assert!(!pt.translate(&mem, VirtPageNum(0x11)).unwrap().is_valid());
}

#[test]
fn sbrk_grows_and_shrinks_the_heap() {
    let (mut mem, mut pt) = space();
    let bottom = 0x100 * 4096;
    let mut heap = ProgramBrk { heap_bottom: bottom, program_brk: bottom };
    assert_eq!(sys_sbrk(&mut pt, &mut mem, &mut heap, 5000), bottom as isize);
    assert_eq!(heap.program_brk, bottom + 5000);
    for k in 0..2 {
        let pte = pt.translate(&mem, VirtPageNum(0x100 + k)).unwrap();
        assert!(pte.is_valid() && pte.readable() && pte.writable());
    }
    assert_eq!(sys_sbrk(&mut pt, &mut mem, &mut heap, -1000), (bottom + 5000) as isize);
    assert_eq!(heap.program_brk, bottom + 4000);
    assert!(!pt.translate(&mem, VirtPageNum(0x101)).unwrap().is_valid());
    assert!(pt.translate(&mem, VirtPageNum(0x100)).unwrap().is_valid());
    assert_eq!(sys_sbrk(&mut pt, &mut mem, &mut heap, -5000), -1);
    assert_eq!(heap.program_brk, bottom + 4000);
    assert_eq!(sys_sbrk(&mut pt, &mut mem, &mut heap, 0), (bottom + 4000) as isize);
}

#[test]
fn yield_and_exit_switch_tasks() {
    let mut m = TaskManager::new();
    let mut p = Processor::new();
    m.add(TaskControlBlock::with_priority(1, 16, 0));
    m.add(TaskControlBlock::with_priority(2, 16, 10));
    assert_eq!(sys_yield(&mut p, &mut m), 0);
    assert_eq!(p.current_pid(), Some(1));
    assert_eq!(sys_yield(&mut p, &mut m), 0);
    assert_eq!(p.current_pid(), Some(2));
    sys_exit(&mut p, &mut m, 0);
    assert_eq!(p.current_pid(), Some(1));
    sys_exit(&mut p, &mut m, 3);
    assert_eq!(p.current_pid(), None);
}

#[test]
fn sbrk_grow_then_shrink_back_unmaps_what_it_mapped() {
    let (mut mem, mut pt) = space();
    let bottom = 0x200 * 4096 + 100;
    let mut heap = ProgramBrk { heap_bottom: bottom, program_brk: bottom };
    assert_eq!(sys_sbrk(&mut pt, &mut mem, &mut heap, 3 * 4096), bottom as isize);
    // pages 0x201, 0x202 and 0x203 hold the new bytes; page 0x200 belongs to the heap's first
    // page, which the heap does not map itself
    for k in 1..4 {
        assert!(pt.translate(&mem, VirtPageNum(0x200 + k)).unwrap().is_valid());
    }
    assert!(!pt.translate(&mem, VirtPageNum(0x200)).unwrap().is_valid());
    assert_eq!(sys_sbrk(&mut pt, &mut mem, &mut heap, -3 * 4096), (bottom + 3 * 4096) as isize);
    assert_eq!(heap.program_brk, bottom);
    for k in 0..5 {
        assert!(!pt.translate(&mem, VirtPageNum(0x200 + k)).unwrap().is_valid());
    }
}

#[test]
fn mmap_takes_one_frame_per_page_and_the_missing_tables() {
    let (mut mem, mut pt) = space();
    assert_eq!(mem.allocated_frames(), 5);
    // three pages under a new root slot: three frames and two tables
    assert_eq!(sys_mmap(&mut pt, &mut mem, 0x4000_0000, 3 * 4096, 0b001), 0);
    assert_eq!(mem.allocated_frames(), 10);
    // one more page in the same leaf table: one frame
    assert_eq!(sys_mmap(&mut pt, &mut mem, 0x4000_3000, 4096, 0b001), 0);
    assert_eq!(mem.allocated_frames(), 11);
    // a page under the same root slot and a new level-1 slot: a frame and a table
    assert_eq!(sys_mmap(&mut pt, &mut mem, 0x4020_0000, 4096, 0b001), 0);
    assert_eq!(mem.allocated_frames(), 13);
    // a page next to the ones mapped at the start: one frame
    assert_eq!(sys_mmap(&mut pt, &mut mem, 0x12 * 4096, 4096, 0b010), 0);
    assert_eq!(mem.allocated_frames(), 14);
    // a refused request takes nothing
    assert_eq!(sys_mmap(&mut pt, &mut mem, 0x12 * 4096, 4096, 0b010), -1);
    assert_eq!(mem.allocated_frames(), 14);
}

#[test]
fn sbrk_takes_frames_only_to_grow() {
    let (mut mem, mut pt) = space();
    let bottom = 0x20 * 4096;
    let mut heap = ProgramBrk { heap_bottom: bottom, program_brk: bottom };
    // two pages in the leaf table already there
    assert_eq!(sys_sbrk(&mut pt, &mut mem, &mut heap, 2 * 4096), bottom as isize);
    assert_eq!(mem.allocated_frames(), 7);
    assert_eq!(sys_sbrk(&mut pt, &mut mem, &mut heap, 0), (bottom + 2 * 4096) as isize);
    assert_eq!(mem.allocated_frames(), 7);
    assert_eq!(sys_sbrk(&mut pt, &mut mem, &mut heap, -4096), (bottom + 2 * 4096) as isize);
    assert_eq!(mem.allocated_frames(), 7);
}
