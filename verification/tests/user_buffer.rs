use rcore_os::mm::address::{PhysPageNum, VirtPageNum};
use rcore_os::mm::memory::PhysMemory;
use rcore_os::mm::page_table::{PTEFlags, PageTable};
use rcore_os::mm::user_buffer::{
    checked_user_byte_buffers, copy_from_user, copy_to_user, read_user_byte, save_byte_to_user,
    translated_byte_buffer, user_range_in_memory, write_user_byte, UserBuffer,
};

/// A user address space with pages 0x10 and 0x11 readable, writable and
/// user-accessible, page 0x12 readable by the kernel only, and page 0x13
/// user-readable but not writable.
fn setup() -> (PhysMemory, PageTable, usize, usize, usize, usize) {
    let mut mem = PhysMemory::new(32);
    let mut pt = PageTable::new(&mut mem);
    let rwu = PTEFlags::R().union(PTEFlags::W()).union(PTEFlags::U());
    let f10 = mem.frame_alloc().unwrap().ppn;
    let f11 = mem.frame_alloc().unwrap().ppn;
    let f12 = mem.frame_alloc().unwrap().ppn;
    let f13 = mem.frame_alloc().unwrap().ppn;
    pt.map(&mut mem, VirtPageNum(0x10), f10, rwu);
    pt.map(&mut mem, VirtPageNum(0x11), f11, rwu);
    pt.map(&mut mem, VirtPageNum(0x12), f12, PTEFlags::R());
    pt.map(&mut mem, VirtPageNum(0x13), f13, PTEFlags::R().union(PTEFlags::U()));
    (mem, pt, f10.0, f11.0, f12.0, f13.0)
}

#[test]
fn copy_to_user_then_from_user_reads_back() {
    let (mut mem, pt, f10, f11, _, _) = setup();
    let token = pt.token();
    let data: Vec<u8> = (0..100u8).collect();
    let ptr = 0x10 * 4096 + 4096 - 40;
    assert!(copy_to_user(&mut mem, token, ptr, &data));
    // the bytes landed at the ends of the two frames
    assert_eq!(mem.read_byte(f10, 4096 - 40), 0);
    assert_eq!(mem.read_byte(f10, 4095), 39);
    assert_eq!(mem.read_byte(f11, 0), 40);
    assert_eq!(mem.read_byte(f11, 59), 99);
    assert_eq!(mem.read_byte(f11, 60), 0);
    let mut back = vec![0xaau8; 100];
    assert!(copy_from_user(&mem, token, ptr, &mut back));
    assert_eq!(back, data);
}

#[test]
fn copy_from_user_needs_read_and_user_flags() {
    let (mem, pt, _, _, _, _) = setup();
    let token = pt.token();
    let mut dst = vec![7u8; 8];
    // page 0x12 lacks U
    assert!(!copy_from_user(&mem, token, 0x12 * 4096, &mut dst));
    assert_eq!(dst, vec![7u8; 8]);
    // page 0x14 is not mapped
    assert!(!copy_from_user(&mem, token, 0x14 * 4096 - 4, &mut dst));
    assert_eq!(dst, vec![7u8; 8]);
    // page 0x13 is user-readable
    assert!(copy_from_user(&mem, token, 0x13 * 4096, &mut dst));
    assert_eq!(dst, vec![0u8; 8]);
}

#[test]
fn copy_to_user_needs_write_and_user_flags() {
    let (mut mem, pt, _, _, _, f13) = setup();
    let token = pt.token();
    assert!(!copy_to_user(&mut mem, token, 0x13 * 4096, &[1, 2, 3]));
    assert_eq!(mem.read_byte(f13, 0), 0);
    // a range that runs from a writable page into a read-only one writes nothing
    assert!(!copy_to_user(&mut mem, token, 0x12 * 4096 - 2, &[1, 2, 3, 4]));
    let mut dst = [9u8; 2];
    assert!(copy_from_user(&mem, token, 0x12 * 4096 - 2, &mut dst));
    assert_eq!(dst, [0, 0]);
}

#[test]
fn empty_copies_always_succeed() {
    let (mut mem, pt, _, _, _, _) = setup();
    let token = pt.token();
    let mut dst: [u8; 0] = [];
    assert!(copy_from_user(&mem, token, 0x9999_0000, &mut dst));
    assert!(copy_to_user(&mut mem, token, usize::MAX, &[]));
}

#[test]
fn checked_buffers_split_at_pages() {
    let (mem, pt, f10, f11, _, _) = setup();
    let token = pt.token();
    let rw_user = PTEFlags::W().union(PTEFlags::U());
    let bufs = checked_user_byte_buffers(&mem, token, 0x10 * 4096 + 100, 4096, rw_user).unwrap();
    assert_eq!(
        bufs,
        vec![
            UserBuffer { ppn: PhysPageNum(f10), start: 100, end: 4096 },
            UserBuffer { ppn: PhysPageNum(f11), start: 0, end: 100 },
        ]
    );
    let whole = checked_user_byte_buffers(&mem, token, 0x10 * 4096, 2 * 4096, rw_user).unwrap();
    assert_eq!(
        whole,
        vec![
            UserBuffer { ppn: PhysPageNum(f10), start: 0, end: 4096 },
            UserBuffer { ppn: PhysPageNum(f11), start: 0, end: 4096 },
        ]
    );
    assert_eq!(checked_user_byte_buffers(&mem, token, 12345, 0, rw_user), Some(vec![]));
}

#[test]
fn checked_buffers_reject_bad_ranges() {
    let (mem, pt, _, _, _, _) = setup();
    let token = pt.token();
    let r = PTEFlags::R();
    // wraps around
    assert_eq!(checked_user_byte_buffers(&mem, token, usize::MAX - 3, 8, r), None);
    // leaves the SV39 address space
    assert_eq!(checked_user_byte_buffers(&mem, token, 1 << 39, 1, r), None);
    assert_eq!(checked_user_byte_buffers(&mem, token, (1 << 39) - 1, 1, r), None);
    // not mapped
    assert_eq!(checked_user_byte_buffers(&mem, token, 0x20 * 4096, 1, r), None);
    // missing flag
    assert_eq!(checked_user_byte_buffers(&mem, token, 0x13 * 4096, 1, PTEFlags::W()), None);
    assert!(checked_user_byte_buffers(&mem, token, 0x13 * 4096, 1, PTEFlags::R()).is_some());
}

#[test]
fn translated_buffers_ignore_flags() {
    let (mem, pt, _, f11, f12, _) = setup();
    let bufs = translated_byte_buffer(&mem, pt.token(), 0x11 * 4096 + 4000, 200);
    assert_eq!(
        bufs,
        vec![
            UserBuffer { ppn: PhysPageNum(f11), start: 4000, end: 4096 },
            UserBuffer { ppn: PhysPageNum(f12), start: 0, end: 104 },
        ]
    );
    assert_eq!(translated_byte_buffer(&mem, pt.token(), 0x11 * 4096, 0), vec![]);
}

#[test]
fn single_bytes_through_user_memory() {
    let (mut mem, pt, f10, _, _, _) = setup();
    let token = pt.token();
    assert!(write_user_byte(&mut mem, token, 0x10 * 4096 + 5, 0x5a));
    assert_eq!(mem.read_byte(f10, 5), 0x5a);
    assert_eq!(read_user_byte(&mem, token, 0x10 * 4096 + 5), Some(0x5a));
    assert_eq!(read_user_byte(&mem, token, 0x12 * 4096), None);
    assert!(!write_user_byte(&mut mem, token, 0x13 * 4096, 1));
    assert_eq!(read_user_byte(&mem, token, 0x13 * 4096), Some(0));
    assert_eq!(read_user_byte(&mem, token, 0x30 * 4096), None);
}

#[test]
fn save_bytes_to_user() {
    let (mut mem, pt, _, f11, _, _) = setup();
    save_byte_to_user(&mut mem, pt.token(), 0x11 * 4096 + 10, &[3, 1, 4, 1, 5]);
    assert_eq!(mem.read_byte(f11, 10), 3);
    assert_eq!(mem.read_byte(f11, 14), 5);
}

#[test]
fn user_writes_leave_the_tables_alone() {
    let (mut mem, pt, _, _, _, _) = setup();
    let token = pt.token();
    let data = vec![0xffu8; 2 * 4096];
    assert!(copy_to_user(&mut mem, token, 0x10 * 4096, &data));
    let pte = pt.translate(&mem, VirtPageNum(0x12)).unwrap();
    assert!(pte.is_valid());
    assert!(pte.readable());
    assert!(!pte.writable());
}

#[test]
fn range_check_finds_walks_outside_memory() {
    let (mut mem, pt, _, _, _, _) = setup();
    let token = pt.token();
    let ru = PTEFlags::R().union(PTEFlags::U());
    assert!(user_range_in_memory(&mem, token, 0x10 * 4096, 3 * 4096, ru));
    assert!(user_range_in_memory(&mem, token, 0x12 * 4096, 8, ru));
    // a root beyond memory
    assert!(!user_range_in_memory(&mem, (8u64 << 60) | 1000, 0x10 * 4096, 8, ru));
    // a root slot that names a frame beyond memory
    mem.write_word(0, 1, (999u64 << 10) | 1);
    assert!(!user_range_in_memory(&mem, token, 0x4_0000 * 4096, 8, ru));
    // nothing is walked for an empty or ill-formed range
    assert!(user_range_in_memory(&mem, (8u64 << 60) | 1000, 0, 0, ru));
    assert!(user_range_in_memory(&mem, (8u64 << 60) | 1000, usize::MAX, 2, ru));
}

#[test]
fn range_check_on_frames_behind_the_range() {
    let (mut mem, mut pt, _, _, _, _) = setup();
    let token = pt.token();
    let ru = PTEFlags::R().union(PTEFlags::U());
    // page 0x14 maps a frame beyond memory
    pt.map(&mut mem, VirtPageNum(0x14), PhysPageNum(999), ru);
    assert!(!user_range_in_memory(&mem, token, 0x14 * 4096, 8, ru));
    // the range does not pass when it runs on into the unmapped page 0x15,
    // so nothing behind it is ever copied
    assert!(user_range_in_memory(&mem, token, 0x14 * 4096, 2 * 4096, ru));
    // and it does not pass the stricter check on page 0x14 itself
    assert!(user_range_in_memory(&mem, token, 0x14 * 4096, 8, PTEFlags::W()));
}
