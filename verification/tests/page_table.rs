use rcore_os::mm::address::{PhysPageNum, VirtPageNum};
use rcore_os::mm::memory::PhysMemory;
use rcore_os::mm::page_table::{PTEFlags, PageTable, PageTableEntry};

#[test]
fn new_table_takes_one_cleared_frame() {
    let mut mem = PhysMemory::new(16);
    let pt = PageTable::new(&mut mem);
    assert_eq!(mem.allocated_frames(), 1);
    assert_eq!(pt.token(), 8u64 << 60);
    for i in 0..512 {
        assert_eq!(mem.read_word(0, i), 0);
    }
    assert_eq!(pt.translate(&mem, VirtPageNum(0)), None);
    assert_eq!(pt.translate(&mem, VirtPageNum(0x7ff_ffff)), None);
}

#[test]
fn map_then_translate_gives_entry() {
    let mut mem = PhysMemory::new(16);
    let mut pt = PageTable::new(&mut mem);
    let flags = PTEFlags::R().union(PTEFlags::U());
    pt.map(&mut mem, VirtPageNum(0x12345), PhysPageNum(9), flags);
    // the root, one level-1 table and one level-2 table
    assert_eq!(mem.allocated_frames(), 3);
    let pte = pt.translate(&mem, VirtPageNum(0x12345)).unwrap();
    assert_eq!(pte, PageTableEntry::new(PhysPageNum(9), flags.union(PTEFlags::V())));
    assert!(pte.is_valid());
    assert!(pte.readable());
    assert!(!pte.writable());
    // a neighbour in the same leaf table is reached but not mapped
    let other = pt.translate(&mem, VirtPageNum(0x12346)).unwrap();
    assert!(!other.is_valid());
    // a page under another root slot is not reached at all
    assert_eq!(pt.translate(&mem, VirtPageNum(0x1_0000)), None);
}

#[test]
fn map_builds_only_missing_tables() {
    let mut mem = PhysMemory::new(16);
    let mut pt = PageTable::new(&mut mem);
    pt.map(&mut mem, VirtPageNum(0x100), PhysPageNum(1), PTEFlags::R());
    assert_eq!(mem.allocated_frames(), 3);
    // same level-2 table
    pt.map(&mut mem, VirtPageNum(0x101), PhysPageNum(2), PTEFlags::R());
    assert_eq!(mem.allocated_frames(), 3);
    // same level-1 table, another level-2 table
    pt.map(&mut mem, VirtPageNum(0x300), PhysPageNum(3), PTEFlags::R());
    assert_eq!(mem.allocated_frames(), 4);
    // another root slot
    pt.map(&mut mem, VirtPageNum(0x4_0000), PhysPageNum(4), PTEFlags::R());
    assert_eq!(mem.allocated_frames(), 6);
    assert_eq!(pt.translate(&mem, VirtPageNum(0x100)).unwrap().ppn(), PhysPageNum(1));
    assert_eq!(pt.translate(&mem, VirtPageNum(0x101)).unwrap().ppn(), PhysPageNum(2));
    assert_eq!(pt.translate(&mem, VirtPageNum(0x300)).unwrap().ppn(), PhysPageNum(3));
    assert_eq!(pt.translate(&mem, VirtPageNum(0x4_0000)).unwrap().ppn(), PhysPageNum(4));
}

#[test]
fn unmap_clears_only_that_page() {
    let mut mem = PhysMemory::new(16);
    let mut pt = PageTable::new(&mut mem);
    pt.map(&mut mem, VirtPageNum(0x100), PhysPageNum(1), PTEFlags::R());
    pt.map(&mut mem, VirtPageNum(0x101), PhysPageNum(2), PTEFlags::W());
    pt.unmap(&mut mem, VirtPageNum(0x100));
    let cleared = pt.translate(&mem, VirtPageNum(0x100)).unwrap();
    assert_eq!(cleared, PageTableEntry::empty());
    assert!(!cleared.is_valid());
    let kept = pt.translate(&mem, VirtPageNum(0x101)).unwrap();
    assert!(kept.is_valid());
    assert_eq!(kept.ppn(), PhysPageNum(2));
    assert_eq!(mem.allocated_frames(), 3);
}

#[test]
fn map_after_unmap_maps_again() {
    let mut mem = PhysMemory::new(16);
    let mut pt = PageTable::new(&mut mem);
    pt.map(&mut mem, VirtPageNum(0x55), PhysPageNum(1), PTEFlags::R());
    pt.unmap(&mut mem, VirtPageNum(0x55));
    pt.map(&mut mem, VirtPageNum(0x55), PhysPageNum(5), PTEFlags::X());
    let pte = pt.translate(&mem, VirtPageNum(0x55)).unwrap();
    assert_eq!(pte.ppn(), PhysPageNum(5));
    assert!(pte.executable());
    assert_eq!(mem.allocated_frames(), 3);
}

#[test]
fn page_numbers_alias_above_27_bits() {
    let mut mem = PhysMemory::new(16);
    let mut pt = PageTable::new(&mut mem);
    pt.map(&mut mem, VirtPageNum(0x123), PhysPageNum(7), PTEFlags::R());
    let high = pt.translate(&mem, VirtPageNum(0x123 + (1 << 27))).unwrap();
    assert_eq!(high.ppn(), PhysPageNum(7));
}

#[test]
fn token_names_the_root_again() {
    let mut mem = PhysMemory::new(16);
    let _first = PageTable::new(&mut mem);
    let second = PageTable::new(&mut mem);
    let token = second.token();
    assert_eq!(token, (8u64 << 60) | 1);
    let again = PageTable::from_token(token);
    assert_eq!(again.token(), token);
    assert_eq!(PageTable::from_token(0xffff_f000_0000_0003).token(), (8u64 << 60) | 3);
}

#[test]
fn tables_read_through_from_token() {
    let mut mem = PhysMemory::new(16);
    let mut pt = PageTable::new(&mut mem);
    pt.map(&mut mem, VirtPageNum(0x42), PhysPageNum(11), PTEFlags::W());
    let view = PageTable::from_token(pt.token());
    assert_eq!(view.translate(&mem, VirtPageNum(0x42)).unwrap().ppn(), PhysPageNum(11));
}

#[test]
fn vpn_indexes_split_27_bits() {
    let vpn = VirtPageNum((3 << 18) | (5 << 9) | 7);
    assert_eq!(vpn.indexes(), [3, 5, 7]);
    assert_eq!(VirtPageNum(0x7ff_ffff).indexes(), [511, 511, 511]);
}

#[test]
fn map_installs_tables_that_carry_only_valid() {
    let mut mem = PhysMemory::new(16);
    let mut pt = PageTable::new(&mut mem);
    let flags = PTEFlags::R().union(PTEFlags::W()).union(PTEFlags::U());
    pt.map(&mut mem, VirtPageNum(0x12345), PhysPageNum(9), flags);
    // root slot 0 names the level-1 table in frame 1, with V alone
    assert_eq!(mem.read_word(0, 0), (1u64 << 10) | 1);
    // level-1 slot 0x91 names the level-2 table in frame 2, with V alone
    assert_eq!(mem.read_word(1, 0x91), (2u64 << 10) | 1);
    // the leaf slot holds the mapping
    assert_eq!(mem.read_word(2, 0x145), (9u64 << 10) | 0x17);
    // every other word of the three frames is clear
    for i in 0..512 {
        if i != 0 {
            assert_eq!(mem.read_word(0, i), 0);
        }
        if i != 0x91 {
            assert_eq!(mem.read_word(1, i), 0);
        }
        if i != 0x145 {
            assert_eq!(mem.read_word(2, i), 0);
        }
    }
}

#[test]
fn unmap_then_map_again_reuses_the_tables() {
    let mut mem = PhysMemory::new(16);
    let mut pt = PageTable::new(&mut mem);
    pt.map(&mut mem, VirtPageNum(0x12345), PhysPageNum(9), PTEFlags::R());
    pt.unmap(&mut mem, VirtPageNum(0x12345));
    assert_eq!(mem.read_word(2, 0x145), 0);
    assert_eq!(pt.translate(&mem, VirtPageNum(0x12345)), Some(PageTableEntry::empty()));
    pt.map(&mut mem, VirtPageNum(0x12345), PhysPageNum(10), PTEFlags::W());
    assert_eq!(mem.allocated_frames(), 3);
    assert_eq!(mem.read_word(0, 0), (1u64 << 10) | 1);
    assert_eq!(mem.read_word(1, 0x91), (2u64 << 10) | 1);
    assert_eq!(mem.read_word(2, 0x145), (10u64 << 10) | 0x5);
}
