use rcore_os::mm::address::PhysPageNum;
use rcore_os::mm::page_table::{PTEFlags, PageTableEntry};

#[test]
fn pte_new_gives_back_ppn_and_flags() {
    let flags = PTEFlags::R().union(PTEFlags::W()).union(PTEFlags::V());
    let pte = PageTableEntry::new(PhysPageNum(0x12345), flags);
    assert_eq!(pte.bits, (0x12345u64 << 10) | 0b111);
    assert_eq!(pte.ppn(), PhysPageNum(0x12345));
    assert_eq!(pte.flags(), flags);
    assert!(pte.is_valid());
    assert!(pte.readable());
    assert!(pte.writable());
    assert!(!pte.executable());
}

#[test]
fn pte_without_v_is_invalid() {
    let pte = PageTableEntry::new(PhysPageNum(7), PTEFlags::X().union(PTEFlags::U()));
    assert!(!pte.is_valid());
    assert!(pte.executable());
    assert!(!pte.readable());
    assert_eq!(pte.flags().bits(), 8 | 16);
}

#[test]
fn pte_empty_has_nothing() {
    let pte = PageTableEntry::empty();
    assert_eq!(pte.bits, 0);
    assert!(!pte.is_valid());
    assert_eq!(pte.ppn(), PhysPageNum(0));
    assert!(pte.flags().is_empty());
}

#[test]
fn pte_ppn_takes_bits_10_to_54() {
    let pte = PageTableEntry { bits: 0xffff_ffff_ffff_ffff };
    assert_eq!(pte.ppn(), PhysPageNum(0xfff_ffff_ffff));
    assert_eq!(pte.flags(), PTEFlags::all());
    let big = PageTableEntry::new(PhysPageNum(0xfff_ffff_ffff), PTEFlags::V());
    assert_eq!(big.ppn(), PhysPageNum(0xfff_ffff_ffff));
    assert!(big.is_valid());
}

#[test]
fn flags_set_operations() {
    let rw = PTEFlags::R().union(PTEFlags::W());
    assert!(rw.contains(PTEFlags::R()));
    assert!(rw.contains(PTEFlags::W()));
    assert!(!rw.contains(PTEFlags::X()));
    assert!(!rw.contains(PTEFlags::R().union(PTEFlags::U())));
    assert!(rw.intersects(PTEFlags::W().union(PTEFlags::U())));
    assert!(!rw.intersects(PTEFlags::U()));
    assert_eq!(rw.intersection(PTEFlags::W().union(PTEFlags::X())), PTEFlags::W());
    assert_eq!(PTEFlags::empty().bits(), 0);
    assert_eq!(PTEFlags::all().bits(), 0xff);
    assert_eq!(
        PTEFlags::V().bits() | PTEFlags::R().bits() | PTEFlags::W().bits() | PTEFlags::X().bits()
            | PTEFlags::U().bits() | PTEFlags::G().bits() | PTEFlags::A().bits() | PTEFlags::D().bits(),
        0xff
    );
    assert!(PTEFlags::empty().is_empty());
    assert!(rw.contains(PTEFlags::empty()));
}

#[test]
fn flags_from_bits_never_fails() {
    for b in 0..=255u8 {
        assert_eq!(PTEFlags::from_bits(b), Some(PTEFlags::from_bits_truncate(b)));
        assert_eq!(PTEFlags::from_bits_truncate(b).bits(), b);
    }
}
