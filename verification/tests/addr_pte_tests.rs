use kernel_mm::addr::{kva2pa, pa2kva, PhysAddr, PhysPageNum, VirtAddr, VirtPageNum};
use kernel_mm::pte::{
    PageTableEntry, PTE_A, PTE_COW, PTE_D, PTE_G, PTE_R, PTE_U, PTE_V, PTE_W, PTE_X,
};

#[test]
fn address_rounding() {
    let a = PhysAddr(0x8020_0123);
    assert_eq!(a.floor().0, 0x8020_0000);
    assert_eq!(a.ceil().0, 0x8020_1000);
    assert_eq!(a.offset(), 0x123);
    assert_eq!(a.floor_page().0, 0x8020_0);
    assert_eq!(a.ceil_page().0, 0x8020_1);
    let b = PhysAddr(0x8020_0000);
    assert_eq!(b.ceil().0, 0x8020_0000);
    assert_eq!(b.ceil_page().0, 0x8020_0);
}

#[test]
fn address_masking() {
    // Construction masks to the 56-bit physical width.
    let a = PhysAddr::new(0xFFFF_FFFF_FFFF_FFFF);
    assert_eq!(a.0, 0x00FF_FFFF_FFFF_FFFF);
    let v = VirtAddr::new(0xFFFF_FFFF_8000_0000);
    assert_eq!(v.0, 0xFFFF_FFFF_8000_0000);
}

#[test]
fn page_number_conversions() {
    let p = PhysPageNum(0x80200);
    assert_eq!(p.address().0, 0x8020_0000);
    let v = VirtPageNum(0x400);
    assert_eq!(v.address().0, 0x40_0000);
}

#[test]
fn kernel_window_translation() {
    let pa = PhysAddr(0x8020_0000);
    let kva = pa2kva(pa);
    assert_eq!(kva.0, 0xFFFF_FFFF_8000_0000 + 0x20_0000);
    assert_eq!(kva2pa(kva).0, pa.0);
}

#[test]
fn page_table_indices() {
    // 12 + 27, 12 + 18, 12 + 9 and 12-bit shifts, masked to 9 bits.
    let va = VirtAddr((1u64 << 39) + (3u64 << 30) + (5u64 << 21) + (7u64 << 12) + 9);
    assert_eq!(va.p4_index(), 1);
    assert_eq!(va.p3_index(), 3);
    assert_eq!(va.p2_index(), 5);
    assert_eq!(va.p1_index(), 7);
    assert_eq!(va.offset(), 9);
}

#[test]
fn entry_layout_is_exact() {
    // The 8-byte record: shifted page number plus low-order flags.
    let e = PageTableEntry::new(PhysAddr(0x8020_0123), PTE_V | PTE_R | PTE_W);
    assert_eq!(e.bits, (0x8020_0u64 << 10) | 0b111);
    assert_eq!(e.ppn().0, 0x8020_0);
    assert_eq!(e.pa().0, 0x8020_0000);
    assert_eq!(e.flags(), PTE_V | PTE_R | PTE_W);
    assert!(e.is_valid());
    assert!(e.is_readable());
    assert!(e.is_writable());
    assert!(!e.is_executable());
    assert!(!e.is_user());
    assert!(!e.is_global());
    assert!(e.is_leaf());
    assert!(!e.is_directory());
}

#[test]
fn directory_versus_leaf() {
    let dir = PageTableEntry::new(PhysAddr(0x8030_0000), PTE_V);
    assert!(dir.is_valid());
    assert!(dir.is_directory());
    assert!(!dir.is_leaf());
    let leaf = PageTableEntry::new(PhysAddr(0x8030_0000), PTE_V | PTE_U);
    assert!(leaf.is_leaf());
    assert!(!leaf.is_directory());
    let absent = PageTableEntry::empty();
    assert!(!absent.is_valid());
    assert!(!absent.is_directory());
    assert!(!absent.is_leaf());
}

#[test]
fn flag_mutators() {
    let mut e = PageTableEntry::new(PhysAddr(0x8040_0000), PTE_V | PTE_R);
    e.set_writable();
    assert!(e.is_writable());
    e.clear_writable();
    assert!(!e.is_writable());
    e.set_shared();
    assert!(e.is_shared());
    assert!(e.rsw_1());
    assert!(!e.rsw_2());
    e.clear_shared();
    assert!(!e.is_shared());
    assert_eq!(e.ppn().0, 0x8040_0);
}

#[test]
fn become_shared_and_unique() {
    let mut e = PageTableEntry::new(PhysAddr(0x8050_0000), PTE_V | PTE_R | PTE_W | PTE_U);
    e.become_shared(false);
    assert!(e.is_shared());
    assert!(!e.is_writable());
    assert!(e.is_user());
    e.become_unique(true);
    assert!(!e.is_shared());
    assert!(e.is_writable());

    let mut f = PageTableEntry::new(PhysAddr(0x8050_0000), PTE_V | PTE_R | PTE_W);
    f.become_shared(true);
    assert!(f.is_shared());
    assert!(f.is_writable());
}

#[test]
fn clear_makes_absent() {
    let mut e = PageTableEntry::new(PhysAddr(0x8060_0000), PTE_V | PTE_X | PTE_A | PTE_D);
    assert!(e.is_executable());
    e.clear();
    assert_eq!(e.bits, 0);
    assert!(!e.is_valid());
}

#[test]
fn software_flags_are_distinct_bits() {
    assert_eq!(PTE_COW, 0x100);
    assert_eq!(PTE_G, 0x20);
    let e = PageTableEntry::new(PhysAddr(0), PTE_V | PTE_G | PTE_COW);
    assert!(e.is_global());
    assert!(e.is_shared());
}
