use kernel_mm::addr::{PhysAddr, VirtAddr, VirtPageNum};
use kernel_mm::buddy::FrameAllocator;
use kernel_mm::frame;
use kernel_mm::pagetable::{PageTable, SharedFrameSink};
use kernel_mm::pte::{PTE_COW, PTE_R, PTE_U, PTE_V, PTE_W, PTE_X};

fn pool() -> FrameAllocator {
    let mut fa = FrameAllocator::new();
    fa.init(PhysAddr(0x8020_0000), PhysAddr(0x8100_0000));
    fa
}

struct Counter {
    pas: Vec<u64>,
}

impl SharedFrameSink for Counter {
    fn on_shared(&mut self, pa: PhysAddr) {
        self.pas.push(pa.0);
    }
}

#[test]
fn map_then_query_every_offset_in_page() {
    // map_page(va, pa, perm) then query(va + k) returns pa + k for the
    // whole page.
    let mut fa = pool();
    let mut pt = PageTable::new(&mut fa);
    let va = VirtAddr(0x4000_0000);
    let pa = PhysAddr(0x8080_0000);
    pt.map_page(&mut fa, va, pa, PTE_R | PTE_W).unwrap();
    for k in [0u64, 1, 7, 100, 4095] {
        let got = pt.query(VirtAddr(va.0 + k));
        assert_eq!(got.0, pa.0 + k);
    }
}

#[test]
fn unmap_makes_query_fail_and_frees_the_frame() {
    let mut fa = pool();
    let mut pt = PageTable::new(&mut fa);
    let f = frame::alloc_frames(&mut fa, 1, 1).unwrap();
    let va = VirtAddr(0x4000_2000);
    pt.map_page(&mut fa, va, f.start_address(), PTE_R | PTE_W).unwrap();
    assert!(pt.get_pte_copied_from_vpn(VirtPageNum(va.0 >> 12)).is_some());
    let freed = pt.unmap_page(&mut fa, va, true);
    assert_eq!(freed.0, f.start_address().0);
    // The walk now finds nothing at va.
    assert!(pt.get_pte_copied_from_vpn(VirtPageNum(va.0 >> 12)).is_none());
    // The frame went back to the pool: a fresh allocation may reuse it.
    let g = frame::alloc_frames(&mut fa, 1, 1).unwrap();
    assert_eq!(g.ppn.0, f.ppn.0);
}

#[test]
fn mapping_overwrites_previous_leaf() {
    let mut fa = pool();
    let mut pt = PageTable::new(&mut fa);
    let va = VirtAddr(0x4000_3000);
    pt.map_page(&mut fa, va, PhysAddr(0x8090_0000), PTE_R).unwrap();
    pt.map_page(&mut fa, va, PhysAddr(0x80A0_0000), PTE_R | PTE_W).unwrap();
    assert_eq!(pt.query(va).0, 0x80A0_0000);
}

#[test]
fn cow_clone_shares_user_leaves_and_marks_both() {
    let mut fa = pool();
    let mut pt = PageTable::new(&mut fa);
    let user_va = VirtAddr(0x4000_0000);
    let user_pa = PhysAddr(0x80B0_0000);
    let kernel_va = VirtAddr(0x5000_0000);
    let kernel_pa = PhysAddr(0x80C0_0000);
    pt.map_page(&mut fa, user_va, user_pa, PTE_R | PTE_W | PTE_U).unwrap();
    pt.map_page(&mut fa, kernel_va, kernel_pa, PTE_R | PTE_X).unwrap();

    let mut counter = Counter { pas: Vec::new() };
    let clone = pt.copy_table_and_mark_self_cow(&mut fa, &mut counter).unwrap();

    // The callback saw exactly the one user frame.
    assert_eq!(counter.pas, vec![user_pa.0]);

    // Source and clone both hold the user leaf, same frame, both marked.
    let src = pt.get_pte_copied_from_vpn(VirtPageNum(user_va.0 >> 12)).unwrap();
    let cl = clone.get_pte_copied_from_vpn(VirtPageNum(user_va.0 >> 12)).unwrap();
    assert_eq!(src.ppn().0, user_pa.0 >> 12);
    assert_eq!(cl.ppn().0, src.ppn().0);
    assert!(src.is_shared());
    assert!(cl.is_shared());
    assert!(src.is_user() && cl.is_user());

    // The non-user leaf stays unmarked in the source and is not propagated.
    let k_src = pt.get_pte_copied_from_vpn(VirtPageNum(kernel_va.0 >> 12)).unwrap();
    assert!(!k_src.is_shared());
    assert!(clone.get_pte_copied_from_vpn(VirtPageNum(kernel_va.0 >> 12)).is_none());
}

#[test]
fn cow_clone_copies_huge_leaf_by_value_without_marking() {
    let mut fa = pool();
    let mut pt = PageTable::new(&mut fa);
    // Plant a top-level huge-page leaf in the root, as the kernel's
    // physical-segment mapping does.
    // Entry value: ppn shifted by 10 plus V|R|W|X flags.
    let huge = kernel_mm::pte::PageTableEntry::new(
        PhysAddr(0x8000_0000),
        PTE_V | PTE_R | PTE_W | PTE_X,
    );
    // Install through a normal map into a scratch root slot is not possible
    // for huge pages, so write the root image the way the boot path does:
    // build a table adopting a root whose slot we then fill via map of the
    // clone source. Instead, exercise the huge-leaf path through the clone
    // of a table with a directly planted entry.
    let mut source = pt;
    // Use the public field to place the huge leaf in the root frame image.
    source.frames[0] = huge;
    let mut counter = Counter { pas: Vec::new() };
    let clone = source.copy_table_and_mark_self_cow(&mut fa, &mut counter).unwrap();
    assert_eq!(counter.pas.len(), 0);
    assert_eq!(clone.frames[0].bits, huge.bits);
    assert!(!clone.frames[0].is_shared());
    assert!(source.frames[0].is_valid());
}

#[test]
fn map_page_reports_exhaustion() {
    let mut fa = FrameAllocator::new();
    fa.init(PhysAddr(0x8020_0000), PhysAddr(0x8020_2000));
    // Two pages: the root consumes one.
    let mut pt = PageTable::new(&mut fa);
    // One page left, but a fresh mapping needs two directories.
    let r = pt.map_page(&mut fa, VirtAddr(0x4000_0000), PhysAddr(0x8090_0000), PTE_R);
    assert!(r.is_err());
}

#[test]
fn new_with_pa_adopts_root() {
    let pt = PageTable::new_with_pa(PhysAddr(0x8123_4000));
    assert_eq!(pt.root_pa().0, 0x8123_4000);
}
