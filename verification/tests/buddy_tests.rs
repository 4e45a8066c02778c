use kernel_mm::addr::{PhysAddr, PhysPageNum};
use kernel_mm::buddy::FrameAllocator;

fn fresh(start: u64, end: u64) -> FrameAllocator {
    let mut fa = FrameAllocator::new();
    fa.init(PhysAddr(start), PhysAddr(end));
    fa
}

fn free_blocks(fa: &FrameAllocator) -> Vec<(u64, u32)> {
    let mut v = Vec::new();
    for o in 0..32usize {
        for &b in fa.free_list[o].iter() {
            v.push((b, o as u32));
        }
    }
    v
}

#[test]
fn init_covers_range_exactly() {
    // After init, blocks are disjoint, lie in [start, end) and sum to total.
    let fa = fresh(0x8020_0000, 0x9000_0000);
    let s = 0x8020_0000u64 / 4096;
    let e = 0x9000_0000u64 / 4096;
    assert_eq!(fa.total, e - s);
    assert_eq!(fa.allocated, 0);
    let blocks = free_blocks(&fa);
    let mut sum = 0u64;
    for &(b, o) in &blocks {
        let size = 1u64 << o;
        assert_eq!(b % size, 0);
        assert!(b >= s && b + size <= e);
        sum += size;
    }
    assert_eq!(sum, e - s);
    for i in 0..blocks.len() {
        for j in 0..blocks.len() {
            if i != j {
                let (b1, o1) = blocks[i];
                let (b2, o2) = blocks[j];
                assert!(b1 + (1u64 << o1) <= b2 || b2 + (1u64 << o2) <= b1);
            }
        }
    }
}

#[test]
fn powers_of_two_come_back_aligned() {
    // For every n with 2^n < total, a fresh allocation of size = align = 2^n
    // is a multiple of 2^n.
    for n in 0..14u32 {
        let mut fa = fresh(0x8020_0000, 0x9000_0000);
        let sz = 1usize << n;
        if (sz as u64) < fa.total {
            let p = fa.allocate(sz, sz).expect("allocation should succeed");
            assert_eq!(p.0 % (1u64 << n), 0, "size 2^{} misaligned", n);
        }
    }
}

#[test]
fn alloc_then_dealloc_restores_state() {
    let mut fa = fresh(0x8020_0000, 0x9000_0000);
    let before_allocated = fa.allocated;
    let before_blocks = free_blocks(&fa);
    let p = fa.allocate(8, 8).unwrap();
    assert_eq!(fa.allocated, before_allocated + 8);
    fa.dealloc(p, 8);
    assert_eq!(fa.allocated, before_allocated);
    // Full coalescing restores the identical block structure here.
    let mut after = free_blocks(&fa);
    let mut before = before_blocks.clone();
    before.sort();
    after.sort();
    assert_eq!(before, after);
}

#[test]
fn buddy_dealloc_order_independent() {
    // Deallocating two buddy blocks in either order merges them the same way.
    let mut fa1 = fresh(0x8020_0000, 0x9000_0000);
    let x = fa1.allocate(4, 4).unwrap();
    let y = fa1.allocate(4, 4).unwrap();
    let buddies = x.0 ^ 4 == y.0;
    let mut fa2_blocks = {
        let mut fa2 = fresh(0x8020_0000, 0x9000_0000);
        let x2 = fa2.allocate(4, 4).unwrap();
        let y2 = fa2.allocate(4, 4).unwrap();
        assert_eq!(x.0, x2.0);
        assert_eq!(y.0, y2.0);
        fa2.dealloc(y2, 4);
        fa2.dealloc(x2, 4);
        free_blocks(&fa2)
    };
    fa1.dealloc(x, 4);
    fa1.dealloc(y, 4);
    let mut fa1_blocks = free_blocks(&fa1);
    fa1_blocks.sort();
    fa2_blocks.sort();
    assert!(buddies);
    assert_eq!(fa1_blocks, fa2_blocks);
}

#[test]
fn aligned_alloc_scenario() {
    // init(0x8020_0000, 0x9000_0000); alloc(4 pages, align 256 pages) is
    // aligned to 256 pages, and after dealloc the identical request returns
    // the same address.
    let mut fa = fresh(0x8020_0000, 0x9000_0000);
    let p = fa.allocate(4, 256).expect("allocation should succeed");
    assert_eq!(p.0 % 256, 0);
    assert_eq!((p.0 * 4096) % (256 * 4096), 0);
    fa.dealloc(p, 4);
    let q = fa.allocate(4, 256).expect("second allocation should succeed");
    assert_eq!(p.0, q.0);
}

#[test]
fn zero_sized_requests_fail() {
    let mut fa = fresh(0x8020_0000, 0x9000_0000);
    assert_eq!(fa.allocate(0, 1), None);
    assert_eq!(fa.allocate(0, 7), None);
    assert_eq!(fa.allocate(0, 4096), None);
    assert_eq!(fa.allocate(1, 0), None);
    assert_eq!(fa.allocated, 0);
}

#[test]
fn exhaustion_returns_none() {
    let mut fa = fresh(0x8000_0000, 0x8000_0000 + 16 * 4096);
    assert_eq!(fa.total, 16);
    assert!(fa.allocate(16, 1).is_some());
    assert_eq!(fa.allocate(1, 1), None);
    assert_eq!(fa.allocate(32, 1), None);
}

#[test]
fn dealloc_merges_up() {
    let mut fa = fresh(0x8000_0000, 0x8000_0000 + 16 * 4096);
    let a = fa.allocate(1, 1).unwrap();
    let b = fa.allocate(1, 1).unwrap();
    assert_eq!(b.0, a.0 ^ 1);
    fa.dealloc(a, 1);
    fa.dealloc(PhysPageNum(b.0), 1);
    // Everything merged back: one block of 16 pages.
    let blocks = free_blocks(&fa);
    assert_eq!(blocks, vec![(0x8000_0000u64 / 4096, 4)]);
}
