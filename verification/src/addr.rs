//! Typed wrappers for physical and virtual addresses and page numbers.
//!
//! Construction masks the raw integer down to the architecture's address
//! width and never fails; conversions between an address and its page number
//! shift by the fixed page-size bit count (12). `ceil`/`floor` round to page
//! boundaries, `offset` extracts the low 12 bits, and the `p4`/`p3`/`p2`/`p1`
//! helpers extract the 9-bit per-level page-table indices of a virtual
//! address.

use vstd::prelude::*;

use crate::config::{KERNEL_VIRTUAL_MEMORY_START, PHYSICAL_MEMORY_START};

verus! {

/// Size of one page, in bytes.
pub const PAGE_SIZE: u64 = 4096;

/// Number of entries in one page table (9-bit index).
pub const PAGE_TABLE_ENTRY_COUNT: u64 = 512;

/// Size of a top-level huge page, in bytes (1 GiB).
pub const HUGE_PAGE_SIZE: u64 = 0x4000_0000;

/// One past the largest representable physical address (56-bit width).
pub const PA_LIMIT: u64 = 0x100_0000_0000_0000;

/// One past the largest physical page number (44-bit width).
pub const PPN_LIMIT: u64 = 0x1000_0000_0000;

/// `a` rounded down to a page boundary.
pub open spec fn page_floor(a: int) -> int {
    (a / 4096) * 4096
}

/// `a` rounded up to a page boundary.
pub open spec fn page_ceil(a: int) -> int {
    ((a + 4095) / 4096) * 4096
}

/// The page number containing `a`.
pub open spec fn page_num_floor(a: int) -> int {
    a / 4096
}

/// The page number of the next page boundary at or above `a`.
pub open spec fn page_num_ceil(a: int) -> int {
    (a + 4095) / 4096
}

/// The offset of `a` within its page.
pub open spec fn page_offset(a: int) -> int {
    a % 4096
}

/// A physical address, masked to 56 bits on construction.
#[derive(Clone, Copy, Debug, PartialEq, Eq, Structural)]
pub struct PhysAddr(pub u64);

/// A virtual address; the full 64-bit value is kept.
#[derive(Clone, Copy, Debug, PartialEq, Eq, Structural)]
pub struct VirtAddr(pub u64);

/// A physical page number: a physical address shifted right by 12 bits.
#[derive(Clone, Copy, Debug, PartialEq, Eq, Structural)]
pub struct PhysPageNum(pub u64);

/// A virtual page number: a virtual address shifted right by 12 bits.
#[derive(Clone, Copy, Debug, PartialEq, Eq, Structural)]
pub struct VirtPageNum(pub u64);

impl PhysAddr {
    /// Builds a physical address from a raw integer, masking to 56 bits.
    pub fn new(raw: u64) -> (r: Self)
        ensures
            r.0 == raw as int % 0x100_0000_0000_0000,
    {
        PhysAddr(raw % PA_LIMIT)
    }

    /// Rounds up to the next page boundary.
    pub fn ceil(self) -> (r: Self)
        requires
            self.0 + PAGE_SIZE - 1 <= u64::MAX,
        ensures
            r.0 == page_ceil(self.0 as int),
    {
        PhysAddr(((self.0 + (PAGE_SIZE - 1)) / PAGE_SIZE) * PAGE_SIZE)
    }

    /// Rounds down to the enclosing page boundary.
    pub fn floor(self) -> (r: Self)
        ensures
            r.0 == page_floor(self.0 as int),
    {
        PhysAddr((self.0 / PAGE_SIZE) * PAGE_SIZE)
    }

    /// The offset of this address within its page (the low 12 bits).
    pub fn offset(self) -> (r: u64)
        ensures
            r == page_offset(self.0 as int),
    {
        self.0 % PAGE_SIZE
    }

    /// The page number of the next page boundary at or above this address.
    pub fn ceil_page(self) -> (r: PhysPageNum)
        requires
            self.0 + PAGE_SIZE - 1 <= u64::MAX,
        ensures
            r.0 == page_num_ceil(self.0 as int),
    {
        PhysPageNum((self.0 + (PAGE_SIZE - 1)) / PAGE_SIZE)
    }

    /// The page number of the page containing this address.
    pub fn floor_page(self) -> (r: PhysPageNum)
        ensures
            r.0 == page_num_floor(self.0 as int),
    {
        PhysPageNum(self.0 / PAGE_SIZE)
    }
}

impl PhysPageNum {
    /// The first physical address of this page.
    pub fn address(self) -> (r: PhysAddr)
        requires
            self.0 < 0x10_0000_0000_0000,
        ensures
            r.0 == self.0 * 4096,
    {
        PhysAddr(self.0 * PAGE_SIZE)
    }
}

impl VirtAddr {
    /// Builds a virtual address from a raw integer; all 64 bits are kept.
    pub fn new(raw: u64) -> (r: Self)
        ensures
            r.0 == raw,
    {
        VirtAddr(raw)
    }

    /// Rounds up to the next page boundary.
    pub fn ceil(self) -> (r: Self)
        requires
            self.0 + PAGE_SIZE - 1 <= u64::MAX,
        ensures
            r.0 == page_ceil(self.0 as int),
    {
        VirtAddr(((self.0 + (PAGE_SIZE - 1)) / PAGE_SIZE) * PAGE_SIZE)
    }

    /// Rounds down to the enclosing page boundary.
    pub fn floor(self) -> (r: Self)
        ensures
            r.0 == page_floor(self.0 as int),
    {
        VirtAddr((self.0 / PAGE_SIZE) * PAGE_SIZE)
    }

    /// The offset of this address within its page (the low 12 bits).
    pub fn offset(self) -> (r: u64)
        ensures
            r == page_offset(self.0 as int),
    {
        self.0 % PAGE_SIZE
    }

    /// The page number of the next page boundary at or above this address.
    pub fn ceil_page(self) -> (r: VirtPageNum)
        requires
            self.0 + PAGE_SIZE - 1 <= u64::MAX,
        ensures
            r.0 == page_num_ceil(self.0 as int),
    {
        VirtPageNum((self.0 + (PAGE_SIZE - 1)) / PAGE_SIZE)
    }

    /// The page number of the page containing this address.
    pub fn floor_page(self) -> (r: VirtPageNum)
        ensures
            r.0 == page_num_floor(self.0 as int),
    {
        VirtPageNum(self.0 / PAGE_SIZE)
    }

    /// The 9-bit index this address selects in a level-4 table.
    pub fn p4_index(self) -> (r: usize)
        ensures
            r == spec_p4_index(self.0 as int),
    {
        ((self.0 / 0x80_0000_0000) % PAGE_TABLE_ENTRY_COUNT) as usize
    }

    /// The 9-bit index this address selects in a level-3 (top, 1 GiB) table.
    pub fn p3_index(self) -> (r: usize)
        ensures
            r == spec_p3_index(self.0 as int),
    {
        ((self.0 / 0x4000_0000) % PAGE_TABLE_ENTRY_COUNT) as usize
    }

    /// The 9-bit index this address selects in a level-2 (2 MiB) table.
    pub fn p2_index(self) -> (r: usize)
        ensures
            r == spec_p2_index(self.0 as int),
    {
        ((self.0 / 0x20_0000) % PAGE_TABLE_ENTRY_COUNT) as usize
    }

    /// The 9-bit index this address selects in a level-1 (4 KiB) table.
    pub fn p1_index(self) -> (r: usize)
        ensures
            r == spec_p1_index(self.0 as int),
    {
        ((self.0 / 0x1000) % PAGE_TABLE_ENTRY_COUNT) as usize
    }
}

impl VirtPageNum {
    /// The first virtual address of this page.
    pub fn address(self) -> (r: VirtAddr)
        requires
            self.0 < 0x10_0000_0000_0000,
        ensures
            r.0 == self.0 * 4096,
    {
        VirtAddr(self.0 * PAGE_SIZE)
    }
}

/// Index selected by virtual address `va` in a level-4 table.
pub open spec fn spec_p4_index(va: int) -> int {
    (va / 0x80_0000_0000) % 512
}

/// Index selected by virtual address `va` in a level-3 (top) table.
pub open spec fn spec_p3_index(va: int) -> int {
    (va / 0x4000_0000) % 512
}

/// Index selected by virtual address `va` in a level-2 table.
pub open spec fn spec_p2_index(va: int) -> int {
    (va / 0x20_0000) % 512
}

/// Index selected by virtual address `va` in a level-1 table.
pub open spec fn spec_p1_index(va: int) -> int {
    (va / 0x1000) % 512
}

/// Translates a physical address into the kernel's direct-mapped virtual
/// window.
pub fn pa2kva(pa: PhysAddr) -> (r: VirtAddr)
    requires
        pa.0 >= PHYSICAL_MEMORY_START,
        pa.0 - PHYSICAL_MEMORY_START <= u64::MAX - KERNEL_VIRTUAL_MEMORY_START,
    ensures
        r.0 == pa.0 - PHYSICAL_MEMORY_START + KERNEL_VIRTUAL_MEMORY_START,
{
    VirtAddr(pa.0 - PHYSICAL_MEMORY_START + KERNEL_VIRTUAL_MEMORY_START)
}

/// Translates a kernel direct-mapped virtual address back to its physical
/// address.
pub fn kva2pa(va: VirtAddr) -> (r: PhysAddr)
    requires
        va.0 >= KERNEL_VIRTUAL_MEMORY_START,
    ensures
        r.0 == va.0 - KERNEL_VIRTUAL_MEMORY_START + PHYSICAL_MEMORY_START,
{
    PhysAddr(va.0 - KERNEL_VIRTUAL_MEMORY_START + PHYSICAL_MEMORY_START)
}

} // verus!
