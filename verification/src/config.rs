//! Static configuration constants: the physical-memory window and the
//! kernel's direct-mapped virtual window.

use vstd::prelude::*;

verus! {

/// Size of the kernel heap region, in bytes (16 MiB).
pub const KERNEL_HEAP_SIZE: usize = 0x100_0000;

/// Size of the physical-memory window, in bytes (4 GiB).
pub const MEMORY_SIZE: u64 = 0x1_0000_0000;

/// First byte of physical memory.
pub const PHYSICAL_MEMORY_START: u64 = 0x8000_0000;

/// One past the last byte of physical memory.
pub const PHYSICAL_MEMORY_END: u64 = PHYSICAL_MEMORY_START + MEMORY_SIZE;

/// First byte of the kernel's direct-mapped virtual window.
pub const KERNEL_VIRTUAL_MEMORY_START: u64 = 0xFFFF_FFFF_8000_0000;

/// Last byte of the kernel virtual address space.
pub const KERNEL_VIRTUAL_MEMORY_END: u64 = 0xFFFF_FFFF_FFFF_FFFF;

} // verus!
