//! Memory-management core of a bare-metal 64-bit kernel using Sv39-style
//! three-level paging: typed physical/virtual addresses, a power-of-two buddy
//! allocator backing the physical-frame pool, a frame manager handing out
//! page-granularity frames, and a multi-level page table supporting
//! map/unmap/query and copy-on-write address-space duplication.

pub mod addr;
pub mod buddy;
pub mod config;
pub mod frame;
pub mod pagetable;
pub mod pte;
