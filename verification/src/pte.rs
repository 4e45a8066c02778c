//! Hardware page-table entries.
//!
//! One entry is an 8-byte record: a physical page number shifted left by 10
//! bits plus a 10-bit flag field in the low bits. The flag pattern
//! distinguishes the two roles an entry can play: a *leaf* is valid and has
//! at least one of {Read, Write, Execute, User} set; a *directory* is valid
//! and has none of those set; an entry with Valid unset is absent.

use vstd::prelude::*;

use crate::addr::{PhysAddr, PhysPageNum};

verus! {

/// Valid.
pub const PTE_V: u16 = 0x001;

/// Readable.
pub const PTE_R: u16 = 0x002;

/// Writable.
pub const PTE_W: u16 = 0x004;

/// Executable.
pub const PTE_X: u16 = 0x008;

/// User-mode accessible.
pub const PTE_U: u16 = 0x010;

/// Global.
pub const PTE_G: u16 = 0x020;

/// Accessed.
pub const PTE_A: u16 = 0x040;

/// Dirty.
pub const PTE_D: u16 = 0x080;

/// First bit reserved for software.
pub const PTE_RSW1: u16 = 0x100;

/// Copy-on-write marker (same bit as the first software-reserved bit).
pub const PTE_COW: u16 = 0x100;

/// Second bit reserved for software.
pub const PTE_RSW2: u16 = 0x200;

/// Mask of all defined flag bits.
pub const PTE_FLAGS_MASK: u16 = 0x3FF;

/// Mask of the physical-page-number field (bits 10 through 53).
pub const PTE_PPN_MASK: u64 = 0x003F_FFFF_FFFF_FC00;

/// True when the bit `f` (a power of two) is set in `b`.
pub open spec fn bit_set(b: u64, f: u64) -> bool
    recommends
        f > 0,
{
    (b / f) % 2 == 1
}

/// The flag field of the raw entry value `b`: its low 10 bits.
pub open spec fn flags_of(b: u64) -> u64 {
    b % 1024
}

/// The physical page number held in the raw entry value `b`:
/// bits 10 through 53.
pub open spec fn ppn_of(b: u64) -> u64 {
    ((b / 1024) % 0x1000_0000_0000) as u64
}

/// The raw entry value that maps the page of physical address `a` with flag
/// field `p`: the page number shifted into bits 10..54 plus the flags.
pub open spec fn entry_bits(a: u64, p: u16) -> u64 {
    (((a / 4096) % 0x1000_0000_0000) * 1024 + p) as u64
}

/// `p` with the flag bit `f` set (both narrow flag fields).
pub open spec fn flags_with(p: u16, f: u16) -> u16 {
    if bit_set(p as u64, f as u64) {
        p
    } else {
        (p + f) as u16
    }
}

/// `p` with the flag bit `f` cleared.
pub open spec fn flags_without(p: u16, f: u16) -> u16 {
    if bit_set(p as u64, f as u64) {
        (p - f) as u16
    } else {
        p
    }
}

/// True when `e` is a valid directory entry.
pub open spec fn spec_is_directory(e: PageTableEntry) -> bool {
    bit_set(e.bits, 1) && !bit_set(e.bits, 2) && !bit_set(e.bits, 4) && !bit_set(e.bits, 8)
        && !bit_set(e.bits, 16)
}

/// True when `e` is a valid leaf entry.
pub open spec fn spec_is_leaf(e: PageTableEntry) -> bool {
    bit_set(e.bits, 1) && (bit_set(e.bits, 2) || bit_set(e.bits, 4) || bit_set(e.bits, 8)
        || bit_set(e.bits, 16))
}

/// One page-table entry, in the exact 8-byte hardware layout.
#[derive(Clone, Copy, Debug, PartialEq, Eq, Structural)]
pub struct PageTableEntry {
    /// The raw record: shifted physical page number plus flag field.
    pub bits: u64,
}

impl PageTableEntry {
    /// The absent entry: all bits zero.
    pub fn empty() -> (r: Self)
        ensures
            r.bits == 0,
    {
        PageTableEntry { bits: 0 }
    }

    /// Builds the entry that maps the page containing `addr` with the flag
    /// field `perm`.
    pub fn new(addr: PhysAddr, perm: u16) -> (r: Self)
        requires
            perm <= 0x3FF,
        ensures
            r.bits == entry_bits(addr.0, perm),
    {
        let base = addr.floor().0;
        let bits = ((base >> 2u64) & PTE_PPN_MASK) | (perm as u64);
        proof {
            let a = addr.0;
            let q = a as int / 4096;
            assert(base as int == q * 4096);
            assert(base as int / 4096 == q) by {
                vstd::arithmetic::div_mod::lemma_div_multiples_vanish(q, 4096);
            }
            let p = perm as u64;
            assert((((base >> 2u64) & 0x003F_FFFF_FFFF_FC00u64) | p) == ((base / 4096)
                % 0x1000_0000_0000) * 1024 + p) by (bit_vector)
                requires
                    base % 4096 == 0,
                    p <= 0x3FF,
            ;
            assert(base as int % 4096 == 0) by {
                vstd::arithmetic::div_mod::lemma_mod_multiples_basic(q, 4096);
            }
        }
        PageTableEntry { bits }
    }

    /// Clears the entry back to absent.
    pub fn clear(&mut self)
        ensures
            final(self).bits == 0,
    {
        self.bits = 0;
    }

    /// The physical page number this entry points at.
    pub fn ppn(&self) -> (r: PhysPageNum)
        ensures
            r.0 == ppn_of(self.bits),
    {
        let b = self.bits;
        proof {
            assert(((b & 0x003F_FFFF_FFFF_FC00u64) >> 10u64) == (b / 1024) % 0x1000_0000_0000)
                by (bit_vector);
        }
        PhysPageNum((b & PTE_PPN_MASK) >> 10u64)
    }

    /// The physical address of the page this entry points at.
    pub fn pa(&self) -> (r: PhysAddr)
        ensures
            r.0 == ppn_of(self.bits) * 4096,
    {
        self.ppn().address()
    }

    /// The 10-bit flag field.
    pub fn flags(&self) -> (r: u16)
        ensures
            r == flags_of(self.bits),
    {
        let b = self.bits;
        proof {
            assert((b & 0x3FF) == b % 1024) by (bit_vector);
        }
        (b & 0x3FF) as u16
    }

    /// True when the Valid bit is set.
    pub fn is_valid(&self) -> (r: bool)
        ensures
            r == bit_set(self.bits, 1),
    {
        let b = self.bits;
        proof {
            assert(((b & 1) != 0) <==> ((b / 1) % 2 == 1)) by (bit_vector);
        }
        (b & 1) != 0
    }

    /// True when the entry is a directory: valid with none of Read, Write,
    /// Execute, User set.
    pub fn is_directory(&self) -> (r: bool)
        ensures
            r == spec_is_directory(*self),
    {
        let b = self.bits;
        proof {
            assert(((b & 1) != 0 && (b & 0x1E) == 0) <==> ((b / 1) % 2 == 1 && !((b / 2) % 2 == 1)
                && !((b / 4) % 2 == 1) && !((b / 8) % 2 == 1) && !((b / 16) % 2 == 1)))
                by (bit_vector);
        }
        (b & 1) != 0 && (b & 0x1E) == 0
    }

    /// True when the entry is a leaf: valid with at least one of Read,
    /// Write, Execute, User set.
    pub fn is_leaf(&self) -> (r: bool)
        ensures
            r == spec_is_leaf(*self),
    {
        let b = self.bits;
        proof {
            assert(((b & 1) != 0 && (b & 0x1E) != 0) <==> ((b / 1) % 2 == 1 && ((b / 2) % 2 == 1
                || (b / 4) % 2 == 1 || (b / 8) % 2 == 1 || (b / 16) % 2 == 1))) by (bit_vector);
        }
        (b & 1) != 0 && (b & 0x1E) != 0
    }

    /// True when the Read bit is set.
    pub fn is_readable(&self) -> (r: bool)
        ensures
            r == bit_set(self.bits, 2),
    {
        let b = self.bits;
        proof {
            assert(((b & 2) != 0) <==> ((b / 2) % 2 == 1)) by (bit_vector);
        }
        (b & 2) != 0
    }

    /// True when the Write bit is set.
    pub fn is_writable(&self) -> (r: bool)
        ensures
            r == bit_set(self.bits, 4),
    {
        let b = self.bits;
        proof {
            assert(((b & 4) != 0) <==> ((b / 4) % 2 == 1)) by (bit_vector);
        }
        (b & 4) != 0
    }

    /// True when the Execute bit is set.
    pub fn is_executable(&self) -> (r: bool)
        ensures
            r == bit_set(self.bits, 8),
    {
        let b = self.bits;
        proof {
            assert(((b & 8) != 0) <==> ((b / 8) % 2 == 1)) by (bit_vector);
        }
        (b & 8) != 0
    }

    /// True when the User bit is set.
    pub fn is_user(&self) -> (r: bool)
        ensures
            r == bit_set(self.bits, 16),
    {
        let b = self.bits;
        proof {
            assert(((b & 16) != 0) <==> ((b / 16) % 2 == 1)) by (bit_vector);
        }
        (b & 16) != 0
    }

    /// True when the Global bit is set.
    pub fn is_global(&self) -> (r: bool)
        ensures
            r == bit_set(self.bits, 32),
    {
        let b = self.bits;
        proof {
            assert(((b & 32) != 0) <==> ((b / 32) % 2 == 1)) by (bit_vector);
        }
        (b & 32) != 0
    }

    /// True when the copy-on-write (first software-reserved) bit is set.
    pub fn is_shared(&self) -> (r: bool)
        ensures
            r == bit_set(self.bits, 256),
    {
        let b = self.bits;
        proof {
            assert(((b & 256) != 0) <==> ((b / 256) % 2 == 1)) by (bit_vector);
        }
        (b & 256) != 0
    }

    /// True when the first software-reserved bit is set.
    pub fn rsw_1(&self) -> (r: bool)
        ensures
            r == bit_set(self.bits, 256),
    {
        self.is_shared()
    }

    /// True when the second software-reserved bit is set.
    pub fn rsw_2(&self) -> (r: bool)
        ensures
            r == bit_set(self.bits, 512),
    {
        let b = self.bits;
        proof {
            assert(((b & 512) != 0) <==> ((b / 512) % 2 == 1)) by (bit_vector);
        }
        (b & 512) != 0
    }

    /// Sets the Write bit; every other bit is unchanged.
    pub fn set_writable(&mut self)
        ensures
            final(self).bits == (if bit_set(old(self).bits, 4) {
                old(self).bits
            } else {
                (old(self).bits + 4) as u64
            }),
            final(self).bits / 1024 == old(self).bits / 1024,
            bit_set(final(self).bits, 4),
            forall|f: u64|
                (f == 1 || f == 2 || f == 8 || f == 16 || f == 32 || f == 64 || f == 128 || f == 256
                    || f == 512) ==> bit_set(final(self).bits, f) == bit_set(old(self).bits, f),
    {
        let b = self.bits;
        proof {
            lemma_flag_or(b, 4);
        }
        self.bits = b | 4;
    }

    /// Clears the Write bit; every other bit is unchanged.
    pub fn clear_writable(&mut self)
        ensures
            final(self).bits == (if bit_set(old(self).bits, 4) {
                (old(self).bits - 4) as u64
            } else {
                old(self).bits
            }),
            final(self).bits / 1024 == old(self).bits / 1024,
            !bit_set(final(self).bits, 4),
            forall|f: u64|
                (f == 1 || f == 2 || f == 8 || f == 16 || f == 32 || f == 64 || f == 128 || f == 256
                    || f == 512) ==> bit_set(final(self).bits, f) == bit_set(old(self).bits, f),
    {
        let b = self.bits;
        proof {
            lemma_flag_clear(b, 4);
        }
        self.bits = b & !4u64;
    }

    /// Sets the copy-on-write bit; every other bit is unchanged.
    pub fn set_shared(&mut self)
        ensures
            final(self).bits == (if bit_set(old(self).bits, 256) {
                old(self).bits
            } else {
                (old(self).bits + 256) as u64
            }),
            final(self).bits / 1024 == old(self).bits / 1024,
            bit_set(final(self).bits, 256),
            forall|f: u64|
                (f == 1 || f == 2 || f == 4 || f == 8 || f == 16 || f == 32 || f == 64 || f == 128
                    || f == 512) ==> bit_set(final(self).bits, f) == bit_set(old(self).bits, f),
    {
        let b = self.bits;
        proof {
            lemma_flag_or(b, 256);
        }
        self.bits = b | 256;
    }

    /// Clears the copy-on-write bit; every other bit is unchanged.
    pub fn clear_shared(&mut self)
        ensures
            final(self).bits == (if bit_set(old(self).bits, 256) {
                (old(self).bits - 256) as u64
            } else {
                old(self).bits
            }),
            final(self).bits / 1024 == old(self).bits / 1024,
            !bit_set(final(self).bits, 256),
            forall|f: u64|
                (f == 1 || f == 2 || f == 4 || f == 8 || f == 16 || f == 32 || f == 64 || f == 128
                    || f == 512) ==> bit_set(final(self).bits, f) == bit_set(old(self).bits, f),
    {
        let b = self.bits;
        proof {
            lemma_flag_clear(b, 256);
        }
        self.bits = b & !256u64;
    }

    /// Marks a leaf as shared for copy-on-write: sets the copy-on-write bit
    /// and, unless the sharing is writable, clears the Write bit.
    pub fn become_shared(&mut self, shared_writable: bool)
        requires
            !bit_set(old(self).bits, 256),
        ensures
            final(self).bits / 1024 == old(self).bits / 1024,
            bit_set(final(self).bits, 256),
            bit_set(final(self).bits, 4) == (bit_set(old(self).bits, 4) && shared_writable),
            forall|f: u64|
                (f == 1 || f == 2 || f == 8 || f == 16 || f == 32 || f == 64 || f == 128 || f
                    == 512) ==> bit_set(final(self).bits, f) == bit_set(old(self).bits, f),
    {
        self.set_shared();
        if !shared_writable {
            self.clear_writable();
        }
    }

    /// Reverts a shared leaf to unique ownership: clears the copy-on-write
    /// bit and, if requested, restores the Write bit.
    pub fn become_unique(&mut self, unique_writable: bool)
        requires
            bit_set(old(self).bits, 256),
        ensures
            final(self).bits / 1024 == old(self).bits / 1024,
            !bit_set(final(self).bits, 256),
            bit_set(final(self).bits, 4) == (bit_set(old(self).bits, 4) || unique_writable),
            forall|f: u64|
                (f == 1 || f == 2 || f == 8 || f == 16 || f == 32 || f == 64 || f == 128 || f
                    == 512) ==> bit_set(final(self).bits, f) == bit_set(old(self).bits, f),
    {
        self.clear_shared();
        if unique_writable {
            self.set_writable();
        }
    }
}

/// Setting one flag bit by `or` leaves every other bit, and the record above
/// the flag field, unchanged.
#[verifier::rlimit(100)]
proof fn lemma_flag_or(b: u64, f: u64)
    requires
        f == 4 || f == 256,
    ensures
        (b | f) == (if bit_set(b, f) {
            b
        } else {
            (b + f) as u64
        }),
        (b | f) / 1024 == b / 1024,
        bit_set(b | f, f),
        forall|g: u64|
            (g == 1 || g == 2 || g == 4 || g == 8 || g == 16 || g == 32 || g == 64 || g == 128 || g
                == 256 || g == 512) && g != f ==> bit_set(b | f, g) == bit_set(b, g),
{
    assert(((b | f) == (if (b / f) % 2 == 1 {
        b
    } else {
        (b + f) as u64
    })) && (b | f) / 1024 == b / 1024 && ((b | f) / f) % 2 == 1 && (((b | f) / 1) % 2 == (b / 1)
        % 2) && (f != 2 ==> ((b | f) / 2) % 2 == (b / 2) % 2) && (f != 4 ==> ((
    b | f) / 4) % 2 == (b / 4) % 2) && (f != 8 ==> ((b | f) / 8) % 2 == (b / 8) % 2) && (f != 16
        ==> ((b | f) / 16) % 2 == (b / 16) % 2) && (f != 32 ==> ((b | f) / 32) % 2 == (b / 32) % 2)
        && (f != 64 ==> ((b | f) / 64) % 2 == (b / 64) % 2) && (f != 128 ==> ((b | f) / 128) % 2 == (
    b / 128) % 2) && (f != 256 ==> ((b | f) / 256) % 2 == (b / 256) % 2) && (f != 512 ==> ((b | f)
        / 512) % 2 == (b / 512) % 2)) by (bit_vector)
        requires
            f == 4 || f == 256,
    ;
}

/// Clearing one flag bit leaves every other bit, and the record above the
/// flag field, unchanged.
#[verifier::rlimit(100)]
proof fn lemma_flag_clear(b: u64, f: u64)
    requires
        f == 4 || f == 256,
    ensures
        (b & !f) == (if bit_set(b, f) {
            (b - f) as u64
        } else {
            b
        }),
        (b & !f) / 1024 == b / 1024,
        !bit_set(b & !f, f),
        forall|g: u64|
            (g == 1 || g == 2 || g == 4 || g == 8 || g == 16 || g == 32 || g == 64 || g == 128 || g
                == 256 || g == 512) && g != f ==> bit_set(b & !f, g) == bit_set(b, g),
{
    assert(((b & !f) == (if (b / f) % 2 == 1 {
        (b - f) as u64
    } else {
        b
    })) && (b & !f) / 1024 == b / 1024 && ((b & !f) / f) % 2 == 0 && (((b & !f) / 1) % 2 == (b / 1)
        % 2) && (f != 2 ==> ((b & !f) / 2) % 2 == (b / 2) % 2) && (f != 4 ==> ((b & !f) / 4) % 2 == (
    b / 4) % 2) && (f != 8 ==> ((b & !f) / 8) % 2 == (b / 8) % 2) && (f != 16 ==> ((b & !f) / 16)
        % 2 == (b / 16) % 2) && (f != 32 ==> ((b & !f) / 32) % 2 == (b / 32) % 2) && (f != 64 ==> ((
    b & !f) / 64) % 2 == (b / 64) % 2) && (f != 128 ==> ((b & !f) / 128) % 2 == (b / 128) % 2) && (f
        != 256 ==> ((b & !f) / 256) % 2 == (b / 256) % 2) && (f != 512 ==> ((b & !f) / 512) % 2 == (
    b / 512) % 2)) by (bit_vector)
        requires
            f == 4 || f == 256,
    ;
}


/// An entry value decomposes into its page number and flag field: reading
/// any flag of `entry_bits(a, p)` reads that flag of `p`.
pub proof fn lemma_entry_decompose(a: u64, p: u16)
    requires
        p <= 0x3FF,
    ensures
        ppn_of(entry_bits(a, p)) == (a as int / 4096) % 0x1000_0000_0000,
        flags_of(entry_bits(a, p)) == p,
        forall|f: u64|
            (f == 1 || f == 2 || f == 4 || f == 8 || f == 16 || f == 32 || f == 64 || f == 128 || f
                == 256 || f == 512) ==> #[trigger] bit_set(entry_bits(a, p), f) == bit_set(
                p as u64,
                f,
            ),
{
    let q = (a as int / 4096) % 0x1000_0000_0000;
    let b = entry_bits(a, p) as int;
    assert(0 <= q < 0x1000_0000_0000) by {
        vstd::arithmetic::div_mod::lemma_mod_bound(a as int / 4096, 0x1000_0000_0000);
        vstd::arithmetic::div_mod::lemma_div_pos_is_pos(a as int, 4096);
    }
    assert(b == q * 1024 + p);
    vstd::arithmetic::div_mod::lemma_fundamental_div_mod_converse(b, 1024, q, p as int);
    assert(b / 1024 == q && b % 1024 == p as int);
    vstd::arithmetic::div_mod::lemma_small_mod(q as nat, 0x1000_0000_0000);
    assert forall|f: u64|
        (f == 1 || f == 2 || f == 4 || f == 8 || f == 16 || f == 32 || f == 64 || f == 128 || f
            == 256 || f == 512) implies #[trigger] bit_set(entry_bits(a, p), f) == bit_set(
        p as u64,
        f,
    ) by {
        if f == 1 {
            assert(b == (q * 1024 + p as int / 1) * 1 + (p as int % 1));
            vstd::arithmetic::div_mod::lemma_mod_bound(p as int, 1);
            vstd::arithmetic::div_mod::lemma_fundamental_div_mod_converse(
                b,
                1,
                q * 1024 + p as int / 1,
                p as int % 1,
            );
            assert(q * 1024 == 2 * (q * 512));
            vstd::arithmetic::div_mod::lemma_mod_multiples_vanish(q * 512, p as int / 1, 2);
            vstd::arithmetic::div_mod::lemma_fundamental_div_mod(p as int, 1);
        }
        if f == 2 {
            assert(b == (q * 512 + p as int / 2) * 2 + (p as int % 2));
            vstd::arithmetic::div_mod::lemma_mod_bound(p as int, 2);
            vstd::arithmetic::div_mod::lemma_fundamental_div_mod_converse(
                b,
                2,
                q * 512 + p as int / 2,
                p as int % 2,
            );
            assert(q * 512 == 2 * (q * 256));
            vstd::arithmetic::div_mod::lemma_mod_multiples_vanish(q * 256, p as int / 2, 2);
            vstd::arithmetic::div_mod::lemma_fundamental_div_mod(p as int, 2);
        }
        if f == 4 {
            assert(b == (q * 256 + p as int / 4) * 4 + (p as int % 4));
            vstd::arithmetic::div_mod::lemma_mod_bound(p as int, 4);
            vstd::arithmetic::div_mod::lemma_fundamental_div_mod_converse(
                b,
                4,
                q * 256 + p as int / 4,
                p as int % 4,
            );
            assert(q * 256 == 2 * (q * 128));
            vstd::arithmetic::div_mod::lemma_mod_multiples_vanish(q * 128, p as int / 4, 2);
            vstd::arithmetic::div_mod::lemma_fundamental_div_mod(p as int, 4);
        }
        if f == 8 {
            assert(b == (q * 128 + p as int / 8) * 8 + (p as int % 8));
            vstd::arithmetic::div_mod::lemma_mod_bound(p as int, 8);
            vstd::arithmetic::div_mod::lemma_fundamental_div_mod_converse(
                b,
                8,
                q * 128 + p as int / 8,
                p as int % 8,
            );
            assert(q * 128 == 2 * (q * 64));
            vstd::arithmetic::div_mod::lemma_mod_multiples_vanish(q * 64, p as int / 8, 2);
            vstd::arithmetic::div_mod::lemma_fundamental_div_mod(p as int, 8);
        }
        if f == 16 {
            assert(b == (q * 64 + p as int / 16) * 16 + (p as int % 16));
            vstd::arithmetic::div_mod::lemma_mod_bound(p as int, 16);
            vstd::arithmetic::div_mod::lemma_fundamental_div_mod_converse(
                b,
                16,
                q * 64 + p as int / 16,
                p as int % 16,
            );
            assert(q * 64 == 2 * (q * 32));
            vstd::arithmetic::div_mod::lemma_mod_multiples_vanish(q * 32, p as int / 16, 2);
            vstd::arithmetic::div_mod::lemma_fundamental_div_mod(p as int, 16);
        }
        if f == 32 {
            assert(b == (q * 32 + p as int / 32) * 32 + (p as int % 32));
            vstd::arithmetic::div_mod::lemma_mod_bound(p as int, 32);
            vstd::arithmetic::div_mod::lemma_fundamental_div_mod_converse(
                b,
                32,
                q * 32 + p as int / 32,
                p as int % 32,
            );
            assert(q * 32 == 2 * (q * 16));
            vstd::arithmetic::div_mod::lemma_mod_multiples_vanish(q * 16, p as int / 32, 2);
            vstd::arithmetic::div_mod::lemma_fundamental_div_mod(p as int, 32);
        }
        if f == 64 {
            assert(b == (q * 16 + p as int / 64) * 64 + (p as int % 64));
            vstd::arithmetic::div_mod::lemma_mod_bound(p as int, 64);
            vstd::arithmetic::div_mod::lemma_fundamental_div_mod_converse(
                b,
                64,
                q * 16 + p as int / 64,
                p as int % 64,
            );
            assert(q * 16 == 2 * (q * 8));
            vstd::arithmetic::div_mod::lemma_mod_multiples_vanish(q * 8, p as int / 64, 2);
            vstd::arithmetic::div_mod::lemma_fundamental_div_mod(p as int, 64);
        }
        if f == 128 {
            assert(b == (q * 8 + p as int / 128) * 128 + (p as int % 128));
            vstd::arithmetic::div_mod::lemma_mod_bound(p as int, 128);
            vstd::arithmetic::div_mod::lemma_fundamental_div_mod_converse(
                b,
                128,
                q * 8 + p as int / 128,
                p as int % 128,
            );
            assert(q * 8 == 2 * (q * 4));
            vstd::arithmetic::div_mod::lemma_mod_multiples_vanish(q * 4, p as int / 128, 2);
            vstd::arithmetic::div_mod::lemma_fundamental_div_mod(p as int, 128);
        }
        if f == 256 {
            assert(b == (q * 4 + p as int / 256) * 256 + (p as int % 256));
            vstd::arithmetic::div_mod::lemma_mod_bound(p as int, 256);
            vstd::arithmetic::div_mod::lemma_fundamental_div_mod_converse(
                b,
                256,
                q * 4 + p as int / 256,
                p as int % 256,
            );
            assert(q * 4 == 2 * (q * 2));
            vstd::arithmetic::div_mod::lemma_mod_multiples_vanish(q * 2, p as int / 256, 2);
            vstd::arithmetic::div_mod::lemma_fundamental_div_mod(p as int, 256);
        }
        if f == 512 {
            assert(b == (q * 2 + p as int / 512) * 512 + (p as int % 512));
            vstd::arithmetic::div_mod::lemma_mod_bound(p as int, 512);
            vstd::arithmetic::div_mod::lemma_fundamental_div_mod_converse(
                b,
                512,
                q * 2 + p as int / 512,
                p as int % 512,
            );
            assert(q * 2 == 2 * (q * 1));
            vstd::arithmetic::div_mod::lemma_mod_multiples_vanish(q * 1, p as int / 512, 2);
            vstd::arithmetic::div_mod::lemma_fundamental_div_mod(p as int, 512);
        }
    }
}


/// Combines two flag fields: the result has the bit `f` set and every other
/// bit as in `p`.
pub fn flag_union(p: u16, f: u16) -> (r: u16)
    requires
        p <= 0x3FF,
        f == 1 || f == 2 || f == 4 || f == 8 || f == 16 || f == 32 || f == 64 || f == 128 || f
            == 256 || f == 512,
    ensures
        r == flags_with(p, f),
        r <= 0x3FF,
{
    proof {
        assert((p | f) == (if (p / f) % 2 == 1 {
            p
        } else {
            (p + f) as u16
        }) && (p | f) <= 0x3FF) by (bit_vector)
            requires
                p <= 0x3FF,
                f == 1 || f == 2 || f == 4 || f == 8 || f == 16 || f == 32 || f == 64 || f == 128
                    || f == 256 || f == 512,
        ;
        assert(((p as u64) / (f as u64)) % 2 == (p / f) % 2);
    }
    p | f
}


impl PageTableEntry {
    /// Replaces an absent entry with a directory entry for a freshly
    /// allocated frame from the pool. The flag field must not make the
    /// entry user-accessible, readable or writable.
    pub fn alloc_non_leaf(&mut self, fa: &mut crate::buddy::FrameAllocator, perm: u16)
        requires
            !bit_set(old(self).bits, 1),
            perm <= 0x3FF,
            !bit_set(perm as u64, 2),
            !bit_set(perm as u64, 4),
            !bit_set(perm as u64, 16),
            old(fa).wf(),
            old(fa).total - old(fa).allocated >= 1,
        ensures
            final(fa).wf(),
            final(fa).total == old(fa).total,
            final(fa).allocated == old(fa).allocated + 1,
            ({
                let ls0 = crate::buddy::lists_of(*old(fa));
                let i = crate::buddy::first_free_from(ls0, 0);
                &&& 0 <= i < 32
                &&& crate::buddy::lists_of(*final(fa)) == crate::buddy::split_lists(ls0, i, 0)
                &&& final(self).bits == entry_bits(
                    (ls0[i].last() * 4096) as u64,
                    flags_with(perm, 1),
                )
            }),
            bit_set(final(self).bits, 1),
            !bit_set(perm as u64, 8) ==> spec_is_directory(*final(self)),
    {
        let ppn = fresh_frame(fa);
        let pa = ppn.address();
        let e = PageTableEntry::new(pa, flag_union(perm, PTE_V));
        proof {
            lemma_entry_decompose(pa.0, flags_with(perm, 1));
        }
        *self = e;
    }

    /// Replaces an absent entry with a leaf entry for a freshly allocated
    /// frame, marked valid, accessed and dirty.
    pub fn allocate(&mut self, fa: &mut crate::buddy::FrameAllocator, perm: u16)
        requires
            !bit_set(old(self).bits, 1),
            perm <= 0x3FF,
            old(fa).wf(),
            old(fa).total - old(fa).allocated >= 1,
        ensures
            final(fa).wf(),
            final(fa).total == old(fa).total,
            final(fa).allocated == old(fa).allocated + 1,
            ({
                let ls0 = crate::buddy::lists_of(*old(fa));
                let i = crate::buddy::first_free_from(ls0, 0);
                &&& 0 <= i < 32
                &&& crate::buddy::lists_of(*final(fa)) == crate::buddy::split_lists(ls0, i, 0)
                &&& final(self).bits == entry_bits(
                    (ls0[i].last() * 4096) as u64,
                    flags_with(flags_with(flags_with(perm, 1), 64), 128),
                )
            }),
            bit_set(final(self).bits, 1),
    {
        let ppn = fresh_frame(fa);
        let pa = ppn.address();
        let fl = flag_union(flag_union(flag_union(perm, PTE_V), PTE_A), PTE_D);
        let e = PageTableEntry::new(pa, fl);
        proof {
            lemma_entry_decompose(pa.0, fl);
        }
        *self = e;
    }

    /// Overwrites a valid entry with a leaf entry for the given frame,
    /// marked valid, accessed and dirty.
    pub fn map_frame(&mut self, perm: u16, frame: PhysPageNum)
        requires
            bit_set(old(self).bits, 1),
            perm <= 0x3FF,
            frame.0 < 0x1000_0000_0000,
        ensures
            final(self).bits == entry_bits(
                (frame.0 * 4096) as u64,
                flags_with(flags_with(flags_with(perm, 1), 64), 128),
            ),
            bit_set(final(self).bits, 1),
    {
        let pa = frame.address();
        let fl = flag_union(flag_union(flag_union(perm, PTE_V), PTE_A), PTE_D);
        let e = PageTableEntry::new(pa, fl);
        proof {
            lemma_entry_decompose(pa.0, fl);
        }
        *self = e;
    }
}

/// Takes one page from the pool; it always succeeds when a free page
/// exists.
fn fresh_frame(fa: &mut crate::buddy::FrameAllocator) -> (r: PhysPageNum)
    requires
        old(fa).wf(),
        old(fa).total - old(fa).allocated >= 1,
    ensures
        final(fa).wf(),
        final(fa).total == old(fa).total,
        final(fa).allocated == old(fa).allocated + 1,
        ({
            let ls0 = crate::buddy::lists_of(*old(fa));
            let i = crate::buddy::first_free_from(ls0, 0);
            &&& 0 <= i < 32
            &&& r.0 == ls0[i].last()
            &&& r.0 + 1 <= crate::addr::PPN_LIMIT
            &&& crate::buddy::lists_of(*final(fa)) == crate::buddy::split_lists(ls0, i, 0)
        }),
{
    proof {
        crate::buddy::lemma_free_page_available(*fa);
        vstd::arithmetic::power2::is_pow2_equiv(1);
        vstd::arithmetic::power2::lemma2_to64();
        assert(vstd::arithmetic::power2::is_pow2_exists(1)) by {
            assert(vstd::arithmetic::power::pow(2, 0) == 1) by {
                vstd::arithmetic::power2::lemma_pow2(0);
            }
        }
    }
    match fa.allocate(1, 1) {
        Some(v) => {
            proof {
                assert(crate::buddy::order_spec(1) == 0) by {
                    let c = crate::buddy::order_spec(1);
                    if c != 0 {
                        vstd::arithmetic::power2::lemma_pow2_strictly_increases(0, c);
                    }
                }
                assert(crate::buddy::start_order(1, 1) == 0);
                crate::buddy::lemma_first_free_at_least(crate::buddy::lists_of(*old(fa)), 0);
            }
            v
        },
        None => {
            proof {
                assert(false) by {
                    assert(crate::buddy::order_spec(1) == 0) by {
                        let c = crate::buddy::order_spec(1);
                        if c != 0 {
                            vstd::arithmetic::power2::lemma_pow2_strictly_increases(0, c);
                        }
                    }
                }
            }
            PhysPageNum(0)
        },
    }
}

} // verus!
