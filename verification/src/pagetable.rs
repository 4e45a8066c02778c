//! A three-level Sv39-style page table with copy-on-write duplication.
//!
//! The table is a radix tree of 512-entry frames. The top level may hold
//! huge-page leaves directly; lower levels hold directories and normal
//! 4 KiB leaves. Directory frames are owned by the table and tracked in
//! `intrm_tables`; leaf data frames are owned by whoever requested the
//! mapping. The frames' contents are kept in a typed arena (`frames`), the
//! in-model image of the directory frames' memory: table `k` occupies the
//! 512 entries starting at `512 * k`.

use vstd::prelude::*;

use vstd::arithmetic::power2::pow2;

use crate::addr::{
    spec_p1_index, spec_p2_index, spec_p3_index, PhysAddr, PhysPageNum, VirtAddr, VirtPageNum,
};
use crate::buddy::{covered, lists_of, range_overlap, FrameAllocator};
use crate::pte::{bit_set, entry_bits, flags_of, ppn_of, spec_is_directory, spec_is_leaf, PageTableEntry};

verus! {

/// Failure of a mapping operation: the frame pool is exhausted.
#[derive(Clone, Copy, Debug, PartialEq, Eq, Structural)]
pub enum MapError {
    /// No frame was available for a needed directory.
    OutOfMemory,
}

/// Receives the physical address of each user leaf found while cloning a
/// table for copy-on-write, so the owner can count the new sharer.
pub trait SharedFrameSink {
    /// Called once for each user-mode leaf that becomes shared.
    fn on_shared(&mut self, pa: PhysAddr);
}

/// A three-level page table: the root frame, every directory frame it has
/// itself allocated, and the typed image of those frames' contents.
pub struct PageTable {
    /// Physical address of the root table frame.
    pub root_pa: PhysAddr,
    /// Physical addresses of all owned table frames; the first is the root.
    pub intrm_tables: Vec<PhysAddr>,
    /// The entries of all owned table frames, 512 per frame.
    pub frames: Vec<PageTableEntry>,
    /// The tree level of each owned frame: 3 for the root, then 2 and 1.
    pub levels: Vec<u8>,
    /// For each non-root frame, the table and index of the one directory
    /// entry that points at it.
    pub parents: Ghost<Seq<(int, int)>>,
}

/// The number of table frames `pt` owns.
pub open spec fn tcount(pt: PageTable) -> int {
    pt.intrm_tables@.len() as int
}

/// The entry at index `j` of table frame `k`.
pub open spec fn entry_of(pt: PageTable, k: int, j: int) -> PageTableEntry {
    pt.frames@[k * 512 + j]
}

/// The physical address of table frame `k`.
pub open spec fn pa_of(pt: PageTable, k: int) -> int {
    pt.intrm_tables@[k].0 as int
}

/// The physical address a directory or leaf entry points at.
pub open spec fn entry_target(e: PageTableEntry) -> int {
    ppn_of(e.bits) * 4096
}

/// Some owned frame has physical address `pa`.
pub open spec fn has_table(pt: PageTable, pa: int) -> bool {
    exists|k: int| 0 <= k < tcount(pt) && pa_of(pt, k) == pa
}

/// The index of the owned frame with physical address `pa`.
pub open spec fn table_index(pt: PageTable, pa: int) -> int {
    choose|k: int| 0 <= k < tcount(pt) && pa_of(pt, k) == pa
}

impl PageTable {
    /// The structural invariant: the arena holds 512 entries per owned
    /// frame, frame addresses are page-aligned, bounded and distinct, the
    /// root is the single level-3 frame, every directory entry points at an
    /// owned frame one level down and is the unique parent of that frame,
    /// level-2 frames hold no leaves, and level-1 frames hold no
    /// directories.
    pub open spec fn wf(self) -> bool {
        let n = tcount(self);
        &&& 1 <= n
        &&& n * 512 <= usize::MAX
        &&& self.frames@.len() == n * 512
        &&& self.levels@.len() == n
        &&& self.parents@.len() == n
        &&& pa_of(self, 0) == self.root_pa.0
        &&& forall|k: int|
            0 <= k < n ==> #[trigger] pa_of(self, k) % 4096 == 0 && pa_of(self, k)
                < 0x100_0000_0000_0000
        &&& forall|k1: int, k2: int|
            0 <= k1 < n && 0 <= k2 < n && k1 != k2 ==> #[trigger] pa_of(self, k1)
                != #[trigger] pa_of(self, k2)
        &&& self.levels@[0] == 3
        &&& forall|k: int| 1 <= k < n ==> #[trigger] self.levels@[k] == 1 || self.levels@[k] == 2
        &&& forall|k: int, j: int|
            0 <= k < n && 0 <= j < 512 && spec_is_directory(#[trigger] entry_of(self, k, j)) ==> {
                &&& self.levels@[k] >= 2
                &&& has_table(self, entry_target(entry_of(self, k, j)))
                &&& self.levels@[table_index(self, entry_target(entry_of(self, k, j)))]
                    == self.levels@[k] - 1
                &&& self.parents@[table_index(self, entry_target(entry_of(self, k, j)))] == (k, j)
            }
        &&& forall|k: int, j: int|
            0 <= k < n && 0 <= j < 512 && self.levels@[k] == 2 ==> !spec_is_leaf(
                #[trigger] entry_of(self, k, j),
            )
        &&& forall|k: int, j: int|
            0 <= k < n && 0 <= j < 512 && self.levels@[k] == 1 ==> !spec_is_directory(
                #[trigger] entry_of(self, k, j),
            )
        &&& forall|k: int|
            1 <= k < n ==> {
                let (pk, pj) = #[trigger] self.parents@[k];
                &&& 0 <= pk < n
                &&& 0 <= pj < 512
                &&& spec_is_directory(entry_of(self, pk, pj))
                &&& entry_target(entry_of(self, pk, pj)) == pa_of(self, k)
                &&& self.levels@[pk] == self.levels@[k] + 1
            }
    }

    /// No owned frame lies inside the allocator's free pages (they were all
    /// allocated from it).
    pub open spec fn tables_unmapped(self, fa: FrameAllocator) -> bool {
        forall|k: int|
            0 <= k < tcount(self) ==> !covered(lists_of(fa), #[trigger] pa_of(self, k) / 4096)
    }
}

/// The mapping visible at the path `(j3, j2, j1)`: the level-1 leaf entry
/// reached through two directories, if it is present and valid.
pub open spec fn leaf_entry(pt: PageTable, j3: int, j2: int, j1: int) -> Option<PageTableEntry> {
    let e3 = entry_of(pt, 0, j3);
    if !spec_is_directory(e3) {
        Option::None
    } else {
        let k2 = table_index(pt, entry_target(e3));
        let e2 = entry_of(pt, k2, j2);
        if !spec_is_directory(e2) {
            Option::None
        } else {
            let k1 = table_index(pt, entry_target(e2));
            let e1 = entry_of(pt, k1, j1);
            if bit_set(e1.bits, 1) {
                Option::Some(e1)
            } else {
                Option::None
            }
        }
    }
}

/// The mapping visible for the virtual address `va`.
pub open spec fn leaf_entry_va(pt: PageTable, va: int) -> Option<PageTableEntry> {
    leaf_entry(pt, spec_p3_index(va), spec_p2_index(va), spec_p1_index(va))
}

/// The walk for `va` meets no huge-page leaf: any valid entry on the first
/// two levels of its path is a directory.
pub open spec fn walk_ok(pt: PageTable, va: int) -> bool {
    let e3 = entry_of(pt, 0, spec_p3_index(va));
    &&& (bit_set(e3.bits, 1) ==> spec_is_directory(e3))
    &&& (spec_is_directory(e3) ==> {
        let e2 = entry_of(pt, table_index(pt, entry_target(e3)), spec_p2_index(va));
        bit_set(e2.bits, 1) ==> spec_is_directory(e2)
    })
}

/// Both directories on the path of `va` are present.
pub open spec fn path_present(pt: PageTable, va: int) -> bool {
    let e3 = entry_of(pt, 0, spec_p3_index(va));
    &&& spec_is_directory(e3)
    &&& spec_is_directory(
        entry_of(pt, table_index(pt, entry_target(e3)), spec_p2_index(va)),
    )
}

/// Number of missing directories on the path of `va`: the frames `map_page`
/// must allocate.
pub open spec fn dirs_needed(pt: PageTable, va: int) -> int {
    let e3 = entry_of(pt, 0, spec_p3_index(va));
    if !bit_set(e3.bits, 1) {
        2
    } else {
        let e2 = entry_of(pt, table_index(pt, entry_target(e3)), spec_p2_index(va));
        if !bit_set(e2.bits, 1) {
            1
        } else {
            0
        }
    }
}

/// Pages the allocator can still hand out.
pub open spec fn free_pages(fa: FrameAllocator) -> int {
    fa.total - fa.allocated
}

impl PageTable {
    /// Reads one entry of an owned table frame.
    fn read_entry(&self, k: usize, j: usize) -> (r: PageTableEntry)
        requires
            (k + 1) * 512 <= self.frames@.len(),
            j < 512,
        ensures
            r == entry_of(*self, k as int, j as int),
    {
        let n = self.frames.len();
        proof {
            assert(k as int * 512 + 512 == (k as int + 1) * 512) by (nonlinear_arith);
        }
        self.frames[k * 512 + j]
    }

    /// Overwrites one entry of an owned table frame.
    fn write_entry(&mut self, k: usize, j: usize, e: PageTableEntry)
        requires
            (k + 1) * 512 <= old(self).frames@.len(),
            j < 512,
        ensures
            final(self).frames@ == old(self).frames@.update(k as int * 512 + j, e),
            final(self).root_pa == old(self).root_pa,
            final(self).intrm_tables == old(self).intrm_tables,
            final(self).levels == old(self).levels,
            final(self).parents == old(self).parents,
    {
        let n = self.frames.len();
        let n = self.frames.len();
        proof {
            assert(k as int * 512 + 512 == (k as int + 1) * 512) by (nonlinear_arith);
        }
        self.frames[k * 512 + j] = e;
    }

    /// Finds the owned frame with physical address `pa`.
    fn locate(&self, pa: u64) -> (r: Option<usize>)
        requires
            self.wf(),
        ensures
            r matches Some(k) ==> k < tcount(*self) && pa_of(*self, k as int) == pa && table_index(
                *self,
                pa as int,
            ) == k,
            (r is None) ==> !has_table(*self, pa as int),
    {
        let n = self.intrm_tables.len();
        let mut k: usize = 0;
        while k < n
            invariant
                0 <= k <= n,
                n == tcount(*self),
                self.wf(),
                forall|k2: int| 0 <= k2 < k ==> pa_of(*self, k2) != pa,
            decreases n - k,
        {
            if self.intrm_tables[k].0 == pa {
                proof {
                    assert(has_table(*self, pa as int)) by {
                        assert(0 <= k < tcount(*self) && pa_of(*self, k as int) == pa);
                    }
                    let c = table_index(*self, pa as int);
                    assert(c == k) by {
                        if c != k {
                            assert(pa_of(*self, c) != pa_of(*self, k as int));
                        }
                    }
                }
                return Some(k);
            }
            k = k + 1;
        }
        proof {
            assert forall|k2: int| 0 <= k2 < tcount(*self) implies pa_of(*self, k2) != pa by {}
        }
        None
    }

    /// The physical address of the root table frame.
    pub fn root_pa(&self) -> (r: PhysAddr)
        ensures
            r == self.root_pa,
    {
        self.root_pa
    }
}


impl PageTable {
    /// Appends one empty 512-entry frame image to the arena.
    fn push_empty_frame(&mut self)
        requires
            old(self).frames@.len() + 512 <= usize::MAX,
        ensures
            final(self).frames@.len() == old(self).frames@.len() + 512,
            forall|i: int|
                0 <= i < old(self).frames@.len() ==> final(self).frames@[i] == old(self).frames@[i],
            forall|i: int|
                old(self).frames@.len() <= i < final(self).frames@.len()
                    ==> final(self).frames@[i].bits == 0,
            final(self).root_pa == old(self).root_pa,
            final(self).intrm_tables == old(self).intrm_tables,
            final(self).levels == old(self).levels,
            final(self).parents == old(self).parents,
    {
        let mut c: usize = 0;
        while c < 512
            invariant
                0 <= c <= 512,
                self.frames@.len() == old(self).frames@.len() + c,
                old(self).frames@.len() + 512 <= usize::MAX,
                forall|i: int|
                    0 <= i < old(self).frames@.len() ==> self.frames@[i] == old(self).frames@[i],
                forall|i: int|
                    old(self).frames@.len() <= i < self.frames@.len() ==> self.frames@[i].bits
                        == 0,
                self.root_pa == old(self).root_pa,
                self.intrm_tables == old(self).intrm_tables,
                self.levels == old(self).levels,
                self.parents == old(self).parents,
            decreases 512 - c,
        {
            self.frames.push(PageTableEntry::empty());
            c = c + 1;
        }
    }

    /// Creates an empty table: allocates a fresh root frame from the pool.
    pub fn new(fa: &mut FrameAllocator) -> (r: Self)
        requires
            old(fa).wf(),
            free_pages(*old(fa)) >= 1,
        ensures
            final(fa).wf(),
            final(fa).total == old(fa).total,
            final(fa).allocated == old(fa).allocated + 1,
            r.wf(),
            r.tables_unmapped(*final(fa)),
            tcount(r) == 1,
            forall|j: int| 0 <= j < 512 ==> entry_of(r, 0, j).bits == 0,
            forall|a: int| covered(lists_of(*final(fa)), a) ==> covered(lists_of(*old(fa)), a),
            covered(lists_of(*old(fa)), pa_of(r, 0) / 4096),
    {
        proof {
            crate::buddy::lemma_free_page_available(*fa);
            vstd::arithmetic::power2::is_pow2_equiv(1);
            vstd::arithmetic::power2::lemma_pow2(0);
            vstd::arithmetic::power2::lemma2_to64();
            assert(vstd::arithmetic::power2::is_pow2_exists(1)) by {
                assert(vstd::arithmetic::power::pow(2, 0) == 1) by {
                    vstd::arithmetic::power2::lemma_pow2(0);
                }
            }
        }
        let ppn = match fa.allocate(1, 1) {
            Some(v) => v,
            None => {
                proof {
                    assert(false) by {
                        assert(crate::buddy::order_spec(1) == 0) by {
                            let c = crate::buddy::order_spec(1);
                            if c != 0 {
                                vstd::arithmetic::power2::lemma_pow2_strictly_increases(0, c);
                            }
                        }
                    }
                }
                PhysPageNum(0)
            },
        };
        let pa = ppn.address();
        let mut intrm_tables: Vec<PhysAddr> = Vec::new();
        intrm_tables.push(pa);
        let mut levels: Vec<u8> = Vec::new();
        levels.push(3);
        let ghost pr: Seq<(int, int)> = seq![(0int, 0int)];
        let mut r = PageTable {
            root_pa: pa,
            intrm_tables,
            frames: Vec::new(),
            levels,
            parents: Ghost(pr),
        };
        r.push_empty_frame();
        proof {
            assert(pa.0 % 4096 == 0) by {
                vstd::arithmetic::div_mod::lemma_mod_multiples_basic(ppn.0 as int, 4096);
            }
            assert forall|k: int, j: int|
                0 <= k < 1 && 0 <= j < 512 implies !spec_is_directory(
                #[trigger] entry_of(r, k, j),
            ) && !spec_is_leaf(entry_of(r, k, j)) by {
                assert(entry_of(r, k, j).bits == 0);
            }
            assert(r.wf());
            assert forall|k: int| 0 <= k < tcount(r) implies !covered(
                lists_of(*fa),
                #[trigger] pa_of(r, k) / 4096,
            ) by {
                assert(pa_of(r, k) / 4096 == ppn.0) by {
                    vstd::arithmetic::div_mod::lemma_div_multiples_vanish(ppn.0 as int, 4096);
                }
            }
            // The root frame came out of the pool's free pages.
            assert(covered(lists_of(*old(fa)), ppn.0 as int));
            assert(pa_of(r, 0) / 4096 == ppn.0) by {
                vstd::arithmetic::div_mod::lemma_div_multiples_vanish(ppn.0 as int, 4096);
            }
        }
        r
    }

    /// Adopts an externally supplied, page-aligned root frame; the table
    /// starts with no mappings of its own.
    pub fn new_with_pa(pa: PhysAddr) -> (r: Self)
        requires
            pa.0 % 4096 == 0,
            pa.0 < 0x100_0000_0000_0000,
        ensures
            r.wf(),
            r.root_pa == pa,
            tcount(r) == 1,
            forall|j: int| 0 <= j < 512 ==> entry_of(r, 0, j).bits == 0,
    {
        let mut intrm_tables: Vec<PhysAddr> = Vec::new();
        intrm_tables.push(pa);
        let mut levels: Vec<u8> = Vec::new();
        levels.push(3);
        let ghost pr: Seq<(int, int)> = seq![(0int, 0int)];
        let mut r = PageTable {
            root_pa: pa,
            intrm_tables,
            frames: Vec::new(),
            levels,
            parents: Ghost(pr),
        };
        r.push_empty_frame();
        proof {
            assert forall|k: int, j: int|
                0 <= k < 1 && 0 <= j < 512 implies !spec_is_directory(
                #[trigger] entry_of(r, k, j),
            ) && !spec_is_leaf(entry_of(r, k, j)) by {
                assert(entry_of(r, k, j).bits == 0);
            }
            assert(r.wf());
        }
        r
    }
}


impl PageTable {
    /// Allocates a fresh zero-filled directory frame, installs a directory
    /// entry for it at `(pk, pj)`, and tracks it in the owned-frame list.
    fn create_table(
        &mut self,
        fa: &mut FrameAllocator,
        pk: usize,
        pj: usize,
        lvl: u8,
    ) -> (nk: usize)
        requires
            old(self).wf(),
            old(fa).wf(),
            old(self).tables_unmapped(*old(fa)),
            pk < tcount(*old(self)),
            pj < 512,
            !bit_set(entry_of(*old(self), pk as int, pj as int).bits, 1),
            old(self).levels@[pk as int] == lvl + 1,
            lvl == 1 || lvl == 2,
            free_pages(*old(fa)) >= 1,
            tcount(*old(self)) * 512 + 512 <= usize::MAX,
        ensures
            final(self).wf(),
            final(fa).wf(),
            final(self).tables_unmapped(*final(fa)),
            nk == tcount(*old(self)),
            tcount(*final(self)) == tcount(*old(self)) + 1,
            final(self).root_pa == old(self).root_pa,
            final(fa).total == old(fa).total,
            final(fa).allocated == old(fa).allocated + 1,
            forall|k: int| 0 <= k < tcount(*old(self)) ==> pa_of(*final(self), k) == pa_of(*old(self), k),
            forall|k: int, j: int|
                0 <= k < tcount(*old(self)) && 0 <= j < 512 && (k != pk || j != pj)
                    ==> entry_of(*final(self), k, j) == entry_of(*old(self), k, j),
            forall|j: int| 0 <= j < 512 ==> entry_of(*final(self), nk as int, j).bits == 0,
            spec_is_directory(entry_of(*final(self), pk as int, pj as int)),
            entry_target(entry_of(*final(self), pk as int, pj as int)) == pa_of(*final(self), nk as int),
            !has_table(*old(self), pa_of(*final(self), nk as int)),
            forall|pa2: int|
                has_table(*old(self), pa2) ==> has_table(*final(self), pa2) && table_index(
                    *final(self),
                    pa2,
                ) == table_index(*old(self), pa2),
            table_index(*final(self), pa_of(*final(self), nk as int)) == nk,
            final(self).levels@ == old(self).levels@.push(lvl),
            final(self).parents@ == old(self).parents@.push((pk as int, pj as int)),
            forall|a: int| covered(lists_of(*final(fa)), a) ==> covered(lists_of(*old(fa)), a),
            covered(lists_of(*old(fa)), pa_of(*final(self), nk as int) / 4096),
    {
        proof {
            crate::buddy::lemma_free_page_available(*fa);
            vstd::arithmetic::power2::is_pow2_equiv(1);
            vstd::arithmetic::power2::lemma2_to64();
            assert(vstd::arithmetic::power2::is_pow2_exists(1)) by {
                assert(vstd::arithmetic::power::pow(2, 0) == 1) by {
                    vstd::arithmetic::power2::lemma_pow2(0);
                }
            }
        }
        let ppn = match fa.allocate(1, 1) {
            Some(v) => v,
            None => {
                proof {
                    assert(false) by {
                        assert(crate::buddy::order_spec(1) == 0) by {
                            let c = crate::buddy::order_spec(1);
                            if c != 0 {
                                vstd::arithmetic::power2::lemma_pow2_strictly_increases(0, c);
                            }
                        }
                    }
                }
                PhysPageNum(0)
            },
        };
        let pa = ppn.address();
        let ghost pre = *self;
        let nk = self.intrm_tables.len();
        proof {
            assert(pa.0 % 4096 == 0) by {
                vstd::arithmetic::div_mod::lemma_mod_multiples_basic(ppn.0 as int, 4096);
            }
            assert(pa.0 as int / 4096 == ppn.0) by {
                vstd::arithmetic::div_mod::lemma_div_multiples_vanish(ppn.0 as int, 4096);
            }
            // The fresh page was free, so it differs from every owned frame.
            assert forall|k: int| 0 <= k < tcount(pre) implies pa_of(pre, k) != pa.0 by {
                if pa_of(pre, k) == pa.0 {
                    assert(covered(lists_of(*old(fa)), pa_of(pre, k) / 4096));
                }
            }
        }
        self.intrm_tables.push(pa);
        self.levels.push(lvl);
        self.push_empty_frame();
        proof {
            self.parents@ = pre.parents@.push((pk as int, pj as int));
        }
        let e = PageTableEntry::new(pa, crate::pte::PTE_V);
        proof {
            crate::pte::lemma_entry_decompose(pa.0, 1);
            assert(ppn_of(e.bits) * 4096 == pa.0) by {
                vstd::arithmetic::div_mod::lemma_small_mod(
                    (pa.0 as int / 4096) as nat,
                    0x1000_0000_0000,
                );
                vstd::arithmetic::div_mod::lemma_fundamental_div_mod(pa.0 as int, 4096);
            }
            assert(spec_is_directory(e));
        }
        self.write_entry(pk, pj, e);
        proof {
            let post = *self;
            assert(tcount(post) == tcount(pre) + 1);
            assert forall|k: int| 0 <= k < tcount(pre) implies pa_of(post, k) == pa_of(pre, k) by {}
            assert(pa_of(post, nk as int) == pa.0);
            // Entry reads across the three mutations.
            assert forall|k: int, j: int|
                0 <= k < tcount(pre) && 0 <= j < 512 && (k != pk || j != pj) implies entry_of(
                post,
                k,
                j,
            ) == entry_of(pre, k, j) by {
                assert(k * 512 + j < tcount(pre) * 512) by {
                    vstd::arithmetic::mul::lemma_mul_inequality(k + 1, tcount(pre), 512);
                    vstd::arithmetic::mul::lemma_mul_is_distributive_add_other_way(512, k, 1);
                }
                assert(k * 512 + j != pk as int * 512 + pj) by {
                    if k != pk {
                        if k < pk {
                            vstd::arithmetic::mul::lemma_mul_inequality(k + 1, pk as int, 512);
                            vstd::arithmetic::mul::lemma_mul_is_distributive_add_other_way(
                                512,
                                k,
                                1,
                            );
                        } else {
                            vstd::arithmetic::mul::lemma_mul_inequality(pk as int + 1, k, 512);
                            vstd::arithmetic::mul::lemma_mul_is_distributive_add_other_way(
                                512,
                                pk as int,
                                1,
                            );
                        }
                    }
                }
            }
            assert forall|j: int| 0 <= j < 512 implies entry_of(post, nk as int, j).bits == 0 by {
                assert(nk as int * 512 + j >= tcount(pre) * 512) by {
                    vstd::arithmetic::mul::lemma_mul_inequality(nk as int, nk as int, 512);
                }
                assert(nk as int * 512 + j != pk as int * 512 + pj) by {
                    vstd::arithmetic::mul::lemma_mul_inequality(pk as int + 1, nk as int, 512);
                    vstd::arithmetic::mul::lemma_mul_is_distributive_add_other_way(
                        512,
                        pk as int,
                        1,
                    );
                }
                assert(nk as int * 512 + j < tcount(post) * 512) by {
                    vstd::arithmetic::mul::lemma_mul_is_distributive_add_other_way(
                        512,
                        nk as int,
                        1,
                    );
                }
            }
            assert(entry_of(post, pk as int, pj as int) == e) by {
                vstd::arithmetic::mul::lemma_mul_inequality(pk as int + 1, tcount(pre), 512);
                vstd::arithmetic::mul::lemma_mul_is_distributive_add_other_way(512, pk as int, 1);
            }
            // Index lookups are stable for old frames and find the new one.
            assert forall|pa2: int| has_table(pre, pa2) implies has_table(post, pa2)
                && table_index(post, pa2) == table_index(pre, pa2) by {
                let k0 = table_index(pre, pa2);
                assert(0 <= k0 < tcount(pre) && pa_of(pre, k0) == pa2);
                assert(0 <= k0 < tcount(post) && pa_of(post, k0) == pa2);
                let k1 = table_index(post, pa2);
                assert(0 <= k1 < tcount(post) && pa_of(post, k1) == pa2);
                if k1 != k0 {
                    if k1 == nk as int {
                        assert(pa_of(post, k1) == pa.0);
                        assert(pa_of(pre, k0) != pa.0);
                    } else {
                        assert(pa_of(pre, k1) == pa_of(pre, k0));
                    }
                }
            }
            assert(has_table(post, pa.0 as int)) by {
                assert(0 <= (nk as int) < tcount(post) && pa_of(post, nk as int) == pa.0);
            }
            assert(table_index(post, pa.0 as int) == nk) by {
                let k1 = table_index(post, pa.0 as int);
                if k1 != nk as int {
                    assert(pa_of(pre, k1) != pa.0);
                }
            }
            // Re-establish the structural invariant.
            assert(post.wf()) by {
                assert(tcount(post) * 512 == tcount(pre) * 512 + 512) by {
                    vstd::arithmetic::mul::lemma_mul_is_distributive_add_other_way(
                        512,
                        tcount(pre),
                        1,
                    );
                }
                assert forall|k: int, j: int|
                    0 <= k < tcount(post) && 0 <= j < 512 && spec_is_directory(
                        #[trigger] entry_of(post, k, j),
                    ) implies {
                    &&& post.levels@[k] >= 2
                    &&& has_table(post, entry_target(entry_of(post, k, j)))
                    &&& post.levels@[table_index(post, entry_target(entry_of(post, k, j)))]
                        == post.levels@[k] - 1
                    &&& post.parents@[table_index(post, entry_target(entry_of(post, k, j)))] == (
                    k,
                    j,
                    )
                } by {
                    if k == nk as int {
                        assert(entry_of(post, k, j).bits == 0);
                        assert(false);
                    } else if k == pk as int && j == pj {
                        assert(entry_of(post, k, j) == e);
                        assert(entry_target(e) == pa.0);
                    } else {
                        assert(entry_of(post, k, j) == entry_of(pre, k, j));
                        assert(has_table(pre, entry_target(entry_of(pre, k, j))));
                        let c = table_index(pre, entry_target(entry_of(pre, k, j)));
                        assert(c != nk as int);
                        if (c, j) == (pk as int, pj as int) {
                        }
                    }
                }
                assert forall|k: int, j: int|
                    0 <= k < tcount(post) && 0 <= j < 512 && post.levels@[k] == 2
                        implies !spec_is_leaf(#[trigger] entry_of(post, k, j)) by {
                    if k == nk as int {
                        assert(entry_of(post, k, j).bits == 0);
                    } else if k == pk as int && j == pj {
                        assert(entry_of(post, k, j) == e);
                    } else {
                        assert(entry_of(post, k, j) == entry_of(pre, k, j));
                    }
                }
                assert forall|k: int, j: int|
                    0 <= k < tcount(post) && 0 <= j < 512 && post.levels@[k] == 1
                        implies !spec_is_directory(#[trigger] entry_of(post, k, j)) by {
                    if k == nk as int {
                        assert(entry_of(post, k, j).bits == 0);
                    } else if k == pk as int && j == pj {
                        assert(post.levels@[k] == lvl + 1);
                    } else {
                        assert(entry_of(post, k, j) == entry_of(pre, k, j));
                    }
                }
                assert forall|k: int| 1 <= k < tcount(post) implies {
                    let (qk, qj) = #[trigger] post.parents@[k];
                    &&& 0 <= qk < tcount(post)
                    &&& 0 <= qj < 512
                    &&& spec_is_directory(entry_of(post, qk, qj))
                    &&& entry_target(entry_of(post, qk, qj)) == pa_of(post, k)
                    &&& post.levels@[qk] == post.levels@[k] + 1
                } by {
                    if k == nk as int {
                        assert(post.parents@[k] == (pk as int, pj as int));
                        assert(entry_of(post, pk as int, pj as int) == e);
                    } else {
                        let (qk, qj) = pre.parents@[k];
                        assert(0 <= qk < tcount(pre) && 0 <= qj < 512);
                        if qk == pk as int && qj == pj {
                            // The old entry there was absent, so it was the
                            // parent of nothing.
                            assert(spec_is_directory(entry_of(pre, qk, qj)));
                            assert(false);
                        }
                        assert(entry_of(post, qk, qj) == entry_of(pre, qk, qj));
                    }
                }
            }
            // The new frame came out of the free pages, which only shrink.
            assert forall|k: int| 0 <= k < tcount(post) implies !covered(
                lists_of(*fa),
                #[trigger] pa_of(post, k) / 4096,
            ) by {
                assert(covered(lists_of(*fa), pa_of(post, k) / 4096) ==> covered(
                    lists_of(*old(fa)),
                    pa_of(post, k) / 4096,
                ));
                if k == nk as int {
                    assert(pa_of(post, k) / 4096 == ppn.0);
                    assert(!covered(lists_of(*fa), ppn.0 as int));
                } else {
                    assert(pa_of(post, k) == pa_of(pre, k));
                }
            }
            // Before the allocation that page was free.
            assert(covered(lists_of(*old(fa)), ppn.0 as int));
            assert(pa_of(post, nk as int) / 4096 == ppn.0);
        }
        nk
    }
}


/// Creating one fresh, empty directory leaves every visible mapping, and
/// the sanity of every walk, unchanged.
proof fn lemma_create_preserves(pre: PageTable, post: PageTable, pk: int, pj: int, nk: int, lvl: u8)
    requires
        pre.wf(),
        post.wf(),
        nk == tcount(pre),
        tcount(post) == tcount(pre) + 1,
        forall|k: int| 0 <= k < tcount(pre) ==> pa_of(post, k) == pa_of(pre, k),
        forall|k: int, j: int|
            0 <= k < tcount(pre) && 0 <= j < 512 && (k != pk || j != pj) ==> entry_of(post, k, j)
                == entry_of(pre, k, j),
        forall|j: int| 0 <= j < 512 ==> entry_of(post, nk, j).bits == 0,
        0 <= pk < tcount(pre),
        0 <= pj < 512,
        !bit_set(entry_of(pre, pk, pj).bits, 1),
        spec_is_directory(entry_of(post, pk, pj)),
        entry_target(entry_of(post, pk, pj)) == pa_of(post, nk),
        !has_table(pre, pa_of(post, nk)),
        forall|pa2: int|
            has_table(pre, pa2) ==> has_table(post, pa2) && table_index(post, pa2) == table_index(
                pre,
                pa2,
            ),
        table_index(post, pa_of(post, nk)) == nk,
        pre.levels@[pk] as int == lvl as int + 1,
        lvl == 1 || lvl == 2,
        post.levels@ == pre.levels@.push(lvl),
    ensures
        forall|j3: int, j2: int, j1: int|
            0 <= j3 < 512 && 0 <= j2 < 512 && 0 <= j1 < 512 ==> #[trigger] leaf_entry(
                post,
                j3,
                j2,
                j1,
            ) == leaf_entry(pre, j3, j2, j1),
        forall|va2: int| walk_ok(pre, va2) ==> #[trigger] walk_ok(post, va2),
{
    assert forall|j3: int, j2: int, j1: int|
        0 <= j3 < 512 && 0 <= j2 < 512 && 0 <= j1 < 512 implies #[trigger] leaf_entry(
        post,
        j3,
        j2,
        j1,
    ) == leaf_entry(pre, j3, j2, j1) by {
        lemma_walk_compare(pre, post, pk, pj, nk, lvl, j3, j2, j1);
    }
    assert forall|va2: int| walk_ok(pre, va2) implies #[trigger] walk_ok(post, va2) by {
        let w3 = spec_p3_index(va2);
        let w2 = spec_p2_index(va2);
        vstd::arithmetic::div_mod::lemma_mod_bound(va2 / 0x4000_0000, 512);
        vstd::arithmetic::div_mod::lemma_mod_bound(va2 / 0x20_0000, 512);
        let e3pre = entry_of(pre, 0, w3);
        let e3post = entry_of(post, 0, w3);
        if pk == 0 && pj == w3 {
            assert(spec_is_directory(e3post));
            assert(table_index(post, entry_target(e3post)) == nk);
            assert(entry_of(post, nk, w2).bits == 0);
        } else {
            assert(e3post == e3pre);
            if spec_is_directory(e3pre) {
                let k2 = table_index(pre, entry_target(e3pre));
                assert(has_table(pre, entry_target(e3pre)));
                assert(table_index(post, entry_target(e3pre)) == k2);
                assert(0 <= k2 < tcount(pre));
                if k2 == pk && w2 == pj {
                    assert(spec_is_directory(entry_of(post, k2, w2)));
                } else {
                    assert(entry_of(post, k2, w2) == entry_of(pre, k2, w2));
                }
            }
        }
    }
}

/// Walk comparison for one path after creating a directory at `(pk, pj)`.
proof fn lemma_walk_compare(
    pre: PageTable,
    post: PageTable,
    pk: int,
    pj: int,
    nk: int,
    lvl: u8,
    j3: int,
    j2: int,
    j1: int,
)
    requires
        pre.wf(),
        post.wf(),
        nk == tcount(pre),
        tcount(post) == tcount(pre) + 1,
        forall|k: int| 0 <= k < tcount(pre) ==> pa_of(post, k) == pa_of(pre, k),
        forall|k: int, j: int|
            0 <= k < tcount(pre) && 0 <= j < 512 && (k != pk || j != pj) ==> entry_of(post, k, j)
                == entry_of(pre, k, j),
        forall|j: int| 0 <= j < 512 ==> entry_of(post, nk, j).bits == 0,
        0 <= pk < tcount(pre),
        0 <= pj < 512,
        !bit_set(entry_of(pre, pk, pj).bits, 1),
        spec_is_directory(entry_of(post, pk, pj)),
        entry_target(entry_of(post, pk, pj)) == pa_of(post, nk),
        !has_table(pre, pa_of(post, nk)),
        forall|pa2: int|
            has_table(pre, pa2) ==> has_table(post, pa2) && table_index(post, pa2) == table_index(
                pre,
                pa2,
            ),
        table_index(post, pa_of(post, nk)) == nk,
        pre.levels@[pk] as int == lvl as int + 1,
        lvl == 1 || lvl == 2,
        post.levels@ == pre.levels@.push(lvl),
        0 <= j3 < 512,
        0 <= j2 < 512,
        0 <= j1 < 512,
    ensures
        leaf_entry(post, j3, j2, j1) == leaf_entry(pre, j3, j2, j1),
{
    let e3pre = entry_of(pre, 0, j3);
    let e3post = entry_of(post, 0, j3);
    if pk == 0 && pj == j3 {
        // The entry that changed: it was absent, the path now ends in the
        // fresh empty directory.
        assert(!spec_is_directory(e3pre));
        assert(leaf_entry(pre, j3, j2, j1) is None);
        assert(spec_is_directory(e3post));
        assert(table_index(post, entry_target(e3post)) == nk);
        assert(entry_of(post, nk, j2).bits == 0);
        assert(!spec_is_directory(entry_of(post, nk, j2)));
        assert(leaf_entry(post, j3, j2, j1) is None);
    } else {
        assert(e3post == e3pre);
        if !spec_is_directory(e3pre) {
        } else {
            let t3 = entry_target(e3pre);
            assert(has_table(pre, t3));
            let k2 = table_index(pre, t3);
            assert(table_index(post, t3) == k2);
            assert(0 <= k2 < tcount(pre));
            assert(pre.levels@[k2] == 2);
            if k2 == pk && j2 == pj {
                assert(!spec_is_directory(entry_of(pre, k2, j2)));
                assert(leaf_entry(pre, j3, j2, j1) is None);
                assert(spec_is_directory(entry_of(post, k2, j2)));
                assert(table_index(post, entry_target(entry_of(post, k2, j2))) == nk);
                assert(entry_of(post, nk, j1).bits == 0);
                assert(!bit_set(entry_of(post, nk, j1).bits, 1)) by {
                    assert(0u64 / 1 % 2 == 0);
                }
                assert(leaf_entry(post, j3, j2, j1) is None);
            } else {
                assert(entry_of(post, k2, j2) == entry_of(pre, k2, j2));
                let e2 = entry_of(pre, k2, j2);
                if !spec_is_directory(e2) {
                } else {
                    let t2 = entry_target(e2);
                    assert(has_table(pre, t2));
                    let k1 = table_index(pre, t2);
                    assert(table_index(post, t2) == k1);
                    assert(0 <= k1 < tcount(pre));
                    assert(pre.levels@[k1] == 1);
                    assert(k1 != pk || j1 != pj || pre.levels@[pk] == 1);
                    if k1 == pk && j1 == pj {
                        assert(pre.levels@[pk] == 1);
                        assert(spec_is_directory(entry_of(post, pk, pj)));
                        assert(post.levels@[pk] == 1);
                        assert(false);
                    }
                    assert(entry_of(post, k1, j1) == entry_of(pre, k1, j1));
                }
            }
        }
    }
}


impl PageTable {
    /// Installs the mapping `va -> pa` with the flag field `perm | Valid`,
    /// allocating any missing intermediate directory, and overwriting
    /// whatever leaf was present. Fails with `OutOfMemory`, leaving both the
    /// table and the pool unchanged, exactly when the pool has fewer free
    /// pages than missing directories on the path.
    /// Walks to the level-1 table for `va`, creating the missing
    /// directories; returns the indices of the level-2 and level-1 tables.
    #[verifier::rlimit(100)]
    fn ensure_path(&mut self, fa: &mut FrameAllocator, va: VirtAddr) -> (r: (usize, usize))
        requires
            old(self).wf(),
            old(fa).wf(),
            old(self).tables_unmapped(*old(fa)),
            walk_ok(*old(self), va.0 as int),
            tcount(*old(self)) < 0x10_0000,
            free_pages(*old(fa)) >= dirs_needed(*old(self), va.0 as int),
        ensures
            final(self).wf(),
            final(fa).wf(),
            final(self).tables_unmapped(*final(fa)),
            final(self).root_pa == old(self).root_pa,
            final(fa).total == old(fa).total,
            final(fa).allocated == old(fa).allocated + dirs_needed(*old(self), va.0 as int),
            tcount(*final(self)) <= tcount(*old(self)) + 2,
            tcount(*final(self)) == tcount(*old(self)) + dirs_needed(*old(self), va.0 as int),
            forall|k: int|
                0 <= k < tcount(*old(self)) ==> #[trigger] pa_of(*final(self), k) == pa_of(
                    *old(self),
                    k,
                ),
            forall|k: int|
                tcount(*old(self)) <= k < tcount(*final(self)) ==> covered(
                    lists_of(*old(fa)),
                    #[trigger] pa_of(*final(self), k) / 4096,
                ),
            ({
                let j3 = spec_p3_index(va.0 as int);
                let j2 = spec_p2_index(va.0 as int);
                let e3 = entry_of(*final(self), 0, j3);
                &&& spec_is_directory(e3)
                &&& table_index(*final(self), entry_target(e3)) == r.0
                &&& 0 <= r.0 < tcount(*final(self))
                &&& final(self).levels@[r.0 as int] == 2
                &&& spec_is_directory(entry_of(*final(self), r.0 as int, j2))
                &&& table_index(
                    *final(self),
                    entry_target(entry_of(*final(self), r.0 as int, j2)),
                ) == r.1
                &&& 0 <= r.1 < tcount(*final(self))
                &&& final(self).levels@[r.1 as int] == 1
                &&& final(self).parents@[r.1 as int] == (r.0 as int, j2)
                &&& final(self).parents@[r.0 as int] == (0int, j3)
            }),
            forall|x3: int, x2: int, x1: int|
                0 <= x3 < 512 && 0 <= x2 < 512 && 0 <= x1 < 512 ==> #[trigger] leaf_entry(
                    *final(self),
                    x3,
                    x2,
                    x1,
                ) == leaf_entry(*old(self), x3, x2, x1),
            forall|va2: int| walk_ok(*old(self), va2) ==> #[trigger] walk_ok(*final(self), va2),
            forall|j: int|
                0 <= j < 512 && j != spec_p3_index(va.0 as int) ==> #[trigger] entry_of(
                    *final(self),
                    0,
                    j,
                ) == entry_of(*old(self), 0, j),
            forall|va2: int|
                path_present(*old(self), va2) ==> #[trigger] path_present(*final(self), va2),
            forall|a: int| covered(lists_of(*final(fa)), a) ==> covered(lists_of(*old(fa)), a),
    {
        let j3 = va.p3_index();
        let j2 = va.p2_index();
        proof {
            vstd::arithmetic::div_mod::lemma_mod_bound(va.0 as int / 0x4000_0000, 512);
            vstd::arithmetic::div_mod::lemma_mod_bound(va.0 as int / 0x20_0000, 512);
            vstd::arithmetic::div_mod::lemma_div_pos_is_pos(va.0 as int, 0x4000_0000);
            vstd::arithmetic::div_mod::lemma_div_pos_is_pos(va.0 as int, 0x20_0000);
            assert(tcount(*self) * 512 <= 0x10_0000 * 512) by (nonlinear_arith)
                requires
                    tcount(*self) <= 0x10_0000,
            ;
        }
        let ghost pt0 = *self;
        let e3 = self.read_entry(0, j3);
        let k2: usize;
        if e3.is_valid() {
            k2 = match self.locate(e3.pa().0) {
                Some(k) => k,
                None => {
                    proof {
                        assert(false);
                    }
                    0
                },
            };
        } else {
            k2 = self.create_table(fa, 0, j3, 2);
            proof {
                lemma_create_preserves(pt0, *self, 0, j3 as int, k2 as int, 2);
            }
        }
        let ghost pt1 = *self;
        proof {
            assert((k2 as int + 1) * 512 <= tcount(pt1) * 512) by (nonlinear_arith)
                requires
                    k2 as int + 1 <= tcount(pt1),
            ;
        }
        let e2 = self.read_entry(k2, j2);
        let k1: usize;
        if e2.is_valid() {
            proof {
                assert(spec_is_directory(entry_of(pt1, k2 as int, j2 as int))) by {
                    if bit_set(e3.bits, 1) {
                        assert(walk_ok(pt0, va.0 as int));
                    } else {
                        assert(entry_of(pt1, k2 as int, j2 as int).bits == 0);
                    }
                }
            }
            k1 = match self.locate(e2.pa().0) {
                Some(k) => k,
                None => {
                    proof {
                        assert(false);
                    }
                    0
                },
            };
        } else {
            proof {
                assert(tcount(pt1) * 512 + 512 <= usize::MAX) by (nonlinear_arith)
                    requires
                        tcount(pt1) <= 0x10_0000 + 1,
                ;
            }
            k1 = self.create_table(fa, k2, j2, 1);
            proof {
                lemma_create_preserves(pt1, *self, k2 as int, j2 as int, k1 as int, 1);
            }
        }
        proof {
            let post = *self;
            assert forall|j: int| 0 <= j < 512 && j != j3 as int implies #[trigger] entry_of(
                post,
                0,
                j,
            ) == entry_of(pt0, 0, j) by {
                assert(entry_of(pt1, 0, j) == entry_of(pt0, 0, j));
                assert(entry_of(post, 0, j) == entry_of(pt1, 0, j)) by {
                    if tcount(post) != tcount(pt1) {
                        assert(pt1.levels@[k2 as int] == 2);
                    }
                }
            }
            assert forall|va2: int| path_present(pt0, va2) implies #[trigger] path_present(
                post,
                va2,
            ) by {
                let w3 = spec_p3_index(va2);
                let w2 = spec_p2_index(va2);
                vstd::arithmetic::div_mod::lemma_mod_bound(va2 / 0x4000_0000, 512);
                vstd::arithmetic::div_mod::lemma_mod_bound(va2 / 0x20_0000, 512);
                let e3o = entry_of(pt0, 0, w3);
                assert(spec_is_directory(e3o));
                assert(entry_of(pt1, 0, w3) == e3o);
                assert(entry_of(post, 0, w3) == e3o) by {
                    if tcount(post) != tcount(pt1) {
                        assert(pt1.levels@[k2 as int] == 2);
                    }
                }
                let c2 = table_index(pt0, entry_target(e3o));
                assert(has_table(pt0, entry_target(e3o)));
                assert(table_index(pt1, entry_target(e3o)) == c2);
                assert(table_index(post, entry_target(e3o)) == c2);
                assert(0 <= c2 < tcount(pt0) && pt0.levels@[c2] == 2);
                let e2o = entry_of(pt0, c2, w2);
                assert(spec_is_directory(e2o));
                assert(entry_of(pt1, c2, w2) == e2o);
                assert(entry_of(post, c2, w2) == e2o || spec_is_directory(
                    entry_of(post, c2, w2),
                ));
            }
        }
        (k2, k1)
    }

    /// Installs the mapping `va -> pa` with the flag field `perm | Valid`,
    /// allocating any missing intermediate directory, and overwriting
    /// whatever leaf was present. Fails with `OutOfMemory`, leaving both the
    /// table and the pool unchanged, exactly when the pool has fewer free
    /// pages than missing directories on the path.
    #[verifier::rlimit(100)]
    pub fn map_page(
        &mut self,
        fa: &mut FrameAllocator,
        va: VirtAddr,
        pa: PhysAddr,
        perm: u16,
    ) -> (r: Result<(), MapError>)
        requires
            old(self).wf(),
            old(fa).wf(),
            old(self).tables_unmapped(*old(fa)),
            perm <= 0x3FF,
            bit_set(perm as u64, 2) || bit_set(perm as u64, 4) || bit_set(perm as u64, 8)
                || bit_set(perm as u64, 16),
            walk_ok(*old(self), va.0 as int),
            tcount(*old(self)) < 0x10_0000,
        ensures
            final(self).wf(),
            final(fa).wf(),
            final(self).tables_unmapped(*final(fa)),
            final(self).root_pa == old(self).root_pa,
            final(fa).total == old(fa).total,
            tcount(*final(self)) <= tcount(*old(self)) + 2,
            (r is Ok) <==> free_pages(*old(fa)) >= dirs_needed(*old(self), va.0 as int),
            (r is Err) ==> *final(self) == *old(self) && *final(fa) == *old(fa),
            (r is Ok) ==> {
                &&& final(fa).allocated == old(fa).allocated + dirs_needed(
                    *old(self),
                    va.0 as int,
                )
                &&& tcount(*final(self)) == tcount(*old(self)) + dirs_needed(
                    *old(self),
                    va.0 as int,
                )
                &&& forall|k: int|
                    0 <= k < tcount(*old(self)) ==> #[trigger] pa_of(*final(self), k) == pa_of(
                        *old(self),
                        k,
                    )
                &&& forall|k: int|
                    tcount(*old(self)) <= k < tcount(*final(self)) ==> covered(
                        lists_of(*old(fa)),
                        #[trigger] pa_of(*final(self), k) / 4096,
                    )
                &&& forall|j3: int, j2: int, j1: int|
                    0 <= j3 < 512 && 0 <= j2 < 512 && 0 <= j1 < 512 ==> #[trigger] leaf_entry(
                        *final(self),
                        j3,
                        j2,
                        j1,
                    ) == (if j3 == spec_p3_index(va.0 as int) && j2 == spec_p2_index(va.0 as int)
                        && j1 == spec_p1_index(va.0 as int) {
                        Option::Some(
                            PageTableEntry {
                                bits: entry_bits(pa.0, crate::pte::flags_with(perm, 1)),
                            },
                        )
                    } else {
                        leaf_entry(*old(self), j3, j2, j1)
                    })
                &&& forall|va2: int| walk_ok(*old(self), va2) ==> #[trigger] walk_ok(
                    *final(self),
                    va2,
                )
                &&& forall|j: int|
                    0 <= j < 512 && j != spec_p3_index(va.0 as int) ==> #[trigger] entry_of(
                        *final(self),
                        0,
                        j,
                    ) == entry_of(*old(self), 0, j)
                &&& forall|va2: int|
                    path_present(*old(self), va2) ==> #[trigger] path_present(*final(self), va2)
                &&& path_present(*final(self), va.0 as int)
                &&& forall|a: int|
                    covered(lists_of(*final(fa)), a) ==> covered(lists_of(*old(fa)), a)
            },
    {
        let j3 = va.p3_index();
        let j2 = va.p2_index();
        let j1 = va.p1_index();
        proof {
            vstd::arithmetic::div_mod::lemma_mod_bound(va.0 as int / 0x4000_0000, 512);
            vstd::arithmetic::div_mod::lemma_mod_bound(va.0 as int / 0x20_0000, 512);
            vstd::arithmetic::div_mod::lemma_mod_bound(va.0 as int / 0x1000, 512);
            vstd::arithmetic::div_mod::lemma_div_pos_is_pos(va.0 as int, 0x4000_0000);
            vstd::arithmetic::div_mod::lemma_div_pos_is_pos(va.0 as int, 0x20_0000);
            vstd::arithmetic::div_mod::lemma_div_pos_is_pos(va.0 as int, 0x1000);
            assert(tcount(*self) * 512 <= 0x10_0000 * 512) by (nonlinear_arith)
                requires
                    tcount(*self) <= 0x10_0000,
            ;
        }
        // First pass: count the missing directories without mutating.
        let e3 = self.read_entry(0, j3);
        let needed: u64;
        if e3.is_valid() {
            let k2 = match self.locate(e3.pa().0) {
                Some(k) => k,
                None => {
                    proof {
                        assert(false);
                    }
                    0
                },
            };
            let e2 = self.read_entry(k2, j2);
            needed = if e2.is_valid() {
                0
            } else {
                1
            };
        } else {
            needed = 2;
        }
        proof {
            assert(needed == dirs_needed(*self, va.0 as int));
        }
        if fa.total - fa.allocated < needed {
            return Err(MapError::OutOfMemory);
        }
        let ghost pt0 = *self;
        let (k2, k1) = self.ensure_path(fa, va);
        let ghost pt2 = *self;
        let leaf = PageTableEntry::new(pa, crate::pte::flag_union(perm, crate::pte::PTE_V));
        proof {
            crate::pte::lemma_entry_decompose(pa.0, crate::pte::flags_with(perm, 1));
            assert(spec_is_leaf(leaf));
            assert(!spec_is_directory(leaf));
            assert(pt2.levels@[k1 as int] == 1);
            assert((k1 as int + 1) * 512 <= pt2.frames@.len()) by (nonlinear_arith)
                requires
                    k1 as int + 1 <= tcount(pt2),
                    pt2.frames@.len() == tcount(pt2) * 512,
            ;
        }
        self.write_entry(k1, j1, leaf);
        proof {
            let post = *self;
            lemma_leaf_write(pt2, post, k1 as int, j1 as int, leaf);
            assert(entry_of(post, k1 as int, j1 as int) == leaf) by {
                assert(k1 as int * 512 + j1 < tcount(pt2) * 512) by (nonlinear_arith)
                    requires
                        k1 as int + 1 <= tcount(pt2),
                        0 <= j1 < 512,
                ;
            }
            // The installed leaf is what the walk for va now reads.
            assert(spec_is_directory(entry_of(post, 0, j3 as int)));
            assert(table_index(post, entry_target(entry_of(post, 0, j3 as int))) == k2);
            assert(spec_is_directory(entry_of(post, k2 as int, j2 as int)));
            assert(table_index(post, entry_target(entry_of(post, k2 as int, j2 as int)))
                == k1);
            assert(leaf_entry(post, j3 as int, j2 as int, j1 as int) == Option::Some(leaf));
            assert forall|x3: int, x2: int, x1: int|
                0 <= x3 < 512 && 0 <= x2 < 512 && 0 <= x1 < 512 implies #[trigger] leaf_entry(
                post,
                x3,
                x2,
                x1,
            ) == (if x3 == j3 && x2 == j2 && x1 == j1 {
                Option::Some(leaf)
            } else {
                leaf_entry(pt0, x3, x2, x1)
            }) by {
                if x3 == j3 && x2 == j2 && x1 == j1 {
                } else {
                    assert(leaf_entry(pt2, x3, x2, x1) == leaf_entry(pt0, x3, x2, x1));
                    lemma_leaf_write_other(pt2, post, k1 as int, j1 as int, leaf, k2 as int, j2 as int, j3 as int, x3, x2, x1);
                }
            }
            assert forall|k: int| 0 <= k < tcount(post) implies !covered(
                lists_of(*fa),
                #[trigger] pa_of(post, k) / 4096,
            ) by {
                assert(pa_of(post, k) == pa_of(pt2, k));
                assert(!covered(lists_of(*fa), pa_of(pt2, k) / 4096));
            }
            assert forall|j: int| 0 <= j < 512 && j != j3 as int implies #[trigger] entry_of(
                post,
                0,
                j,
            ) == entry_of(pt0, 0, j) by {
                assert(entry_of(post, 0, j) == entry_of(pt2, 0, j)) by {
                    assert(pt2.levels@[k1 as int] == 1);
                }
            }
            assert(tcount(post) == tcount(pt2) && post.intrm_tables@ == pt2.intrm_tables@);
            assert(tcount(pt2) == tcount(pt0) + dirs_needed(pt0, va.0 as int));
            assert forall|k: int| 0 <= k < tcount(pt0) implies #[trigger] pa_of(post, k) == pa_of(
                pt0,
                k,
            ) by {
                assert(pa_of(post, k) == pa_of(pt2, k));
            }
            assert forall|k: int| tcount(pt0) <= k < tcount(post) implies covered(
                lists_of(*old(fa)),
                #[trigger] pa_of(post, k) / 4096,
            ) by {
                assert(pa_of(post, k) == pa_of(pt2, k));
            }
            assert forall|va2: int| path_present(pt0, va2) implies #[trigger] path_present(
                post,
                va2,
            ) by {
                assert(path_present(pt2, va2));
                let w3 = spec_p3_index(va2);
                let w2 = spec_p2_index(va2);
                vstd::arithmetic::div_mod::lemma_mod_bound(va2 / 0x4000_0000, 512);
                vstd::arithmetic::div_mod::lemma_mod_bound(va2 / 0x20_0000, 512);
                let e3o = entry_of(pt2, 0, w3);
                assert(spec_is_directory(e3o));
                assert(entry_of(post, 0, w3) == e3o);
                let c2 = table_index(pt2, entry_target(e3o));
                assert(has_table(pt2, entry_target(e3o)));
                assert(table_index(post, entry_target(e3o)) == c2);
                assert(0 <= c2 < tcount(pt2) && pt2.levels@[c2] == 2);
                assert(c2 != k1 as int);
                assert(entry_of(post, c2, w2) == entry_of(pt2, c2, w2));
            }
        }
        Ok(())
    }
}

/// Overwriting one entry of a level-1 frame with a leaf preserves the
/// structural invariant and the sanity of every walk.
proof fn lemma_leaf_write(pre: PageTable, post: PageTable, k1: int, j1: int, leaf: PageTableEntry)
    requires
        pre.wf(),
        0 <= k1 < tcount(pre),
        0 <= j1 < 512,
        pre.levels@[k1] == 1,
        !spec_is_directory(leaf),
        post.frames@ == pre.frames@.update(k1 * 512 + j1, leaf),
        post.root_pa == pre.root_pa,
        post.intrm_tables == pre.intrm_tables,
        post.levels == pre.levels,
        post.parents == pre.parents,
    ensures
        post.wf(),
        forall|k: int, j: int|
            0 <= k < tcount(pre) && 0 <= j < 512 && (k != k1 || j != j1) ==> entry_of(post, k, j)
                == entry_of(pre, k, j),
        forall|va2: int| walk_ok(pre, va2) ==> #[trigger] walk_ok(post, va2),
        forall|pa2: int|
            has_table(pre, pa2) ==> has_table(post, pa2) && table_index(post, pa2) == table_index(
                pre,
                pa2,
            ),
{
    assert(0 <= k1 * 512 + j1 < tcount(pre) * 512) by (nonlinear_arith)
        requires
            0 <= k1,
            k1 + 1 <= tcount(pre),
            0 <= j1 < 512,
    ;
    assert forall|k: int, j: int|
        0 <= k < tcount(pre) && 0 <= j < 512 && (k != k1 || j != j1) implies entry_of(post, k, j)
            == entry_of(pre, k, j) by {
        assert(0 <= k * 512 + j < tcount(pre) * 512 && k * 512 + j != k1 * 512 + j1)
            by (nonlinear_arith)
            requires
                0 <= k,
                k + 1 <= tcount(pre),
                0 <= j < 512,
                0 <= j1 < 512,
                0 <= k1,
                (k != k1 || j != j1),
    ;
    }
    assert(entry_of(post, k1, j1) == leaf);
    assert(post.intrm_tables@ == pre.intrm_tables@);
    assert forall|k: int| 0 <= k < tcount(pre) implies #[trigger] pa_of(post, k) == pa_of(
        pre,
        k,
    ) by {}
    assert forall|pa2: int| has_table(pre, pa2) implies has_table(post, pa2) && table_index(
        post,
        pa2,
    ) == table_index(pre, pa2) by {
        let k0 = table_index(pre, pa2);
        assert(0 <= k0 < tcount(pre) && pa_of(pre, k0) == pa2);
        assert(0 <= k0 < tcount(post) && pa_of(post, k0) == pa2);
        assert(has_table(post, pa2));
        let kp = table_index(post, pa2);
        assert(0 <= kp < tcount(post) && pa_of(post, kp) == pa2);
        if kp != k0 {
            assert(pa_of(pre, kp) == pa_of(post, kp));
            assert(pa_of(pre, kp) != pa_of(pre, k0));
        }
    }
    assert(post.wf()) by {
        assert forall|k: int, j: int|
            0 <= k < tcount(post) && 0 <= j < 512 && spec_is_directory(
                #[trigger] entry_of(post, k, j),
            ) implies {
            &&& post.levels@[k] >= 2
            &&& has_table(post, entry_target(entry_of(post, k, j)))
            &&& post.levels@[table_index(post, entry_target(entry_of(post, k, j)))]
                == post.levels@[k] - 1
            &&& post.parents@[table_index(post, entry_target(entry_of(post, k, j)))] == (k, j)
        } by {
            if k == k1 && j == j1 {
                assert(false);
            } else {
                assert(entry_of(post, k, j) == entry_of(pre, k, j));
            }
        }
        assert forall|k: int, j: int|
            0 <= k < tcount(post) && 0 <= j < 512 && post.levels@[k] == 2 implies !spec_is_leaf(
            #[trigger] entry_of(post, k, j),
        ) by {
            if k == k1 && j == j1 {
                assert(false);
            } else {
                assert(entry_of(post, k, j) == entry_of(pre, k, j));
            }
        }
        assert forall|k: int, j: int|
            0 <= k < tcount(post) && 0 <= j < 512 && post.levels@[k] == 1
                implies !spec_is_directory(#[trigger] entry_of(post, k, j)) by {
            if k == k1 && j == j1 {
            } else {
                assert(entry_of(post, k, j) == entry_of(pre, k, j));
            }
        }
        assert forall|k: int| 1 <= k < tcount(post) implies {
            let (qk, qj) = #[trigger] post.parents@[k];
            &&& 0 <= qk < tcount(post)
            &&& 0 <= qj < 512
            &&& spec_is_directory(entry_of(post, qk, qj))
            &&& entry_target(entry_of(post, qk, qj)) == pa_of(post, k)
            &&& post.levels@[qk] == post.levels@[k] + 1
        } by {
            let (qk, qj) = pre.parents@[k];
            assert(spec_is_directory(entry_of(pre, qk, qj)));
            if qk == k1 && qj == j1 {
                assert(pre.levels@[qk] == 1);
                assert(false);
            }
            assert(entry_of(post, qk, qj) == entry_of(pre, qk, qj));
        }
    }
    assert forall|va2: int| walk_ok(pre, va2) implies #[trigger] walk_ok(post, va2) by {
        let w3 = spec_p3_index(va2);
        let w2 = spec_p2_index(va2);
        vstd::arithmetic::div_mod::lemma_mod_bound(va2 / 0x4000_0000, 512);
        vstd::arithmetic::div_mod::lemma_mod_bound(va2 / 0x20_0000, 512);
        assert(k1 != 0);
        assert(entry_of(post, 0, w3) == entry_of(pre, 0, w3));
        if spec_is_directory(entry_of(pre, 0, w3)) {
            let k2 = table_index(pre, entry_target(entry_of(pre, 0, w3)));
            assert(has_table(pre, entry_target(entry_of(pre, 0, w3))));
            assert(0 <= k2 < tcount(pre) && pre.levels@[k2] == 2);
            assert(k2 != k1);
            assert(entry_of(post, k2, w2) == entry_of(pre, k2, w2));
        }
    }
}

/// A leaf write in a level-1 frame changes no other visible mapping.
proof fn lemma_leaf_write_other(
    pre: PageTable,
    post: PageTable,
    k1: int,
    j1: int,
    leaf: PageTableEntry,
    k2: int,
    j2: int,
    j3: int,
    x3: int,
    x2: int,
    x1: int,
)
    requires
        pre.wf(),
        post.wf(),
        0 <= k1 < tcount(pre),
        0 <= j1 < 512,
        pre.levels@[k1] == 1,
        post.frames@ == pre.frames@.update(k1 * 512 + j1, leaf),
        post.root_pa == pre.root_pa,
        post.intrm_tables == pre.intrm_tables,
        post.levels == pre.levels,
        post.parents == pre.parents,
        0 <= k2 < tcount(pre),
        0 <= j2 < 512,
        0 <= j3 < 512,
        pre.parents@[k1] == (k2, j2),
        pre.parents@[k2] == (0int, j3),
        0 <= x3 < 512,
        0 <= x2 < 512,
        0 <= x1 < 512,
        !(x3 == j3 && x2 == j2 && x1 == j1),
    ensures
        leaf_entry(post, x3, x2, x1) == leaf_entry(pre, x3, x2, x1),
{
    assert forall|k: int, j: int|
        0 <= k < tcount(pre) && 0 <= j < 512 && (k != k1 || j != j1) implies #[trigger] entry_of(
        post,
        k,
        j,
    ) == entry_of(pre, k, j) by {
        assert(0 <= k * 512 + j < tcount(pre) * 512 && k * 512 + j != k1 * 512 + j1)
            by (nonlinear_arith)
            requires
                0 <= k,
                k + 1 <= tcount(pre),
                0 <= j < 512,
                0 <= j1 < 512,
                0 <= k1,
                (k != k1 || j != j1),
        ;
    }
    assert(post.intrm_tables@ == pre.intrm_tables@);
    assert forall|pa2: int| has_table(pre, pa2) implies table_index(post, pa2) == table_index(
        pre,
        pa2,
    ) by {
        let k0 = table_index(pre, pa2);
        assert(0 <= k0 < tcount(pre) && pa_of(pre, k0) == pa2);
        assert(0 <= k0 < tcount(post) && pa_of(post, k0) == pa2);
        assert(has_table(post, pa2));
        let kp = table_index(post, pa2);
        assert(0 <= kp < tcount(post) && pa_of(post, kp) == pa2);
        if kp != k0 {
            assert(pa_of(pre, kp) == pa_of(post, kp));
            assert(pa_of(pre, kp) != pa_of(pre, k0));
        }
    }
    assert(k1 != 0);
    let e3 = entry_of(pre, 0, x3);
    assert(entry_of(post, 0, x3) == e3);
    if spec_is_directory(e3) {
        let c2 = table_index(pre, entry_target(e3));
        assert(has_table(pre, entry_target(e3)));
        assert(0 <= c2 < tcount(pre) && pre.levels@[c2] == 2);
        assert(c2 != k1);
        assert(entry_of(post, c2, x2) == entry_of(pre, c2, x2));
        let e2 = entry_of(pre, c2, x2);
        if spec_is_directory(e2) {
            let c1 = table_index(pre, entry_target(e2));
            assert(has_table(pre, entry_target(e2)));
            assert(0 <= c1 < tcount(pre) && pre.levels@[c1] == 1);
            if c1 == k1 && x1 == j1 {
                // Same final slot: the whole path must coincide.
                assert(pre.parents@[c1] == (c2, x2));
                assert(c2 == k2 && x2 == j2);
                assert(pre.parents@[c2] == (0int, x3));
                assert(x3 == j3);
                assert(false);
            }
            assert(entry_of(post, c1, x1) == entry_of(pre, c1, x1));
        }
    }
}


impl PageTable {
    /// Translates `va`: the physical address of its leaf page plus the
    /// offset of `va` within the page.
    pub fn query(&self, va: VirtAddr) -> (r: PhysAddr)
        requires
            self.wf(),
            leaf_entry_va(*self, va.0 as int) is Some,
        ensures
            r.0 == entry_target(leaf_entry_va(*self, va.0 as int)->Some_0) + va.0 as int % 4096,
    {
        let j3 = va.p3_index();
        let j2 = va.p2_index();
        let j1 = va.p1_index();
        proof {
            vstd::arithmetic::div_mod::lemma_mod_bound(va.0 as int / 0x4000_0000, 512);
            vstd::arithmetic::div_mod::lemma_mod_bound(va.0 as int / 0x20_0000, 512);
            vstd::arithmetic::div_mod::lemma_mod_bound(va.0 as int / 0x1000, 512);
            vstd::arithmetic::div_mod::lemma_div_pos_is_pos(va.0 as int, 0x4000_0000);
            vstd::arithmetic::div_mod::lemma_div_pos_is_pos(va.0 as int, 0x20_0000);
            vstd::arithmetic::div_mod::lemma_div_pos_is_pos(va.0 as int, 0x1000);
            assert(tcount(*self) * 512 == self.frames@.len());
        }
        let e3 = self.read_entry(0, j3);
        let k2 = match self.locate(e3.pa().0) {
            Some(k) => k,
            None => {
                proof {
                    assert(false);
                }
                0
            },
        };
        proof {
            assert((k2 as int + 1) * 512 <= tcount(*self) * 512) by (nonlinear_arith)
                requires
                    k2 as int + 1 <= tcount(*self),
            ;
        }
        let e2 = self.read_entry(k2, j2);
        let k1 = match self.locate(e2.pa().0) {
            Some(k) => k,
            None => {
                proof {
                    assert(false);
                }
                0
            },
        };
        proof {
            assert((k1 as int + 1) * 512 <= tcount(*self) * 512) by (nonlinear_arith)
                requires
                    k1 as int + 1 <= tcount(*self),
            ;
        }
        let e1 = self.read_entry(k1, j1);
        let base = e1.pa();
        let off = va.offset();
        PhysAddr(base.0 + off)
    }

    /// Reads the leaf entry mapped for the page `vpn`, if any.
    pub fn get_pte_copied_from_vpn(&self, vpn: VirtPageNum) -> (r: Option<PageTableEntry>)
        requires
            self.wf(),
            vpn.0 < 0x10_0000_0000_0000,
            walk_ok(*self, vpn.0 as int * 4096),
        ensures
            r == leaf_entry_va(*self, vpn.0 as int * 4096),
    {
        let va = vpn.address();
        let j3 = va.p3_index();
        let j2 = va.p2_index();
        let j1 = va.p1_index();
        proof {
            vstd::arithmetic::div_mod::lemma_mod_bound(va.0 as int / 0x4000_0000, 512);
            vstd::arithmetic::div_mod::lemma_mod_bound(va.0 as int / 0x20_0000, 512);
            vstd::arithmetic::div_mod::lemma_mod_bound(va.0 as int / 0x1000, 512);
            vstd::arithmetic::div_mod::lemma_div_pos_is_pos(va.0 as int, 0x4000_0000);
            vstd::arithmetic::div_mod::lemma_div_pos_is_pos(va.0 as int, 0x20_0000);
            vstd::arithmetic::div_mod::lemma_div_pos_is_pos(va.0 as int, 0x1000);
            assert(tcount(*self) * 512 == self.frames@.len());
        }
        let e3 = self.read_entry(0, j3);
        if !e3.is_valid() {
            return None;
        }
        let k2 = match self.locate(e3.pa().0) {
            Some(k) => k,
            None => {
                proof {
                    assert(false);
                }
                0
            },
        };
        proof {
            assert((k2 as int + 1) * 512 <= tcount(*self) * 512) by (nonlinear_arith)
                requires
                    k2 as int + 1 <= tcount(*self),
            ;
        }
        let e2 = self.read_entry(k2, j2);
        if !e2.is_valid() {
            return None;
        }
        let k1 = match self.locate(e2.pa().0) {
            Some(k) => k,
            None => {
                proof {
                    assert(false);
                }
                0
            },
        };
        proof {
            assert((k1 as int + 1) * 512 <= tcount(*self) * 512) by (nonlinear_arith)
                requires
                    k1 as int + 1 <= tcount(*self),
            ;
        }
        let e1 = self.read_entry(k1, j1);
        if e1.is_valid() {
            Some(e1)
        } else {
            None
        }
    }

    /// Clears the leaf mapped at `va` and returns the physical address that
    /// had been mapped; when `dealloc` is set the leaf's frame goes back to
    /// the pool.
    pub fn unmap_page(&mut self, fa: &mut FrameAllocator, va: VirtAddr, dealloc: bool) -> (r:
        PhysAddr)
        requires
            old(self).wf(),
            old(fa).wf(),
            old(self).tables_unmapped(*old(fa)),
            leaf_entry_va(*old(self), va.0 as int) is Some,
            spec_is_leaf(leaf_entry_va(*old(self), va.0 as int)->Some_0),
            dealloc ==> old(fa).allocated >= 1,
            dealloc ==> !covered(
                lists_of(*old(fa)),
                ppn_of(leaf_entry_va(*old(self), va.0 as int)->Some_0.bits) as int,
            ),
            dealloc ==> forall|k: int|
                0 <= k < tcount(*old(self)) ==> #[trigger] pa_of(*old(self), k) != entry_target(
                    leaf_entry_va(*old(self), va.0 as int)->Some_0,
                ),
        ensures
            final(self).wf(),
            final(fa).wf(),
            final(self).tables_unmapped(*final(fa)),
            final(self).root_pa == old(self).root_pa,
            r.0 == entry_target(leaf_entry_va(*old(self), va.0 as int)->Some_0),
            forall|x3: int, x2: int, x1: int|
                0 <= x3 < 512 && 0 <= x2 < 512 && 0 <= x1 < 512 ==> #[trigger] leaf_entry(
                    *final(self),
                    x3,
                    x2,
                    x1,
                ) == (if x3 == spec_p3_index(va.0 as int) && x2 == spec_p2_index(va.0 as int) && x1
                    == spec_p1_index(va.0 as int) {
                    Option::<PageTableEntry>::None
                } else {
                    leaf_entry(*old(self), x3, x2, x1)
                }),
            forall|va2: int| walk_ok(*old(self), va2) ==> #[trigger] walk_ok(*final(self), va2),
            final(fa).total == old(fa).total,
            dealloc ==> final(fa).allocated == old(fa).allocated - 1,
            !dealloc ==> *final(fa) == *old(fa),
            dealloc ==> forall|a: int|
                covered(lists_of(*final(fa)), a) <==> (covered(lists_of(*old(fa)), a) || a
                    == ppn_of(leaf_entry_va(*old(self), va.0 as int)->Some_0.bits)),
    {
        let j3 = va.p3_index();
        let j2 = va.p2_index();
        let j1 = va.p1_index();
        proof {
            vstd::arithmetic::div_mod::lemma_mod_bound(va.0 as int / 0x4000_0000, 512);
            vstd::arithmetic::div_mod::lemma_mod_bound(va.0 as int / 0x20_0000, 512);
            vstd::arithmetic::div_mod::lemma_mod_bound(va.0 as int / 0x1000, 512);
            vstd::arithmetic::div_mod::lemma_div_pos_is_pos(va.0 as int, 0x4000_0000);
            vstd::arithmetic::div_mod::lemma_div_pos_is_pos(va.0 as int, 0x20_0000);
            vstd::arithmetic::div_mod::lemma_div_pos_is_pos(va.0 as int, 0x1000);
            assert(tcount(*self) * 512 == self.frames@.len());
        }
        let e3 = self.read_entry(0, j3);
        let k2 = match self.locate(e3.pa().0) {
            Some(k) => k,
            None => {
                proof {
                    assert(false);
                }
                0
            },
        };
        proof {
            assert((k2 as int + 1) * 512 <= tcount(*self) * 512) by (nonlinear_arith)
                requires
                    k2 as int + 1 <= tcount(*self),
            ;
        }
        let e2 = self.read_entry(k2, j2);
        let k1 = match self.locate(e2.pa().0) {
            Some(k) => k,
            None => {
                proof {
                    assert(false);
                }
                0
            },
        };
        proof {
            assert((k1 as int + 1) * 512 <= tcount(*self) * 512) by (nonlinear_arith)
                requires
                    k1 as int + 1 <= tcount(*self),
            ;
        }
        let e1 = self.read_entry(k1, j1);
        let ghost pt0 = *self;
        self.write_entry(k1, j1, PageTableEntry::empty());
        proof {
            let post = *self;
            let zero = PageTableEntry { bits: 0u64 };
            assert(!spec_is_directory(zero));
            lemma_leaf_write(pt0, post, k1 as int, j1 as int, zero);
            assert(entry_of(post, k1 as int, j1 as int) == zero) by {
                assert(k1 as int * 512 + j1 < tcount(pt0) * 512) by (nonlinear_arith)
                    requires
                        k1 as int + 1 <= tcount(pt0),
                        0 <= j1 < 512,
                ;
            }
            assert(leaf_entry(post, j3 as int, j2 as int, j1 as int) is None);
            assert forall|x3: int, x2: int, x1: int|
                0 <= x3 < 512 && 0 <= x2 < 512 && 0 <= x1 < 512 implies #[trigger] leaf_entry(
                post,
                x3,
                x2,
                x1,
            ) == (if x3 == j3 && x2 == j2 && x1 == j1 {
                Option::<PageTableEntry>::None
            } else {
                leaf_entry(pt0, x3, x2, x1)
            }) by {
                if x3 == j3 && x2 == j2 && x1 == j1 {
                } else {
                    lemma_leaf_write_other(pt0, post, k1 as int, j1 as int, zero, k2 as int, j2 as int, j3 as int, x3, x2, x1);
                }
            }
        }
        if dealloc {
            proof {
                vstd::arithmetic::power2::is_pow2_equiv(1);
                assert(vstd::arithmetic::power2::is_pow2_exists(1)) by {
                    assert(vstd::arithmetic::power::pow(2, 0) == 1) by {
                        vstd::arithmetic::power2::lemma_pow2(0);
                        vstd::arithmetic::power2::lemma2_to64();
                    }
                }
                let p = ppn_of(e1.bits) as int;
                assert forall|o: int, idx: int|
                    0 <= o < 32 && 0 <= idx < lists_of(*fa)[o].len() implies !range_overlap(
                    (#[trigger] lists_of(*fa)[o][idx]) as int,
                    pow2(o as nat) as int,
                    p,
                    1,
                ) by {
                    if range_overlap(lists_of(*fa)[o][idx] as int, pow2(o as nat) as int, p, 1) {
                        assert(covered(lists_of(*fa), p)) by {
                            assert(0 <= o < lists_of(*fa).len() && 0 <= idx < lists_of(*fa)[o].len()
                                && lists_of(*fa)[o][idx] <= p < lists_of(*fa)[o][idx] + pow2(
                                o as nat,
                            ));
                        }
                    }
                }
            }
            let ghost fa0 = *fa;
            fa.dealloc(self_ppn_helper(e1), 1);
            proof {
                assert forall|k: int| 0 <= k < tcount(*self) implies !covered(
                    lists_of(*fa),
                    #[trigger] pa_of(*self, k) / 4096,
                ) by {
                    let pg = pa_of(*self, k) / 4096;
                    assert(pa_of(*self, k) == pa_of(*old(self), k));
                    assert(!covered(lists_of(*old(fa)), pa_of(*old(self), k) / 4096));
                    assert(!covered(lists_of(fa0), pg));
                    assert(pa_of(*old(self), k) != ppn_of(e1.bits) * 4096);
                    assert(pa_of(*self, k) == pg * 4096) by {
                        vstd::arithmetic::div_mod::lemma_fundamental_div_mod(
                            pa_of(*self, k),
                            4096,
                        );
                    }
                    assert(pg != ppn_of(e1.bits));
                }
            }
        }
        proof {
            assert forall|k: int| 0 <= k < tcount(*self) implies !covered(
                lists_of(*fa),
                #[trigger] pa_of(*self, k) / 4096,
            ) by {
                assert(pa_of(*self, k) == pa_of(*old(self), k));
                if !dealloc {
                    assert(!covered(lists_of(*old(fa)), pa_of(*old(self), k) / 4096));
                }
            }
        }
        e1.pa()
    }
}

/// Wraps the page number of a leaf entry (separated to keep ghost code out
/// of the call expression).
fn self_ppn_helper(e: PageTableEntry) -> (r: PhysPageNum)
    ensures
        r.0 == ppn_of(e.bits),
{
    e.ppn()
}


/// `e` with the copy-on-write bit set.
pub open spec fn cow_marked(e: PageTableEntry) -> PageTableEntry {
    if bit_set(e.bits, 256) {
        e
    } else {
        PageTableEntry { bits: (e.bits + 256) as u64 }
    }
}

/// True when `e` is a user-mode leaf.
pub open spec fn user_leaf(e: PageTableEntry) -> bool {
    spec_is_leaf(e) && bit_set(e.bits, 16)
}

/// The root-table slot above the level-1 frame `k`.
pub open spec fn root_slot(pt: PageTable, k: int) -> int {
    pt.parents@[pt.parents@[k].0].1
}

/// The per-level indices of the virtual address composed from three table
/// slots.
proof fn lemma_triple_va(j3: int, j2: int, j1: int)
    requires
        0 <= j3 < 512,
        0 <= j2 < 512,
        0 <= j1 < 512,
    ensures
        spec_p3_index(j3 * 0x4000_0000 + j2 * 0x20_0000 + j1 * 0x1000) == j3,
        spec_p2_index(j3 * 0x4000_0000 + j2 * 0x20_0000 + j1 * 0x1000) == j2,
        spec_p1_index(j3 * 0x4000_0000 + j2 * 0x20_0000 + j1 * 0x1000) == j1,
        0 <= j3 * 0x4000_0000 + j2 * 0x20_0000 + j1 * 0x1000 < 0x80_0000_0000,
{
    let va = j3 * 0x4000_0000 + j2 * 0x20_0000 + j1 * 0x1000;
    assert(0 <= j2 * 0x20_0000 + j1 * 0x1000 < 0x4000_0000) by (nonlinear_arith)
        requires
            0 <= j2 < 512,
            0 <= j1 < 512,
    ;
    assert(0 <= j3 * 0x4000_0000 < 0x80_0000_0000 - 0x4000_0000 + 1) by (nonlinear_arith)
        requires
            0 <= j3 < 512,
    ;
    vstd::arithmetic::div_mod::lemma_fundamental_div_mod_converse(
        va,
        0x4000_0000,
        j3,
        j2 * 0x20_0000 + j1 * 0x1000,
    );
    vstd::arithmetic::div_mod::lemma_small_mod(j3 as nat, 512);
    assert(va == (j3 * 512 + j2) * 0x20_0000 + j1 * 0x1000) by (nonlinear_arith)
        requires
            va == j3 * 0x4000_0000 + j2 * 0x20_0000 + j1 * 0x1000,
    ;
    assert(0 <= j1 * 0x1000 < 0x20_0000) by (nonlinear_arith)
        requires
            0 <= j1 < 512,
    ;
    vstd::arithmetic::div_mod::lemma_fundamental_div_mod_converse(
        va,
        0x20_0000,
        j3 * 512 + j2,
        j1 * 0x1000,
    );
    vstd::arithmetic::div_mod::lemma_mod_multiples_vanish(j3, j2, 512);
    vstd::arithmetic::div_mod::lemma_small_mod(j2 as nat, 512);
    assert(va == (j3 * 0x4_0000 + j2 * 512 + j1) * 0x1000) by (nonlinear_arith)
        requires
            va == j3 * 0x4000_0000 + j2 * 0x20_0000 + j1 * 0x1000,
    ;
    vstd::arithmetic::div_mod::lemma_fundamental_div_mod_converse(
        va,
        0x1000,
        j3 * 0x4_0000 + j2 * 512 + j1,
        0,
    );
    assert((j3 * 0x4_0000 + j2 * 512 + j1) % 512 == j1) by {
        assert(j3 * 0x4_0000 + j2 * 512 == 512 * (j3 * 512 + j2)) by (nonlinear_arith);
        vstd::arithmetic::div_mod::lemma_mod_multiples_vanish(j3 * 512 + j2, j1, 512);
        vstd::arithmetic::div_mod::lemma_small_mod(j1 as nat, 512);
    }
}

/// Writing a leaf into an absent root slot keeps the table well formed and
/// leaves every visible 4 KiB mapping unchanged.
proof fn lemma_root_write(pre: PageTable, post: PageTable, j: int, e: PageTableEntry)
    requires
        pre.wf(),
        0 <= j < 512,
        entry_of(pre, 0, j).bits == 0,
        !spec_is_directory(e),
        post.frames@ == pre.frames@.update(j, e),
        post.root_pa == pre.root_pa,
        post.intrm_tables == pre.intrm_tables,
        post.levels == pre.levels,
        post.parents == pre.parents,
    ensures
        post.wf(),
        entry_of(post, 0, j) == e,
        forall|k: int, j2: int|
            0 <= k < tcount(pre) && 0 <= j2 < 512 && (k != 0 || j2 != j) ==> #[trigger] entry_of(
                post,
                k,
                j2,
            ) == entry_of(pre, k, j2),
        forall|x3: int, x2: int, x1: int|
            0 <= x3 < 512 && 0 <= x2 < 512 && 0 <= x1 < 512 ==> #[trigger] leaf_entry(
                post,
                x3,
                x2,
                x1,
            ) == leaf_entry(pre, x3, x2, x1),
{
    assert(tcount(pre) * 512 >= 512) by (nonlinear_arith)
        requires
            tcount(pre) >= 1,
    ;
    assert(entry_of(post, 0, j) == e);
    assert forall|k: int, j2: int|
        0 <= k < tcount(pre) && 0 <= j2 < 512 && (k != 0 || j2 != j) implies #[trigger] entry_of(
        post,
        k,
        j2,
    ) == entry_of(pre, k, j2) by {
        assert(0 <= k * 512 + j2 < tcount(pre) * 512 && k * 512 + j2 != j) by (nonlinear_arith)
            requires
                0 <= k,
                k + 1 <= tcount(pre),
                0 <= j2 < 512,
                0 <= j < 512,
                (k != 0 || j2 != j),
        ;
    }
    assert(post.intrm_tables@ == pre.intrm_tables@);
    assert forall|pa2: int| has_table(pre, pa2) implies has_table(post, pa2) && table_index(
        post,
        pa2,
    ) == table_index(pre, pa2) by {
        let k0 = table_index(pre, pa2);
        assert(0 <= k0 < tcount(pre) && pa_of(pre, k0) == pa2);
        assert(0 <= k0 < tcount(post) && pa_of(post, k0) == pa2);
        assert(has_table(post, pa2));
        let kp = table_index(post, pa2);
        assert(0 <= kp < tcount(post) && pa_of(post, kp) == pa2);
        if kp != k0 {
            assert(pa_of(pre, kp) == pa_of(post, kp));
            assert(pa_of(pre, kp) != pa_of(pre, k0));
        }
    }
    assert(post.wf()) by {
        assert forall|k: int| 0 <= k < tcount(pre) implies #[trigger] pa_of(post, k) == pa_of(
            pre,
            k,
        ) by {}
        assert(post.frames@.len() == pre.frames@.len());
        assert forall|k: int, j2: int|
            0 <= k < tcount(post) && 0 <= j2 < 512 && spec_is_directory(
                #[trigger] entry_of(post, k, j2),
            ) implies {
            &&& post.levels@[k] >= 2
            &&& has_table(post, entry_target(entry_of(post, k, j2)))
            &&& post.levels@[table_index(post, entry_target(entry_of(post, k, j2)))]
                == post.levels@[k] - 1
            &&& post.parents@[table_index(post, entry_target(entry_of(post, k, j2)))] == (k, j2)
        } by {
            if k == 0 && j2 == j {
                assert(false);
            } else {
                assert(entry_of(post, k, j2) == entry_of(pre, k, j2));
            }
        }
        assert forall|k: int, j2: int|
            0 <= k < tcount(post) && 0 <= j2 < 512 && post.levels@[k] == 2 implies !spec_is_leaf(
            #[trigger] entry_of(post, k, j2),
        ) by {
            if k == 0 && j2 == j {
                assert(pre.levels@[0] == 3);
                assert(false);
            } else {
                assert(entry_of(post, k, j2) == entry_of(pre, k, j2));
            }
        }
        assert forall|k: int, j2: int|
            0 <= k < tcount(post) && 0 <= j2 < 512 && post.levels@[k] == 1
                implies !spec_is_directory(#[trigger] entry_of(post, k, j2)) by {
            if k == 0 && j2 == j {
                assert(false);
            } else {
                assert(entry_of(post, k, j2) == entry_of(pre, k, j2));
            }
        }
        assert forall|k: int| 1 <= k < tcount(post) implies {
            let (qk, qj) = #[trigger] post.parents@[k];
            &&& 0 <= qk < tcount(post)
            &&& 0 <= qj < 512
            &&& spec_is_directory(entry_of(post, qk, qj))
            &&& entry_target(entry_of(post, qk, qj)) == pa_of(post, k)
            &&& post.levels@[qk] == post.levels@[k] + 1
        } by {
            let (qk, qj) = pre.parents@[k];
            assert(spec_is_directory(entry_of(pre, qk, qj)));
            if qk == 0 && qj == j {
                assert(entry_of(pre, 0, j).bits == 0);
                assert(false);
            }
            assert(entry_of(post, qk, qj) == entry_of(pre, qk, qj));
        }
    }
    assert forall|x3: int, x2: int, x1: int|
        0 <= x3 < 512 && 0 <= x2 < 512 && 0 <= x1 < 512 implies #[trigger] leaf_entry(
        post,
        x3,
        x2,
        x1,
    ) == leaf_entry(pre, x3, x2, x1) by {
        if x3 == j {
            assert(!spec_is_directory(entry_of(pre, 0, j)));
            assert(!spec_is_directory(entry_of(post, 0, j)));
        } else {
            assert(entry_of(post, 0, x3) == entry_of(pre, 0, x3));
            let e3 = entry_of(pre, 0, x3);
            if spec_is_directory(e3) {
                let k2 = table_index(pre, entry_target(e3));
                assert(has_table(pre, entry_target(e3)));
                assert(table_index(post, entry_target(e3)) == k2);
                assert(0 <= k2 < tcount(pre));
                assert(k2 != 0) by {
                    assert(pre.levels@[k2] == 2);
                }
                assert(entry_of(post, k2, x2) == entry_of(pre, k2, x2));
                let e2 = entry_of(pre, k2, x2);
                if spec_is_directory(e2) {
                    let k1 = table_index(pre, entry_target(e2));
                    assert(has_table(pre, entry_target(e2)));
                    assert(table_index(post, entry_target(e2)) == k1);
                    assert(0 <= k1 < tcount(pre));
                    assert(k1 != 0) by {
                        assert(pre.levels@[k1] == 1);
                    }
                    assert(entry_of(post, k1, x1) == entry_of(pre, k1, x1));
                }
            }
        }
    }
}


/// The entry `e` reduced to its architectural fields: page number plus
/// flags, with any stray high bits dropped.
pub open spec fn norm_entry(e: PageTableEntry) -> PageTableEntry {
    PageTableEntry { bits: (ppn_of(e.bits) * 1024 + flags_of(e.bits)) as u64 }
}

/// The path `(x3, x2, x1)` maps a user-mode leaf in `pt`.
pub open spec fn user_mapping(pt: PageTable, x3: int, x2: int, x1: int) -> bool {
    match leaf_entry(pt, x3, x2, x1) {
        Option::Some(e) => bit_set(e.bits, 16),
        Option::None => false,
    }
}

impl PageTable {
    /// First half of the copy-on-write protocol: reports every user-mode
    /// leaf to the sink and marks it shared, table by table.
    fn mark_user_leaves<S: SharedFrameSink>(&mut self, sink: &mut S)
        requires
            old(self).wf(),
        ensures
            final(self).wf(),
            final(self).root_pa == old(self).root_pa,
            final(self).intrm_tables == old(self).intrm_tables,
            final(self).levels == old(self).levels,
            final(self).parents == old(self).parents,
            forall|k: int, j: int|
                0 <= k < tcount(*old(self)) && 0 <= j < 512 ==> #[trigger] entry_of(
                    *final(self),
                    k,
                    j,
                ) == (if final(self).levels@[k] == 1 && user_leaf(entry_of(*old(self), k, j)) {
                    cow_marked(entry_of(*old(self), k, j))
                } else {
                    entry_of(*old(self), k, j)
                }),
    {
        let n = self.intrm_tables.len();
        let mut k: usize = 0;
        while k < n
            invariant
                0 <= k <= n,
                n == tcount(*old(self)),
                n == tcount(*self),
                old(self).wf(),
                self.wf(),
                self.root_pa == old(self).root_pa,
                self.intrm_tables == old(self).intrm_tables,
                self.levels == old(self).levels,
                self.parents == old(self).parents,
                forall|k2: int, j2: int|
                    0 <= k2 < n && 0 <= j2 < 512 ==> #[trigger] entry_of(*self, k2, j2) == (if
                        self.levels@[k2] == 1 && user_leaf(entry_of(*old(self), k2, j2)) && k2
                        < k {
                        cow_marked(entry_of(*old(self), k2, j2))
                    } else {
                        entry_of(*old(self), k2, j2)
                    }),
            decreases n - k,
        {
            if self.levels[k] == 1 {
                let mut j: usize = 0;
                while j < 512
                    invariant
                        0 <= j <= 512,
                        0 <= k < n,
                        n == tcount(*old(self)),
                        n == tcount(*self),
                        old(self).wf(),
                        self.wf(),
                        self.root_pa == old(self).root_pa,
                        self.intrm_tables == old(self).intrm_tables,
                        self.levels == old(self).levels,
                        self.parents == old(self).parents,
                        self.levels@[k as int] == 1,
                        forall|k2: int, j2: int|
                            0 <= k2 < n && 0 <= j2 < 512 ==> #[trigger] entry_of(*self, k2, j2)
                                == (if self.levels@[k2] == 1 && user_leaf(
                                entry_of(*old(self), k2, j2),
                            ) && (k2 < k || (k2 == k && j2 < j)) {
                                cow_marked(entry_of(*old(self), k2, j2))
                            } else {
                                entry_of(*old(self), k2, j2)
                            }),
                    decreases 512 - j,
                {
                    proof {
                        assert((k as int + 1) * 512 <= tcount(*self) * 512) by (nonlinear_arith)
                            requires
                                k as int + 1 <= tcount(*self),
                        ;
                    }
                    let e = self.read_entry(k, j);
                    if e.is_valid() && e.is_user() {
                        sink.on_shared(e.pa());
                        let mut m = e;
                        m.set_shared();
                        let ghost cur = *self;
                        proof {
                            assert(spec_is_leaf(e)) by {
                                assert(self.levels@[k as int] == 1);
                                assert(!spec_is_directory(e));
                            }
                            assert(!spec_is_directory(m));
                            assert(m == cow_marked(e));
                        }
                        self.write_entry(k, j, m);
                        proof {
                            lemma_leaf_write(cur, *self, k as int, j as int, m);
                            assert(entry_of(*self, k as int, j as int) == m) by {
                                assert(k as int * 512 + j < tcount(cur) * 512)
                                    by (nonlinear_arith)
                                    requires
                                        k as int + 1 <= tcount(cur),
                                        0 <= j < 512,
                                ;
                            }
                            assert forall|k2: int, j2: int|
                                0 <= k2 < n && 0 <= j2 < 512 && (k2 != k || j2 != j)
                                    implies #[trigger] entry_of(*self, k2, j2) == entry_of(
                                cur,
                                k2,
                                j2,
                            ) by {}
                        }
                    }
                    j = j + 1;
                }
            }
            k = k + 1;
        }
    }

    /// Second half of the copy-on-write protocol: builds the clone from the
    /// already-marked table. Top-level huge-page leaves are copied by value;
    /// user leaves are installed in the clone pointing at the shared frame;
    /// other leaves are not propagated. The clone consumes one frame for its
    /// root and at most one per table slot walked, so it succeeds whenever
    /// the pool holds `1 + 513 * 512 + 2` free pages.
    #[verifier::rlimit(100)]
    fn build_clone(&self, fa: &mut FrameAllocator) -> (r: Result<PageTable, MapError>)
        requires
            self.wf(),
            old(fa).wf(),
            self.tables_unmapped(*old(fa)),
        ensures
            final(fa).wf(),
            final(fa).total == old(fa).total,
            forall|a: int| covered(lists_of(*final(fa)), a) ==> covered(lists_of(*old(fa)), a),
            free_pages(*old(fa)) >= 0x4_0203 ==> r is Ok,
            r matches Ok(nt) ==> {
                &&& nt.wf()
                &&& nt.tables_unmapped(*final(fa))
                &&& forall|k: int, k2: int|
                    0 <= k < tcount(nt) && 0 <= k2 < tcount(*self) ==> #[trigger] pa_of(nt, k)
                        != #[trigger] pa_of(*self, k2)
                &&& forall|x3: int, x2: int, x1: int|
                    0 <= x3 < 512 && 0 <= x2 < 512 && 0 <= x1 < 512 ==> #[trigger] leaf_entry(
                        nt,
                        x3,
                        x2,
                        x1,
                    ) == (if user_mapping(*self, x3, x2, x1) {
                        Option::Some(norm_entry(leaf_entry(*self, x3, x2, x1)->Some_0))
                    } else {
                        Option::<PageTableEntry>::None
                    })
                &&& forall|j: int|
                    0 <= j < 512 && spec_is_leaf(#[trigger] entry_of(*self, 0, j)) ==> entry_of(
                        nt,
                        0,
                        j,
                    ) == entry_of(*self, 0, j)
            },
    {
        if fa.total - fa.allocated < 1 {
            return Err(MapError::OutOfMemory);
        }
        let mut nt = PageTable::new(fa);
        proof {
            assert forall|k: int, k2: int|
                0 <= k < tcount(nt) && 0 <= k2 < tcount(*self) implies #[trigger] pa_of(nt, k)
                != #[trigger] pa_of(*self, k2) by {
                lemma_pages_apart(pa_of(nt, k), pa_of(*self, k2), lists_of(*old(fa)));
            }
        }
        let mut j3: usize = 0;
        while j3 < 512
            invariant
                0 <= j3 <= 512,
                self.wf(),
                nt.wf(),
                fa.wf(),
                self.tables_unmapped(*fa),
                nt.tables_unmapped(*fa),
                self.tables_unmapped(*old(fa)),
                fa.total == old(fa).total,
                forall|a: int| covered(lists_of(*fa), a) ==> covered(lists_of(*old(fa)), a),
                fa.allocated == old(fa).allocated + tcount(nt),
                fa.allocated <= old(fa).allocated + 1 + 513 * j3,
                forall|k: int, k2: int|
                    0 <= k < tcount(nt) && 0 <= k2 < tcount(*self) ==> #[trigger] pa_of(nt, k)
                        != #[trigger] pa_of(*self, k2),
                forall|x3: int, x2: int, x1: int|
                    0 <= x3 < 512 && 0 <= x2 < 512 && 0 <= x1 < 512 ==> #[trigger] leaf_entry(
                        nt,
                        x3,
                        x2,
                        x1,
                    ) == (if x3 < j3 && user_mapping(*self, x3, x2, x1) {
                        Option::Some(norm_entry(leaf_entry(*self, x3, x2, x1)->Some_0))
                    } else {
                        Option::<PageTableEntry>::None
                    }),
                forall|x3: int|
                    j3 <= x3 < 512 ==> (#[trigger] entry_of(nt, 0, x3)).bits == 0,
                forall|x3: int|
                    0 <= x3 < j3 && spec_is_leaf(#[trigger] entry_of(*self, 0, x3)) ==> entry_of(
                        nt,
                        0,
                        x3,
                    ) == entry_of(*self, 0, x3),
            decreases 512 - j3,
        {
            proof {
                assert(tcount(*self) * 512 == self.frames@.len());
            }
            let e3 = self.read_entry(0, j3);
            if e3.is_leaf() {
                // A top-level huge page: copied by value, no marking.
                let ghost nt0 = nt;
                proof {
                    assert(tcount(nt) * 512 >= 512) by (nonlinear_arith)
                        requires
                            tcount(nt) >= 1,
                    ;
                }
                nt.write_entry(0, j3, e3);
                proof {
                    lemma_root_write(nt0, nt, j3 as int, e3);
                    assert forall|k: int| 0 <= k < tcount(nt) implies !covered(
                        lists_of(*fa),
                        #[trigger] pa_of(nt, k) / 4096,
                    ) by {
                        assert(pa_of(nt, k) == pa_of(nt0, k));
                    }
                    assert forall|k: int, k2: int|
                        0 <= k < tcount(nt) && 0 <= k2 < tcount(*self) implies #[trigger] pa_of(
                        nt,
                        k,
                    ) != #[trigger] pa_of(*self, k2) by {
                        assert(pa_of(nt, k) == pa_of(nt0, k));
                    }
                    assert forall|x3: int, x2: int, x1: int|
                        0 <= x3 < 512 && 0 <= x2 < 512 && 0 <= x1 < 512 implies #[trigger] leaf_entry(
                        nt,
                        x3,
                        x2,
                        x1,
                    ) == (if x3 < j3 + 1 && user_mapping(*self, x3, x2, x1) {
                        Option::Some(norm_entry(leaf_entry(*self, x3, x2, x1)->Some_0))
                    } else {
                        Option::<PageTableEntry>::None
                    }) by {
                        assert(leaf_entry(nt, x3, x2, x1) == leaf_entry(nt0, x3, x2, x1));
                        if x3 == j3 as int {
                            assert(!spec_is_directory(entry_of(*self, 0, x3)));
                            assert(leaf_entry(*self, x3, x2, x1) is None);
                        }
                    }
                }
            } else if e3.is_valid() {
                // A directory: walk it and install each user leaf.
                let k2 = match self.locate(e3.pa().0) {
                    Some(k) => k,
                    None => {
                        proof {
                            assert(false);
                        }
                        0
                    },
                };
                let mut j2: usize = 0;
                let mut made_l2 = false;
                while j2 < 512
                    invariant
                        0 <= j2 <= 512,
                        0 <= j3 < 512,
                        self.wf(),
                        nt.wf(),
                        fa.wf(),
                        self.tables_unmapped(*fa),
                        nt.tables_unmapped(*fa),
                        self.tables_unmapped(*old(fa)),
                        fa.total == old(fa).total,
                        forall|a: int| covered(lists_of(*fa), a) ==> covered(lists_of(*old(fa)), a),
                        fa.allocated == old(fa).allocated + tcount(nt),
                        fa.allocated <= old(fa).allocated + 1 + 513 * j3 + (if made_l2 {
                            1int
                        } else {
                            0int
                        }) + j2,
                        made_l2 ==> bit_set(entry_of(nt, 0, j3 as int).bits, 1),
                        forall|k: int, k2: int|
                            0 <= k < tcount(nt) && 0 <= k2 < tcount(*self) ==> #[trigger] pa_of(
                                nt,
                                k,
                            ) != #[trigger] pa_of(*self, k2),
                        spec_is_directory(entry_of(*self, 0, j3 as int)),
                        k2 == table_index(*self, entry_target(entry_of(*self, 0, j3 as int))),
                        0 <= k2 < tcount(*self),
                        self.levels@[k2 as int] == 2,
                        forall|x3: int, x2: int, x1: int|
                            0 <= x3 < 512 && 0 <= x2 < 512 && 0 <= x1 < 512
                                ==> #[trigger] leaf_entry(nt, x3, x2, x1) == (if (x3 < j3 || (x3
                                == j3 && x2 < j2)) && user_mapping(*self, x3, x2, x1) {
                                Option::Some(norm_entry(leaf_entry(*self, x3, x2, x1)->Some_0))
                            } else {
                                Option::<PageTableEntry>::None
                            }),
                        forall|x3: int|
                            j3 < x3 < 512 ==> (#[trigger] entry_of(nt, 0, x3)).bits == 0,
                        (entry_of(nt, 0, j3 as int).bits == 0 || spec_is_directory(
                            entry_of(nt, 0, j3 as int),
                        )),
                        forall|x3: int|
                            0 <= x3 < j3 && spec_is_leaf(#[trigger] entry_of(*self, 0, x3))
                                ==> entry_of(nt, 0, x3) == entry_of(*self, 0, x3),
                        tcount(nt) >= 1,
                    decreases 512 - j2,
                {
                    proof {
                        assert((k2 as int + 1) * 512 <= tcount(*self) * 512) by (nonlinear_arith)
                            requires
                                k2 as int + 1 <= tcount(*self),
                        ;
                    }
                    let e2 = self.read_entry(k2, j2);
                    if e2.is_valid() {
                        let k1 = match self.locate(e2.pa().0) {
                            Some(k) => k,
                            None => {
                                proof {
                                    assert(false);
                                }
                                0
                            },
                        };
                        let mut j1: usize = 0;
                        let mut made_l1 = false;
                        while j1 < 512
                            invariant
                                0 <= j1 <= 512,
                                0 <= j2 < 512,
                                0 <= j3 < 512,
                                self.wf(),
                                nt.wf(),
                                fa.wf(),
                                self.tables_unmapped(*fa),
                                nt.tables_unmapped(*fa),
                                self.tables_unmapped(*old(fa)),
                                fa.total == old(fa).total,
                                forall|a: int|
                                    covered(lists_of(*fa), a) ==> covered(lists_of(*old(fa)), a),
                                fa.allocated == old(fa).allocated + tcount(nt),
                                fa.allocated <= old(fa).allocated + 1 + 513 * j3 + (if made_l2 {
                                    1int
                                } else {
                                    0int
                                }) + j2 + (if made_l1 {
                                    1int
                                } else {
                                    0int
                                }),
                                made_l2 ==> bit_set(entry_of(nt, 0, j3 as int).bits, 1),
                                made_l1 ==> made_l2,
                                made_l1 ==> path_present(
                                    nt,
                                    j3 as int * 0x4000_0000 + j2 as int * 0x20_0000,
                                ),
                                forall|k: int, k2: int|
                                    0 <= k < tcount(nt) && 0 <= k2 < tcount(*self)
                                        ==> #[trigger] pa_of(nt, k) != #[trigger] pa_of(
                                        *self,
                                        k2,
                                    ),
                                spec_is_directory(entry_of(*self, 0, j3 as int)),
                                k2 == table_index(
                                    *self,
                                    entry_target(entry_of(*self, 0, j3 as int)),
                                ),
                                0 <= k2 < tcount(*self),
                                self.levels@[k2 as int] == 2,
                                spec_is_directory(entry_of(*self, k2 as int, j2 as int)),
                                k1 == table_index(
                                    *self,
                                    entry_target(entry_of(*self, k2 as int, j2 as int)),
                                ),
                                0 <= k1 < tcount(*self),
                                self.levels@[k1 as int] == 1,
                                forall|x3: int, x2: int, x1: int|
                                    0 <= x3 < 512 && 0 <= x2 < 512 && 0 <= x1 < 512
                                        ==> #[trigger] leaf_entry(nt, x3, x2, x1) == (if (x3 < j3
                                        || (x3 == j3 && x2 < j2) || (x3 == j3 && x2 == j2 && x1
                                        < j1)) && user_mapping(*self, x3, x2, x1) {
                                        Option::Some(
                                            norm_entry(leaf_entry(*self, x3, x2, x1)->Some_0),
                                        )
                                    } else {
                                        Option::<PageTableEntry>::None
                                    }),
                                forall|x3: int|
                                    j3 < x3 < 512 ==> (#[trigger] entry_of(nt, 0, x3)).bits == 0,
                                (entry_of(nt, 0, j3 as int).bits == 0 || spec_is_directory(
                                    entry_of(nt, 0, j3 as int),
                                )),
                                forall|x3: int|
                                    0 <= x3 < j3 && spec_is_leaf(#[trigger] entry_of(*self, 0, x3))
                                        ==> entry_of(nt, 0, x3) == entry_of(*self, 0, x3),
                                tcount(nt) >= 1,
                            decreases 512 - j1,
                        {
                            proof {
                                assert((k1 as int + 1) * 512 <= tcount(*self) * 512)
                                    by (nonlinear_arith)
                                    requires
                                        k1 as int + 1 <= tcount(*self),
                                ;
                            }
                            let e1 = self.read_entry(k1, j1);
                            if e1.is_valid() && e1.is_user() {
                                let va = VirtAddr(
                                    (j3 as u64) * 0x4000_0000 + (j2 as u64) * 0x20_0000 + (
                                    j1 as u64) * 0x1000,
                                );
                                let ghost nt0 = nt;
                                let ghost fa_pre = *fa;
                                proof {
                                    lemma_triple_va(j3 as int, j2 as int, j1 as int);
                                    lemma_triple_va(j3 as int, j2 as int, 0);
                                    // The clone never outgrows the table cap:
                                    // it holds one frame per page the pool
                                    // has handed it.
                                    assert(513 * j3 <= 513 * 511) by (nonlinear_arith)
                                        requires
                                            j3 <= 511,
                                    ;
                                    assert(tcount(nt) < 0x10_0000);
                                    // The missing directories are bounded by
                                    // what this walk has not yet paid for.
                                    assert(dirs_needed(nt, va.0 as int) <= (if made_l2 {
                                        if made_l1 {
                                            0int
                                        } else {
                                            1int
                                        }
                                    } else {
                                        2int
                                    })) by {
                                        if made_l1 {
                                            assert(path_present(
                                                nt,
                                                j3 as int * 0x4000_0000 + j2 as int * 0x20_0000,
                                            ));
                                            assert(path_present(nt, va.0 as int));
                                        }
                                    }
                                    assert(walk_ok(nt, va.0 as int)) by {
                                        let r3 = entry_of(nt, 0, j3 as int);
                                        if bit_set(r3.bits, 1) {
                                            assert(spec_is_directory(r3));
                                            let c2 = table_index(nt, entry_target(r3));
                                            assert(nt.levels@[c2] == 2);
                                            let r2 = entry_of(nt, c2, spec_p2_index(va.0 as int));
                                            if bit_set(r2.bits, 1) {
                                                assert(!spec_is_leaf(r2));
                                                assert(spec_is_directory(r2));
                                            }
                                        } else {
                                            assert(!spec_is_directory(r3));
                                        }
                                    }
                                    assert(spec_is_leaf(e1)) by {
                                        assert(!spec_is_directory(e1));
                                    }
                                    assert(flags_of(e1.bits) <= 0x3FF) by {
                                        vstd::arithmetic::div_mod::lemma_mod_bound(
                                            e1.bits as int,
                                            1024,
                                        );
                                    }
                                    assert(bit_set(flags_of(e1.bits), 2) || bit_set(
                                        flags_of(e1.bits),
                                        4,
                                    ) || bit_set(flags_of(e1.bits), 8) || bit_set(
                                        flags_of(e1.bits),
                                        16,
                                    )) by {
                                        lemma_flags_low_bits(e1.bits);
                                    }
                                }
                                let fl = e1_flags_helper(&e1);
                                match nt.map_page(fa, va, e1.pa(), fl) {
                                    Ok(()) => {
                                        made_l2 = true;
                                        made_l1 = true;
                                        proof {
                                            assert(path_present(nt, va.0 as int));
                                            assert(path_present(
                                                nt,
                                                j3 as int * 0x4000_0000 + j2 as int * 0x20_0000,
                                            ));
                                            assert(bit_set(entry_of(nt, 0, j3 as int).bits, 1));
                                            assert(fa.allocated == old(fa).allocated + tcount(nt));
                                            assert(fa.allocated <= old(fa).allocated + 1 + 513
                                                * j3 + 1 + j2 + 1);
                                            // The clone's fresh frames came
                                            // from the pool, so they differ
                                            // from every source frame.
                                            assert forall|k: int, k2: int|
                                                0 <= k < tcount(nt) && 0 <= k2 < tcount(*self)
                                                    implies #[trigger] pa_of(nt, k)
                                                != #[trigger] pa_of(*self, k2) by {
                                                if k < tcount(nt0) {
                                                    assert(pa_of(nt, k) == pa_of(nt0, k));
                                                } else {
                                                    assert(covered(
                                                        lists_of(fa_pre),
                                                        pa_of(nt, k) / 4096,
                                                    ));
                                                    assert(covered(
                                                        lists_of(*old(fa)),
                                                        pa_of(nt, k) / 4096,
                                                    ));
                                                    lemma_pages_apart(
                                                        pa_of(nt, k),
                                                        pa_of(*self, k2),
                                                        lists_of(*old(fa)),
                                                    );
                                                }
                                            }
                                            lemma_installed_is_norm(e1);
                                            assert forall|x3: int, x2: int, x1: int|
                                                0 <= x3 < 512 && 0 <= x2 < 512 && 0 <= x1 < 512
                                                    implies #[trigger] leaf_entry(nt, x3, x2, x1)
                                                == (if (x3 < j3 || (x3 == j3 && x2 < j2) || (x3
                                                == j3 && x2 == j2 && x1 < j1 + 1))
                                                && user_mapping(*self, x3, x2, x1) {
                                                Option::Some(
                                                    norm_entry(
                                                        leaf_entry(*self, x3, x2, x1)->Some_0,
                                                    ),
                                                )
                                            } else {
                                                Option::<PageTableEntry>::None
                                            }) by {
                                                if x3 == j3 as int && x2 == j2 as int && x1
                                                    == j1 as int {
                                                    assert(leaf_entry(*self, x3, x2, x1)
                                                        == Option::Some(e1));
                                                    assert(user_mapping(*self, x3, x2, x1));
                                                } else {
                                                    assert(leaf_entry(nt, x3, x2, x1)
                                                        == leaf_entry(nt0, x3, x2, x1));
                                                }
                                            }
                                            assert forall|x3: int|
                                                j3 < x3 < 512 implies (#[trigger] entry_of(
                                                nt,
                                                0,
                                                x3,
                                            )).bits == 0 by {
                                                assert(entry_of(nt, 0, x3) == entry_of(
                                                    nt0,
                                                    0,
                                                    x3,
                                                ));
                                            }
                                            assert forall|x3: int|
                                                0 <= x3 < j3 && spec_is_leaf(
                                                    #[trigger] entry_of(*self, 0, x3),
                                                ) implies entry_of(nt, 0, x3) == entry_of(
                                                *self,
                                                0,
                                                x3,
                                            ) by {
                                                assert(entry_of(nt, 0, x3) == entry_of(
                                                    nt0,
                                                    0,
                                                    x3,
                                                ));
                                            }
                                        }
                                    },
                                    Err(e) => {
                                        proof {
                                            // The pool fell short of at most
                                            // two pages, so it held fewer
                                            // free pages than the clone's
                                            // worst-case demand.
                                            assert(free_pages(fa_pre) < dirs_needed(
                                                nt0,
                                                va.0 as int,
                                            ));
                                            assert(free_pages(*old(fa)) < 0x4_0203);
                                        }
                                        return Err(e);
                                    },
                                }
                            } else {
                                proof {
                                    if 0 <= j1 < 512 {
                                        assert(leaf_entry(*self, j3 as int, j2 as int, j1 as int)
                                            == (if bit_set(e1.bits, 1) {
                                            Option::Some(e1)
                                        } else {
                                            Option::<PageTableEntry>::None
                                        }));
                                        assert(!user_mapping(*self, j3 as int, j2 as int, j1 as int));
                                    }
                                }
                            }
                            j1 = j1 + 1;
                        }
                    } else {
                        proof {
                            assert forall|x1: int| 0 <= x1 < 512 implies !user_mapping(
                                *self,
                                j3 as int,
                                j2 as int,
                                x1,
                            ) by {
                                assert(!spec_is_directory(entry_of(*self, k2 as int, j2 as int)));
                            }
                        }
                    }
                    j2 = j2 + 1;
                }
            } else {
                proof {
                    assert forall|x2: int, x1: int|
                        0 <= x2 < 512 && 0 <= x1 < 512 implies !user_mapping(
                        *self,
                        j3 as int,
                        x2,
                        x1,
                    ) by {
                        assert(!spec_is_directory(entry_of(*self, 0, j3 as int)));
                    }
                }
            }
            j3 = j3 + 1;
        }
        Ok(nt)
    }

    /// Produces a new table that shares this table's user leaf frames
    /// instead of copying them: reports each user leaf to `sink`, marks the
    /// source entry shared, and copies the now-shared entry into the clone.
    /// Top-level huge-page leaves are copied by value with no marking;
    /// other leaves below the top level are not propagated. Fails with
    /// `OutOfMemory` only when the pool cannot supply the clone's
    /// directories, and never when it holds at least `0x4_0203` free pages
    /// (one frame for the clone's root and at most one per table slot
    /// walked); on failure the source may already be fully marked.
    pub fn copy_table_and_mark_self_cow<S: SharedFrameSink>(
        &mut self,
        fa: &mut FrameAllocator,
        sink: &mut S,
    ) -> (r: Result<PageTable, MapError>)
        requires
            old(self).wf(),
            old(fa).wf(),
            old(self).tables_unmapped(*old(fa)),
        ensures
            final(self).wf(),
            final(fa).wf(),
            final(self).tables_unmapped(*final(fa)),
            final(self).root_pa == old(self).root_pa,
            final(self).intrm_tables == old(self).intrm_tables,
            final(fa).total == old(fa).total,
            free_pages(*old(fa)) >= 0x4_0203 ==> r is Ok,
            forall|k: int, j: int|
                0 <= k < tcount(*old(self)) && 0 <= j < 512 ==> #[trigger] entry_of(
                    *final(self),
                    k,
                    j,
                ) == (if final(self).levels@[k] == 1 && user_leaf(entry_of(*old(self), k, j)) {
                    cow_marked(entry_of(*old(self), k, j))
                } else {
                    entry_of(*old(self), k, j)
                }),
            r matches Ok(nt) ==> {
                &&& nt.wf()
                &&& nt.tables_unmapped(*final(fa))
                &&& forall|k: int, k2: int|
                    0 <= k < tcount(nt) && 0 <= k2 < tcount(*final(self)) ==> #[trigger] pa_of(
                        nt,
                        k,
                    ) != #[trigger] pa_of(*final(self), k2)
                &&& forall|x3: int, x2: int, x1: int|
                    0 <= x3 < 512 && 0 <= x2 < 512 && 0 <= x1 < 512 ==> #[trigger] leaf_entry(
                        nt,
                        x3,
                        x2,
                        x1,
                    ) == (if user_mapping(*final(self), x3, x2, x1) {
                        Option::Some(norm_entry(leaf_entry(*final(self), x3, x2, x1)->Some_0))
                    } else {
                        Option::<PageTableEntry>::None
                    })
                &&& forall|j: int|
                    0 <= j < 512 && spec_is_leaf(#[trigger] entry_of(*final(self), 0, j))
                        ==> entry_of(nt, 0, j) == entry_of(*final(self), 0, j)
            },
    {
        self.mark_user_leaves(sink);
        proof {
            assert forall|k: int| 0 <= k < tcount(*self) implies !covered(
                lists_of(*fa),
                #[trigger] pa_of(*self, k) / 4096,
            ) by {
                assert(pa_of(*self, k) == pa_of(*old(self), k));
            }
        }
        self.build_clone(fa)
    }
}

/// A page that is free and a page that is not cannot be the same page, so
/// the addresses differ.
proof fn lemma_pages_apart(pa1: int, pa2: int, ls: Seq<Seq<u64>>)
    requires
        covered(ls, pa1 / 4096),
        !covered(ls, pa2 / 4096),
    ensures
        pa1 != pa2,
{
}

/// Reads the flag field of an entry (separating the call keeps ghost
/// arguments out of the `map_page` call).
fn e1_flags_helper(e: &PageTableEntry) -> (r: u16)
    ensures
        r == flags_of(e.bits),
{
    e.flags()
}

/// The low flag bits of an entry value agree with the flag bits of its flag
/// field.
proof fn lemma_flags_low_bits(b: u64)
    ensures
        forall|f: u64|
            (f == 1 || f == 2 || f == 4 || f == 8 || f == 16) ==> #[trigger] bit_set(
                flags_of(b),
                f,
            ) == bit_set(b, f),
{
    assert forall|f: u64| (f == 1 || f == 2 || f == 4 || f == 8 || f == 16) implies #[trigger] bit_set(
        flags_of(b),
        f,
    ) == bit_set(b, f) by {
        let q = b as int / 1024;
        let fl = flags_of(b) as int;
        vstd::arithmetic::div_mod::lemma_fundamental_div_mod(b as int, 1024);
        vstd::arithmetic::div_mod::lemma_mod_bound(b as int, 1024);
        assert(b == q * 1024 + fl);
        if f == 1 {
            assert(b == (q * 1024 + fl / 1) * 1 + (fl % 1));
            vstd::arithmetic::div_mod::lemma_mod_bound(fl, 1);
            vstd::arithmetic::div_mod::lemma_fundamental_div_mod_converse(
                b as int,
                1,
                q * 1024 + fl / 1,
                fl % 1,
            );
            assert(q * 1024 == 2 * (q * 512));
            vstd::arithmetic::div_mod::lemma_mod_multiples_vanish(q * 512, fl / 1, 2);
            vstd::arithmetic::div_mod::lemma_fundamental_div_mod(fl, 1);
        }
        if f == 2 {
            assert(b == (q * 512 + fl / 2) * 2 + (fl % 2));
            vstd::arithmetic::div_mod::lemma_mod_bound(fl, 2);
            vstd::arithmetic::div_mod::lemma_fundamental_div_mod_converse(
                b as int,
                2,
                q * 512 + fl / 2,
                fl % 2,
            );
            assert(q * 512 == 2 * (q * 256));
            vstd::arithmetic::div_mod::lemma_mod_multiples_vanish(q * 256, fl / 2, 2);
            vstd::arithmetic::div_mod::lemma_fundamental_div_mod(fl, 2);
        }
        if f == 4 {
            assert(b == (q * 256 + fl / 4) * 4 + (fl % 4));
            vstd::arithmetic::div_mod::lemma_mod_bound(fl, 4);
            vstd::arithmetic::div_mod::lemma_fundamental_div_mod_converse(
                b as int,
                4,
                q * 256 + fl / 4,
                fl % 4,
            );
            assert(q * 256 == 2 * (q * 128));
            vstd::arithmetic::div_mod::lemma_mod_multiples_vanish(q * 128, fl / 4, 2);
            vstd::arithmetic::div_mod::lemma_fundamental_div_mod(fl, 4);
        }
        if f == 8 {
            assert(b == (q * 128 + fl / 8) * 8 + (fl % 8));
            vstd::arithmetic::div_mod::lemma_mod_bound(fl, 8);
            vstd::arithmetic::div_mod::lemma_fundamental_div_mod_converse(
                b as int,
                8,
                q * 128 + fl / 8,
                fl % 8,
            );
            assert(q * 128 == 2 * (q * 64));
            vstd::arithmetic::div_mod::lemma_mod_multiples_vanish(q * 64, fl / 8, 2);
            vstd::arithmetic::div_mod::lemma_fundamental_div_mod(fl, 8);
        }
        if f == 16 {
            assert(b == (q * 64 + fl / 16) * 16 + (fl % 16));
            vstd::arithmetic::div_mod::lemma_mod_bound(fl, 16);
            vstd::arithmetic::div_mod::lemma_fundamental_div_mod_converse(
                b as int,
                16,
                q * 64 + fl / 16,
                fl % 16,
            );
            assert(q * 64 == 2 * (q * 32));
            vstd::arithmetic::div_mod::lemma_mod_multiples_vanish(q * 32, fl / 16, 2);
            vstd::arithmetic::div_mod::lemma_fundamental_div_mod(fl, 16);
        }
    }
}

/// Installing a user leaf read back from a marked table reproduces exactly
/// its architectural fields.
proof fn lemma_installed_is_norm(e: PageTableEntry)
    requires
        bit_set(e.bits, 1),
    ensures
        entry_bits(
            (ppn_of(e.bits) * 4096) as u64,
            crate::pte::flags_with((flags_of(e.bits)) as u16, 1),
        ) == norm_entry(e).bits,
{
    lemma_flags_low_bits(e.bits);
    assert(bit_set(flags_of(e.bits), 1));
    assert(crate::pte::flags_with((flags_of(e.bits)) as u16, 1) == flags_of(e.bits)) by {
        vstd::arithmetic::div_mod::lemma_mod_bound(e.bits as int, 1024);
    }
    let pa = (ppn_of(e.bits) * 4096) as u64;
    assert(pa as int / 4096 == ppn_of(e.bits)) by {
        vstd::arithmetic::div_mod::lemma_div_multiples_vanish(ppn_of(e.bits) as int, 4096);
    }
    assert(ppn_of(e.bits) < 0x1000_0000_0000) by {
        vstd::arithmetic::div_mod::lemma_mod_bound((e.bits / 1024) as int, 0x1000_0000_0000);
    }
    vstd::arithmetic::div_mod::lemma_small_mod(ppn_of(e.bits) as nat, 0x1000_0000_0000);
}


/// Mapping a page and then translating any address inside that page yields
/// the mapped frame's address plus the offset: with `map_page`'s contract,
/// `query(va + k)` returns `pa + k` for every `k` below the page size.
pub proof fn lemma_map_then_query(post: PageTable, va: int, pa: u64, perm: u16, k: int)
    requires
        0 <= k < 4096,
        0 <= va,
        va % 4096 == 0,
        va + k <= u64::MAX,
        pa % 4096 == 0,
        pa < 0x100_0000_0000_0000,
        perm <= 0x3FF,
        leaf_entry_va(post, va) == Option::Some(
            PageTableEntry { bits: entry_bits(pa, crate::pte::flags_with(perm, 1)) },
        ),
    ensures
        leaf_entry_va(post, va + k) == leaf_entry_va(post, va),
        entry_target(leaf_entry_va(post, va + k)->Some_0) + (va + k) % 4096 == pa + k,
{
    assert((va + k) / 4096 == va / 4096 && (va + k) % 4096 == k) by {
        vstd::arithmetic::div_mod::lemma_fundamental_div_mod(va, 4096);
        vstd::arithmetic::div_mod::lemma_fundamental_div_mod_converse(va + k, 4096, va / 4096, k);
    }
    assert((va + k) / 0x4000_0000 == va / 0x4000_0000) by {
        vstd::arithmetic::div_mod::lemma_div_denominator(va, 4096, 0x4_0000);
        vstd::arithmetic::div_mod::lemma_div_denominator(va + k, 4096, 0x4_0000);
    }
    assert((va + k) / 0x20_0000 == va / 0x20_0000) by {
        vstd::arithmetic::div_mod::lemma_div_denominator(va, 4096, 512);
        vstd::arithmetic::div_mod::lemma_div_denominator(va + k, 4096, 512);
    }
    assert(leaf_entry_va(post, va + k) == leaf_entry_va(post, va));
    crate::pte::lemma_entry_decompose(pa, crate::pte::flags_with(perm, 1));
    let e = leaf_entry_va(post, va)->Some_0;
    assert(ppn_of(e.bits) == pa / 4096) by {
        vstd::arithmetic::div_mod::lemma_small_mod((pa / 4096) as nat, 0x1000_0000_0000);
    }
    assert(ppn_of(e.bits) * 4096 == pa) by {
        vstd::arithmetic::div_mod::lemma_fundamental_div_mod(pa as int, 4096);
    }
}


/// Number of page strides covering `size` bytes.
pub open spec fn stride_count(size: u64) -> int {
    (size + 4095) / 4096
}

/// The path `(x3, x2, x1)` belongs to one of the first `n` page strides
/// from `va`.
pub open spec fn is_stride_path(va: int, n: int, x3: int, x2: int, x1: int) -> bool {
    exists|m: int|
        0 <= m < n && spec_p3_index(va + 4096 * m) == x3 && spec_p2_index(va + 4096 * m) == x2
            && #[trigger] spec_p1_index(va + 4096 * m) == x1
}

/// Two page strides less than `2^27` pages apart select distinct paths.
proof fn lemma_stride_paths_distinct(va: int, m1: int, m2: int)
    requires
        0 <= va,
        0 <= m1 < m2,
        m2 - m1 < 0x800_0000,
    ensures
        !(spec_p3_index(va + 4096 * m1) == spec_p3_index(va + 4096 * m2) && spec_p2_index(
            va + 4096 * m1,
        ) == spec_p2_index(va + 4096 * m2) && spec_p1_index(va + 4096 * m1) == spec_p1_index(
            va + 4096 * m2,
        )),
{
    let v1 = va + 4096 * m1;
    let v2 = va + 4096 * m2;
    lemma_stride_vpn(va, m1);
    lemma_stride_vpn(va, m2);
    let n1 = v1 / 4096;
    let n2 = v2 / 4096;
    assert(n2 == n1 + (m2 - m1));
    if spec_p3_index(v1) == spec_p3_index(v2) && spec_p2_index(v1) == spec_p2_index(v2)
        && spec_p1_index(v1) == spec_p1_index(v2) {
        lemma_vpn_of_indices(v1);
        lemma_vpn_of_indices(v2);
        assert(n1 % 0x800_0000 == n2 % 0x800_0000);
        let d = m2 - m1;
        vstd::arithmetic::div_mod::lemma_mod_bound(n1, 0x800_0000);
        vstd::arithmetic::div_mod::lemma_mod_bound(d, 0x800_0000);
        vstd::arithmetic::div_mod::lemma_small_mod(d as nat, 0x800_0000);
        vstd::arithmetic::div_mod::lemma_add_mod_noop(n1, d, 0x800_0000);
        assert((n1 % 0x800_0000 + d) % 0x800_0000 == n2 % 0x800_0000);
        let r = n1 % 0x800_0000;
        if r + d < 0x800_0000 {
            vstd::arithmetic::div_mod::lemma_small_mod((r + d) as nat, 0x800_0000);
        } else {
            assert(r + d == 0x800_0000 + (r + d - 0x800_0000));
            vstd::arithmetic::div_mod::lemma_mod_multiples_vanish(
                1,
                r + d - 0x800_0000,
                0x800_0000,
            );
            vstd::arithmetic::div_mod::lemma_small_mod((r + d - 0x800_0000) as nat, 0x800_0000);
        }
        assert(false);
    }
}

/// The page number of the `m`-th stride is the base page number plus `m`.
proof fn lemma_stride_vpn(va: int, m: int)
    requires
        0 <= va,
        0 <= m,
    ensures
        (va + 4096 * m) / 4096 == va / 4096 + m,
{
    vstd::arithmetic::div_mod::lemma_fundamental_div_mod(va, 4096);
    vstd::arithmetic::div_mod::lemma_mod_bound(va, 4096);
    assert(va + 4096 * m == (va / 4096 + m) * 4096 + va % 4096) by (nonlinear_arith)
        requires
            va == 4096 * (va / 4096) + va % 4096,
    ;
    vstd::arithmetic::div_mod::lemma_fundamental_div_mod_converse(
        va + 4096 * m,
        4096,
        va / 4096 + m,
        va % 4096,
    );
}

/// The three per-level indices determine the page number modulo `2^27`.
proof fn lemma_vpn_of_indices(v: int)
    requires
        0 <= v,
    ensures
        (v / 4096) % 0x800_0000 == 512 * (512 * ((v / 4096 / 0x4_0000) % 512) + (v / 4096 / 512)
            % 512) + (v / 4096) % 512,
        spec_p1_index(v) == (v / 4096) % 512,
        spec_p2_index(v) == (v / 4096 / 512) % 512,
        spec_p3_index(v) == (v / 4096 / 0x4_0000) % 512,
{
    let n = v / 4096;
    vstd::arithmetic::div_mod::lemma_div_pos_is_pos(v, 4096);
    vstd::arithmetic::div_mod::lemma_div_denominator(v, 4096, 512);
    vstd::arithmetic::div_mod::lemma_div_denominator(v, 4096, 0x4_0000);
    vstd::arithmetic::div_mod::lemma_breakdown(n, 512, 0x4_0000);
    assert(n % 0x800_0000 == 512 * ((n / 512) % 0x4_0000) + n % 512);
    vstd::arithmetic::div_mod::lemma_div_pos_is_pos(n, 512);
    vstd::arithmetic::div_mod::lemma_breakdown(n / 512, 512, 512);
    assert((n / 512) % 0x4_0000 == 512 * ((n / 512 / 512) % 512) + (n / 512) % 512);
    vstd::arithmetic::div_mod::lemma_div_denominator(n, 512, 512);
    assert(n / 512 / 512 == n / 0x4_0000);
}


impl PageTable {
    /// Maps the region `[va, va + size)` page by page: stride `m` maps the
    /// page of `va + 4096 m` to the page of `pa + 4096 m`, overwriting
    /// whatever was there; no other path changes. The walk is not atomic:
    /// on exhaustion the strides already processed stay mapped and the rest
    /// are untouched.
    #[verifier::rlimit(100)]
    pub fn map_region(
        &mut self,
        fa: &mut FrameAllocator,
        va: VirtAddr,
        pa: PhysAddr,
        size: u64,
        perm: u16,
    ) -> (r: Result<(), MapError>)
        requires
            old(self).wf(),
            old(fa).wf(),
            old(self).tables_unmapped(*old(fa)),
            perm <= 0x3FF,
            bit_set(perm as u64, 2) || bit_set(perm as u64, 4) || bit_set(perm as u64, 8)
                || bit_set(perm as u64, 16),
            va.0 + size <= u64::MAX,
            pa.0 + size <= u64::MAX,
            size <= 0x80_0000_0000,
            forall|m: int|
                0 <= m < stride_count(size) ==> #[trigger] walk_ok(*old(self), va.0 + 4096 * m),
            tcount(*old(self)) + 2 * stride_count(size) < 0x10_0000,
        ensures
            final(self).wf(),
            final(fa).wf(),
            final(self).tables_unmapped(*final(fa)),
            final(self).root_pa == old(self).root_pa,
            final(fa).total == old(fa).total,
            forall|va2: int| walk_ok(*old(self), va2) ==> #[trigger] walk_ok(*final(self), va2),
            forall|a: int| covered(lists_of(*final(fa)), a) ==> covered(lists_of(*old(fa)), a),
            free_pages(*old(fa)) >= 2 * stride_count(size) ==> r is Ok,
            (r is Err) ==> free_pages(*final(fa)) < 2,
            (r is Ok) ==> forall|m: int|
                0 <= m < stride_count(size) ==> #[trigger] leaf_entry_va(
                    *final(self),
                    va.0 + 4096 * m,
                ) == Option::Some(
                    PageTableEntry {
                        bits: entry_bits(
                            (pa.0 + 4096 * m) as u64,
                            crate::pte::flags_with(perm, 1),
                        ),
                    },
                ),
            (r is Ok) ==> forall|x3: int, x2: int, x1: int|
                0 <= x3 < 512 && 0 <= x2 < 512 && 0 <= x1 < 512 && !is_stride_path(
                    va.0 as int,
                    stride_count(size),
                    x3,
                    x2,
                    x1,
                ) ==> #[trigger] leaf_entry(*final(self), x3, x2, x1) == leaf_entry(
                    *old(self),
                    x3,
                    x2,
                    x1,
                ),
    {
        let n: u64 = (size + 4095) / 4096;
        let mut m: u64 = 0;
        proof {
            assert(n == stride_count(size));
        }
        while m < n
            invariant
                0 <= m <= n,
                n == stride_count(size),
                size <= 0x80_0000_0000,
                va.0 + size <= u64::MAX,
                pa.0 + size <= u64::MAX,
                perm <= 0x3FF,
                bit_set(perm as u64, 2) || bit_set(perm as u64, 4) || bit_set(perm as u64, 8)
                    || bit_set(perm as u64, 16),
                old(self).wf(),
                self.wf(),
                fa.wf(),
                self.tables_unmapped(*fa),
                self.root_pa == old(self).root_pa,
                fa.total == old(fa).total,
                fa.allocated <= old(fa).allocated + 2 * m,
                tcount(*self) <= tcount(*old(self)) + 2 * m,
                tcount(*old(self)) + 2 * n < 0x10_0000,
                forall|m2: int|
                    0 <= m2 < n ==> #[trigger] walk_ok(*old(self), va.0 + 4096 * m2),
                forall|va2: int| walk_ok(*old(self), va2) ==> #[trigger] walk_ok(*self, va2),
                forall|a: int| covered(lists_of(*fa), a) ==> covered(lists_of(*old(fa)), a),
                forall|m2: int|
                    0 <= m2 < m ==> #[trigger] leaf_entry_va(*self, va.0 + 4096 * m2)
                        == Option::Some(
                        PageTableEntry {
                            bits: entry_bits(
                                (pa.0 + 4096 * m2) as u64,
                                crate::pte::flags_with(perm, 1),
                            ),
                        },
                    ),
                forall|x3: int, x2: int, x1: int|
                    0 <= x3 < 512 && 0 <= x2 < 512 && 0 <= x1 < 512 && !is_stride_path(
                        va.0 as int,
                        m as int,
                        x3,
                        x2,
                        x1,
                    ) ==> #[trigger] leaf_entry(*self, x3, x2, x1) == leaf_entry(
                        *old(self),
                        x3,
                        x2,
                        x1,
                    ),
            decreases n - m,
        {
            proof {
                // This stride stays inside the region.
                assert(4096 * (n - 1) <= size + 4095 - 4096) by {
                    assert(4096 * n <= size + 4095);
                }
                assert(4096 * m <= 4096 * (n - 1)) by (nonlinear_arith)
                    requires
                        m <= n - 1,
                ;
            }
            let off = 4096 * m;
            let va_m = VirtAddr(va.0 + off);
            let pa_m = PhysAddr(pa.0 + off);
            let ghost pt_pre = *self;
            let ghost fa_pre = *fa;
            proof {
                assert(walk_ok(*self, va_m.0 as int));
                assert(tcount(*self) < 0x10_0000) by {
                    assert(2 * m <= 2 * n) by (nonlinear_arith)
                        requires
                            m <= n,
                    ;
                }
            }
            match self.map_page(fa, va_m, pa_m, perm) {
                Ok(()) => {
                    proof {
                        assert forall|m2: int|
                            0 <= m2 < m + 1 implies #[trigger] leaf_entry_va(
                            *self,
                            va.0 + 4096 * m2,
                        ) == Option::Some(
                            PageTableEntry {
                                bits: entry_bits(
                                    (pa.0 + 4096 * m2) as u64,
                                    crate::pte::flags_with(perm, 1),
                                ),
                            },
                        ) by {
                            vstd::arithmetic::div_mod::lemma_mod_bound(
                                (va.0 + 4096 * m2) / 0x4000_0000,
                                512,
                            );
                            vstd::arithmetic::div_mod::lemma_mod_bound(
                                (va.0 + 4096 * m2) / 0x20_0000,
                                512,
                            );
                            vstd::arithmetic::div_mod::lemma_mod_bound(
                                (va.0 + 4096 * m2) / 0x1000,
                                512,
                            );
                            vstd::arithmetic::div_mod::lemma_div_pos_is_pos(
                                (va.0 + 4096 * m2) as int,
                                0x4000_0000,
                            );
                            vstd::arithmetic::div_mod::lemma_div_pos_is_pos(
                                (va.0 + 4096 * m2) as int,
                                0x20_0000,
                            );
                            vstd::arithmetic::div_mod::lemma_div_pos_is_pos(
                                (va.0 + 4096 * m2) as int,
                                0x1000,
                            );
                            if m2 < m {
                                lemma_stride_paths_distinct(va.0 as int, m2, m as int);
                                assert(leaf_entry_va(*self, va.0 + 4096 * m2) == leaf_entry_va(
                                    pt_pre,
                                    va.0 + 4096 * m2,
                                ));
                            }
                        }
                        assert forall|x3: int, x2: int, x1: int|
                            0 <= x3 < 512 && 0 <= x2 < 512 && 0 <= x1 < 512 && !is_stride_path(
                                va.0 as int,
                                m as int + 1,
                                x3,
                                x2,
                                x1,
                            ) implies #[trigger] leaf_entry(*self, x3, x2, x1) == leaf_entry(
                            *old(self),
                            x3,
                            x2,
                            x1,
                        ) by {
                            assert(!is_stride_path(va.0 as int, m as int, x3, x2, x1));
                            assert(!(spec_p3_index(va_m.0 as int) == x3 && spec_p2_index(
                                va_m.0 as int,
                            ) == x2 && spec_p1_index(va_m.0 as int) == x1)) by {
                                if spec_p3_index(va_m.0 as int) == x3 && spec_p2_index(
                                    va_m.0 as int,
                                ) == x2 && spec_p1_index(va_m.0 as int) == x1 {
                                    assert(is_stride_path(
                                        va.0 as int,
                                        m as int + 1,
                                        x3,
                                        x2,
                                        x1,
                                    )) by {
                                        assert(0 <= m < m + 1 && spec_p3_index(
                                            va.0 + 4096 * (m as int),
                                        ) == x3 && spec_p2_index(va.0 + 4096 * (m as int)) == x2
                                            && spec_p1_index(va.0 + 4096 * (m as int)) == x1);
                                    }
                                }
                            }
                            assert(leaf_entry(*self, x3, x2, x1) == leaf_entry(
                                pt_pre,
                                x3,
                                x2,
                                x1,
                            ));
                        }
                    }
                },
                Err(e) => {
                    proof {
                        assert(free_pages(fa_pre) < dirs_needed(pt_pre, va_m.0 as int));
                        assert(free_pages(*fa) < 2);
                        assert(free_pages(*old(fa)) >= 2 * stride_count(size)
                            ==> free_pages(fa_pre) >= 2) by {
                            assert(fa_pre.allocated <= old(fa).allocated + 2 * m);
                            assert(2 * m + 2 <= 2 * n) by (nonlinear_arith)
                                requires
                                    m < n,
                            ;
                        }
                    }
                    return Err(e);
                },
            }
            m = m + 1;
        }
        Ok(())
    }
}


impl PageTable {
    /// Destroys the table, releasing every directory frame it allocated
    /// back to the pool. Leaf data frames are not touched: their lifetime
    /// belongs to whoever requested the mappings.
    pub fn destroy(self, fa: &mut FrameAllocator)
        requires
            self.wf(),
            old(fa).wf(),
            self.tables_unmapped(*old(fa)),
            old(fa).allocated >= tcount(self),
        ensures
            final(fa).wf(),
            final(fa).total == old(fa).total,
            final(fa).allocated == old(fa).allocated - tcount(self),
            forall|a: int|
                covered(lists_of(*final(fa)), a) <==> (covered(lists_of(*old(fa)), a) || exists|
                    k: int,
                |
                    0 <= k < tcount(self) && a == #[trigger] pa_of(self, k) / 4096),
    {
        let n = self.intrm_tables.len();
        let mut k: usize = 0;
        while k < n
            invariant
                0 <= k <= n,
                n == tcount(self),
                self.wf(),
                fa.wf(),
                fa.total == old(fa).total,
                fa.allocated == old(fa).allocated - k,
                old(fa).allocated >= n,
                forall|k2: int|
                    k <= k2 < n ==> !covered(lists_of(*fa), #[trigger] pa_of(self, k2) / 4096),
                forall|a: int|
                    covered(lists_of(*fa), a) <==> (covered(lists_of(*old(fa)), a) || exists|
                        k2: int,
                    |
                        0 <= k2 < k && a == #[trigger] pa_of(self, k2) / 4096),
            decreases n - k,
        {
            let pa = self.intrm_tables[k];
            let ppn = pa.floor_page();
            let ghost fa_pre = *fa;
            proof {
                vstd::arithmetic::power2::is_pow2_equiv(1);
                vstd::arithmetic::power2::lemma2_to64();
                assert(vstd::arithmetic::power2::is_pow2_exists(1)) by {
                    assert(vstd::arithmetic::power::pow(2, 0) == 1) by {
                        vstd::arithmetic::power2::lemma_pow2(0);
                    }
                }
                assert(pa.0 == pa_of(self, k as int));
                assert(pa_of(self, k as int) % 4096 == 0 && pa_of(self, k as int)
                    < 0x100_0000_0000_0000);
                assert(ppn.0 == pa_of(self, k as int) / 4096);
                assert(ppn.0 + 1 <= crate::addr::PPN_LIMIT) by {
                    vstd::arithmetic::div_mod::lemma_fundamental_div_mod(pa.0 as int, 4096);
                }
                assert(!covered(lists_of(*fa), pa_of(self, k as int) / 4096));
                assert(!covered(lists_of(*fa), ppn.0 as int));
                assert forall|o: int, idx: int|
                    0 <= o < 32 && 0 <= idx < lists_of(*fa)[o].len() implies !range_overlap(
                    (#[trigger] lists_of(*fa)[o][idx]) as int,
                    pow2(o as nat) as int,
                    ppn.0 as int,
                    1,
                ) by {
                    if range_overlap(
                        lists_of(*fa)[o][idx] as int,
                        pow2(o as nat) as int,
                        ppn.0 as int,
                        1,
                    ) {
                        assert(covered(lists_of(*fa), ppn.0 as int)) by {
                            assert(0 <= o < lists_of(*fa).len() && 0 <= idx < lists_of(
                                *fa,
                            )[o].len() && lists_of(*fa)[o][idx] <= ppn.0 < lists_of(*fa)[o][idx]
                                + pow2(o as nat));
                        }
                    }
                }
            }
            fa.dealloc(ppn, 1);
            proof {
                assert forall|k2: int| k + 1 <= k2 < n implies !covered(
                    lists_of(*fa),
                    #[trigger] pa_of(self, k2) / 4096,
                ) by {
                    assert(covered(lists_of(*fa), pa_of(self, k2) / 4096) <==> (covered(
                        lists_of(fa_pre),
                        pa_of(self, k2) / 4096,
                    ) || ppn.0 <= pa_of(self, k2) / 4096 < ppn.0 + 1));
                    assert(pa_of(self, k2) != pa_of(self, k as int));
                    assert(pa_of(self, k2) != pa.0);
                    assert(pa_of(self, k2) / 4096 != ppn.0) by {
                        vstd::arithmetic::div_mod::lemma_fundamental_div_mod(
                            pa_of(self, k2),
                            4096,
                        );
                        vstd::arithmetic::div_mod::lemma_fundamental_div_mod(pa.0 as int, 4096);
                    }
                }
                assert forall|a: int| covered(lists_of(*fa), a) <==> (covered(
                    lists_of(*old(fa)),
                    a,
                ) || exists|k2: int|
                    0 <= k2 < k + 1 && a == #[trigger] pa_of(self, k2) / 4096) by {
                    assert(covered(lists_of(*fa), a) <==> (covered(lists_of(fa_pre), a) || ppn.0
                        <= a < ppn.0 + 1));
                    if a == pa_of(self, k as int) / 4096 {
                        assert(0 <= (k as int) < k + 1 && a == pa_of(self, k as int) / 4096);
                    }
                    if covered(lists_of(fa_pre), a) {
                        if !covered(lists_of(*old(fa)), a) {
                            let k2 = choose|k2: int|
                                0 <= k2 < k && a == #[trigger] pa_of(self, k2) / 4096;
                            assert(0 <= k2 < k + 1 && a == pa_of(self, k2) / 4096);
                        }
                    }
                }
            }
            k = k + 1;
        }
    }
}

} // verus!
