//! A power-of-two (buddy) range allocator over page numbers.
//!
//! The allocator keeps an array of free lists indexed by order; an entry of
//! the list at order `o` denotes a free block of `2^o` pages whose start is
//! aligned to `2^o`. Free blocks never overlap, and the allocated count plus
//! the pages held in the free lists always equals the managed total.

use vstd::prelude::*;

use vstd::arithmetic::power2::{
    is_pow2, is_pow2_equiv, lemma2_to64, lemma_pow2, lemma_pow2_adds, lemma_pow2_pos,
    lemma_pow2_strictly_increases, pow2,
};
use vstd::arithmetic::power::pow;

use crate::addr::{page_num_ceil, page_num_floor, PhysAddr, PhysPageNum, PPN_LIMIT};

verus! {

/// Number of free lists: orders `0` through `ORDER - 1` are representable.
pub const ORDER: usize = 32;

/// A buddy allocator over physical page numbers.
pub struct FrameAllocator {
    /// `free_list[o]` holds the start page numbers of the free blocks of
    /// `2^o` pages.
    pub free_list: Vec<Vec<u64>>,
    /// Number of pages managed in total.
    pub total: u64,
    /// Number of pages currently handed out.
    pub allocated: u64,
}

/// The free lists of `fa`, one sequence of block starts per order.
pub open spec fn lists_of(fa: FrameAllocator) -> Seq<Seq<u64>> {
    fa.free_list@.map_values(|v: Vec<u64>| v@)
}

/// A free block: start `b` at order `o`, aligned to its size and lying below
/// the page-number limit.
pub open spec fn block_ok(b: u64, o: int) -> bool {
    &&& 0 <= o < 32
    &&& b as int % pow2(o as nat) as int == 0
    &&& b + pow2(o as nat) <= PPN_LIMIT
}

/// The blocks `(b1, o1)` and `(b2, o2)` cover disjoint page ranges.
pub open spec fn blocks_disjoint(b1: u64, o1: int, b2: u64, o2: int) -> bool {
    b1 + pow2(o1 as nat) <= b2 || b2 + pow2(o2 as nat) <= b1
}

/// Total number of pages held by the free lists `ls`.
pub open spec fn lists_size(ls: Seq<Seq<u64>>) -> int
    decreases ls.len(),
{
    if ls.len() == 0 {
        0
    } else {
        lists_size(ls.drop_last()) + ls.last().len() * pow2((ls.len() - 1) as nat)
    }
}

/// True when page `a` lies inside some free block of `ls`.
pub open spec fn covered(ls: Seq<Seq<u64>>, a: int) -> bool {
    exists|o: int, i: int|
        0 <= o < ls.len() && 0 <= i < ls[o].len() && (#[trigger] ls[o][i]) <= a < ls[o][i] + pow2(
            o as nat,
        )
}

/// The free lists `ls` cover exactly the pages in `[lo, hi)`.
pub open spec fn cover_range(ls: Seq<Seq<u64>>, lo: int, hi: int) -> bool {
    forall|a: int| covered(ls, a) <==> lo <= a < hi
}

/// `ls2` covers exactly the pages of `ls1` outside `[b, b + n)`.
pub open spec fn cover_shrinks(ls2: Seq<Seq<u64>>, ls1: Seq<Seq<u64>>, b: int, n: int) -> bool {
    forall|a: int| covered(ls2, a) <==> (covered(ls1, a) && !(b <= a < b + n))
}

/// `ls2` covers exactly the pages of `ls1` plus those in `[b, b + n)`.
pub open spec fn cover_grows(ls2: Seq<Seq<u64>>, ls1: Seq<Seq<u64>>, b: int, n: int) -> bool {
    forall|a: int| covered(ls2, a) <==> (covered(ls1, a) || b <= a < b + n)
}

/// `ls1` covers every page in `[b, b + n)`.
pub open spec fn range_covered(ls1: Seq<Seq<u64>>, b: int, n: int) -> bool {
    forall|a: int| b <= a < b + n ==> covered(ls1, a)
}

/// The ranges `[b1, b1 + n1)` and `[b2, b2 + n2)` intersect.
pub open spec fn range_overlap(b1: int, n1: int, b2: int, n2: int) -> bool {
    !(b1 + n1 <= b2 || b2 + n2 <= b1)
}

/// `ls2` and `ls1` cover the same pages.
pub open spec fn cover_same(ls2: Seq<Seq<u64>>, ls1: Seq<Seq<u64>>) -> bool {
    forall|a: int| covered(ls2, a) <==> covered(ls1, a)
}

impl FrameAllocator {
    /// Every free block is aligned, bounded and disjoint from every other,
    /// and the pages handed out plus the pages still free equal the total.
    pub open spec fn wf(self) -> bool {
        let ls = lists_of(self);
        &&& ls.len() == 32
        &&& self.total <= 0x1_0000_0000
        &&& forall|o: int, i: int|
            0 <= o < 32 && 0 <= i < ls[o].len() ==> block_ok(#[trigger] ls[o][i], o)
        &&& forall|o1: int, i1: int, o2: int, i2: int|
            0 <= o1 < 32 && 0 <= i1 < ls[o1].len() && 0 <= o2 < 32 && 0 <= i2 < ls[o2].len() && (o1
                != o2 || i1 != i2) ==> blocks_disjoint(
                #[trigger] ls[o1][i1],
                o1,
                #[trigger] ls[o2][i2],
                o2,
            )
        &&& lists_size(ls) + self.allocated == self.total
        &&& self.allocated <= self.total
    }

    /// Builds an allocator that manages nothing yet.
    pub fn new() -> (r: Self)
        ensures
            r.wf(),
            r.total == 0,
            r.allocated == 0,
            forall|o: int| 0 <= o < 32 ==> lists_of(r)[o].len() == 0,
    {
        let mut free_list: Vec<Vec<u64>> = Vec::new();
        while free_list.len() < 32
            invariant
                free_list@.len() <= 32,
                forall|o: int| 0 <= o < free_list@.len() ==> free_list@[o]@.len() == 0,
            decreases 32 - free_list@.len(),
        {
            free_list.push(Vec::new());
        }
        let r = FrameAllocator { free_list, total: 0, allocated: 0 };
        proof {
            lemma_lists_size_all_empty(lists_of(r));
        }
        r
    }

    /// Seeds a fresh allocator with the page range `[start, end)`, greedily
    /// partitioned into maximal power-of-two, alignment-respecting blocks.
    ///
    /// Afterwards the free blocks are pairwise disjoint, lie within the
    /// seeded page range, and cover it exactly, so their sizes sum to the
    /// managed total.
    pub fn init(&mut self, start: PhysAddr, end: PhysAddr)
        requires
            old(self).wf(),
            old(self).total == 0,
            old(self).allocated == 0,
            forall|o: int| 0 <= o < 32 ==> lists_of(*old(self))[o].len() == 0,
            1 <= start.0 < end.0,
            end.0 <= 0x100_0000_0000_0000,
            page_num_ceil(start.0 as int) <= page_num_floor(end.0 as int),
            page_num_floor(end.0 as int) - page_num_ceil(start.0 as int) < 0x1_0000_0000,
        ensures
            final(self).wf(),
            final(self).allocated == 0,
            final(self).total == page_num_floor(end.0 as int) - page_num_ceil(start.0 as int),
            cover_range(
                lists_of(*final(self)),
                page_num_ceil(start.0 as int),
                page_num_floor(end.0 as int),
            ),
            lists_of(*final(self)) == greedy_fill(
                lists_of(*old(self)),
                page_num_ceil(start.0 as int),
                page_num_floor(end.0 as int),
            ),
    {
        let s = start.ceil_page().0;
        let e = end.floor_page().0;
        let mut current = s;
        proof {
            lemma2_to64();
        }
        while current < e
            invariant
                self.total == 0,
                self.allocated == 0,
                lists_of(*self).len() == 32,
                1 <= s <= current <= e <= 0x1000_0000_0000,
                e - s < 0x1_0000_0000,
                forall|o: int, i: int|
                    0 <= o < 32 && 0 <= i < lists_of(*self)[o].len() ==> block_ok(
                        #[trigger] lists_of(*self)[o][i],
                        o,
                    ),
                forall|o: int, i: int|
                    0 <= o < 32 && 0 <= i < lists_of(*self)[o].len() ==> s <= (
                    #[trigger] lists_of(*self)[o][i]) && lists_of(*self)[o][i] + pow2(o as nat)
                        <= current,
                forall|o1: int, i1: int, o2: int, i2: int|
                    0 <= o1 < 32 && 0 <= i1 < lists_of(*self)[o1].len() && 0 <= o2 < 32 && 0 <= i2
                        < lists_of(*self)[o2].len() && (o1 != o2 || i1 != i2) ==> blocks_disjoint(
                        #[trigger] lists_of(*self)[o1][i1],
                        o1,
                        #[trigger] lists_of(*self)[o2][i2],
                        o2,
                    ),
                lists_size(lists_of(*self)) == current - s,
                cover_range(lists_of(*self), s as int, current as int),
                greedy_fill(lists_of(*old(self)), s as int, e as int) == greedy_fill(
                    lists_of(*self),
                    current as int,
                    e as int,
                ),
            decreases e - current,
        {
            let ghost ls0 = lists_of(*self);
            proof {
                lemma2_to64();
            }
            let mut size: u64 = 1;
            let mut k: usize = 0;
            while size * 2 <= e - current && current % (size * 2) == 0
                invariant
                    1 <= s <= current < e <= 0x1000_0000_0000,
                    e - s < 0x1_0000_0000,
                    1 <= size,
                    size == pow2(k as nat),
                    size <= e - current,
                    current % size == 0,
                    k < 64,
                    greedy_order_from(current as int, e - current, 0) == greedy_order_from(
                        current as int,
                        e - current,
                        k as nat,
                    ),
                decreases e - current - size,
            {
                proof {
                    assert(pow2((k + 1) as nat) == 2 * pow2(k as nat)) by {
                        lemma_pow2_adds(1, k as nat);
                        lemma2_to64();
                    }
                    if k + 1 >= 64 {
                        lemma_pow2_strictly_increases(33, (k + 1) as nat);
                        lemma2_to64();
                    }
                    // The exec doubling takes the same step as the greedy
                    // order: the block still fits and stays aligned.
                    assert(k < 63) by {
                        if k >= 32 {
                            if k > 32 {
                                lemma_pow2_strictly_increases(32, k as nat);
                            }
                            lemma2_to64();
                            assert(pow2(k as nat) >= 0x1_0000_0000);
                        }
                    }
                    assert(greedy_order_from(current as int, e - current, k as nat)
                        == greedy_order_from(current as int, e - current, (k + 1) as nat));
                }
                size = size * 2;
                k = k + 1;
            }
            proof {
                // The exec loop stopped exactly where the greedy order does.
                assert(k < 63) by {
                    if k >= 32 {
                        if k > 32 {
                            lemma_pow2_strictly_increases(32, k as nat);
                        }
                        lemma2_to64();
                        assert(pow2(k as nat) >= 0x1_0000_0000);
                    }
                }
                assert(pow2((k + 1) as nat) == 2 * pow2(k as nat)) by {
                    lemma_pow2_adds(1, k as nat);
                    lemma2_to64();
                }
                assert(greedy_order_from(current as int, e - current, k as nat) == k as nat);
                assert(greedy_order_from(current as int, e - current, 0) == k as nat);
            }
            proof {
                // The block order stays below 32 because the block fits in
                // a span shorter than 2^32 pages.
                if k >= 32 {
                    if k > 32 {
                        lemma_pow2_strictly_increases(32, k as nat);
                    }
                    lemma2_to64();
                    assert(false);
                }
                lemma_lists_size_push(ls0, current, k as int);
                lemma_cover_push_range(ls0, current, k as int, s as int);
            }
            self.free_list[k].push(current);
            proof {
                assert(lists_of(*self) =~~= push_block(ls0, current, k as int));
                assert(block_ok(current, k as int));
                assert(cover_range(lists_of(*self), s as int, current + size));
                assert(greedy_fill(ls0, current as int, e as int) == greedy_fill(
                    push_block(ls0, current, k as int),
                    current + size,
                    e as int,
                ));
            }
            current = current + size;
        }
        self.total = e - s;
    }

    /// Allocates a block of `size` pages aligned to `align` pages, both
    /// powers of two. Returns `None` exactly when the request is zero-sized,
    /// exceeds the managed total, or no free block of sufficient order
    /// exists; the allocator is then unchanged. On success the returned
    /// start is the last block of the first nonempty list at or above the
    /// needed order, split down to the requested size with every upper half
    /// refiled as a buddy block.
    pub fn allocate(&mut self, size: usize, align: usize) -> (r: Option<PhysPageNum>)
        requires
            old(self).wf(),
            (size > 0 && align > 0 && size <= old(self).total && align <= old(self).total)
                ==> is_pow2(size as int) && is_pow2(align as int),
        ensures
            final(self).wf(),
            final(self).total == old(self).total,
            (r is None) ==> *final(self) == *old(self),
            (r is None) <==> (size == 0 || align == 0 || size > old(self).total || align > old(
                self,
            ).total || no_free_block(
                lists_of(*old(self)),
                start_order(size as int, align as int) as int,
            )),
            r matches Some(p) ==> {
                let ls0 = lists_of(*old(self));
                let i = first_free_from(ls0, start_order(size as int, align as int) as int);
                &&& p.0 % (size as u64) == 0
                &&& p.0 % (align as u64) == 0
                &&& p.0 + size <= PPN_LIMIT
                &&& i < 32
                &&& p.0 == ls0[i].last()
                &&& lists_of(*final(self)) == split_lists(ls0, i, order_spec(size as int) as int)
                &&& final(self).allocated == old(self).allocated + size
                &&& cover_shrinks(lists_of(*final(self)), ls0, p.0 as int, size as int)
                &&& range_covered(ls0, p.0 as int, size as int)
            },
    {
        if size == 0 || align == 0 || size as u64 > self.total || align as u64 > self.total {
            return None;
        }
        let order = log2_of(size as u64);
        let align_order = log2_of(align as u64);
        let so = if order > align_order {
            order
        } else {
            align_order
        };
        proof {
            lemma_order_unique(order as nat, order_spec(size as int));
            lemma_order_unique(align_order as nat, order_spec(align as int));
            assert(so as nat == start_order(size as int, align as int));
            lemma2_to64();
            if order > 32 {
                lemma_pow2_strictly_increases(32, order as nat);
            }
            if align_order > 32 {
                lemma_pow2_strictly_increases(32, align_order as nat);
            }
            assert(order <= 32 && align_order <= 32);
        }
        let ghost ls0 = lists_of(*self);
        let mut i = so;
        while i < 32 && self.free_list[i].len() == 0
            invariant
                so <= i <= 32,
                *self == *old(self),
                lists_of(*self) == ls0,
                lists_of(*self).len() == 32,
                forall|o2: int| so <= o2 < i ==> ls0[o2].len() == 0,
            decreases 32 - i,
        {
            i = i + 1;
        }
        if i >= 32 {
            return None;
        }
        proof {
            lemma_first_free(ls0, so as int, i as int);
        }
        // Split the last block of the first suitable nonempty list.
        let p = match self.free_list[i].pop() {
            Some(v) => v,
            None => {
                proof {
                    assert(false);
                }
                0
            },
        };
        let ghost ls1 = ls0.update(i as int, ls0[i as int].drop_last());
        proof {
            assert(lists_of(*self) =~~= ls1);
            assert(block_ok(p, i as int));
            lemma_pow2_pos(i as nat);
            lemma_pow2_pos(order as nat);
            lemma_lists_size_update(ls0, i as int, ls0[i as int].drop_last());
            assert((ls0[i as int].drop_last().len() - ls0[i as int].len()) * pow2(i as nat) == -1
                * pow2(i as nat)) by (nonlinear_arith)
                requires
                    ls0[i as int].drop_last().len() == ls0[i as int].len() - 1,
            ;
            assert(-1 * pow2(i as nat) == -pow2(i as nat)) by (nonlinear_arith);
            // Removing the popped block uncovers exactly its range.
            lemma_cover_pop(ls0, i as int);
            // The popped range itself was covered.
            assert forall|a: int| p <= a < p + pow2(i as nat) implies covered(ls0, a) by {
                let idx = ls0[i as int].len() - 1;
                assert(ls0[i as int][idx] == p);
                assert(0 <= i < ls0.len() && 0 <= idx < ls0[i as int].len() && ls0[i as int][idx]
                    <= a < ls0[i as int][idx] + pow2(i as nat));
            }
            assert(range_covered(ls0, p as int, pow2(i as nat) as int));
        }
        let mut j = i;
        while j > order
            invariant
                order <= j <= i < 32,
                i < lists_of(*self).len() == 32,
                pow2(order as nat) == size,
                size <= 0x1_0000_0000,
                block_ok(p, i as int),
                self.total == old(self).total,
                self.allocated == old(self).allocated,
                old(self).wf(),
                ls0 == lists_of(*old(self)),
                ls1 == ls0.update(i as int, ls0[i as int].drop_last()),
                buddies_pushed(ls1, p, order as int, i as int) == buddies_pushed(
                    lists_of(*self),
                    p,
                    order as int,
                    j as int,
                ),
                lists_size(lists_of(*self)) == lists_size(ls0) - pow2(j as nat),
                cover_shrinks(lists_of(*self), ls0, p as int, pow2(j as nat) as int),
                range_covered(ls0, p as int, pow2(i as nat) as int),
                forall|o2: int, i2: int|
                    0 <= o2 < 32 && 0 <= i2 < lists_of(*self)[o2].len() ==> block_ok(
                        #[trigger] lists_of(*self)[o2][i2],
                        o2,
                    ),
                forall|o1: int, i1: int, o2: int, i2: int|
                    0 <= o1 < 32 && 0 <= i1 < lists_of(*self)[o1].len() && 0 <= o2 < 32 && 0 <= i2
                        < lists_of(*self)[o2].len() && (o1 != o2 || i1 != i2) ==> blocks_disjoint(
                        #[trigger] lists_of(*self)[o1][i1],
                        o1,
                        #[trigger] lists_of(*self)[o2][i2],
                        o2,
                    ),
                forall|o2: int, i2: int|
                    0 <= o2 < 32 && 0 <= i2 < lists_of(*self)[o2].len()
                        ==> !range_overlap(
                        #[trigger] lists_of(*self)[o2][i2] as int,
                        pow2(o2 as nat) as int,
                        p as int,
                        pow2(j as nat) as int,
                    ),
            decreases j,
        {
            let ghost lsc = lists_of(*self);
            j = j - 1;
            let half = pow2_exec(j);
            proof {
                lemma_pow2_pos(j as nat);
                assert(pow2((j + 1) as nat) == 2 * pow2(j as nat)) by {
                    lemma_pow2_adds(1, j as nat);
                    lemma2_to64();
                }
                lemma_pow2_strictly_increases(j as nat, i as nat);
                if j + 1 < i {
                    lemma_pow2_strictly_increases((j + 1) as nat, i as nat);
                }
                assert(pow2((j + 1) as nat) <= pow2(i as nat));
                // The buddy block is aligned to its order and in bounds.
                lemma_pow2_divides(p as int, j as nat, i as nat);
                lemma_mod_zero_add(p as int, pow2(j as nat) as int, pow2(j as nat) as int);
                vstd::arithmetic::div_mod::lemma_mod_multiples_basic(1, pow2(j as nat) as int);
                lemma_lists_size_push(lsc, (p + half) as u64, j as int);
                lemma_cover_push(lsc, (p + half) as u64, j as int);
            }
            self.free_list[j].push(p + half);
            proof {
                assert(lists_of(*self) =~~= push_block(lsc, (p + half) as u64, j as int));
                assert(block_ok((p + half) as u64, j as int));
                assert(cover_shrinks(lsc, ls0, p as int, pow2((j + 1) as nat) as int));
                assert forall|a: int| covered(lists_of(*self), a) <==> (covered(ls0, a) && !(
                p <= a < p + pow2(j as nat))) by {
                    assert(covered(push_block(lsc, (p + half) as u64, j as int), a) <==> (covered(
                        lsc,
                        a,
                    ) || (p + half) <= a < (p + half) + pow2(j as nat)));
                    assert(covered(lists_of(*self), a) == covered(
                        push_block(lsc, (p + half) as u64, j as int),
                        a,
                    ));
                    assert(covered(lsc, a) <==> (covered(ls0, a) && !(p <= a < p + pow2(
                        (j + 1) as nat,
                    ))));
                    if p + pow2(j as nat) <= a < p + pow2((j + 1) as nat) {
                        assert(covered(ls0, a));
                    }
                }
                assert(cover_shrinks(lists_of(*self), ls0, p as int, pow2(j as nat) as int));
                assert forall|o2: int, i2: int|
                    0 <= o2 < 32 && 0 <= i2 < lists_of(*self)[o2].len()
                        implies !range_overlap(
                    #[trigger] lists_of(*self)[o2][i2] as int,
                    pow2(o2 as nat) as int,
                    p as int,
                    pow2(j as nat) as int,
                ) by {
                    if o2 == j as int && i2 == lsc[o2].len() {
                    } else {
                        assert(lists_of(*self)[o2][i2] == lsc[o2][i2]);
                        assert(!range_overlap(
                            lsc[o2][i2] as int,
                            pow2(o2 as nat) as int,
                            p as int,
                            pow2((j + 1) as nat) as int,
                        ));
                    }
                }
                assert forall|o1: int, i1: int, o2: int, i2: int|
                    0 <= o1 < 32 && 0 <= i1 < lists_of(*self)[o1].len() && 0 <= o2 < 32 && 0 <= i2
                        < lists_of(*self)[o2].len() && (o1 != o2 || i1 != i2) implies blocks_disjoint(
                    #[trigger] lists_of(*self)[o1][i1],
                    o1,
                    #[trigger] lists_of(*self)[o2][i2],
                    o2,
                ) by {
                    let nb = (p + half) as u64;
                    if o1 == j as int && i1 == lsc[o1].len() {
                        if o2 == j as int && i2 == lsc[o2].len() {
                        } else {
                            assert(lists_of(*self)[o2][i2] == lsc[o2][i2]);
                            assert(!range_overlap(
                                lsc[o2][i2] as int,
                                pow2(o2 as nat) as int,
                                p as int,
                                pow2((j + 1) as nat) as int,
                            ));
                        }
                    } else if o2 == j as int && i2 == lsc[o2].len() {
                        assert(lists_of(*self)[o1][i1] == lsc[o1][i1]);
                        assert(!range_overlap(
                            lsc[o1][i1] as int,
                            pow2(o1 as nat) as int,
                            p as int,
                            pow2((j + 1) as nat) as int,
                        ));
                    } else {
                        assert(lists_of(*self)[o1][i1] == lsc[o1][i1]);
                        assert(lists_of(*self)[o2][i2] == lsc[o2][i2]);
                    }
                }
            }
        }
        proof {
            lemma_lists_size_lower_bound(ls0, i as int);
            lemma_lists_size_nonneg(lists_of(*self));
        }
        self.allocated = self.allocated + size as u64;
        proof {
            assert(buddies_pushed(lists_of(*self), p, order as int, order as int) == lists_of(
                *self,
            ));
            assert(p % (size as u64) == 0 && p % (align as u64) == 0) by {
                lemma_pow2_divides(p as int, order as nat, i as nat);
                lemma_pow2_divides(p as int, align_order as nat, i as nat);
                lemma_pow2_pos(order as nat);
                lemma_pow2_pos(align_order as nat);
            }
            assert(p + size <= PPN_LIMIT) by {
                if order < i {
                    lemma_pow2_strictly_increases(order as nat, i as nat);
                }
            }
        }
        Some(PhysPageNum(p))
    }

    /// Returns the block `(start, size)` previously obtained from
    /// `allocate`: merges it with its free buddy while one exists below the
    /// top order, files the merged block, and credits the pages back.
    pub fn dealloc(&mut self, start: PhysPageNum, size: usize)
        requires
            old(self).wf(),
            is_pow2(size as int),
            size < 0x1_0000_0000,
            start.0 as int % size as int == 0,
            size <= old(self).allocated,
            start.0 + size <= PPN_LIMIT,
            forall|o: int, idx: int|
                0 <= o < 32 && 0 <= idx < lists_of(*old(self))[o].len() ==> !range_overlap(
                    (#[trigger] lists_of(*old(self))[o][idx]) as int,
                    pow2(o as nat) as int,
                    start.0 as int,
                    size as int,
                ),
        ensures
            final(self).wf(),
            final(self).total == old(self).total,
            final(self).allocated == old(self).allocated - size,
            lists_of(*final(self)) == coalesce(
                lists_of(*old(self)),
                start.0 as int,
                order_spec(size as int) as int,
            ).lists,
            cover_grows(lists_of(*final(self)), lists_of(*old(self)), start.0 as int, size as int),
    {
        let ghost ls0 = lists_of(*old(self));
        let order = log2_of(size as u64);
        proof {
            lemma_order_unique(order as nat, order_spec(size as int));
            lemma2_to64();
            if order >= 32 {
                if order > 32 {
                    lemma_pow2_strictly_increases(32, order as nat);
                }
                assert(false);
            }
            lemma_pow2_pos(order as nat);
        }
        let mut p: u64 = start.0;
        let mut o: usize = order;
        let mut sz: u64 = size as u64;
        let mut merging = true;
        proof {
            assert(cover_join(
                lists_of(*self),
                p as int,
                pow2(o as nat) as int,
                ls0,
                start.0 as int,
                size as int,
            ));
        }
        while merging && o < 31
            invariant
                order <= o <= 31,
                sz == pow2(o as nat),
                size == pow2(order as nat),
                size < 0x1_0000_0000,
                p as int % sz as int == 0,
                p + sz <= PPN_LIMIT,
                self.total == old(self).total,
                self.allocated == old(self).allocated,
                old(self).wf(),
                ls0 == lists_of(*old(self)),
                size <= old(self).allocated,
                lists_of(*self).len() == 32,
                forall|o2: int, i2: int|
                    0 <= o2 < 32 && 0 <= i2 < lists_of(*self)[o2].len() ==> block_ok(
                        #[trigger] lists_of(*self)[o2][i2],
                        o2,
                    ),
                forall|o1: int, i1: int, o2: int, i2: int|
                    0 <= o1 < 32 && 0 <= i1 < lists_of(*self)[o1].len() && 0 <= o2 < 32 && 0 <= i2
                        < lists_of(*self)[o2].len() && (o1 != o2 || i1 != i2) ==> blocks_disjoint(
                        #[trigger] lists_of(*self)[o1][i1],
                        o1,
                        #[trigger] lists_of(*self)[o2][i2],
                        o2,
                    ),
                forall|o2: int, i2: int|
                    0 <= o2 < 32 && 0 <= i2 < lists_of(*self)[o2].len()
                        ==> !range_overlap(
                        (#[trigger] lists_of(*self)[o2][i2]) as int,
                        pow2(o2 as nat) as int,
                        p as int,
                        sz as int,
                    ),
                lists_size(lists_of(*self)) + pow2(o as nat) == lists_size(ls0) + size,
                cover_join(
                    lists_of(*self),
                    p as int,
                    pow2(o as nat) as int,
                    ls0,
                    start.0 as int,
                    size as int,
                ),
                coalesce(ls0, start.0 as int, order as int) == coalesce(
                    lists_of(*self),
                    p as int,
                    o as int,
                ),
                !merging ==> !has_block(lists_of(*self), o as int, buddy_of(p as int, o as int)),
            decreases 31 - o, (if merging { 1int } else { 0int }),
        {
            let ghost lsc = lists_of(*self);
            let two_sz = sz * 2;
            proof {
                assert(pow2((o + 1) as nat) == 2 * pow2(o as nat)) by {
                    lemma_pow2_adds(1, o as nat);
                    lemma2_to64();
                }
                lemma_pow2_pos(o as nat);
            }
            let bd: u64;
            if p % two_sz == 0 {
                bd = p + sz;
            } else {
                proof {
                    lemma_buddy_align(p as int, o as nat);
                }
                bd = p - sz;
            }
            proof {
                assert(bd as int == buddy_of(p as int, o as int));
            }
            let n = self.free_list[o].len();
            let mut idx: usize = 0;
            while idx < n && self.free_list[o][idx] != bd
                invariant
                    0 <= idx <= n,
                    o < 32,
                    lists_of(*self) == lsc,
                    lsc.len() == 32,
                    n == lsc[o as int].len(),
                    forall|k: int| 0 <= k < idx ==> lsc[o as int][k] != bd,
                decreases n - idx,
            {
                idx = idx + 1;
            }
            if idx < n {
                // The buddy is free: take it out and merge upward.
                proof {
                    assert(lsc[o as int][idx as int] == bd);
                    assert(has_block(lsc, o as int, bd as int)) by {
                        assert(0 <= idx < lsc[o as int].len() && lsc[o as int][idx as int] == bd);
                    }
                    let cidx = choose|idx2: int|
                        0 <= idx2 < lsc[o as int].len() && lsc[o as int][idx2] == bd as int;
                    assert(cidx == idx) by {
                        if cidx != idx {
                            assert(blocks_disjoint(lsc[o as int][cidx], o as int, lsc[o as int][idx as int], o as int));
                        }
                    }
                    lemma_cover_remove(lsc, o as int, idx as int);
                    lemma_lists_size_update(lsc, o as int, lsc[o as int].remove(idx as int));
                    assert((lsc[o as int].remove(idx as int).len() - lsc[o as int].len()) * pow2(
                        o as nat,
                    ) == -1 * pow2(o as nat)) by (nonlinear_arith)
                        requires
                            lsc[o as int].remove(idx as int).len() == lsc[o as int].len() - 1,
                    ;
                    assert(-1 * pow2(o as nat) == -pow2(o as nat)) by (nonlinear_arith);
                }
                self.free_list[o].remove(idx);
                let np = if p < bd {
                    p
                } else {
                    bd
                };
                proof {
                    let ls1 = lsc.update(o as int, lsc[o as int].remove(idx as int));
                    lsc[o as int].remove_ensures(idx as int);
                    assert(lists_of(*self) =~~= ls1);
                    assert(block_ok(bd, o as int));
                    // The merged block is aligned to the next order and
                    // covers exactly the union of the two halves.
                    if p as int % (two_sz as int) == 0 {
                        assert(np == p && bd == p + sz);
                    } else {
                        lemma_buddy_align(p as int, o as nat);
                        assert(np == bd && p == bd + sz);
                    }
                    assert(np as int % pow2((o + 1) as nat) as int == 0);
                    assert(np + pow2((o + 1) as nat) <= PPN_LIMIT);
                    // Coverage bookkeeping.
                    assert forall|a: int|
                        (covered(lists_of(*self), a) || np <= a < np + pow2((o + 1) as nat))
                            <==> (covered(ls0, a) || start.0 <= a < start.0 + size) by {
                        assert(covered(ls1, a) == covered(lists_of(*self), a));
                        assert(covered(ls1, a) <==> (covered(lsc, a) && !(bd <= a < bd + pow2(
                            o as nat,
                        ))));
                        assert((covered(lsc, a) || p <= a < p + pow2(o as nat)) <==> (covered(
                            ls0,
                            a,
                        ) || start.0 <= a < start.0 + size));
                        if bd <= a < bd + pow2(o as nat) {
                            assert(covered(lsc, a)) by {
                                let oi = o as int;
                                assert(0 <= oi < lsc.len() && 0 <= idx < lsc[oi].len()
                                    && lsc[oi][idx as int] <= a < lsc[oi][idx as int] + pow2(
                                    o as nat,
                                ));
                            }
                        }
                    }
                    assert(cover_join(
                        lists_of(*self),
                        np as int,
                        pow2((o + 1) as nat) as int,
                        ls0,
                        start.0 as int,
                        size as int,
                    ));
                    // The merged pending block stays clear of every block
                    // still in the lists.
                    assert forall|o2: int, i2: int|
                        0 <= o2 < 32 && 0 <= i2 < lists_of(*self)[o2].len()
                            implies !range_overlap(
                        (#[trigger] lists_of(*self)[o2][i2]) as int,
                        pow2(o2 as nat) as int,
                        np as int,
                        two_sz as int,
                    ) by {
                        let oi = o as int;
                        let orig = if o2 == oi && i2 >= idx {
                            i2 + 1
                        } else {
                            i2
                        };
                        if o2 == oi {
                            assert(lists_of(*self)[o2] == lsc[oi].remove(idx as int));
                            assert(lsc[oi].remove(idx as int).len() == lsc[oi].len() - 1);
                            if i2 < idx {
                                assert(lsc[oi].remove(idx as int)[i2] == lsc[oi][i2]);
                            } else {
                                assert(lsc[oi].remove(idx as int)[i2] == lsc[oi][i2 + 1]);
                            }
                        } else {
                            assert(lists_of(*self)[o2] == lsc[o2]);
                        }
                        assert(0 <= orig < lsc[o2].len());
                        assert(lists_of(*self)[o2][i2] == lsc[o2][orig]);
                        assert(!range_overlap(
                            lsc[o2][orig] as int,
                            pow2(o2 as nat) as int,
                            p as int,
                            sz as int,
                        ));
                        assert(orig != idx || o2 != oi);
                        assert(blocks_disjoint(lsc[o2][orig], o2, lsc[oi][idx as int], oi));
                        assert(lsc[oi][idx as int] == bd);
                        assert(sz == pow2(o as nat) && two_sz == pow2((o + 1) as nat));
                        lemma_pow2_pos(o2 as nat);
                    }
                    // Remaining blocks keep their shape.
                    assert forall|o2: int, i2: int|
                        0 <= o2 < 32 && 0 <= i2 < lists_of(*self)[o2].len() implies block_ok(
                        #[trigger] lists_of(*self)[o2][i2],
                        o2,
                    ) by {
                        let orig = if o2 == o as int && i2 >= idx {
                            i2 + 1
                        } else {
                            i2
                        };
                        assert(lists_of(*self)[o2][i2] == lsc[o2][orig]);
                    }
                    assert forall|o1: int, i1: int, o2: int, i2: int|
                        0 <= o1 < 32 && 0 <= i1 < lists_of(*self)[o1].len() && 0 <= o2 < 32 && 0
                            <= i2 < lists_of(*self)[o2].len() && (o1 != o2 || i1 != i2)
                            implies blocks_disjoint(
                        #[trigger] lists_of(*self)[o1][i1],
                        o1,
                        #[trigger] lists_of(*self)[o2][i2],
                        o2,
                    ) by {
                        let orig1 = if o1 == o as int && i1 >= idx {
                            i1 + 1
                        } else {
                            i1
                        };
                        let orig2 = if o2 == o as int && i2 >= idx {
                            i2 + 1
                        } else {
                            i2
                        };
                        assert(lists_of(*self)[o1][i1] == lsc[o1][orig1]);
                        assert(lists_of(*self)[o2][i2] == lsc[o2][orig2]);
                        assert(blocks_disjoint(lsc[o1][orig1], o1, lsc[o2][orig2], o2));
                    }
                    // The loop tracks the recursive coalescing exactly.
                    assert(coalesce(lsc, p as int, o as int) == coalesce(ls1, np as int, o + 1));
                }
                p = np;
                o = o + 1;
                sz = two_sz;
            } else {
                proof {
                    assert(forall|k: int| 0 <= k < lsc[o as int].len() ==> lsc[o as int][k] != bd);
                    assert(!has_block(lists_of(*self), o as int, buddy_of(p as int, o as int)));
                }
                merging = false;
            }
        }
        let ghost lsf = lists_of(*self);
        proof {
            lemma_pow2_pos(o as nat);
            assert(coalesce(lsf, p as int, o as int) == Coalesced {
                lists: push_block(lsf, p, o as int),
                block: p as int,
                order: o as int,
            });
            lemma_lists_size_push(lsf, p, o as int);
            lemma_cover_push(lsf, p, o as int);
            lemma_lists_size_nonneg(lsf);
        }
        self.free_list[o].push(p);
        self.allocated = self.allocated - size as u64;
        proof {
            assert(lists_of(*self) =~~= push_block(lsf, p, o as int));
            assert(block_ok(p, o as int));
            assert forall|a: int| covered(lists_of(*self), a) <==> (covered(ls0, a) || start.0 <= a
                < start.0 + size) by {
                assert(covered(push_block(lsf, p, o as int), a) <==> (covered(lsf, a) || p <= a < p
                    + pow2(o as nat)));
                assert(covered(lists_of(*self), a) == covered(push_block(lsf, p, o as int), a));
                assert((covered(lsf, a) || p <= a < p + pow2(o as nat)) <==> (covered(ls0, a)
                    || start.0 <= a < start.0 + size));
            }
            assert(cover_grows(lists_of(*self), ls0, start.0 as int, size as int));
            assert forall|o1: int, i1: int, o2: int, i2: int|
                0 <= o1 < 32 && 0 <= i1 < lists_of(*self)[o1].len() && 0 <= o2 < 32 && 0 <= i2
                    < lists_of(*self)[o2].len() && (o1 != o2 || i1 != i2) implies blocks_disjoint(
                #[trigger] lists_of(*self)[o1][i1],
                o1,
                #[trigger] lists_of(*self)[o2][i2],
                o2,
            ) by {
                if o1 == o as int && i1 == lsf[o1].len() {
                    if o2 == o as int && i2 == lsf[o2].len() {
                    } else {
                        assert(lists_of(*self)[o2][i2] == lsf[o2][i2]);
                        assert(!range_overlap(
                            lsf[o2][i2] as int,
                            pow2(o2 as nat) as int,
                            p as int,
                            sz as int,
                        ));
                    }
                } else if o2 == o as int && i2 == lsf[o2].len() {
                    assert(lists_of(*self)[o1][i1] == lsf[o1][i1]);
                    assert(!range_overlap(
                        lsf[o1][i1] as int,
                        pow2(o1 as nat) as int,
                        p as int,
                        sz as int,
                    ));
                } else {
                    assert(lists_of(*self)[o1][i1] == lsf[o1][i1]);
                    assert(lists_of(*self)[o2][i2] == lsf[o2][i2]);
                }
            }
            assert forall|o2: int, i2: int|
                0 <= o2 < 32 && 0 <= i2 < lists_of(*self)[o2].len() implies block_ok(
                #[trigger] lists_of(*self)[o2][i2],
                o2,
            ) by {
                if o2 == o as int && i2 == lsf[o2].len() {
                } else {
                    assert(lists_of(*self)[o2][i2] == lsf[o2][i2]);
                }
            }
        }
    }
}

/// The free lists with the block `b` filed at order `o`.
pub open spec fn push_block(ls: Seq<Seq<u64>>, b: u64, o: int) -> Seq<Seq<u64>> {
    ls.update(o, ls[o].push(b))
}

/// The order of the block the greedy seeding files at page `cur` with `rem`
/// pages remaining: double from order `k` while the doubled block still
/// fits the remainder and keeps `cur` aligned.
pub open spec fn greedy_order_from(cur: int, rem: int, k: nat) -> nat
    decreases 64 - k,
{
    if k >= 63 {
        k
    } else if pow2((k + 1) as nat) <= rem && cur % pow2((k + 1) as nat) as int == 0 {
        greedy_order_from(cur, rem, k + 1)
    } else {
        k
    }
}

/// The free lists after greedily filing the page range `[cur, end)`:
/// repeatedly take the maximal power-of-two block that starts aligned at
/// `cur` and fits the remainder, file it at its order, and advance.
pub open spec fn greedy_fill(ls: Seq<Seq<u64>>, cur: int, end: int) -> Seq<Seq<u64>>
    decreases end - cur
        via greedy_fill_decreases
{
    if cur <= 0 || cur >= end {
        ls
    } else {
        let o = greedy_order_from(cur, end - cur, 0);
        greedy_fill(push_block(ls, cur as u64, o as int), cur + pow2(o), end)
    }
}

#[via_fn]
proof fn greedy_fill_decreases(ls: Seq<Seq<u64>>, cur: int, end: int) {
    if 0 < cur < end {
        lemma2_to64();
        lemma_greedy_order_fits(cur, end - cur, 0);
        lemma_pow2_pos(greedy_order_from(cur, end - cur, 0));
    }
}

/// The greedily chosen block always fits the remainder.
proof fn lemma_greedy_order_fits(cur: int, rem: int, k: nat)
    requires
        pow2(k) <= rem,
    ensures
        pow2(greedy_order_from(cur, rem, k)) <= rem,
        greedy_order_from(cur, rem, k) >= k,
    decreases 64 - k,
{
    if k >= 63 {
    } else if pow2((k + 1) as nat) <= rem && cur % pow2((k + 1) as nat) as int == 0 {
        lemma_greedy_order_fits(cur, rem, (k + 1) as nat);
    }
}

/// Changing one free list changes the held page count by the size
/// difference at that order.
proof fn lemma_lists_size_update(ls: Seq<Seq<u64>>, o: int, l2: Seq<u64>)
    requires
        0 <= o < ls.len(),
    ensures
        lists_size(ls.update(o, l2)) == lists_size(ls) + (l2.len() - ls[o].len()) * pow2(o as nat),
    decreases ls.len(),
{
    let ls2 = ls.update(o, l2);
    assert((l2.len() - ls[o].len()) * pow2(o as nat) == l2.len() * pow2(o as nat) - ls[o].len()
        * pow2(o as nat)) by (nonlinear_arith);
    if o == ls.len() - 1 {
        assert(ls2.drop_last() =~= ls.drop_last());
    } else {
        assert(ls2.drop_last() =~= ls.drop_last().update(o, l2));
        lemma_lists_size_update(ls.drop_last(), o, l2);
    }
}

/// Filing one block of order `o` adds exactly its pages to the count.
proof fn lemma_lists_size_push(ls: Seq<Seq<u64>>, b: u64, o: int)
    requires
        0 <= o < ls.len(),
    ensures
        lists_size(push_block(ls, b, o)) == lists_size(ls) + pow2(o as nat),
{
    lemma_lists_size_update(ls, o, ls[o].push(b));
    assert(ls[o].push(b).len() - ls[o].len() == 1);
    assert(1 * pow2(o as nat) == pow2(o as nat)) by (nonlinear_arith);
}

/// Filing one block extends the covered pages by exactly that block's range.
proof fn lemma_cover_push(ls: Seq<Seq<u64>>, b: u64, o: int)
    requires
        0 <= o < ls.len(),
    ensures
        forall|a: int| #![trigger covered(push_block(ls, b, o), a)]
            covered(push_block(ls, b, o), a) <==> (covered(ls, a) || b <= a < b + pow2(o as nat)),
{
    let ls2 = push_block(ls, b, o);
    assert forall|a: int| covered(ls2, a) implies (covered(ls, a) || b <= a < b + pow2(o as nat)) by {
        let (o2, i2): (int, int) = choose|o2: int, i2: int|
            0 <= o2 < ls2.len() && 0 <= i2 < ls2[o2].len() && (#[trigger] ls2[o2][i2]) <= a
                < ls2[o2][i2] + pow2(o2 as nat);
        if o2 == o && i2 == ls[o].len() {
        } else {
            assert(ls2[o2][i2] == ls[o2][i2]);
            assert(covered(ls, a));
        }
    }
    assert forall|a: int| (covered(ls, a) || b <= a < b + pow2(o as nat)) implies covered(
        ls2,
        a,
    ) by {
        if covered(ls, a) {
            let (o2, i2): (int, int) = choose|o2: int, i2: int|
                0 <= o2 < ls.len() && 0 <= i2 < ls[o2].len() && (#[trigger] ls[o2][i2]) <= a
                    < ls[o2][i2] + pow2(o2 as nat);
            assert(ls2[o2][i2] == ls[o2][i2]);
            assert(0 <= o2 < ls2.len() && 0 <= i2 < ls2[o2].len() && ls2[o2][i2] <= a < ls2[o2][i2]
                + pow2(o2 as nat));
        } else {
            let i2 = ls[o].len() as int;
            assert(ls2[o][i2] == b);
            assert(0 <= o < ls2.len() && 0 <= i2 < ls2[o].len() && ls2[o][i2] <= a < ls2[o][i2]
                + pow2(o as nat));
        }
    }
}

/// Filing one block that starts exactly at the end of the covered range
/// extends the range by the block.
proof fn lemma_cover_push_range(ls: Seq<Seq<u64>>, b: u64, o: int, lo: int)
    requires
        0 <= o < ls.len(),
        lo <= b,
        cover_range(ls, lo, b as int),
    ensures
        cover_range(push_block(ls, b, o), lo, b + pow2(o as nat)),
{
    lemma_pow2_pos(o as nat);
    lemma_cover_push(ls, b, o);
    assert forall|a: int| covered(push_block(ls, b, o), a) <==> (lo <= a < b
        + pow2(o as nat)) by {
        assert(covered(push_block(ls, b, o), a) <==> (covered(ls, a) || b <= a < b + pow2(
            o as nat,
        )));
        assert(covered(ls, a) <==> lo <= a < b as int);
    }
}

/// Removing the last block of one list uncovers exactly that block's
/// range, provided the free blocks are pairwise disjoint.
proof fn lemma_cover_pop(ls: Seq<Seq<u64>>, o: int)
    requires
        ls.len() == 32,
        0 <= o < 32,
        ls[o].len() > 0,
        forall|o1: int, i1: int, o2: int, i2: int|
            0 <= o1 < 32 && 0 <= i1 < ls[o1].len() && 0 <= o2 < 32 && 0 <= i2 < ls[o2].len() && (o1
                != o2 || i1 != i2) ==> blocks_disjoint(
                #[trigger] ls[o1][i1],
                o1,
                #[trigger] ls[o2][i2],
                o2,
            ),
    ensures
        forall|a: int| #![trigger covered(ls.update(o, ls[o].drop_last()), a)]
            covered(ls.update(o, ls[o].drop_last()), a) <==> (covered(ls, a) && !(ls[o].last() <= a
                < ls[o].last() + pow2(o as nat))),
{
    let p = ls[o].last();
    let last = ls[o].len() - 1;
    let ls1 = ls.update(o, ls[o].drop_last());
    assert forall|a: int| covered(ls1, a) implies (covered(ls, a) && !(p <= a < p + pow2(
        o as nat,
    ))) by {
        let (o2, i2): (int, int) = choose|o2: int, i2: int|
            0 <= o2 < ls1.len() && 0 <= i2 < ls1[o2].len() && (#[trigger] ls1[o2][i2]) <= a
                < ls1[o2][i2] + pow2(o2 as nat);
        assert(ls1[o2][i2] == ls[o2][i2]);
        assert(0 <= o2 < ls.len() && 0 <= i2 < ls[o2].len() && ls[o2][i2] <= a < ls[o2][i2] + pow2(
            o2 as nat,
        ));
        assert(o2 != o || i2 != last);
        assert(blocks_disjoint(ls[o2][i2], o2, ls[o][last], o));
    }
    assert forall|a: int| (covered(ls, a) && !(p <= a < p + pow2(o as nat))) implies covered(
        ls1,
        a,
    ) by {
        let (o2, i2): (int, int) = choose|o2: int, i2: int|
            0 <= o2 < ls.len() && 0 <= i2 < ls[o2].len() && (#[trigger] ls[o2][i2]) <= a
                < ls[o2][i2] + pow2(o2 as nat);
        assert(o2 != o || i2 != last);
        assert(ls1[o2][i2] == ls[o2][i2]);
        assert(0 <= o2 < ls1.len() && 0 <= i2 < ls1[o2].len() && ls1[o2][i2] <= a < ls1[o2][i2]
            + pow2(o2 as nat));
    }
}

/// The first nonempty order at or above `so` is `i` when every list in
/// between is empty and the list at `i` is not.
proof fn lemma_first_free(ls: Seq<Seq<u64>>, so: int, i: int)
    requires
        0 <= so <= i < 32,
        forall|o2: int| so <= o2 < i ==> ls[o2].len() == 0,
        ls[i].len() > 0,
    ensures
        first_free_from(ls, so) == i,
    decreases i - so,
{
    if so < i {
        lemma_first_free(ls, so + 1, i);
    }
}

/// Removing one block uncovers exactly that block's range, provided the
/// free blocks are pairwise disjoint.
proof fn lemma_cover_remove(ls: Seq<Seq<u64>>, o: int, idx: int)
    requires
        ls.len() == 32,
        0 <= o < 32,
        0 <= idx < ls[o].len(),
        forall|o1: int, i1: int, o2: int, i2: int|
            0 <= o1 < 32 && 0 <= i1 < ls[o1].len() && 0 <= o2 < 32 && 0 <= i2 < ls[o2].len() && (o1
                != o2 || i1 != i2) ==> blocks_disjoint(
                #[trigger] ls[o1][i1],
                o1,
                #[trigger] ls[o2][i2],
                o2,
            ),
    ensures
        forall|a: int| #![trigger covered(ls.update(o, ls[o].remove(idx)), a)]
            covered(ls.update(o, ls[o].remove(idx)), a) <==> (covered(ls, a) && !(ls[o][idx] <= a
                < ls[o][idx] + pow2(o as nat))),
{
    let p = ls[o][idx];
    let ls1 = ls.update(o, ls[o].remove(idx));
    assert forall|a: int| covered(ls1, a) implies (covered(ls, a) && !(p <= a < p + pow2(
        o as nat,
    ))) by {
        let (o2, i2): (int, int) = choose|o2: int, i2: int|
            0 <= o2 < ls1.len() && 0 <= i2 < ls1[o2].len() && (#[trigger] ls1[o2][i2]) <= a
                < ls1[o2][i2] + pow2(o2 as nat);
        if o2 == o {
            let orig = if i2 < idx {
                i2
            } else {
                i2 + 1
            };
            assert(ls1[o2][i2] == ls[o2][orig]);
            assert(orig != idx);
            assert(blocks_disjoint(ls[o2][orig], o2, ls[o][idx], o));
            assert(0 <= o2 < ls.len() && 0 <= orig < ls[o2].len() && ls[o2][orig] <= a
                < ls[o2][orig] + pow2(o2 as nat));
        } else {
            assert(ls1[o2][i2] == ls[o2][i2]);
            assert(blocks_disjoint(ls[o2][i2], o2, ls[o][idx], o));
            assert(0 <= o2 < ls.len() && 0 <= i2 < ls[o2].len() && ls[o2][i2] <= a < ls[o2][i2]
                + pow2(o2 as nat));
        }
    }
    assert forall|a: int| (covered(ls, a) && !(p <= a < p + pow2(o as nat))) implies covered(
        ls1,
        a,
    ) by {
        let (o2, i2): (int, int) = choose|o2: int, i2: int|
            0 <= o2 < ls.len() && 0 <= i2 < ls[o2].len() && (#[trigger] ls[o2][i2]) <= a
                < ls[o2][i2] + pow2(o2 as nat);
        assert(o2 != o || i2 != idx);
        if o2 == o {
            let ni = if i2 < idx {
                i2
            } else {
                i2 - 1
            };
            assert(ls1[o2][ni] == ls[o2][i2]);
            assert(0 <= o2 < ls1.len() && 0 <= ni < ls1[o2].len() && ls1[o2][ni] <= a < ls1[o2][ni]
                + pow2(o2 as nat));
        } else {
            assert(ls1[o2][i2] == ls[o2][i2]);
            assert(0 <= o2 < ls1.len() && 0 <= i2 < ls1[o2].len() && ls1[o2][i2] <= a < ls1[o2][i2]
                + pow2(o2 as nat));
        }
    }
}

/// A block aligned to its own order but not to the next one sits in the
/// upper half of its enclosing block, so its buddy below is aligned to the
/// next order.
proof fn lemma_buddy_align(p: int, o: nat)
    requires
        o < 63,
        p >= 0,
        p % pow2(o) as int == 0,
        p % pow2((o + 1) as nat) as int != 0,
    ensures
        p >= pow2(o),
        (p - pow2(o)) % pow2((o + 1) as nat) as int == 0,
{
    lemma_pow2_pos(o);
    lemma_pow2_pos((o + 1) as nat);
    assert(pow2((o + 1) as nat) == 2 * pow2(o)) by {
        lemma_pow2_adds(1, o);
        lemma2_to64();
    }
    let q = p / pow2(o) as int;
    vstd::arithmetic::div_mod::lemma_fundamental_div_mod(p, pow2(o) as int);
    assert(p == q * pow2(o)) by (nonlinear_arith)
        requires
            p == pow2(o) * q + p % pow2(o) as int,
            p % pow2(o) as int == 0,
    ;
    assert(q >= 0) by (nonlinear_arith)
        requires
            p >= 0,
            pow2(o) > 0,
            p == q * pow2(o),
    ;
    if q % 2 == 0 {
        let m = q / 2;
        vstd::arithmetic::div_mod::lemma_fundamental_div_mod(q, 2);
        assert(p == m * (2 * pow2(o))) by (nonlinear_arith)
            requires
                p == q * pow2(o),
                q == 2 * m,
        ;
        vstd::arithmetic::div_mod::lemma_mod_multiples_basic(m, (2 * pow2(o)) as int);
        assert(false);
    }
    assert(q % 2 == 1);
    assert(q >= 1);
    assert(p >= pow2(o)) by (nonlinear_arith)
        requires
            p == q * pow2(o),
            q >= 1,
            pow2(o) > 0,
    ;
    let m = (q - 1) / 2;
    vstd::arithmetic::div_mod::lemma_fundamental_div_mod(q, 2);
    assert(q - 1 == 2 * m) by {
        assert(q == 2 * (q / 2) + 1);
    }
    assert(p - pow2(o) == m * (2 * pow2(o))) by (nonlinear_arith)
        requires
            p == q * pow2(o),
            q - 1 == 2 * m,
    ;
    vstd::arithmetic::div_mod::lemma_mod_multiples_basic(m, (2 * pow2(o)) as int);
}

/// A power of two divides every larger power of two.
proof fn lemma_pow2_divides(x: int, a: nat, b: nat)
    requires
        a <= b,
        x % pow2(b) as int == 0,
    ensures
        x % pow2(a) as int == 0,
{
    lemma_pow2_adds(a, (b - a) as nat);
    lemma_pow2_pos(a);
    lemma_pow2_pos(b);
    lemma_pow2_pos((b - a) as nat);
    let q = x / pow2(b) as int;
    assert(x == q * pow2(b)) by {
        vstd::arithmetic::div_mod::lemma_fundamental_div_mod(x, pow2(b) as int);
        vstd::arithmetic::mul::lemma_mul_is_commutative(pow2(b) as int, q);
    }
    assert(q * pow2(b) == (q * pow2((b - a) as nat)) * pow2(a)) by (nonlinear_arith)
        requires
            pow2(b) == pow2(a) * pow2((b - a) as nat),
    ;
    assert((q * pow2((b - a) as nat)) * pow2(a) % pow2(a) as int == 0) by {
        vstd::arithmetic::div_mod::lemma_mod_multiples_basic(
            q * pow2((b - a) as nat),
            pow2(a) as int,
        );
    }
}

/// Computes `2^k`.
fn pow2_exec(k: usize) -> (r: u64)
    requires
        k < 64,
    ensures
        r == pow2(k as nat),
{
    proof {
        vstd::bits::lemma_u64_pow2_no_overflow(k as nat);
        vstd::bits::lemma_u64_shl_is_mul(1u64, k as u64);
    }
    1u64 << (k as u64)
}

/// Computes the exponent of a power of two.
fn log2_of(n: u64) -> (k: usize)
    requires
        is_pow2(n as int),
    ensures
        k < 64,
        pow2(k as nat) == n,
{
    proof {
        is_pow2_equiv(n as int);
    }
    let ghost e: nat = choose|i: nat| pow(2, i) == n as int;
    proof {
        lemma_pow2(e);
        lemma2_to64();
        if e >= 64 {
            if e > 64 {
                lemma_pow2_strictly_increases(64, e);
            }
            assert(false);
        }
    }
    let mut k: usize = 0;
    let mut s: u64 = 1;
    while s < n
        invariant
            k <= e < 64,
            s == pow2(k as nat),
            pow2(e) == n,
        decreases e - k,
    {
        proof {
            if k as nat == e {
                assert(false);
            }
            assert(pow2((k + 1) as nat) == 2 * pow2(k as nat)) by {
                lemma_pow2_adds(1, k as nat);
                lemma2_to64();
            }
            if ((k + 1) as nat) < e {
                lemma_pow2_strictly_increases((k + 1) as nat, e);
            }
        }
        s = s * 2;
        k = k + 1;
    }
    proof {
        if (k as nat) < e {
            lemma_pow2_strictly_increases(k as nat, e);
            assert(false);
        }
    }
    k
}

/// The exponent of the power of two `n`.
pub open spec fn order_spec(n: int) -> nat {
    choose|k: nat| pow2(k) == n
}

/// The lowest order at which a request for `size` pages aligned to `align`
/// pages can be served.
pub open spec fn start_order(size: int, align: int) -> nat {
    if order_spec(size) >= order_spec(align) {
        order_spec(size)
    } else {
        order_spec(align)
    }
}

/// The smallest order at or above `o` whose free list is nonempty, or 32.
pub open spec fn first_free_from(ls: Seq<Seq<u64>>, o: int) -> int
    decreases 32 - o,
{
    if o < 0 {
        0
    } else if o >= 32 {
        32
    } else if ls[o].len() > 0 {
        o
    } else {
        first_free_from(ls, o + 1)
    }
}

/// Every free list from order `o` upward is empty.
pub open spec fn no_free_block(ls: Seq<Seq<u64>>, o: int) -> bool {
    forall|o2: int| o <= o2 < 32 ==> ls[o2].len() == 0
}

/// The free lists after filing the upper buddy halves of the block `p` at
/// the orders `hi - 1` down to `lo`.
pub open spec fn buddies_pushed(ls: Seq<Seq<u64>>, p: u64, lo: int, hi: int) -> Seq<Seq<u64>>
    decreases hi - lo,
{
    if hi <= lo {
        ls
    } else {
        buddies_pushed(push_block(ls, (p + pow2((hi - 1) as nat)) as u64, hi - 1), p, lo, hi - 1)
    }
}

/// The free lists after splitting the last block of order `i` down to order
/// `o`: the block leaves its list, and its upper halves are filed at each
/// order from `i - 1` down to `o`.
pub open spec fn split_lists(ls: Seq<Seq<u64>>, i: int, o: int) -> Seq<Seq<u64>> {
    buddies_pushed(ls.update(i, ls[i].drop_last()), ls[i].last(), o, i)
}

/// The buddy of the block `b` at order `o`: the other half of the
/// enclosing block of order `o + 1`. Equals `b XOR 2^o`.
pub open spec fn buddy_of(b: int, o: int) -> int {
    if b % pow2((o + 1) as nat) as int == 0 {
        b + pow2(o as nat)
    } else {
        b - pow2(o as nat)
    }
}

/// Some entry of the order-`o` free list equals `x`.
pub open spec fn has_block(ls: Seq<Seq<u64>>, o: int, x: int) -> bool {
    exists|idx: int| 0 <= idx < ls[o].len() && ls[o][idx] == x
}

/// Result of coalescing a returned block into the free lists.
pub struct Coalesced {
    /// The free lists after merging and filing the block.
    pub lists: Seq<Seq<u64>>,
    /// Start of the final merged block.
    pub block: int,
    /// Order of the final merged block.
    pub order: int,
}

/// Merges the returned block `(b, o)` with its free buddy as long as one
/// exists and the top order is not reached, then files the merged block.
pub open spec fn coalesce(ls: Seq<Seq<u64>>, b: int, o: int) -> Coalesced
    decreases 31 - o,
{
    if 0 <= o < 31 && has_block(ls, o, buddy_of(b, o)) {
        let bd = buddy_of(b, o);
        let idx = choose|idx: int| 0 <= idx < ls[o].len() && ls[o][idx] == bd;
        let merged = if b < bd {
            b
        } else {
            bd
        };
        coalesce(ls.update(o, ls[o].remove(idx)), merged, o + 1)
    } else {
        Coalesced { lists: push_block(ls, b as u64, o), block: b, order: o }
    }
}

/// The pages of `ls2` together with `[b2, b2 + n2)` are exactly the pages
/// of `ls1` together with `[b1, b1 + n1)`.
pub open spec fn cover_join(
    ls2: Seq<Seq<u64>>,
    b2: int,
    n2: int,
    ls1: Seq<Seq<u64>>,
    b1: int,
    n1: int,
) -> bool {
    forall|a: int|
        (covered(ls2, a) || b2 <= a < b2 + n2) <==> (covered(ls1, a) || b1 <= a < b1 + n1)
}

/// Two distinct powers of two have distinct exponents.
proof fn lemma_order_unique(k1: nat, k2: nat)
    requires
        pow2(k1) == pow2(k2),
    ensures
        k1 == k2,
{
    if k1 < k2 {
        lemma_pow2_strictly_increases(k1, k2);
    }
    if k2 < k1 {
        lemma_pow2_strictly_increases(k2, k1);
    }
}

/// The sum of two multiples of `d` is a multiple of `d`.
proof fn lemma_mod_zero_add(x: int, y: int, d: int)
    requires
        d > 0,
        x % d == 0,
        y % d == 0,
    ensures
        (x + y) % d == 0,
{
    let qx = x / d;
    let qy = y / d;
    vstd::arithmetic::div_mod::lemma_fundamental_div_mod(x, d);
    vstd::arithmetic::div_mod::lemma_fundamental_div_mod(y, d);
    assert(x + y == (qx + qy) * d) by (nonlinear_arith)
        requires
            x == d * qx + x % d,
            y == d * qy + y % d,
            x % d == 0,
            y % d == 0,
    ;
    vstd::arithmetic::div_mod::lemma_mod_multiples_basic(qx + qy, d);
}

/// The held page count is at least the size of any single block.
proof fn lemma_lists_size_lower_bound(ls: Seq<Seq<u64>>, o: int)
    requires
        0 <= o < ls.len(),
        ls[o].len() > 0,
    ensures
        lists_size(ls) >= pow2(o as nat),
        lists_size(ls) >= 0,
    decreases ls.len(),
{
    lemma_lists_size_nonneg(ls.drop_last());
    lemma_pow2_pos((ls.len() - 1) as nat);
    if o == ls.len() - 1 {
        assert(ls.last().len() * pow2(o as nat) >= 1 * pow2(o as nat)) by (nonlinear_arith)
            requires
                ls.last().len() >= 1,
                pow2(o as nat) > 0,
        ;
    } else {
        lemma_lists_size_lower_bound(ls.drop_last(), o);
        assert(ls.last().len() * pow2((ls.len() - 1) as nat) >= 0) by (nonlinear_arith)
            requires
                pow2((ls.len() - 1) as nat) > 0,
        ;
    }
}

/// The held page count is never negative.
proof fn lemma_lists_size_nonneg(ls: Seq<Seq<u64>>)
    ensures
        lists_size(ls) >= 0,
    decreases ls.len(),
{
    if ls.len() > 0 {
        lemma_lists_size_nonneg(ls.drop_last());
        lemma_pow2_pos((ls.len() - 1) as nat);
        assert(ls.last().len() * pow2((ls.len() - 1) as nat) >= 0) by (nonlinear_arith)
            requires
                pow2((ls.len() - 1) as nat) > 0,
        ;
    }
}

/// The size of free lists that are all empty is zero.
proof fn lemma_lists_size_all_empty(ls: Seq<Seq<u64>>)
    requires
        forall|o: int| 0 <= o < ls.len() ==> ls[o].len() == 0,
    ensures
        lists_size(ls) == 0,
    decreases ls.len(),
{
    if ls.len() > 0 {
        lemma_lists_size_all_empty(ls.drop_last());
    }
}


/// Every free block of order at least `n` starts at a multiple of `2^n`;
/// with `allocate`'s contract this says a successful allocation of
/// `size == align == 2^n` returns a multiple of `2^n`.
pub proof fn lemma_free_block_aligned(fa: FrameAllocator, o: int, i: int, n: nat)
    requires
        fa.wf(),
        0 <= o < 32,
        0 <= i < lists_of(fa)[o].len(),
        n <= o,
    ensures
        lists_of(fa)[o][i] as int % pow2(n) as int == 0,
{
    assert(block_ok(lists_of(fa)[o][i], o));
    lemma_pow2_divides(lists_of(fa)[o][i] as int, n, o as nat);
}

/// An allocation followed by a deallocation of the same block restores the
/// allocated count and leaves the free lists covering exactly the original
/// pages: the structure is coalescing-equivalent to the starting one. The
/// hypotheses are the relations `allocate` and `dealloc` ensure.
pub proof fn lemma_alloc_dealloc_restores(
    ls0: Seq<Seq<u64>>,
    ls1: Seq<Seq<u64>>,
    ls2: Seq<Seq<u64>>,
    a0: int,
    a1: int,
    a2: int,
    p: int,
    size: int,
)
    requires
        cover_shrinks(ls1, ls0, p, size),
        range_covered(ls0, p, size),
        a1 == a0 + size,
        cover_grows(ls2, ls1, p, size),
        a2 == a1 - size,
    ensures
        a2 == a0,
        cover_same(ls2, ls0),
{
    assert forall|a: int| covered(ls2, a) <==> covered(ls0, a) by {
        assert(covered(ls2, a) <==> (covered(ls1, a) || p <= a < p + size));
        assert(covered(ls1, a) <==> (covered(ls0, a) && !(p <= a < p + size)));
        if p <= a < p + size {
            assert(covered(ls0, a));
        }
    }
}

/// The buddy relation is an involution on blocks aligned to their order.
proof fn lemma_buddy_involutive(x: int, o: nat)
    requires
        o < 62,
        x >= 0,
        x % pow2(o) as int == 0,
    ensures
        buddy_of(buddy_of(x, o as int), o as int) == x,
        buddy_of(x, o as int) >= 0,
        buddy_of(x, o as int) % pow2(o) as int == 0,
        buddy_of(x, o as int) != x,
{
    lemma_pow2_pos(o);
    lemma_pow2_pos((o + 1) as nat);
    assert(pow2((o + 1) as nat) == 2 * pow2(o)) by {
        lemma_pow2_adds(1, o);
        lemma2_to64();
    }
    let y = buddy_of(x, o as int);
    if x % pow2((o + 1) as nat) as int == 0 {
        // x is the lower half; its buddy x + 2^o is the upper half.
        assert(y == x + pow2(o));
        vstd::arithmetic::div_mod::lemma_mod_multiples_basic(1, pow2(o) as int);
        assert(1 * pow2(o) == pow2(o)) by (nonlinear_arith);
        lemma_pow2_divides(x, o, (o + 1) as nat);
        lemma_mod_zero_add(x, pow2(o) as int, pow2(o) as int);
        assert(y % pow2((o + 1) as nat) as int != 0) by {
            let q = x / pow2((o + 1) as nat) as int;
            vstd::arithmetic::div_mod::lemma_fundamental_div_mod(x, pow2((o + 1) as nat) as int);
            assert(y == q * (2 * pow2(o)) + pow2(o)) by (nonlinear_arith)
                requires
                    x == (2 * pow2(o)) * q,
                    y == x + pow2(o),
            ;
            vstd::arithmetic::div_mod::lemma_fundamental_div_mod_converse(
                y,
                (2 * pow2(o)) as int,
                q,
                pow2(o) as int,
            );
        }
        assert(buddy_of(y, o as int) == y - pow2(o));
    } else {
        lemma_buddy_align(x, o);
        assert(y == x - pow2(o));
        assert(y % pow2((o + 1) as nat) as int == 0);
        assert(buddy_of(y, o as int) == y + pow2(o));
        assert(y % pow2(o) as int == 0) by {
            let m = y / pow2((o + 1) as nat) as int;
            vstd::arithmetic::div_mod::lemma_fundamental_div_mod(y, pow2((o + 1) as nat) as int);
            assert(y == (m * 2) * pow2(o)) by (nonlinear_arith)
                requires
                    y == (2 * pow2(o)) * m,
            ;
            vstd::arithmetic::div_mod::lemma_mod_multiples_basic(m * 2, pow2(o) as int);
        }
    }
}

/// Returning two buddy blocks, in either order, coalesces to the same
/// final free lists: buddy merging is order-independent.
pub proof fn lemma_dealloc_order_independent(ls: Seq<Seq<u64>>, x: u64, y: u64, o: int)
    requires
        ls.len() == 32,
        0 <= o < 31,
        x as int % pow2(o as nat) as int == 0,
        y as int == buddy_of(x as int, o as int),
        !has_block(ls, o, x as int),
        !has_block(ls, o, y as int),
    ensures
        coalesce(coalesce(ls, x as int, o).lists, y as int, o) == coalesce(
            coalesce(ls, y as int, o).lists,
            x as int,
            o,
        ),
{
    lemma_pow2_pos(o as nat);
    lemma_buddy_involutive(x as int, o as nat);
    let merged = if x < y {
        x as int
    } else {
        y as int
    };
    lemma_one_way(ls, x, y, o);
    lemma_one_way(ls, y, x, o);
    assert(coalesce(coalesce(ls, x as int, o).lists, y as int, o) == coalesce(ls, merged, o + 1));
    assert(coalesce(coalesce(ls, y as int, o).lists, x as int, o) == coalesce(ls, merged, o + 1));
}

/// Returning a block and then its buddy merges them and continues
/// coalescing from the enclosing block.
proof fn lemma_one_way(ls: Seq<Seq<u64>>, x: u64, y: u64, o: int)
    requires
        ls.len() == 32,
        0 <= o < 31,
        y as int == buddy_of(x as int, o as int),
        buddy_of(y as int, o as int) == x as int,
        x != y,
        !has_block(ls, o, x as int),
        !has_block(ls, o, y as int),
    ensures
        coalesce(coalesce(ls, x as int, o).lists, y as int, o) == coalesce(
            ls,
            if x < y {
                x as int
            } else {
                y as int
            },
            o + 1,
        ),
{
    // Returning x alone finds no buddy, so it is filed as is.
    assert(coalesce(ls, x as int, o).lists == push_block(ls, x, o));
    let ls1 = push_block(ls, x, o);
    // Returning y then finds x, takes it back out, and merges.
    let n = ls[o].len() as int;
    assert(ls1[o][n] == x);
    assert(has_block(ls1, o, x as int)) by {
        assert(0 <= n < ls1[o].len() && ls1[o][n] == x as int);
    }
    let cidx = choose|idx2: int| 0 <= idx2 < ls1[o].len() && ls1[o][idx2] == x as int;
    assert(cidx == n) by {
        if cidx < n {
            assert(ls1[o][cidx] == ls[o][cidx]);
            assert(has_block(ls, o, x as int)) by {
                assert(0 <= cidx < ls[o].len() && ls[o][cidx] == x as int);
            }
        }
    }
    assert(ls1[o].remove(n) =~= ls[o]);
    assert(ls1.update(o, ls1[o].remove(n)) =~~= ls);
    let merged = if x < y {
        x as int
    } else {
        y as int
    };
    assert(coalesce(ls1, y as int, o) == coalesce(ls, merged, o + 1)) by {
        assert(buddy_of(y as int, o as int) == x as int);
        lemma_pow2_pos(o as nat);
        assert(merged == (if (y as int) < (x as int) {
            y as int
        } else {
            x as int
        }));
    }
}


/// An allocator with at least one free page has a nonempty free list, so a
/// single-page allocation succeeds.
pub proof fn lemma_free_page_available(fa: FrameAllocator)
    requires
        fa.wf(),
        fa.total - fa.allocated >= 1,
    ensures
        !no_free_block(lists_of(fa), 0),
        fa.total >= 1,
{
    if no_free_block(lists_of(fa), 0) {
        lemma_lists_size_all_empty(lists_of(fa));
    }
}


/// The first nonempty order found from `o` is at least `o`.
pub proof fn lemma_first_free_at_least(ls: Seq<Seq<u64>>, o: int)
    requires
        0 <= o <= 32,
    ensures
        first_free_from(ls, o) >= o,
    decreases 32 - o,
{
    if o < 32 && ls[o].len() == 0 {
        lemma_first_free_at_least(ls, o + 1);
    }
}

} // verus!
