//! What the operations of the pool do to its model: allocating a block of a
//! given order, releasing a block, and shrinking a block in place.
use vstd::prelude::*;
use vstd::arithmetic::power2::{pow2, lemma_pow2_pos, lemma_pow2_unfold};
use crate::order::{LEAST_K, MAX_K};
use crate::dyadic::{
    aligned, buddy_of, lemma_aligned_in_range, lemma_aligned_lower, lemma_buddy, lemma_nested,
    lemma_range_fits, lower_of,
};
use crate::model::PoolModel;

verus! {

impl PoolModel {
    /// The handed-out block at `b` is replaced by its two halves, both handed
    /// out.
    pub open spec fn halve(self, b: nat) -> PoolModel {
        let k = (self.reserved[b] - 1) as nat;
        PoolModel { reserved: self.reserved.insert(b, k).insert(b + pow2(k), k), ..self }
    }

    /// The least order from `k` on that has a free block; `MAX_K` if there
    /// is none.
    pub open spec fn donor(self, k: nat) -> nat
        decreases MAX_K - k,
    {
        if k >= MAX_K {
            MAX_K as nat
        } else if self.free[k as int].len() > 0 {
            k
        } else {
            self.donor(k + 1)
        }
    }

    /// Allocating a block of order `k`: the first block of the least order
    /// from `k` on that has a free block leaves its list; it is cut down to
    /// order `k`, and the upper half of each cut joins the tail of the list
    /// of its order. Gives the pool after that and the offset of the block,
    /// or nothing where no order from `k` on has a free block.
    pub open spec fn allocate(self, k: nat) -> Option<(PoolModel, nat)> {
        let j = self.donor(k);
        if j >= MAX_K {
            None
        } else {
            let b = self.free[j as int][0];
            Some(
                (
                    PoolModel {
                        free: Seq::new(
                            self.free.len(),
                            |i: int|
                                if i == j {
                                    self.free[i].drop_first()
                                } else if k <= i < j {
                                    self.free[i].push(b + pow2(i as nat))
                                } else {
                                    self.free[i]
                                },
                        ),
                        reserved: self.reserved.insert(b, k),
                        ..self
                    },
                    b,
                ),
            )
        }
    }

    /// Releasing the handed-out block at `b`: as long as the block can be
    /// merged it absorbs its buddy; what is left joins the tail of the free
    /// list of its order.
    pub open spec fn release(self, b: nat) -> PoolModel
        decreases self.max_order - self.reserved[b],
    {
        if self.coalescable(b) {
            self.merge(b).release(lower_of(b, self.reserved[b]))
        } else {
            self.insert(b)
        }
    }

    /// Shrinking the handed-out block at `b` to order `target`: the block is
    /// cut in two until it has that order.
    pub open spec fn shrink(self, b: nat, target: nat) -> PoolModel
        decreases self.reserved[b],
    {
        if self.reserved[b] > target {
            self.split(b).shrink(b, target)
        } else {
            self
        }
    }

    /// Cutting a handed-out block into two handed-out halves keeps the
    /// invariant; putting the upper half on its list then gives the split.
    pub proof fn lemma_halve(self, b: nat)
        requires
            self.inv(),
            self.reserved.contains_key(b),
            self.reserved[b] > LEAST_K,
        ensures
            self.halve(b).inv(),
            self.halve(b).insert(b + pow2((self.reserved[b] - 1) as nat)) == self.split(b),
            !self.halve(b).is_free(b, (self.reserved[b] - 1) as nat),
            buddy_of(b + pow2((self.reserved[b] - 1) as nat), (self.reserved[b] - 1) as nat) == b,
            (self.reserved[b] - 1) as nat != self.max_order,
    {
        let k = (self.reserved[b] - 1) as nat;
        let y = b + pow2(k);
        let s = self.split(b);
        self.lemma_split(b);
        assert(self.has_block(b, self.reserved[b]));
        self.lemma_block(b, self.reserved[b]);
        lemma_aligned_lower(b, self.reserved[b], k);
        lemma_buddy(b, k);
        let list = self.free[k as int];
        assert(s.free[k as int] == list.push(y));
        assert(s.free[k as int][list.len() as int] == y);
        assert(s.is_free(y, k));
        s.lemma_unlink(y, k);
        assert(s.free[k as int].no_duplicates());
        let i = s.free[k as int].index_of(y);
        assert(i == list.len());
        assert(list.push(y).remove(i) =~= list);
        assert(s.unlink(y, k).free =~= self.free);
        assert(s.unlink(y, k) =~= self.halve(b));
        assert(!self.has_block(y, self.reserved[y]));
        assert(self.halve(b).insert(y).reserved =~= s.reserved);
        assert(self.halve(b).insert(y) =~= s);
        if self.is_free(b, k) {
            assert(!self.reserved.contains_key(b));
        }
    }

    /// Above the order of the region no order has a free block.
    pub proof fn lemma_donor_none(self, k: nat)
        requires
            self.inv(),
            k > self.max_order,
        ensures
            self.donor(k) >= MAX_K,
            self.allocate(k) is None,
        decreases MAX_K - k,
    {
        if k < MAX_K {
            if self.free[k as int].len() > 0 {
                let b = self.free[k as int][0];
                assert(self.is_free(b, k));
                assert(self.has_block(b, k));
            }
            self.lemma_donor_none(k + 1);
        }
    }

    /// The donor of an order is at or above it; it has a free block, and no
    /// order between the two has one.
    pub proof fn lemma_donor(self, k: nat)
        requires
            self.free.len() == MAX_K,
        ensures
            k <= self.donor(k) || k > MAX_K,
            self.donor(k) < MAX_K ==> self.free[self.donor(k) as int].len() > 0,
            forall|i: int| k <= i < self.donor(k) && i < MAX_K ==> self.free[i].len() == 0,
        decreases MAX_K - k,
    {
        if k < MAX_K && self.free[k as int].len() == 0 {
            self.lemma_donor(k + 1);
        }
    }

    /// Allocation, one order at a time: where the list of order `k` has a
    /// block, its first block is unlinked; else a block of the next order is
    /// allocated and split.
    pub proof fn lemma_allocate_step(self, k: nat)
        requires
            self.inv(),
            k <= self.max_order,
        ensures
            self.free[k as int].len() > 0 ==> self.allocate(k) == Some(
                (self.unlink(self.free[k as int][0], k), self.free[k as int][0]),
            ),
            self.free[k as int].len() == 0 ==> self.allocate(k) == (match self.allocate(k + 1) {
                Some((next, b)) => Some((next.split(b), b)),
                None => None,
            }),
    {
        let list = self.free[k as int];
        if list.len() > 0 {
            let b = list[0];
            assert(list.no_duplicates());
            assert(list.contains(b));
            assert(list.index_of(b) == 0);
            assert(list.remove(0) =~= list.drop_first());
            let (after, got) = self.allocate(k).unwrap();
            assert(after.free =~= self.unlink(b, k).free);
            assert(after =~= self.unlink(b, k));
        } else {
            assert(self.donor(k) == self.donor(k + 1));
            self.lemma_donor(k + 1);
            if self.donor(k) < MAX_K {
                let j = self.donor(k);
                let (after, got) = self.allocate(k).unwrap();
                let (next, b) = self.allocate(k + 1).unwrap();
                assert(next.reserved[b] == k + 1);
                assert(next.split(b).free =~= after.free);
                assert(next.split(b).reserved =~= after.reserved);
                assert(next.split(b) =~= after);
            }
        }
    }

    /// Allocation keeps the invariant, and hands out a block that was not
    /// handed out before, with the order asked for.
    pub proof fn lemma_allocate(self, k: nat)
        requires
            self.inv(),
            LEAST_K <= k,
        ensures
            match self.allocate(k) {
                Some((after, b)) => {
                    &&& after.inv()
                    &&& after.max_order == self.max_order
                    &&& k <= self.max_order
                    &&& !self.reserved.contains_key(b)
                    &&& after.reserved == self.reserved.insert(b, k)
                },
                None => true,
            },
        decreases MAX_K - k,
    {
        if k > self.max_order {
            self.lemma_donor_none(k);
        } else {
            self.lemma_allocate_step(k);
            let list = self.free[k as int];
            if list.len() > 0 {
                assert(self.is_free(list[0], k));
                self.lemma_unlink(list[0], k);
            } else {
                self.lemma_allocate(k + 1);
                if self.allocate(k + 1) is Some {
                    let (next, b) = self.allocate(k + 1).unwrap();
                    next.lemma_split(b);
                    assert(self.allocate(k).unwrap().0.reserved =~= self.reserved.insert(b, k));
                }
            }
        }
    }

    /// Releasing a handed-out block keeps the invariant and takes the block,
    /// and nothing else, out of the handed-out blocks.
    pub proof fn lemma_release(self, b: nat)
        requires
            self.inv(),
            self.reserved.contains_key(b),
        ensures
            self.release(b).inv(),
            self.release(b).max_order == self.max_order,
            self.release(b).reserved == self.reserved.remove(b),
        decreases self.max_order - self.reserved[b],
    {
        let k = self.reserved[b];
        assert(self.has_block(b, k));
        self.lemma_block(b, k);
        if self.coalescable(b) {
            let low = lower_of(b, k);
            let y = buddy_of(b, k);
            self.lemma_merge(b);
            lemma_buddy(b, k);
            assert(self.has_block(y, k));
            assert(!self.reserved.contains_key(y));
            self.merge(b).lemma_release(low);
            assert(self.merge(b).reserved.remove(low) =~= self.reserved.remove(b));
        } else {
            self.lemma_insert(b);
        }
    }

    /// Shrinking a handed-out block keeps the invariant and changes, among
    /// the handed-out blocks, the order of that block only.
    pub proof fn lemma_shrink(self, b: nat, target: nat)
        requires
            self.inv(),
            self.reserved.contains_key(b),
            LEAST_K <= target <= self.reserved[b],
        ensures
            self.shrink(b, target).inv(),
            self.shrink(b, target).max_order == self.max_order,
            self.shrink(b, target).reserved == self.reserved.insert(b, target),
        decreases self.reserved[b],
    {
        if self.reserved[b] > target {
            self.lemma_split(b);
            self.split(b).lemma_shrink(b, target);
            assert(self.split(b).reserved.insert(b, target) =~= self.reserved.insert(b, target));
        } else {
            assert(self.reserved.insert(b, target) =~= self.reserved);
        }
    }

    /// The place of the buddy of a block below the order of the region is
    /// the start of a block, whose order is at most that of the block.
    pub proof fn lemma_buddy_block(self, b: nat, k: nat) -> (j: nat)
        requires
            self.inv(),
            self.has_block(b, k),
            k < self.max_order,
        ensures
            j <= k,
            self.has_block(buddy_of(b, k), j),
    {
        let y = buddy_of(b, k);
        let low = lower_of(b, k);
        self.lemma_block(b, k);
        lemma_buddy(b, k);
        lemma_pow2_pos(k);
        lemma_pow2_unfold(k + 1);
        lemma_range_fits(low, k + 1, self.max_order);
        assert(self.covered(y));
        let (c, j) = choose|c: nat, j: nat| #[trigger] self.has_block(c, j) && c <= y < c + pow2(j);
        self.lemma_block(c, j);
        if j > k {
            lemma_aligned_lower(c, j, k + 1);
            lemma_nested(low, k + 1, c, j);
            self.lemma_two_blocks(c, j, b, k);
            assert(false);
        }
        lemma_aligned_in_range(y, k, c, j);
        j
    }

    /// Where an aligned range of order `k` starts with a block of a lower
    /// order, the middle of the range is the start of a block too, whose
    /// order is below `k`.
    pub proof fn lemma_half_block(self, o: nat, j: nat, k: nat) -> (i: nat)
        requires
            self.inv(),
            self.has_block(o, j),
            j < k <= self.max_order,
            aligned(o, k),
        ensures
            i < k,
            self.has_block(o + pow2((k - 1) as nat), i),
            aligned(o + pow2((k - 1) as nat), (k - 1) as nat),
            aligned(o, (k - 1) as nat),
    {
        let half = (k - 1) as nat;
        let x = o + pow2(half);
        self.lemma_block(o, j);
        lemma_pow2_pos(half);
        lemma_pow2_unfold(k);
        lemma_aligned_lower(o, k, half);
        lemma_buddy(o, half);
        lemma_range_fits(o, k, self.max_order);
        assert(self.covered(x));
        let (c, i) = choose|c: nat, i: nat| #[trigger] self.has_block(c, i) && c <= x < c + pow2(i);
        self.lemma_block(c, i);
        if i >= k {
            lemma_nested(o, k, c, i);
            self.lemma_two_blocks(c, i, o, j);
            lemma_pow2_pos(j);
            assert(false);
        }
        lemma_aligned_in_range(x, half, c, i);
        i
    }
}

} // verus!
