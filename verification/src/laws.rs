//! Laws of the pool: what holds of every pool that meets its invariant and
//! of every run of operations on it.
use vstd::prelude::*;
use vstd::arithmetic::power2::{pow2, lemma_pow2_pos};
use crate::order::{lemma_b_to_k_fits, spec_order_for, HEADER_SIZE, LEAST_K, MAX_K, MIN_K};
use crate::dyadic::buddy_of;
use crate::model::PoolModel;

verus! {

impl PoolModel {
    /// No block is handed out.
    pub open spec fn drained(self) -> bool {
        forall|b: nat| !self.reserved.contains_key(b)
    }

    /// Allocating blocks of the given orders one after the other, with
    /// nothing released in between: the pool after the last allocation and
    /// the offsets of the blocks in the order of the requests, or nothing if
    /// one of the allocations fails.
    pub open spec fn allocate_all(self, orders: Seq<nat>) -> Option<(PoolModel, Seq<nat>)>
        decreases orders.len(),
    {
        if orders.len() == 0 {
            Some((self, Seq::<nat>::empty()))
        } else {
            match self.allocate_all(orders.drop_last()) {
                Some((pool, blocks)) => match pool.allocate(orders.last()) {
                    Some((after, b)) => Some((after, blocks.push(b))),
                    None => None,
                },
                None => None,
            }
        }
    }

    /// In a pool with no block handed out, no order below `k` has a free
    /// block: the least free block would have a free buddy of its own order.
    proof fn lemma_no_small_blocks(self, k: nat)
        requires
            self.inv(),
            self.drained(),
            k <= self.max_order,
        ensures
            forall|j: int| 0 <= j < k ==> self.free[j].len() == 0,
        decreases k,
    {
        if k > 0 {
            let j = (k - 1) as nat;
            self.lemma_no_small_blocks(j);
            if self.free[j as int].len() > 0 {
                let b = self.free[j as int][0];
                assert(self.is_free(b, j));
                assert(self.has_block(b, j));
                let i = self.lemma_buddy_block(b, j);
                let y = buddy_of(b, j);
                assert(self.is_free(y, i));
                assert(self.free[i as int].len() > 0);
                assert(i == j);
                assert(false);
            }
        }
    }

    /// Fullness after drain: a pool that meets the invariant and has no
    /// block handed out is the full pool, in which the whole region is one
    /// free block. So whenever a run of operations has given back every
    /// block it took, the pool is as it was after `init`.
    pub proof fn lemma_drained_is_full(self)
        requires
            self.inv(),
            self.drained(),
        ensures
            self == Self::full(self.max_order),
    {
        let top = self.max_order;
        let full = Self::full(top);
        self.lemma_no_small_blocks(top);
        lemma_pow2_pos(top);
        assert(self.covered(0));
        let (c, j) = choose|c: nat, j: nat| #[trigger] self.has_block(c, j) && c <= 0 < c + pow2(j);
        assert(self.is_free(c, j));
        assert(self.free[j as int].len() > 0);
        assert(j == top);
        let list = self.free[top as int];
        assert(list.no_duplicates());
        assert forall|i: int| 0 <= i < list.len() implies list[i] == 0 by {
            assert(self.is_free(list[i], top));
            assert(self.has_block(list[i], top));
        }
        if list.len() >= 2 {
            assert(list[0] == list[1]);
        }
        assert(list =~= seq![0nat]);
        assert forall|k: int| 0 <= k < MAX_K implies #[trigger] self.free[k] == full.free[k] by {
            if k > top {
                if self.free[k].len() > 0 {
                    let e = self.free[k][0];
                    assert(self.is_free(e, k as nat));
                    assert(self.has_block(e, k as nat));
                }
                assert(self.free[k] =~= Seq::<nat>::empty());
            } else if k < top {
                assert(self.free[k] =~= Seq::<nat>::empty());
            }
        }
        assert(self.free =~= full.free);
        assert(self.reserved =~= full.reserved);
    }

    /// A block of the order of the region has no buddy: it starts where the
    /// region starts and is the only block of the pool.
    pub proof fn lemma_top_block(self, b: nat)
        requires
            self.inv(),
            self.has_block(b, self.max_order),
        ensures
            b == 0,
            forall|c: nat, j: nat| #[trigger] self.has_block(c, j) ==> c == 0 && j == self.max_order,
    {
        lemma_pow2_pos(self.max_order);
        assert forall|c: nat, j: nat| #[trigger] self.has_block(c, j) implies c == 0 && j
            == self.max_order by {
            lemma_pow2_pos(j);
        }
    }

    /// Uniqueness: the blocks that successive allocations hand out, with
    /// nothing released in between, are pairwise different, and so are the
    /// pointers to them. Each block has the order that was asked for.
    pub proof fn lemma_allocations_differ(self, orders: Seq<nat>)
        requires
            self.inv(),
            forall|i: int| 0 <= i < orders.len() ==> orders[i] >= LEAST_K,
        ensures
            match self.allocate_all(orders) {
                Some((after, blocks)) => {
                    &&& after.inv()
                    &&& blocks.len() == orders.len()
                    &&& blocks.no_duplicates()
                    &&& forall|i: int|
                        0 <= i < blocks.len() ==> after.is_reserved(#[trigger] blocks[i], orders[i])
                    &&& forall|b: nat| #[trigger]
                        self.reserved.contains_key(b) ==> after.is_reserved(b, self.reserved[b])
                            && !blocks.contains(b)
                },
                None => true,
            },
        decreases orders.len(),
    {
        if orders.len() > 0 {
            let head = orders.drop_last();
            self.lemma_allocations_differ(head);
            if let Some((pool, blocks)) = self.allocate_all(head) {
                pool.lemma_allocate(orders.last());
                if let Some((after, b)) = pool.allocate(orders.last()) {
                    let all = blocks.push(b);
                    assert forall|i: int| 0 <= i < all.len() implies after.is_reserved(
                        #[trigger] all[i],
                        orders[i],
                    ) by {
                        if i < blocks.len() {
                            assert(pool.is_reserved(blocks[i], head[i]));
                        }
                    }
                    assert forall|i: int, j: int|
                        0 <= i < all.len() && 0 <= j < all.len() && i != j implies all[i]
                        != all[j] by {
                        if i < blocks.len() {
                            assert(pool.is_reserved(blocks[i], head[i]));
                        }
                        if j < blocks.len() {
                            assert(pool.is_reserved(blocks[j], head[j]));
                        }
                    }
                    assert forall|q: nat| #[trigger]
                        self.reserved.contains_key(q) implies after.is_reserved(
                        q,
                        self.reserved[q],
                    ) && !all.contains(q) by {
                        assert(pool.is_reserved(q, self.reserved[q]));
                        if all.contains(q) {
                            let i = choose|i: int| 0 <= i < all.len() && all[i] == q;
                            if i < blocks.len() {
                                assert(blocks.contains(q));
                            }
                        }
                    }
                }
            }
        } else {
            let none = Seq::<nat>::empty();
            assert forall|q: nat| #[trigger] self.reserved.contains_key(q) implies !none.contains(
                q,
            ) by {}
        }
    }

    /// Allocation followed by release: in the full pool, releasing the block
    /// that an allocation has just handed out gives the full pool back.
    pub proof fn lemma_allocate_then_release(max_order: nat, k: nat)
        requires
            MIN_K <= max_order < MAX_K,
            LEAST_K <= k,
        ensures
            match Self::full(max_order).allocate(k) {
                Some((after, b)) => after.release(b) == Self::full(max_order),
                None => k > max_order,
            },
    {
        let full = Self::full(max_order);
        Self::lemma_full_inv(max_order);
        full.lemma_allocate(k);
        match full.allocate(k) {
            Some((after, b)) => {
                after.lemma_release(b);
                let back = after.release(b);
                assert(back.reserved =~= Map::<nat, nat>::empty());
                back.lemma_drained_is_full();
            },
            None => {
                if k <= max_order {
                    full.lemma_donor(k);
                    assert(full.free[max_order as int].len() > 0);
                    assert(full.donor(k) <= max_order);
                }
            },
        }
    }

    /// The whole region as one block: an allocation of the order of the
    /// region in the full pool hands out the block at the start of the
    /// region and leaves no free block, so that every further allocation
    /// fails; releasing that block gives the full pool back.
    pub proof fn lemma_whole_region(max_order: nat)
        requires
            MIN_K <= max_order < MAX_K,
        ensures
            match Self::full(max_order).allocate(max_order) {
                Some((after, b)) => {
                    &&& b == 0
                    &&& after.reserved == Map::<nat, nat>::empty().insert(0, max_order)
                    &&& forall|k: int| 0 <= k < MAX_K ==> after.free[k].len() == 0
                    &&& forall|k: nat| after.allocate(k) is None
                    &&& after.release(0) == Self::full(max_order)
                },
                None => false,
            },
    {
        let full = Self::full(max_order);
        Self::lemma_full_inv(max_order);
        Self::lemma_allocate_then_release(max_order, max_order);
        full.lemma_allocate(max_order);
        full.lemma_donor(max_order);
        assert(full.free[max_order as int].len() > 0);
        assert(full.donor(max_order) == max_order);
        let (after, b) = full.allocate(max_order).unwrap();
        assert forall|k: int| 0 <= k < MAX_K implies after.free[k].len() == 0 by {
            if k == max_order {
                assert(after.free[k] =~= Seq::<nat>::empty());
            }
        }
        assert forall|k: nat| after.allocate(k) is None by {
            after.lemma_none_without_free(k);
        }
    }

    /// Where no list has a block, no allocation succeeds.
    proof fn lemma_none_without_free(self, k: nat)
        requires
            self.free.len() == MAX_K,
            forall|j: int| 0 <= j < MAX_K ==> self.free[j].len() == 0,
        ensures
            self.allocate(k) is None,
    {
        self.lemma_donor(k);
    }

    /// A request for more bytes than the region holds behind one header has
    /// an order above that of the region, and no allocation of such an order
    /// succeeds.
    pub proof fn lemma_too_large(self, size: nat)
        requires
            self.inv(),
            size + HEADER_SIZE > pow2(self.max_order),
        ensures
            spec_order_for(size) > self.max_order,
            self.allocate(spec_order_for(size)) is None,
    {
        lemma_b_to_k_fits(size + HEADER_SIZE as nat, self.max_order);
        self.lemma_donor_none(spec_order_for(size));
    }
}

} // verus!
