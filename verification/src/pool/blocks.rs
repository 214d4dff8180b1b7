//! Blocks: finding the buddy of a block, splitting a block, and the
//! allocation and the release of a block of a given order.
use vstd::prelude::*;
use vstd::arithmetic::power2::{pow2, lemma_pow2_unfold};
use crate::buddy_error::{BuddyError, ENOMEM, set_errno};
use crate::order::{HEADER_SIZE, LEAST_K, MAX_K};
use crate::header::{load_kval, load_tag, Avail, BLOCK_AVAIL, BLOCK_RESERVED, NIL};
use crate::model::PoolModel;
use crate::dyadic::{
    aligned, buddy_of, lemma_aligned_lower, lemma_buddy, lemma_holds_header, lemma_xor_is_buddy,
    lower_of,
};
use super::{clear, BuddyPool};

verus! {

impl BuddyPool {
    /// Finds the buddy of the block at `block`: its address with the bit of
    /// its order flipped.
    pub(super) fn buddy_calc(&self, block: u64) -> (buddy: u64)
        requires
            self.structured(),
            block + HEADER_SIZE <= self.mem().len(),
            self.header(block as nat).kval < MAX_K - 1,
        ensures
            buddy == block ^ (1u64 << (self.header(block as nat).kval as u64)),
            aligned(block as nat, self.header(block as nat).kval as nat) ==> buddy == buddy_of(
                block as nat,
                self.header(block as nat).kval as nat,
            ),
    {
        let kval = load_kval(&self.base, block);
        let mask = 1u64 << (kval as u64);
        proof {
            if aligned(block as nat, kval as nat) {
                lemma_xor_is_buddy(block, kval as u64);
            }
        }
        block ^ mask
    }

    /// Gives the buddy of the handed-out block at `block` if the two can be
    /// merged: the block is smaller than the region, and its buddy is free
    /// and of the same order.
    pub(super) fn get_avail_buddy(&self, block: u64) -> (buddy: Option<u64>)
        requires
            self.wf(),
            self@.reserved.contains_key(block as nat),
        ensures
            buddy is Some <==> self@.coalescable(block as nat),
            buddy matches Some(y) ==> y == buddy_of(block as nat, self@.reserved[block as nat]),
    {
        let ghost m = self.model@;
        let ghost b = block as nat;
        let ghost k = m.reserved[b];
        proof {
            self.lemma_reserved_header(b);
        }
        let kval = load_kval(&self.base, block);
        if kval == self.kval_m {
            return None;
        }
        let buddy = self.buddy_calc(block);
        proof {
            assert(m.has_block(b, k));
            m.lemma_block(b, k);
            let j = m.lemma_buddy_block(b, k);
            let y = buddy_of(b, k);
            m.lemma_block(y, j);
            if m.is_free(y, j) {
                self.lemma_free_header(y, j);
            } else {
                self.lemma_reserved_header(y);
            }
            if m.is_free(y, k) {
                assert(m.has_block(y, k));
                m.lemma_one_order(y, j, k);
            }
        }
        if load_tag(&self.base, buddy) != BLOCK_AVAIL {
            return None;
        }
        if load_kval(&self.base, buddy) != kval {
            return None;
        }
        Some(buddy)
    }

    /// After the header of a handed-out block has been given the next lower
    /// order and a header of that order has been written at the start of its
    /// upper half, the pool is well formed with the block cut in two, but for
    /// the tag of the upper half.
    pub(super) proof fn lemma_halved(before: &BuddyPool, after: &BuddyPool, b: nat)
        requires
            before.wf(),
            before.model@.reserved.contains_key(b),
            before.model@.reserved[b] > LEAST_K,
            after.kval_m == before.kval_m,
            after.mem().len() == before.mem().len(),
            after.model@ == before.model@.halve(b),
            ({
                let k = (before.model@.reserved[b] - 1) as nat;
                let y = b + pow2(k);
                &&& after.header(b).tag == BLOCK_RESERVED
                &&& after.header(b).kval == k
                &&& after.header(y).kval == k
                &&& forall|a: nat|
                    before.holds(a) && clear(a, b) && clear(a, y) ==> #[trigger] after.header(a)
                        == before.header(a)
                &&& forall|i: int|
                    0 <= i < before.mem().len() && !(b <= i < b + HEADER_SIZE) && !(y <= i < y
                        + HEADER_SIZE) ==> #[trigger] after.mem()[i] == before.mem()[i]
            }),
        ensures
            after.wf_but(b + pow2((before.model@.reserved[b] - 1) as nat)),
            after.keeps(before, after.model@.reserved),
    {
        let m = before.model@;
        let m2 = after.model@;
        let big = m.reserved[b];
        let k = (big - 1) as nat;
        let y = b + pow2(k);
        m.lemma_halve(b);
        m.lemma_split(b);
        assert(m.has_block(b, big));
        m.lemma_block(b, big);
        lemma_pow2_unfold(big);
        lemma_holds_header(k);
        assert forall|k2: nat, j: int|
            k2 <= after.kval_m && 0 <= j <= m2.free[k2 as int].len() implies #[trigger] after.link_ok(
            k2,
            j,
        ) by {
            assert(before.link_ok(k2, j));
            before.lemma_reserved_clear(b, k2, j);
            before.lemma_ring_clear(k2, j, k2, j);
            if j > 0 {
                let c = m.free[k2 as int][j - 1];
                assert(m.has_block(c, k2));
                m.lemma_block(c, k2);
                m.lemma_two_blocks(c, k2, b, big);
            }
        }
        assert forall|q: nat| #[trigger] m2.reserved.contains_key(q) implies after.header(q).kval
            == m2.reserved[q] && (q != y ==> after.header(q).tag == BLOCK_RESERVED) by {
            if q != b && q != y {
                assert(m.has_block(q, m.reserved[q]));
                m.lemma_block(q, m.reserved[q]);
                m.lemma_two_blocks(q, m.reserved[q], b, big);
            }
        }
        assert forall|q: nat, i: int|
            #![trigger m2.reserved.contains_key(q), after.mem()[i]]
            m2.reserved.contains_key(q) && q + HEADER_SIZE <= i < q + pow2(
                m2.reserved[q],
            ) implies after.mem()[i] == before.mem()[i] by {
            if q != b && q != y {
                assert(m.has_block(q, m.reserved[q]));
                m.lemma_block(q, m.reserved[q]);
                m.lemma_two_blocks(q, m.reserved[q], b, big);
            }
        }
    }

    /// Splits the handed-out block at `block` in two. The lower half stays
    /// handed out and is returned; the upper half joins the free list of its
    /// order.
    pub(super) fn split(&mut self, block: u64) -> (lower: u64)
        requires
            old(self).wf(),
            old(self)@.reserved.contains_key(block as nat),
            old(self)@.reserved[block as nat] > LEAST_K,
        ensures
            lower == block,
            final(self).wf(),
            final(self)@ == old(self)@.split(block as nat),
            final(self).spec_max_order() == old(self).spec_max_order(),
            final(self).keeps(old(self), final(self)@.reserved),
    {
        let ghost s0 = *self;
        let ghost m = s0.model@;
        let ghost b = block as nat;
        let ghost k = (m.reserved[b] - 1) as nat;
        let ghost y = b + pow2(k);
        proof {
            s0.lemma_reserved_header(b);
            m.lemma_halve(b);
            m.lemma_split(b);
            assert(m.has_block(b, m.reserved[b]));
            m.lemma_block(b, m.reserved[b]);
            lemma_aligned_lower(b, m.reserved[b], k);
            lemma_pow2_unfold(m.reserved[b]);
            lemma_holds_header(k);
        }
        let kval = load_kval(&self.base, block);
        self.set_kval(block, kval - 1);
        let ghost s1 = *self;
        self.set_tag(block, BLOCK_RESERVED);
        let ghost s2 = *self;
        let buddy = self.buddy_calc(block);
        assert(buddy == y);
        self.write_header(buddy, Avail::new());
        let ghost s3 = *self;
        self.set_kval(buddy, kval - 1);
        let ghost s4 = *self;
        self.set_tag(buddy, BLOCK_AVAIL);
        let ghost s5 = *self;
        self.model = Ghost(m.halve(b));
        let ghost s6 = *self;
        proof {
            assert(s6.header(b) == s5.header(b));
            assert(s5.header(b) == s4.header(b));
            assert(s4.header(b) == s3.header(b));
            assert(s3.header(b) == s2.header(b));
            assert(s6.header(y) == s5.header(y));
            assert forall|a: nat|
                s0.holds(a) && clear(a, b) && clear(a, y) implies #[trigger] s6.header(a)
                == s0.header(a) by {
                assert(s1.header(a) == s0.header(a));
                assert(s1.holds(a));
                assert(s2.header(a) == s1.header(a));
                assert(s2.holds(a));
                assert(s3.header(a) == s2.header(a));
                assert(s3.holds(a));
                assert(s4.header(a) == s3.header(a));
                assert(s4.holds(a));
                assert(s5.header(a) == s4.header(a));
                assert(s6.header(a) == s5.header(a));
            }
            assert forall|i: int|
                0 <= i < s0.mem().len() && !(b <= i < b + HEADER_SIZE) && !(y <= i < y
                    + HEADER_SIZE) implies #[trigger] s6.mem()[i] == s0.mem()[i] by {
                assert(s1.mem()[i] == s0.mem()[i]);
                assert(s2.mem()[i] == s1.mem()[i]);
                assert(s3.mem()[i] == s2.mem()[i]);
                assert(s4.mem()[i] == s3.mem()[i]);
                assert(s5.mem()[i] == s4.mem()[i]);
            }
            Self::lemma_halved(&s0, &s6, b);
        }
        self.add_to_avail(buddy);
        block
    }

    /// After the lower of a handed-out block and its buddy, unlinked before,
    /// has been given the next order, the pool is well formed with the two
    /// merged.
    pub(super) proof fn lemma_merged(before: &BuddyPool, after: &BuddyPool, m: PoolModel, b: nat)
        requires
            m.inv(),
            m.reserved.contains_key(b),
            m.coalescable(b),
            before.wf(),
            before.model@ == m.unlink(buddy_of(b, m.reserved[b]), m.reserved[b]),
            after.model@ == m.merge(b),
            after.kval_m == before.kval_m,
            after.mem().len() == before.mem().len(),
            ({
                let k = m.reserved[b];
                let low = lower_of(b, k);
                &&& after.header(low) == (Avail { kval: (k + 1) as usize, ..before.header(low) })
                &&& forall|a: nat|
                    before.holds(a) && clear(a, low) ==> #[trigger] after.header(a)
                        == before.header(a)
                &&& forall|i: int|
                    0 <= i < before.mem().len() && !(low <= i < low + HEADER_SIZE)
                        ==> #[trigger] after.mem()[i] == before.mem()[i]
            }),
        ensures
            after.wf(),
            after.keeps(before, m.reserved.remove(b)),
            after.model@.reserved.remove(lower_of(b, m.reserved[b])) == m.reserved.remove(b),
    {
        let m1 = before.model@;
        let m2 = after.model@;
        let k = m.reserved[b];
        let y = buddy_of(b, k);
        let low = lower_of(b, k);
        m.lemma_merge(b);
        m.lemma_unlink(y, k);
        assert(m.has_block(b, k));
        assert(m.has_block(y, k));
        m.lemma_block(b, k);
        m.lemma_block(y, k);
        lemma_buddy(b, k);
        assert(!m.reserved.contains_key(y));
        assert(m1.reserved.contains_key(low));
        assert(m2.free == m1.free);
        assert(m2.reserved.remove(low) =~= m.reserved.remove(b));
        assert forall|k2: nat, j: int|
            k2 <= after.kval_m && 0 <= j <= m2.free[k2 as int].len() implies #[trigger] after.link_ok(
            k2,
            j,
        ) by {
            assert(before.link_ok(k2, j));
            before.lemma_reserved_clear(low, k2, j);
            before.lemma_ring_clear(k2, j, k2, j);
        }
        assert forall|q: nat| #[trigger] m2.reserved.contains_key(q) implies after.header(q).kval
            == m2.reserved[q] && (q != NIL as nat ==> after.header(q).tag == BLOCK_RESERVED) by {
            before.lemma_reserved_header(low);
            if q != low {
                assert(m1.reserved.contains_key(q));
                before.lemma_reserved_header(q);
                assert(m1.has_block(q, m1.reserved[q]));
                assert(m1.has_block(low, m1.reserved[low]));
                m1.lemma_two_blocks(q, m1.reserved[q], low, m1.reserved[low]);
            }
        }
        assert forall|q: nat, i: int|
            #![trigger m.reserved.remove(b).contains_key(q), after.mem()[i]]
            m.reserved.remove(b).contains_key(q) && q + HEADER_SIZE <= i < q + pow2(
                m.reserved.remove(b)[q],
            ) implies after.mem()[i] == before.mem()[i] by {
            assert(m1.has_block(q, m1.reserved[q]));
            assert(m1.has_block(low, m1.reserved[low]));
            m1.lemma_block(q, m1.reserved[q]);
            m1.lemma_two_blocks(q, m1.reserved[q], low, m1.reserved[low]);
        }
    }

    /// Allocates a block of order `kval` and gives the address of its
    /// header: the first block of the free list of that order if there is
    /// one, else the lower half of a block of the next order.
    pub(super) fn malloc_kval(&mut self, kval: usize) -> (result: Result<u64, BuddyError>)
        requires
            old(self).wf(),
            LEAST_K <= kval,
        ensures
            final(self).wf(),
            final(self).spec_max_order() == old(self).spec_max_order(),
            final(self).keeps(old(self), old(self)@.reserved),
            match result {
                Ok(block) => old(self)@.allocate(kval as nat) == Some(
                    (final(self)@, block as nat),
                ),
                Err(e) => {
                    &&& e == BuddyError::NoMemory
                    &&& old(self)@.allocate(kval as nat) is None
                    &&& final(self).same_as(old(self))
                },
            },
        decreases MAX_K - kval,
    {
        let ghost s0 = *self;
        let ghost m = s0.model@;
        let ghost k = kval as nat;
        if kval > self.kval_m {
            proof {
                m.lemma_donor_none(k);
            }
            set_errno(ENOMEM);
            return Err(BuddyError::NoMemory);
        }
        proof {
            m.lemma_allocate_step(k);
            m.lemma_allocate(k);
            assert(s0.link_ok(k, 0));
            s0.lemma_ring_clear(k, 0, k, 0);
            if m.free[k as int].len() > 0 {
                s0.lemma_ring_clear(k, 1, k, 0);
                assert(s0.link_ok(k, 1));
            }
        }
        let head = Self::head_addr(kval);
        if self.avail[kval].next != head {
            let block = self.avail[kval].next;
            self.remove_from_avail(block);
            return Ok(block);
        }
        match self.malloc_kval(kval + 1) {
            Ok(larger) => {
                let ghost s1 = *self;
                proof {
                    m.lemma_allocate((k + 1) as nat);
                }
                let lower = self.split(larger);
                proof {
                    Self::lemma_keeps(&s0, &s1, self, m.reserved, self.model@.reserved, m.reserved);
                }
                Ok(lower)
            },
            Err(e) => Err(e),
        }
    }

    /// Frees the handed-out block whose header is at `block`: merges it with
    /// its buddy as long as that is free and of the same order, and puts what
    /// is left on the free list of its order.
    pub(super) fn free_avail(&mut self, block: u64)
        requires
            old(self).wf(),
            old(self)@.reserved.contains_key(block as nat),
        ensures
            final(self).wf(),
            final(self)@ == old(self)@.release(block as nat),
            final(self).spec_max_order() == old(self).spec_max_order(),
            final(self).keeps(old(self), old(self)@.reserved.remove(block as nat)),
    {
        let ghost s0 = *self;
        let ghost kept = s0.model@.reserved.remove(block as nat);
        let mut cur = block;
        let mut buddy_o = self.get_avail_buddy(cur);
        while buddy_o.is_some()
            invariant
                self.wf(),
                self.kval_m == s0.kval_m,
                self@.reserved.contains_key(cur as nat),
                self@.release(cur as nat) == s0@.release(block as nat),
                buddy_o is Some <==> self@.coalescable(cur as nat),
                buddy_o matches Some(y) ==> y == buddy_of(cur as nat, self@.reserved[cur as nat]),
                self@.reserved.remove(cur as nat) == kept,
                self.keeps(&s0, kept),
            decreases self.kval_m - self@.reserved[cur as nat],
        {
            let ghost s1 = *self;
            let ghost m = s1.model@;
            let ghost b = cur as nat;
            let ghost k = m.reserved[b];
            let ghost low = lower_of(b, k);
            let buddy = buddy_o.unwrap();
            proof {
                s1.lemma_free_header(buddy as nat, k);
                s1.lemma_reserved_header(b);
                assert(m.has_block(b, k));
                m.lemma_block(b, k);
                lemma_buddy(b, k);
                m.lemma_unlink(buddy as nat, k);
                assert(!m.reserved.contains_key(buddy as nat));
            }
            self.remove_from_avail(buddy);
            let ghost s2 = *self;
            proof {
                s2.lemma_reserved_header(b);
                s2.lemma_reserved_header(buddy as nat);
            }
            if cur < buddy {
                let kval = load_kval(&self.base, cur);
                self.set_kval(cur, kval + 1);
            } else {
                let kval = load_kval(&self.base, buddy);
                self.set_kval(buddy, kval + 1);
                cur = buddy;
            }
            let ghost s3 = *self;
            self.model = Ghost(m.merge(b));
            proof {
                assert(cur == low);
                assert forall|a: nat| s2.holds(a) && clear(a, low) implies #[trigger] self.header(
                    a,
                ) == s2.header(a) by {
                    assert(s3.header(a) == s2.header(a));
                }
                assert forall|i: int|
                    0 <= i < s2.mem().len() && !(low <= i < low + HEADER_SIZE)
                        implies #[trigger] self.mem()[i] == s2.mem()[i] by {
                    assert(s3.mem()[i] == s2.mem()[i]);
                }
                assert(self.header(low) == s3.header(low));
                Self::lemma_merged(&s2, self, m, b);
                Self::lemma_keeps(&s1, &s2, self, m.reserved, m.reserved.remove(b), kept);
                Self::lemma_keeps(&s0, &s1, self, kept, kept, kept);
            }
            buddy_o = self.get_avail_buddy(cur);
        }
        let ghost s4 = *self;
        proof {
            s4.lemma_reserved_header(cur as nat);
            s4.lemma_loosen(cur as nat);
        }
        self.add_to_avail(cur);
        proof {
            Self::lemma_keeps(&s0, &s4, self, kept, s4.model@.reserved, kept);
        }
    }
}

} // verus!
