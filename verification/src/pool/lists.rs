//! The free lists: taking a block off its list and putting a block at the
//! tail of the list of its order.
use vstd::prelude::*;
use vstd::arithmetic::power2::pow2;
use crate::order::HEADER_SIZE;
use crate::header::{load_kval, load_next, load_prev, Avail, BLOCK_AVAIL, BLOCK_RESERVED, NIL};
use crate::dyadic::buddy_of;
use super::{clear, ring, ring_next, ring_prev, sentinel_addr, BuddyPool};

verus! {

impl BuddyPool {
    /// After a block has been taken off its ring, the pool is well formed
    /// again: the neighbours point at each other, the block is tagged as
    /// handed out, and nothing else has changed.
    pub(super) proof fn lemma_unlinked(before: &BuddyPool, after: &BuddyPool, b: nat, k: nat)
        requires
            before.wf(),
            before.model@.is_free(b, k),
            after.kval_m == before.kval_m,
            after.mem().len() == before.mem().len(),
            after.model@ == before.model@.unlink(b, k),
            after.header(b) == (Avail { tag: BLOCK_RESERVED, kval: k as usize, next: NIL, prev: NIL }),
            ({
                let n = before.header(b).next as nat;
                let p = before.header(b).prev as nat;
                &&& n != p ==> after.header(n) == (Avail { prev: p as u64, ..before.header(n) })
                    && after.header(p) == (Avail { next: n as u64, ..before.header(p) })
                &&& n == p ==> after.header(n) == (Avail {
                    next: n as u64,
                    prev: p as u64,
                    ..before.header(n)
                })
                &&& forall|a: nat|
                    before.holds(a) && clear(a, b) && clear(a, n) && clear(a, p)
                        ==> #[trigger] after.header(a) == before.header(a)
                &&& forall|i: int|
                    0 <= i < before.mem().len() && !(b <= i < b + HEADER_SIZE) && !(n <= i < n
                        + HEADER_SIZE) && !(p <= i < p + HEADER_SIZE) ==> #[trigger] after.mem()[i]
                        == before.mem()[i]
            }),
        ensures
            after.wf(),
            after.keeps(before, before.model@.reserved),
    {
        let m = before.model@;
        let m2 = after.model@;
        let list = m.free[k as int];
        let i = list.index_of(b);
        let t = i + 1;
        let r = ring(m.free, k);
        let n = before.header(b).next as nat;
        let p = before.header(b).prev as nat;
        m.lemma_unlink(b, k);
        assert(m.has_block(b, k));
        m.lemma_block(b, k);
        assert(r[t] == b);
        assert(before.link_ok(k, t));
        assert(n == ring_next(r, t));
        assert(p == ring_prev(r, t));
        let tn = if t + 1 < r.len() { t + 1 } else { 0 };
        let tp = t - 1;
        assert(r[tn] == n && r[tp] == p);
        before.lemma_ring_clear(k, t, k, tn);
        before.lemma_ring_clear(k, t, k, tp);
        before.lemma_ring_clear(k, tn, k, tp);
        before.lemma_ring_clear(k, tp, k, tn);
        assert(m2.free[k as int] == list.remove(i));
        let r2 = ring(m2.free, k);
        assert(r2 =~= r.remove(t));
        assert forall|k2: nat, j: int|
            k2 <= after.kval_m && 0 <= j <= m2.free[k2 as int].len() implies #[trigger] after.link_ok(
            k2,
            j,
        ) by {
            if k2 == k {
                let jo = if j < t { j } else { j + 1 };
                assert(r2[j] == r[jo]);
                assert(before.link_ok(k, jo));
                before.lemma_ring_clear(k, jo, k, t);
                before.lemma_ring_clear(k, jo, k, tn);
                before.lemma_ring_clear(k, jo, k, tp);
                if jo != tp && jo != tn {
                    assert(after.header(r[jo]) == before.header(r[jo]));
                }
            } else {
                assert(m2.free[k2 as int] == m.free[k2 as int]);
                assert(ring(m2.free, k2) == ring(m.free, k2));
                assert(before.link_ok(k2, j));
                before.lemma_ring_clear(k2, j, k, t);
                before.lemma_ring_clear(k2, j, k, tn);
                before.lemma_ring_clear(k2, j, k, tp);
            }
        }
        assert forall|q: nat| #[trigger] m2.reserved.contains_key(q) implies after.header(q).kval
            == m2.reserved[q] && (q != NIL as nat ==> after.header(q).tag == BLOCK_RESERVED) by {
            if q != b {
                before.lemma_reserved_clear(q, k, t);
                before.lemma_reserved_clear(q, k, tn);
                before.lemma_reserved_clear(q, k, tp);
            }
        }
        assert forall|q: nat, i: int|
            #![trigger m.reserved.contains_key(q), after.mem()[i]]
            m.reserved.contains_key(q) && q + HEADER_SIZE <= i < q + pow2(
                m.reserved[q],
            ) implies after.mem()[i] == before.mem()[i] by {
            before.lemma_payload_clear(q, i, k, t);
            before.lemma_payload_clear(q, i, k, tn);
            before.lemma_payload_clear(q, i, k, tp);
        }
    }

    /// After a handed-out block has been put at the tail of the ring of its
    /// order, the pool is well formed: the old tail and the head point at the
    /// block, the block points at them, and nothing else has changed.
    pub(super) proof fn lemma_linked(before: &BuddyPool, after: &BuddyPool, b: nat)
        requires
            before.wf_but(b),
            before.model@.reserved.contains_key(b),
            before.model@.reserved[b] == before.model@.max_order || !before.model@.is_free(
                buddy_of(b, before.model@.reserved[b]),
                before.model@.reserved[b],
            ),
            after.kval_m == before.kval_m,
            after.mem().len() == before.mem().len(),
            after.model@ == before.model@.insert(b),
            ({
                let k = before.model@.reserved[b];
                let head = sentinel_addr(k);
                let tail = before.header(head).prev as nat;
                &&& after.header(b) == (Avail {
                    tag: BLOCK_AVAIL,
                    kval: k as usize,
                    next: head as u64,
                    prev: tail as u64,
                })
                &&& tail != head ==> after.header(tail) == (Avail {
                    next: b as u64,
                    ..before.header(tail)
                }) && after.header(head) == (Avail { prev: b as u64, ..before.header(head) })
                &&& tail == head ==> after.header(head) == (Avail {
                    next: b as u64,
                    prev: b as u64,
                    ..before.header(head)
                })
                &&& forall|a: nat|
                    before.holds(a) && clear(a, b) && clear(a, tail) && clear(a, head)
                        ==> #[trigger] after.header(a) == before.header(a)
                &&& forall|i: int|
                    0 <= i < before.mem().len() && !(b <= i < b + HEADER_SIZE) && !(tail <= i < tail
                        + HEADER_SIZE) ==> #[trigger] after.mem()[i] == before.mem()[i]
            }),
        ensures
            after.wf(),
            after.keeps(before, before.model@.reserved),
    {
        let m = before.model@;
        let m2 = after.model@;
        let k = m.reserved[b];
        let list = m.free[k as int];
        let r = ring(m.free, k);
        let head = sentinel_addr(k);
        let tail = before.header(head).prev as nat;
        m.lemma_insert(b);
        assert(m.has_block(b, k));
        m.lemma_block(b, k);
        assert(r[0] == head);
        assert(before.link_ok(k, 0));
        let tt = r.len() - 1;
        assert(r[tt] == tail);
        assert(m2.free[k as int] == list.push(b));
        let r2 = ring(m2.free, k);
        assert(r2 =~= r.push(b));
        before.lemma_ring_clear(k, 0, k, tt);
        before.lemma_reserved_clear(b, k, 0);
        before.lemma_reserved_clear(b, k, tt);
        assert forall|k2: nat, j: int|
            k2 <= after.kval_m && 0 <= j <= m2.free[k2 as int].len() implies #[trigger] after.link_ok(
            k2,
            j,
        ) by {
            if k2 == k {
                if j == r.len() {
                    assert(r2[j] == b);
                } else {
                    assert(r2[j] == r[j]);
                    assert(before.link_ok(k, j));
                    before.lemma_ring_clear(k, j, k, 0);
                    before.lemma_ring_clear(k, j, k, tt);
                    before.lemma_reserved_clear(b, k, j);
                    if j != 0 && j != tt {
                        assert(after.header(r[j]) == before.header(r[j]));
                    }
                }
            } else {
                assert(m2.free[k2 as int] == m.free[k2 as int]);
                assert(ring(m2.free, k2) == ring(m.free, k2));
                assert(before.link_ok(k2, j));
                before.lemma_ring_clear(k2, j, k, 0);
                before.lemma_ring_clear(k2, j, k, tt);
                before.lemma_reserved_clear(b, k2, j);
            }
        }
        assert forall|q: nat| #[trigger] m2.reserved.contains_key(q) implies after.header(q).kval
            == m2.reserved[q] && (q != NIL as nat ==> after.header(q).tag == BLOCK_RESERVED) by {
            before.lemma_reserved_clear(q, k, 0);
            before.lemma_reserved_clear(q, k, tt);
            assert(m.has_block(q, m.reserved[q]));
            m.lemma_two_blocks(q, m.reserved[q], b, k);
        }
        assert forall|q: nat, i: int|
            #![trigger m.reserved.contains_key(q), after.mem()[i]]
            m.reserved.contains_key(q) && q + HEADER_SIZE <= i < q + pow2(
                m.reserved[q],
            ) implies after.mem()[i] == before.mem()[i] by {
            before.lemma_payload_clear(q, i, k, tt);
            assert(m.has_block(q, m.reserved[q]));
            m.lemma_block(q, m.reserved[q]);
            if q != b {
                m.lemma_two_blocks(q, m.reserved[q], b, k);
            }
        }
    }

    /// Takes `block` off the free list it is on and tags it as handed out.
    pub(super) fn remove_from_avail(&mut self, block: u64)
        requires
            old(self).wf(),
            old(self)@.is_free(block as nat, old(self).header(block as nat).kval as nat),
        ensures
            final(self).wf(),
            final(self)@ == old(self)@.unlink(
                block as nat,
                old(self).header(block as nat).kval as nat,
            ),
            final(self).header(block as nat) == (Avail {
                tag: BLOCK_RESERVED,
                next: NIL,
                prev: NIL,
                ..old(self).header(block as nat)
            }),
            final(self).spec_max_order() == old(self).spec_max_order(),
            final(self).keeps(old(self), old(self)@.reserved),
    {
        let ghost s0 = *self;
        let ghost b = block as nat;
        let ghost k = s0.header(b).kval as nat;
        let ghost t = s0.model@.free[k as int].index_of(b) + 1;
        let ghost r = ring(s0.model@.free, k);
        let ghost tn = if t + 1 < r.len() { t + 1 } else { 0 };
        proof {
            assert(s0.model@.has_block(b, k));
            s0.model@.lemma_block(b, k);
            assert(r[t] == b);
            assert(s0.link_ok(k, t));
            s0.lemma_ring_clear(k, t, k, tn);
            s0.lemma_ring_clear(k, tn, k, t - 1);
            s0.lemma_ring_clear(k, t - 1, k, tn);
            s0.lemma_ring_clear(k, t - 1, k, t);
        }
        let next = load_next(&self.base, block);
        let prev = load_prev(&self.base, block);
        self.set_prev(next, prev);
        let ghost s1 = *self;
        self.set_next(prev, next);
        let ghost s2 = *self;
        self.set_tag(block, BLOCK_RESERVED);
        let ghost s3 = *self;
        self.set_next(block, NIL);
        let ghost s4 = *self;
        self.set_prev(block, NIL);
        let ghost s5 = *self;
        self.model = Ghost(s0.model@.unlink(b, k));
        proof {
            let n = next as nat;
            let p = prev as nat;
            assert(self.header(b) == s5.header(b));
            assert(s2.header(b) == s1.header(b));
            assert(s1.header(b) == s0.header(b));
            assert(self.header(n) == s5.header(n));
            assert(s5.header(n) == s4.header(n));
            assert(s4.header(n) == s3.header(n));
            assert(s3.header(n) == s2.header(n));
            assert(self.header(p) == s5.header(p));
            assert(s5.header(p) == s4.header(p));
            assert(s4.header(p) == s3.header(p));
            assert(s3.header(p) == s2.header(p));
            if n != p {
                assert(s2.header(n) == s1.header(n));
                assert(s1.header(p) == s0.header(p));
            }
            assert forall|a: nat|
                s0.holds(a) && clear(a, b) && clear(a, n) && clear(a, p)
                    implies #[trigger] self.header(a) == s0.header(a) by {
                assert(s1.header(a) == s0.header(a));
                assert(s1.holds(a));
                assert(s2.header(a) == s1.header(a));
                assert(s2.holds(a));
                assert(s3.header(a) == s2.header(a));
                assert(s3.holds(a));
                assert(s4.header(a) == s3.header(a));
                assert(s4.holds(a));
                assert(s5.header(a) == s4.header(a));
                assert(self.header(a) == s5.header(a));
            }
            assert forall|i: int|
                0 <= i < s0.mem().len() && !(b <= i < b + HEADER_SIZE) && !(n <= i < n
                    + HEADER_SIZE) && !(p <= i < p + HEADER_SIZE) implies #[trigger] self.mem()[i]
                == s0.mem()[i] by {
                assert(s1.mem()[i] == s0.mem()[i]);
                assert(s2.mem()[i] == s1.mem()[i]);
                assert(s3.mem()[i] == s2.mem()[i]);
                assert(s4.mem()[i] == s3.mem()[i]);
                assert(s5.mem()[i] == s4.mem()[i]);
            }
            Self::lemma_unlinked(&s0, self, b, k);
        }
    }

    /// Puts `block` at the tail of the free list of its order and tags it as
    /// available.
    pub(super) fn add_to_avail(&mut self, block: u64)
        requires
            old(self).wf_but(block as nat),
            old(self)@.reserved.contains_key(block as nat),
            old(self)@.reserved[block as nat] == old(self)@.max_order || !old(self)@.is_free(
                buddy_of(block as nat, old(self)@.reserved[block as nat]),
                old(self)@.reserved[block as nat],
            ),
        ensures
            final(self).wf(),
            final(self)@ == old(self)@.insert(block as nat),
            final(self).header(block as nat) == (Avail {
                tag: BLOCK_AVAIL,
                kval: old(self)@.reserved[block as nat] as usize,
                next: sentinel_addr(old(self)@.reserved[block as nat]) as u64,
                prev: old(self).header(sentinel_addr(old(self)@.reserved[block as nat])).prev,
            }),
            final(self).spec_max_order() == old(self).spec_max_order(),
            final(self).keeps(old(self), old(self)@.reserved),
    {
        let ghost s0 = *self;
        let ghost b = block as nat;
        let ghost k = s0.model@.reserved[b];
        let ghost r = ring(s0.model@.free, k);
        proof {
            assert(s0.model@.has_block(b, k));
            s0.model@.lemma_block(b, k);
            assert(s0.link_ok(k, 0));
            s0.lemma_ring_clear(k, 0, k, r.len() - 1);
            s0.lemma_ring_clear(k, r.len() - 1, k, 0);
            s0.lemma_reserved_clear(b, k, 0);
            s0.lemma_reserved_clear(b, k, r.len() - 1);
        }
        let kval = load_kval(&self.base, block);
        let head = Self::head_addr(kval);
        let tail = self.avail[kval].prev;
        self.set_prev(block, tail);
        let ghost s1 = *self;
        self.set_next(block, head);
        let ghost s2 = *self;
        self.set_next(tail, block);
        let ghost s3 = *self;
        self.set_prev(head, block);
        let ghost s4 = *self;
        self.set_tag(block, BLOCK_AVAIL);
        let ghost s5 = *self;
        self.model = Ghost(s0.model@.insert(b));
        proof {
            let h = head as nat;
            let t = tail as nat;
            assert(t == s0.header(h).prev);
            assert(self.header(b) == s5.header(b));
            assert(s4.header(b) == s3.header(b));
            assert(s3.header(b) == s2.header(b));
            assert(self.header(h) == s5.header(h));
            assert(s5.header(h) == s4.header(h));
            assert(s2.header(h) == s1.header(h));
            assert(s1.header(h) == s0.header(h));
            assert(self.header(t) == s5.header(t));
            assert(s5.header(t) == s4.header(t));
            assert(s2.header(t) == s1.header(t));
            assert(s1.header(t) == s0.header(t));
            if t != h {
                assert(s4.header(t) == s3.header(t));
                assert(s3.header(h) == s2.header(h));
            }
            assert forall|a: nat|
                s0.holds(a) && clear(a, b) && clear(a, t) && clear(a, h)
                    implies #[trigger] self.header(a) == s0.header(a) by {
                assert(s1.header(a) == s0.header(a));
                assert(s1.holds(a));
                assert(s2.header(a) == s1.header(a));
                assert(s2.holds(a));
                assert(s3.header(a) == s2.header(a));
                assert(s3.holds(a));
                assert(s4.header(a) == s3.header(a));
                assert(s4.holds(a));
                assert(s5.header(a) == s4.header(a));
                assert(self.header(a) == s5.header(a));
            }
            assert forall|i: int|
                0 <= i < s0.mem().len() && !(b <= i < b + HEADER_SIZE) && !(t <= i < t
                    + HEADER_SIZE) implies #[trigger] self.mem()[i] == s0.mem()[i] by {
                assert(s1.mem()[i] == s0.mem()[i]);
                assert(s2.mem()[i] == s1.mem()[i]);
                assert(s3.mem()[i] == s2.mem()[i]);
                assert(s4.mem()[i] == s3.mem()[i]);
                assert(s5.mem()[i] == s4.mem()[i]);
            }
            Self::lemma_linked(&s0, self, b);
        }
    }
}

} // verus!
