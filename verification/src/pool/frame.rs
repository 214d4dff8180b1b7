//! Access to headers by address, and what the invariant of a pool says of
//! the places of its headers and of the bytes between them.
use vstd::prelude::*;
use vstd::arithmetic::power2::pow2;
use crate::order::{lemma_pow2_monotonic, HEADER_SIZE, LEAST_K, MAX_K};
use crate::header::{
    lemma_header_from_bytes, store_kval, store_next, store_prev, store_tag, Avail, BLOCK_AVAIL,
    BLOCK_RESERVED, NIL, SENTINEL_BASE,
};
use super::{clear, ring, BuddyPool};

verus! {

impl BuddyPool {
    /// Sets the `next` link of the header at `addr`.
    pub(super) fn set_next(&mut self, addr: u64, next: u64)
        requires
            old(self).structured(),
            old(self).holds(addr as nat),
        ensures
            final(self).same_but(old(self), addr as nat),
            final(self).header(addr as nat) == (Avail { next, ..old(self).header(addr as nat) }),
    {
        if addr >= SENTINEL_BASE {
            let slot = ((addr - SENTINEL_BASE) / HEADER_SIZE as u64) as usize;
            let head = self.avail[slot];
            self.avail[slot] = Avail { next, ..head };
        } else {
            store_next(&mut self.base, addr, next);
        }
    }

    /// Sets the `prev` link of the header at `addr`.
    pub(super) fn set_prev(&mut self, addr: u64, prev: u64)
        requires
            old(self).structured(),
            old(self).holds(addr as nat),
        ensures
            final(self).same_but(old(self), addr as nat),
            final(self).header(addr as nat) == (Avail { prev, ..old(self).header(addr as nat) }),
    {
        if addr >= SENTINEL_BASE {
            let slot = ((addr - SENTINEL_BASE) / HEADER_SIZE as u64) as usize;
            let head = self.avail[slot];
            self.avail[slot] = Avail { prev, ..head };
        } else {
            store_prev(&mut self.base, addr, prev);
        }
    }

    /// Sets the tag of the header at `addr` in the region.
    pub(super) fn set_tag(&mut self, addr: u64, tag: u8)
        requires
            old(self).structured(),
            addr + HEADER_SIZE <= old(self).mem().len(),
        ensures
            final(self).same_but(old(self), addr as nat),
            final(self).header(addr as nat) == (Avail { tag, ..old(self).header(addr as nat) }),
    {
        store_tag(&mut self.base, addr, tag);
    }

    /// Sets the order of the header at `addr` in the region.
    pub(super) fn set_kval(&mut self, addr: u64, kval: usize)
        requires
            old(self).structured(),
            addr + HEADER_SIZE <= old(self).mem().len(),
            kval < MAX_K,
        ensures
            final(self).same_but(old(self), addr as nat),
            final(self).header(addr as nat) == (Avail { kval, ..old(self).header(addr as nat) }),
    {
        store_kval(&mut self.base, addr, kval);
    }

    /// Writes a whole header into the region.
    pub(super) fn write_header(&mut self, addr: u64, header: Avail)
        requires
            old(self).structured(),
            addr + HEADER_SIZE <= old(self).mem().len(),
            header.kval < MAX_K,
        ensures
            final(self).same_but(old(self), addr as nat),
            final(self).header(addr as nat) == header,
    {
        let ghost s0 = *self;
        self.set_tag(addr, header.tag);
        let ghost s1 = *self;
        self.set_kval(addr, header.kval);
        let ghost s2 = *self;
        self.set_next(addr, header.next);
        let ghost s3 = *self;
        self.set_prev(addr, header.prev);
        proof {
            assert forall|a: nat| clear(a, addr as nat) && s0.holds(a) implies #[trigger] self.header(
                a,
            ) == s0.header(a) by {
                assert(s1.header(a) == s0.header(a));
                assert(s1.holds(a));
                assert(s2.header(a) == s1.header(a));
                assert(s2.holds(a));
                assert(s3.header(a) == s2.header(a));
                assert(s3.holds(a));
            }
        }
    }

    /// The entries of all rings lie within reach and no two of them overlap.
    pub(super) proof fn lemma_ring_clear(&self, k1: nat, j1: int, k2: nat, j2: int)
        requires
            self.structured(),
            self.model@.max_order == self.kval_m,
            self.model@.inv(),
            k1 < MAX_K,
            k2 < MAX_K,
            0 <= j1 <= self.model@.free[k1 as int].len(),
            0 <= j2 <= self.model@.free[k2 as int].len(),
        ensures
            self.holds(ring(self.model@.free, k1)[j1]),
            k1 != k2 || j1 != j2 ==> clear(
                ring(self.model@.free, k1)[j1],
                ring(self.model@.free, k2)[j2],
            ),
            j1 > 0 ==> self.model@.is_free(ring(self.model@.free, k1)[j1], k1),
    {
        let m = self.model@;
        if j1 > 0 {
            let b1 = m.free[k1 as int][j1 - 1];
            assert(m.is_free(b1, k1));
            assert(m.has_block(b1, k1));
            m.lemma_block(b1, k1);
        }
        if j2 > 0 {
            let b2 = m.free[k2 as int][j2 - 1];
            assert(m.is_free(b2, k2));
            assert(m.has_block(b2, k2));
            m.lemma_block(b2, k2);
            if j1 > 0 && (k1 != k2 || j1 != j2) {
                let b1 = m.free[k1 as int][j1 - 1];
                assert(m.free[k1 as int].no_duplicates());
                m.lemma_two_blocks(b1, k1, b2, k2);
            }
        }
    }

    /// A handed-out block lies within reach and overlaps no entry of a ring.
    pub(super) proof fn lemma_reserved_clear(&self, q: nat, k: nat, j: int)
        requires
            self.structured(),
            self.model@.max_order == self.kval_m,
            self.model@.inv(),
            self.model@.reserved.contains_key(q),
            k < MAX_K,
            0 <= j <= self.model@.free[k as int].len(),
        ensures
            self.holds(q),
            q + HEADER_SIZE <= self.mem().len(),
            clear(q, ring(self.model@.free, k)[j]),
    {
        let m = self.model@;
        assert(m.has_block(q, m.reserved[q]));
        m.lemma_block(q, m.reserved[q]);
        if j > 0 {
            let b = m.free[k as int][j - 1];
            assert(m.is_free(b, k));
            assert(m.has_block(b, k));
            m.lemma_block(b, k);
            m.lemma_two_blocks(q, m.reserved[q], b, k);
        }
    }

    /// No byte after the header of a handed-out block lies in the header of
    /// an entry of a ring.
    pub(super) proof fn lemma_payload_clear(&self, q: nat, i: int, k: nat, j: int)
        requires
            self.structured(),
            self.model@.max_order == self.kval_m,
            self.model@.inv(),
            self.model@.reserved.contains_key(q),
            q + HEADER_SIZE <= i < q + pow2(self.model@.reserved[q]),
            k < MAX_K,
            0 <= j <= self.model@.free[k as int].len(),
        ensures
            0 <= i < self.mem().len(),
            !(ring(self.model@.free, k)[j] <= i < ring(self.model@.free, k)[j] + HEADER_SIZE),
    {
        let m = self.model@;
        assert(m.has_block(q, m.reserved[q]));
        m.lemma_block(q, m.reserved[q]);
        if j > 0 {
            let b = m.free[k as int][j - 1];
            assert(m.is_free(b, k));
            assert(m.has_block(b, k));
            m.lemma_block(b, k);
            m.lemma_two_blocks(q, m.reserved[q], b, k);
        }
    }

    /// A well-formed pool is well formed whichever tag is left open.
    pub(super) proof fn lemma_loosen(&self, loose: nat)
        requires
            self.wf(),
        ensures
            self.wf_but(loose),
    {
        assert forall|b: nat| #[trigger] self.model@.reserved.contains_key(b) implies self.header(
            b,
        ).kval == self.model@.reserved[b] && (b != loose ==> self.header(b).tag
            == BLOCK_RESERVED) by {
            self.lemma_reserved_header(b);
        }
    }

    /// The header of a free block carries the tag of a free block and the
    /// order of its list.
    pub(super) proof fn lemma_free_header(&self, b: nat, k: nat)
        requires
            self.wf(),
            self.model@.is_free(b, k),
        ensures
            self.header(b).tag == BLOCK_AVAIL,
            self.header(b).kval == k,
            b + HEADER_SIZE <= self.mem().len(),
            k <= self.kval_m,
    {
        let m = self.model@;
        assert(m.has_block(b, k));
        m.lemma_block(b, k);
        let i = m.free[k as int].index_of(b);
        assert(ring(m.free, k)[i + 1] == b);
        assert(self.link_ok(k, i + 1));
    }

    /// The header of a handed-out block carries the tag of a handed-out
    /// block and its order.
    pub(super) proof fn lemma_reserved_header(&self, b: nat)
        requires
            self.wf(),
            self.model@.reserved.contains_key(b),
        ensures
            self.header(b).tag == BLOCK_RESERVED,
            self.header(b).kval == self.model@.reserved[b],
            b + pow2(self.model@.reserved[b]) <= self.mem().len(),
            pow2(self.model@.reserved[b]) >= HEADER_SIZE,
            LEAST_K <= self.model@.reserved[b] <= self.kval_m,
            b < NIL,
    {
        let m = self.model@;
        assert(m.has_block(b, m.reserved[b]));
        m.lemma_block(b, m.reserved[b]);
    }

    /// What is kept of some blocks is kept of fewer blocks, and over two
    /// steps.
    pub(super) proof fn lemma_keeps(
        before: &BuddyPool,
        middle: &BuddyPool,
        after: &BuddyPool,
        first: Map<nat, nat>,
        second: Map<nat, nat>,
        blocks: Map<nat, nat>,
    )
        requires
            middle.keeps(before, first),
            after.keeps(middle, second),
            forall|q: nat| #[trigger]
                blocks.contains_key(q) ==> first.contains_key(q) && second.contains_key(q)
                    && blocks[q] <= first[q] && blocks[q] <= second[q],
        ensures
            after.keeps(before, blocks),
    {
        assert forall|q: nat, i: int|
            #![trigger blocks.contains_key(q), after.mem()[i]]
            blocks.contains_key(q) && q + HEADER_SIZE <= i < q + pow2(
                blocks[q],
            ) implies after.mem()[i] == before.mem()[i] by {
            lemma_pow2_monotonic(blocks[q], first[q]);
            lemma_pow2_monotonic(blocks[q], second[q]);
            assert(first.contains_key(q));
            assert(second.contains_key(q));
            assert(middle.mem()[i] == before.mem()[i]);
            assert(after.mem()[i] == middle.mem()[i]);
        }
    }

    /// What is kept of the blocks that stay handed out is retained of their
    /// pointers.
    pub(super) proof fn lemma_retains(before: &BuddyPool, after: &BuddyPool, blocks: Map<nat, nat>, but: nat)
        requires
            before.wf(),
            after.keeps(before, blocks),
            forall|q: nat|
                #![trigger before.model@.reserved.contains_key(q)]
                before.model@.reserved.contains_key(q) && q + HEADER_SIZE != but
                    ==> blocks.contains_key(q) && blocks[q] == before.model@.reserved[q]
                    && after.model@.reserved.contains_key(q) && after.model@.reserved[q]
                    == before.model@.reserved[q],
        ensures
            after.retains(before, but),
    {
        assert forall|p: nat| #[trigger] before@.allocated(p) && p != but implies after@.allocated(
            p,
        ) && after@.reserved[(p - HEADER_SIZE) as nat] == before@.reserved[(p - HEADER_SIZE) as nat]
            && after.payload(p) == before.payload(p) by {
            let q = (p - HEADER_SIZE) as nat;
            assert(before.model@.reserved.contains_key(q));
            before.lemma_reserved_header(q);
            assert(blocks.contains_key(q));
            let hi = q + pow2(blocks[q]);
            assert forall|i: int| p <= i < hi implies after.mem()[i] == before.mem()[i] by {
                assert(blocks.contains_key(q));
            }
            assert(after.payload(p) =~= before.payload(p));
        }
    }

    /// A change of bytes within the payload of one handed-out block leaves
    /// the pool well formed and the other payloads as they were.
    pub(super) proof fn lemma_payload_changed(before: &BuddyPool, after: &BuddyPool, q: nat)
        requires
            before.wf(),
            before.model@.reserved.contains_key(q),
            after.kval_m == before.kval_m,
            after.model@ == before.model@,
            after.avail@ == before.avail@,
            after.mem().len() == before.mem().len(),
            forall|i: int|
                0 <= i < before.mem().len() && !(q + HEADER_SIZE <= i < q + pow2(
                    before.model@.reserved[q],
                )) ==> #[trigger] after.mem()[i] == before.mem()[i],
        ensures
            after.wf(),
            after.keeps(before, before.model@.reserved.remove(q)),
    {
        let m = before.model@;
        assert(m.has_block(q, m.reserved[q]));
        m.lemma_block(q, m.reserved[q]);
        assert forall|k2: nat, j: int|
            k2 <= after.kval_m && 0 <= j <= m.free[k2 as int].len() implies #[trigger] after.link_ok(
            k2,
            j,
        ) by {
            assert(before.link_ok(k2, j));
            before.lemma_ring_clear(k2, j, k2, j);
            let e = ring(m.free, k2)[j];
            if j > 0 {
                let c = m.free[k2 as int][j - 1];
                assert(m.has_block(c, k2));
                m.lemma_block(c, k2);
                m.lemma_two_blocks(c, k2, q, m.reserved[q]);
                lemma_header_from_bytes(before.mem(), after.mem(), e as int);
            }
        }
        assert forall|r: nat| #[trigger] m.reserved.contains_key(r) implies after.header(r).kval
            == m.reserved[r] && (r != NIL as nat ==> after.header(r).tag == BLOCK_RESERVED) by {
            before.lemma_reserved_header(r);
            assert(m.has_block(r, m.reserved[r]));
            m.lemma_block(r, m.reserved[r]);
            if r != q {
                m.lemma_two_blocks(r, m.reserved[r], q, m.reserved[q]);
            }
            lemma_header_from_bytes(before.mem(), after.mem(), r as int);
        }
        assert forall|r: nat, i: int|
            #![trigger m.reserved.remove(q).contains_key(r), after.mem()[i]]
            m.reserved.remove(q).contains_key(r) && r + HEADER_SIZE <= i < r + pow2(
                m.reserved.remove(q)[r],
            ) implies after.mem()[i] == before.mem()[i] by {
            assert(m.has_block(r, m.reserved[r]));
            m.lemma_block(r, m.reserved[r]);
            m.lemma_two_blocks(r, m.reserved[r], q, m.reserved[q]);
        }
    }
}

} // verus!
