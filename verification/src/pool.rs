//! The pool: the region, the heads of the free lists, and the operations
//! that allocate, free and resize blocks.
//!
//! This file holds the pool, what it means for it to be well formed, and the
//! operations that callers use. The machinery is in the submodules: `frame`
//! reads and writes headers by address, `lists` takes blocks off the free
//! lists and puts them on, `blocks` splits and merges blocks and allocates
//! and releases them by order.
use vstd::prelude::*;
use vstd::arithmetic::power2::{pow2, lemma_pow2_pos, lemma_pow2_unfold};
use memmap2::MmapMut;
use crate::buddy_error::{BuddyError, ENOMEM, set_errno};
use crate::order::{
    b_to_k, lemma_b_to_k_fits, lemma_order_for_at_least, lemma_pow2_monotonic, spec_b_to_k,
    spec_order_for, DEFAULT_K, HEADER_SIZE, LEAST_K, MAX_K, MIN_K,
};
use crate::region::{
    map_region, region_bytes, region_copy, region_flush, region_get, region_len, region_set,
};
use crate::header::{
    header_at, load_header, load_kval, load_next, load_prev, load_tag, same_but_header, Avail,
    BLOCK_AVAIL, BLOCK_RESERVED, BLOCK_UNUSED, NIL, SENTINEL_BASE,
};
use crate::model::PoolModel;
use crate::dyadic::{
    aligned, lemma_multiple_is_aligned, lemma_holds_header, lemma_pow2_below_48,
    lemma_shift_is_pow2,
};

mod blocks;
mod frame;
mod lists;

verus! {

/// The buddy memory pool.
pub struct BuddyPool {
    /// The order of the whole region.
    kval_m: usize,
    /// The region that the pool hands out.
    base: MmapMut,
    /// The heads of the free lists, one for each order.
    avail: [Avail; MAX_K],
    /// The blocks of the pool.
    model: Ghost<PoolModel>,
}

/// The pointer that points at nothing. No block starts its payload here:
/// the first bytes of the region hold a header.
pub const NULL: u64 = 0;

/// The order of the pool that `new` makes for a request of `size` bytes: the
/// default for zero, else the order that holds `size` bytes, kept within the
/// range of pool orders.
pub open spec fn spec_pool_order(size: nat) -> nat {
    if size == 0 {
        DEFAULT_K as nat
    } else if spec_b_to_k(size) < MIN_K {
        MIN_K as nat
    } else if spec_b_to_k(size) > MAX_K - 1 {
        (MAX_K - 1) as nat
    } else {
        spec_b_to_k(size)
    }
}

/// The address of the head of the order-`k` list. The heads stand in a row
/// from `SENTINEL_BASE` on, a header's length apart.
pub open spec fn sentinel_addr(k: nat) -> nat {
    (SENTINEL_BASE + HEADER_SIZE * k) as nat
}

/// The headers at `a` and `c` do not overlap.
pub open spec fn clear(a: nat, c: nat) -> bool {
    a + HEADER_SIZE <= c || c + HEADER_SIZE <= a
}

/// The order-`k` list as a ring: its head, then its blocks from first to
/// last.
pub open spec fn ring(free: Seq<Seq<nat>>, k: nat) -> Seq<nat> {
    seq![sentinel_addr(k)] + free[k as int]
}

/// The address that follows entry `j` of a ring.
pub open spec fn ring_next(r: Seq<nat>, j: int) -> nat {
    if j + 1 < r.len() {
        r[j + 1]
    } else {
        r[0]
    }
}

/// The address that precedes entry `j` of a ring.
pub open spec fn ring_prev(r: Seq<nat>, j: int) -> nat {
    if j > 0 {
        r[j - 1]
    } else {
        r[r.len() - 1]
    }
}

impl BuddyPool {
    /// The blocks of the pool.
    pub closed spec fn view(&self) -> PoolModel {
        self.model@
    }

    /// The bytes of the region.
    pub closed spec fn mem(&self) -> Seq<u8> {
        region_bytes(self.base)
    }

    /// The order of the whole region.
    pub closed spec fn spec_max_order(&self) -> nat {
        self.kval_m as nat
    }

    /// The header at `addr`: that of a list head, or the one encoded in the
    /// region.
    pub closed spec fn header(&self, addr: nat) -> Avail {
        if addr >= SENTINEL_BASE {
            self.avail@[(addr - SENTINEL_BASE) / (HEADER_SIZE as int)]
        } else {
            header_at(self.mem(), addr as int)
        }
    }

    /// `addr` is the address of a list head or of a header within the region.
    pub open spec fn holds(&self, addr: nat) -> bool {
        ||| addr + HEADER_SIZE <= self.mem().len()
        ||| addr >= SENTINEL_BASE && (addr - SENTINEL_BASE) % (HEADER_SIZE as int) == 0 && (addr
            - SENTINEL_BASE) / (HEADER_SIZE as int) < MAX_K
    }

    /// The region has the size that the order of the pool asks for.
    pub closed spec fn structured(&self) -> bool {
        &&& MIN_K <= self.kval_m < MAX_K
        &&& self.mem().len() == pow2(self.kval_m as nat)
        &&& self.mem().len() <= usize::MAX
        &&& self.mem().len() <= 0x8000_0000_0000
    }

    /// The list heads are what `new` makes them: each carries the tag of a
    /// head and is linked to itself.
    pub closed spec fn fresh(&self) -> bool {
        forall|k: nat|
            k < MAX_K ==> #[trigger] self.header(sentinel_addr(k)) == (Avail {
                tag: BLOCK_UNUSED,
                kval: 0,
                next: sentinel_addr(k) as u64,
                prev: sentinel_addr(k) as u64,
            })
    }

    /// The bytes that the caller owns behind `ptr`: those of its block that
    /// follow the header.
    pub open spec fn payload(&self, ptr: nat) -> Seq<u8> {
        self.mem().subrange(
            ptr as int,
            ptr - HEADER_SIZE + pow2(self@.reserved[(ptr - HEADER_SIZE) as nat]),
        )
    }

    /// Every pointer that is allocated in `before`, but for `but`, is
    /// allocated in `self`, to a block of the same order that holds the same
    /// bytes.
    pub open spec fn retains(&self, before: &BuddyPool, but: nat) -> bool {
        forall|q: nat| #[trigger]
            before@.allocated(q) && q != but ==> self@.allocated(q) && self@.reserved[(q
                - HEADER_SIZE) as nat] == before@.reserved[(q - HEADER_SIZE) as nat]
                && self.payload(q) == before.payload(q)
    }

    /// `self` is what `before` was: the same blocks, the same bytes in the
    /// region, the same list heads.
    pub closed spec fn same_as(&self, before: &BuddyPool) -> bool {
        &&& self.kval_m == before.kval_m
        &&& self.model@ == before.model@
        &&& self.mem() == before.mem()
        &&& self.avail@ == before.avail@
    }

    /// `self` differs from `before` at most in the header at `addr`.
    spec fn same_but(&self, before: &BuddyPool, addr: nat) -> bool {
        &&& self.kval_m == before.kval_m
        &&& self.model@ == before.model@
        &&& same_but_header(before.mem(), self.mem(), addr as int)
        &&& forall|a: nat|
            clear(a, addr) && before.holds(a) ==> #[trigger] self.header(a) == before.header(a)
    }

    /// The bytes that follow the header in each of `blocks` (offset to
    /// order) are in `self` what they were in `before`.
    spec fn keeps(&self, before: &BuddyPool, blocks: Map<nat, nat>) -> bool {
        &&& self.mem().len() == before.mem().len()
        &&& forall|q: nat, i: int|
            #![trigger blocks.contains_key(q), self.mem()[i]]
            blocks.contains_key(q) && q + HEADER_SIZE <= i < q + pow2(blocks[q]) ==> self.mem()[i]
                == before.mem()[i]
    }

    /// Entry `j` of the order-`k` ring carries the order, the tag of its kind
    /// and the links to its neighbours on the ring.
    spec fn link_ok(&self, k: nat, j: int) -> bool {
        let r = ring(self.model@.free, k);
        let h = self.header(r[j]);
        &&& h.kval == k
        &&& h.tag == if j == 0 {
            BLOCK_UNUSED
        } else {
            BLOCK_AVAIL
        }
        &&& h.next == ring_next(r, j)
        &&& h.prev == ring_prev(r, j)
    }

    /// The headers in the region and the list heads spell out the free lists
    /// of the model.
    spec fn lists_ok(&self) -> bool {
        forall|k: nat, j: int|
            k <= self.kval_m && 0 <= j <= self.model@.free[k as int].len() ==> #[trigger] self.link_ok(
                k,
                j,
            )
    }

    /// The header of every handed-out block carries its order and, but for
    /// the block at `loose`, the tag of a handed-out block.
    spec fn reserved_ok(&self, loose: nat) -> bool {
        forall|b: nat| #[trigger]
            self.model@.reserved.contains_key(b) ==> self.header(b).kval == self.model@.reserved[b]
                && (b != loose ==> self.header(b).tag == BLOCK_RESERVED)
    }

    /// The pool is well formed but for the tag of the handed-out block at
    /// `loose`.
    spec fn wf_but(&self, loose: nat) -> bool {
        &&& self.structured()
        &&& self.model@.max_order == self.kval_m
        &&& self.model@.inv()
        &&& self.lists_ok()
        &&& self.reserved_ok(loose)
    }

    /// The pool is well formed: its blocks meet the invariant of the model,
    /// and the region and the list heads represent them.
    pub closed spec fn wf(&self) -> bool {
        self.wf_but(NIL as nat)
    }

    /// The address of the head of the order-`kval` list.
    pub fn head_addr(kval: usize) -> (addr: u64)
        requires
            kval < MAX_K,
        ensures
            addr == sentinel_addr(kval as nat),
    {
        let step: u64 = HEADER_SIZE as u64;
        assert(step * kval == 32 * kval) by (nonlinear_arith)
            requires
                step == 32,
        ;
        SENTINEL_BASE + step * (kval as u64)
    }

    /// The order of the pool that serves a request of `size` bytes.
    pub fn pool_order(size: usize) -> (kval: usize)
        ensures
            kval == spec_pool_order(size as nat),
            MIN_K <= kval < MAX_K,
    {
        let mut kval: usize;
        if size == 0 {
            kval = DEFAULT_K;
        } else {
            kval = b_to_k(size);
        }
        if kval < MIN_K {
            kval = MIN_K;
        }
        if kval > MAX_K - 1 {
            kval = MAX_K - 1;
        }
        kval
    }

    /// Makes the pool of order `kval` over the mapping that was asked for,
    /// or fails with `NoMemory` if none was granted.
    pub fn assemble(kval: usize, mapped: Option<MmapMut>) -> (result: Result<BuddyPool, BuddyError>)
        requires
            MIN_K <= kval < MAX_K,
            mapped matches Some(region) ==> region_bytes(region).len() == pow2(kval as nat)
                && pow2(kval as nat) <= usize::MAX,
        ensures
            match mapped {
                None => result matches Err(e) && e == BuddyError::NoMemory,
                Some(region) => result matches Ok(pool) && pool.structured() && pool.fresh()
                    && pool.spec_max_order() == kval && pool.mem() == region_bytes(region),
            },
    {
        match mapped {
            None => {
                set_errno(ENOMEM);
                Err(BuddyError::NoMemory)
            },
            Some(base) => {
                let mut avail = [Avail::new();MAX_K];
                let mut k: usize = 0;
                while k < MAX_K
                    invariant
                        k <= MAX_K,
                        forall|j: int|
                            0 <= j < k ==> #[trigger] avail@[j] == (Avail {
                                tag: BLOCK_UNUSED,
                                kval: 0,
                                next: sentinel_addr(j as nat) as u64,
                                prev: sentinel_addr(j as nat) as u64,
                            }),
                    decreases MAX_K - k,
                {
                    let head = Self::head_addr(k);
                    avail[k] = Avail { tag: BLOCK_UNUSED, kval: 0, next: head, prev: head };
                    k += 1;
                }
                proof {
                    lemma_pow2_below_48(kval as nat);
                }
                let pool = BuddyPool {
                    kval_m: kval,
                    base,
                    avail,
                    model: Ghost(PoolModel::full(kval as nat)),
                };
                proof {
                    assert forall|k: nat| k < MAX_K implies #[trigger] pool.header(sentinel_addr(k))
                        == (Avail {
                        tag: BLOCK_UNUSED,
                        kval: 0,
                        next: sentinel_addr(k) as u64,
                        prev: sentinel_addr(k) as u64,
                    }) by {
                        assert(pool.avail@[k as int] == pool.header(sentinel_addr(k)));
                    }
                }
                Ok(pool)
            },
        }
    }

    /// Creates a pool over a fresh anonymous mapping. The size is rounded up
    /// to a power of two between `2^MIN_K` and `2^(MAX_K - 1)`; zero selects
    /// `2^DEFAULT_K`. The pool cannot be used before `init` has been called.
    /// Fails with `NoMemory` if the system does not grant the mapping.
    pub fn new(size: usize) -> (result: Result<BuddyPool, BuddyError>)
        ensures
            match result {
                Ok(pool) => pool.structured() && pool.fresh() && pool.spec_max_order()
                    == spec_pool_order(size as nat),
                Err(e) => e == BuddyError::NoMemory,
            },
    {
        let kval = Self::pool_order(size);
        let numbytes: u64 = 1u64 << (kval as u64);
        proof {
            lemma_shift_is_pow2(kval as u64);
        }
        if numbytes > usize::MAX as u64 {
            set_errno(ENOMEM);
            return Err(BuddyError::NoMemory);
        }
        let mapped = map_region(numbytes as usize);
        Self::assemble(kval, mapped)
    }

    /// Initializes the pool: every list head of an order up to that of the
    /// region is linked to itself, and the whole region becomes the one free
    /// block of the highest order.
    pub fn init(&mut self)
        requires
            old(self).structured(),
        ensures
            final(self).wf(),
            final(self).spec_max_order() == old(self).spec_max_order(),
            final(self)@ == PoolModel::full(old(self).spec_max_order()),
    {
        let ghost s0 = *self;
        let mut i: usize = 0;
        while i <= self.kval_m
            invariant
                i <= self.kval_m + 1,
                self.kval_m == s0.kval_m,
                self.mem() == s0.mem(),
                self.structured(),
                forall|j: int|
                    0 <= j < i ==> #[trigger] self.avail@[j] == (Avail {
                        tag: BLOCK_UNUSED,
                        kval: j as usize,
                        next: sentinel_addr(j as nat) as u64,
                        prev: sentinel_addr(j as nat) as u64,
                    }),
            decreases self.kval_m + 1 - i,
        {
            let head = Self::head_addr(i);
            self.avail[i] = Avail { tag: BLOCK_UNUSED, kval: i, next: head, prev: head };
            i += 1;
        }
        let top = self.kval_m;
        let head = Self::head_addr(top);
        self.avail[top] = Avail { tag: BLOCK_UNUSED, kval: top, next: 0, prev: 0 };
        proof {
            lemma_holds_header(top as nat);
        }
        let ghost s1 = *self;
        self.write_header(0, Avail { tag: BLOCK_AVAIL, kval: top, next: head, prev: head });
        let ghost s2 = *self;
        self.model = Ghost(PoolModel::full(top as nat));
        proof {
            let m = self.model@;
            PoolModel::lemma_full_inv(top as nat);
            assert forall|k: nat, j: int|
                k <= self.kval_m && 0 <= j <= m.free[k as int].len() implies #[trigger] self.link_ok(
                k,
                j,
            ) by {
                let r = ring(m.free, k);
                let a = sentinel_addr(k);
                assert(s1.header(a) == s1.avail@[k as int]);
                assert(s1.holds(a));
                assert(s2.header(a) == s1.header(a));
                assert(self.header(a) == s2.header(a));
                assert(self.header(0) == s2.header(0));
                if k == top {
                    assert(r =~= seq![sentinel_addr(k), 0nat]);
                } else {
                    assert(r =~= seq![sentinel_addr(k)]);
                }
            }
        }
    }

    /// Allocates `size` bytes and gives the pointer to them. The bytes are
    /// not initialized. Fails with `NoMemory` if no free block is large
    /// enough.
    pub fn malloc(&mut self, size: usize) -> (result: Result<u64, BuddyError>)
        requires
            old(self).wf(),
        ensures
            Self::malloc_post(old(self), size, final(self), result),
    {
        let ghost s0 = *self;
        let ghost k = spec_order_for(size as nat);
        proof {
            lemma_order_for_at_least(size as nat);
            lemma_b_to_k_fits((size + HEADER_SIZE) as nat, s0.kval_m as nat);
        }
        let kval = match size.checked_add(HEADER_SIZE) {
            Some(total) => b_to_k(total),
            None => MAX_K,
        };
        proof {
            if kval != k {
                s0.model@.lemma_donor_none(k);
                s0.model@.lemma_donor_none(kval as nat);
            }
            s0.model@.lemma_allocate(kval as nat);
        }
        match self.malloc_kval(kval) {
            Ok(block) => {
                proof {
                    self.lemma_reserved_header(block as nat);
                    Self::lemma_retains(&s0, self, s0.model@.reserved, NULL as nat);
                }
                Ok(block + HEADER_SIZE as u64)
            },
            Err(e) => Err(e),
        }
    }

    /// What `malloc` promises: on success the pool after the call is the
    /// pool before it with a block of the order of `size` allocated, the
    /// pointer returned is that of the block, whose header carries the tag of
    /// a handed-out block and that order, and every other pointer keeps its
    /// block and its bytes; on failure no block is large enough and nothing
    /// has changed. A request larger than the region always fails.
    pub open spec fn malloc_post(
        before: &BuddyPool,
        size: usize,
        after: &BuddyPool,
        result: Result<u64, BuddyError>,
    ) -> bool {
        let k = spec_order_for(size as nat);
        &&& after.wf()
        &&& after.spec_max_order() == before.spec_max_order()
        &&& size + HEADER_SIZE > pow2(before.spec_max_order()) ==> result is Err
        &&& match result {
            Ok(ptr) => {
                &&& before@.allocate(k) == Some((after@, (ptr - HEADER_SIZE) as nat))
                &&& !before@.allocated(ptr as nat)
                &&& after@.allocated(ptr as nat)
                &&& after@.reserved == before@.reserved.insert((ptr - HEADER_SIZE) as nat, k)
                &&& after.header((ptr - HEADER_SIZE) as nat).tag == BLOCK_RESERVED
                &&& after.header((ptr - HEADER_SIZE) as nat).kval == k
                &&& after.payload(ptr as nat).len() == pow2(k) - HEADER_SIZE
                &&& after.retains(before, NULL as nat)
            },
            Err(e) => {
                &&& e == BuddyError::NoMemory
                &&& before@.allocate(k) is None
                &&& after.same_as(before)
            },
        }
    }

    /// Frees the block behind `ptr`, which makes it available again. Does
    /// nothing for the null pointer, nor for any other pointer that the pool
    /// has not given out or has taken back already.
    pub fn free(&mut self, ptr: u64)
        requires
            old(self).wf(),
        ensures
            final(self).wf(),
            final(self).spec_max_order() == old(self).spec_max_order(),
            !old(self)@.allocated(ptr as nat) ==> final(self).same_as(old(self)),
            old(self)@.allocated(ptr as nat) ==> final(self)@ == old(self)@.release(
                (ptr - HEADER_SIZE) as nat,
            ) && final(self).retains(old(self), ptr as nat),
    {
        if ptr == NULL {
            return ;
        }
        if !self.owns(ptr) {
            return ;
        }
        let ghost s0 = *self;
        self.free_avail(ptr - HEADER_SIZE as u64);
        proof {
            s0.model@.lemma_release((ptr - HEADER_SIZE) as nat);
            Self::lemma_retains(
                &s0,
                self,
                s0.model@.reserved.remove((ptr - HEADER_SIZE) as nat),
                ptr as nat,
            );
        }
    }

    /// Changes the size of the block behind `ptr` to `size` bytes and gives
    /// the pointer to the resized block, which may have moved. The bytes are
    /// kept up to the lesser of the old and the new size. With the null
    /// pointer this is `malloc`.
    pub fn realloc(&mut self, ptr: u64, size: usize) -> (result: Result<u64, BuddyError>)
        requires
            old(self).wf(),
        ensures
            Self::realloc_post(old(self), ptr, size, final(self), result),
    {
        if ptr == NULL {
            return self.malloc(size);
        }
        let ghost s0 = *self;
        let ghost m = s0.model@;
        let ghost b = (ptr - HEADER_SIZE) as nat;
        let ghost target = spec_order_for(size as nat);
        proof {
            lemma_order_for_at_least(size as nat);
            lemma_b_to_k_fits((size + HEADER_SIZE) as nat, s0.kval_m as nat);
        }
        let target_kval = match size.checked_add(HEADER_SIZE) {
            Some(total) => b_to_k(total),
            None => MAX_K,
        };
        if target_kval > self.kval_m {
            set_errno(ENOMEM);
            return Err(BuddyError::NoMemory);
        }
        if !self.owns(ptr) {
            return Err(BuddyError::CorruptedMemoryPool);
        }
        proof {
            s0.lemma_reserved_header(b);
            assert(m.has_block(b, m.reserved[b]));
            m.lemma_block(b, m.reserved[b]);
        }
        let block = ptr - HEADER_SIZE as u64;
        let old_kval = load_kval(&self.base, block);
        if target_kval == old_kval {
            return Ok(ptr);
        }
        if size == 0 {
            self.free(ptr);
            return Ok(ptr);
        }
        let mut kval = old_kval;
        while target_kval < kval
            invariant
                self.wf(),
                self.kval_m == s0.kval_m,
                LEAST_K <= target_kval,
                self@.reserved.contains_key(b),
                self@.reserved[b] == kval,
                kval <= old_kval,
                target_kval < old_kval ==> target_kval <= kval,
                self@.reserved == m.reserved.insert(b, kval as nat),
                self@.shrink(b, target_kval as nat) == m.shrink(b, target_kval as nat),
                self.keeps(&s0, self@.reserved),
                kval == old_kval ==> self.same_as(&s0),
                block == b,
                m.reserved.contains_key(b),
                m.reserved[b] == old_kval,
            decreases kval,
        {
            let ghost s1 = *self;
            self.split(block);
            kval = kval - 1;
            proof {
                Self::lemma_keeps(
                    &s0,
                    &s1,
                    self,
                    s1.model@.reserved,
                    self.model@.reserved,
                    self.model@.reserved,
                );
                assert(self@.reserved =~= m.reserved.insert(b, kval as nat));
            }
        }
        if target_kval > old_kval {
            let new_block = match self.malloc_kval(target_kval) {
                Ok(new_block) => new_block,
                Err(e) => {
                    return Err(e);
                },
            };
            let ghost s1 = *self;
            let ghost nb = new_block as nat;
            proof {
                m.lemma_allocate(target_kval as nat);
                s1.lemma_reserved_header(nb);
                s1.lemma_reserved_header(b);
                lemma_shift_is_pow2(old_kval as u64);
                lemma_pow2_monotonic(old_kval as nat, target_kval as nat);
                assert(s1.model@.has_block(nb, target_kval as nat));
                assert(s1.model@.has_block(b, old_kval as nat));
            }
            let new_ptr = new_block + HEADER_SIZE as u64;
            let count = (1u64 << (old_kval as u64)) - HEADER_SIZE as u64;
            region_copy(&mut self.base, ptr as usize, (ptr + count) as usize, new_ptr as usize);
            let ghost s2 = *self;
            proof {
                Self::lemma_payload_changed(&s1, &s2, nb);
                assert(s1.model@.reserved.remove(nb) =~= m.reserved);
                Self::lemma_keeps(
                    &s0,
                    &s1,
                    &s2,
                    m.reserved,
                    s1.model@.reserved.remove(nb),
                    m.reserved.remove(b),
                );
                Self::lemma_retains(&s0, &s2, m.reserved.remove(b), ptr as nat);
                assert(s2.payload(new_ptr as nat).subrange(0, count as int) =~= s1.payload(
                    ptr as nat,
                ));
                assert(s1.payload(ptr as nat) =~= s0.payload(ptr as nat)) by {
                    assert forall|i: int| ptr <= i < b + pow2(old_kval as nat) implies s1.mem()[i]
                        == s0.mem()[i] by {
                        assert(m.reserved.contains_key(b));
                    }
                }
            }
            self.free(ptr);
            proof {
                assert(s2@.allocated(new_ptr as nat));
            }
            return Ok(new_ptr);
        }
        proof {
            Self::lemma_retains(&s0, self, self.model@.reserved, ptr as nat);
            assert(self.payload(ptr as nat) =~= s0.payload(ptr as nat).subrange(
                0,
                pow2(target) - HEADER_SIZE,
            )) by {
                lemma_pow2_monotonic(target, old_kval as nat);
                assert forall|i: int| ptr <= i < b + pow2(target) implies self.mem()[i]
                    == s0.mem()[i] by {
                    assert(self.model@.reserved.contains_key(b));
                }
            }
        }
        Ok(ptr)
    }

    /// What `realloc` promises, case by case in this order. For the null
    /// pointer, what `malloc` promises. For a size that no block of the pool
    /// holds, `NoMemory` and no change. For a pointer that the pool has not
    /// given out or has taken back, `CorruptedMemoryPool` and no change: no
    /// header of a handed-out block can be read behind it. For a size
    /// that the block serves as it is, the same pointer and no change. For
    /// size zero, the same pointer, with the block released. For a smaller
    /// size, the same pointer, with the block shrunk and the bytes that
    /// still fit kept. For a larger size, a new block allocated, holding the
    /// bytes of the old block, which is released; or `NoMemory` and no change
    /// if no free block is large enough. Every other pointer keeps its block
    /// and its bytes.
    pub open spec fn realloc_post(
        before: &BuddyPool,
        ptr: u64,
        size: usize,
        after: &BuddyPool,
        result: Result<u64, BuddyError>,
    ) -> bool {
        let target = spec_order_for(size as nat);
        let b = (ptr - HEADER_SIZE) as nat;
        let old_order = before@.reserved[b];
        if ptr == NULL {
            Self::malloc_post(before, size, after, result)
        } else {
            &&& after.wf()
            &&& after.spec_max_order() == before.spec_max_order()
            &&& if target > before.spec_max_order() {
                result == Err::<u64, BuddyError>(BuddyError::NoMemory) && after.same_as(before)
            } else if !before@.allocated(ptr as nat) {
                result == Err::<u64, BuddyError>(BuddyError::CorruptedMemoryPool) && after.same_as(
                    before,
                )
            } else if target == old_order {
                result == Ok::<u64, BuddyError>(ptr) && after.same_as(before)
            } else if size == 0 {
                &&& result == Ok::<u64, BuddyError>(ptr)
                &&& after@ == before@.release(b)
                &&& after.retains(before, ptr as nat)
            } else if target < old_order {
                &&& result == Ok::<u64, BuddyError>(ptr)
                &&& after@ == before@.shrink(b, target)
                &&& after.retains(before, ptr as nat)
                &&& after.payload(ptr as nat) == before.payload(ptr as nat).subrange(
                    0,
                    pow2(target) - HEADER_SIZE,
                )
            } else {
                match before@.allocate(target) {
                    None => result == Err::<u64, BuddyError>(BuddyError::NoMemory)
                        && after.same_as(before),
                    Some((grown, fresh)) => {
                        &&& result == Ok::<u64, BuddyError>((fresh + HEADER_SIZE) as u64)
                        &&& after@ == grown.release(b)
                        &&& after.retains(before, ptr as nat)
                        &&& after.payload(fresh + HEADER_SIZE as nat).subrange(
                            0,
                            pow2(old_order) - HEADER_SIZE,
                        ) == before.payload(ptr as nat)
                    },
                }
            }
        }
    }

    /// Tells whether `ptr` is a pointer that the pool has given out and not
    /// taken back. The search goes down from the whole region: a range that
    /// starts with a block of its own order is that block; any other range
    /// is made of two halves, and the search goes on in the half that holds
    /// the header of `ptr`.
    pub fn owns(&self, ptr: u64) -> (yes: bool)
        requires
            self.wf(),
        ensures
            yes == self@.allocated(ptr as nat),
    {
        let ghost m = self.model@;
        let len = region_len(&self.base) as u64;
        if ptr < HEADER_SIZE as u64 || ptr - HEADER_SIZE as u64 >= len {
            proof {
                if m.allocated(ptr as nat) {
                    self.lemma_reserved_header((ptr - HEADER_SIZE) as nat);
                }
            }
            return false;
        }
        let block = ptr - HEADER_SIZE as u64;
        let mut start: u64 = 0;
        let mut kval: usize = self.kval_m;
        let ghost mut j: nat = 0;
        proof {
            lemma_pow2_pos(kval as nat);
            assert(m.covered(0));
            let (c, i) = choose|c: nat, i: nat| #[trigger] m.has_block(c, i) && c <= 0 < c + pow2(i);
            m.lemma_block(c, i);
            j = i;
            lemma_multiple_is_aligned(0, kval as nat);
            assert(0 * pow2(kval as nat) == 0);
        }
        loop
            invariant
                self.wf(),
                m == self.model@,
                block == ptr - HEADER_SIZE,
                ptr >= HEADER_SIZE,
                kval <= self.kval_m,
                start <= block < start + pow2(kval as nat),
                start + pow2(kval as nat) <= self.mem().len(),
                aligned(start as nat, kval as nat),
                j <= kval,
                m.has_block(start as nat, j),
            decreases kval,
        {
            proof {
                m.lemma_block(start as nat, j);
                if m.is_free(start as nat, j) {
                    self.lemma_free_header(start as nat, j);
                } else {
                    self.lemma_reserved_header(start as nat);
                }
            }
            let order = load_kval(&self.base, start);
            if order == kval {
                let tag = load_tag(&self.base, start);
                proof {
                    if m.reserved.contains_key(block as nat) && block != start {
                        let kb = m.reserved[block as nat];
                        assert(m.has_block(block as nat, kb));
                        m.lemma_two_blocks(block as nat, kb, start as nat, j);
                        lemma_pow2_pos(kb);
                    }
                }
                return block == start && tag == BLOCK_RESERVED;
            }
            proof {
                let i = m.lemma_half_block(start as nat, j, kval as nat);
                lemma_pow2_unfold(kval as nat);
                lemma_shift_is_pow2((kval - 1) as u64);
                if block >= start + pow2((kval - 1) as nat) {
                    j = i;
                }
            }
            kval = kval - 1;
            let half = 1u64 << (kval as u64);
            if block >= start + half {
                start = start + half;
            }
        }
    }

    /// Reads the byte at index `at` of the block behind `ptr`. Gives nothing
    /// if `ptr` is not allocated or the block has no such byte.
    pub fn load(&self, ptr: u64, at: usize) -> (value: Option<u8>)
        requires
            self.wf(),
        ensures
            value == if self@.allocated(ptr as nat) && at < self.payload(ptr as nat).len() {
                Some(self.payload(ptr as nat)[at as int])
            } else {
                None
            },
    {
        if !self.owns(ptr) {
            return None;
        }
        proof {
            self.lemma_allocated(ptr as nat);
            lemma_shift_is_pow2(self.header((ptr - HEADER_SIZE) as nat).kval as u64);
        }
        let kval = load_kval(&self.base, ptr - HEADER_SIZE as u64);
        let room = (1u64 << (kval as u64)) - HEADER_SIZE as u64;
        if at as u64 >= room {
            return None;
        }
        Some(region_get(&self.base, ptr as usize + at))
    }

    /// Writes `value` at index `at` of the block behind `ptr` and tells
    /// whether it did: it does not if `ptr` is not allocated or the block has
    /// no such byte.
    pub fn store(&mut self, ptr: u64, at: usize, value: u8) -> (done: bool)
        requires
            old(self).wf(),
        ensures
            final(self).wf(),
            final(self)@ == old(self)@,
            final(self).spec_max_order() == old(self).spec_max_order(),
            done == (old(self)@.allocated(ptr as nat) && at < old(self).payload(ptr as nat).len()),
            done ==> final(self).payload(ptr as nat) == old(self).payload(ptr as nat).update(
                at as int,
                value,
            ) && final(self).retains(old(self), ptr as nat),
            !done ==> final(self).same_as(old(self)),
    {
        if !self.owns(ptr) {
            return false;
        }
        let ghost s0 = *self;
        let ghost b = (ptr - HEADER_SIZE) as nat;
        proof {
            s0.lemma_allocated(ptr as nat);
            lemma_shift_is_pow2(s0.header(b).kval as u64);
        }
        let kval = load_kval(&self.base, ptr - HEADER_SIZE as u64);
        let room = (1u64 << (kval as u64)) - HEADER_SIZE as u64;
        if at as u64 >= room {
            return false;
        }
        region_set(&mut self.base, ptr as usize + at, value);
        proof {
            Self::lemma_payload_changed(&s0, self, b);
            Self::lemma_retains(&s0, self, s0.model@.reserved.remove(b), ptr as nat);
            assert(self.payload(ptr as nat) =~= s0.payload(ptr as nat).update(at as int, value));
        }
        true
    }

    /// The order of the whole region.
    pub fn max_order(&self) -> (kval: usize)
        ensures
            kval == self.spec_max_order(),
    {
        self.kval_m
    }

    /// The number of bytes of the region.
    pub fn size(&self) -> (bytes: usize)
        ensures
            bytes == self.mem().len(),
    {
        region_len(&self.base)
    }

    /// Reads the header at `addr`: that of a list head, or the one at that
    /// offset in the region. Gives nothing where no header can lie.
    pub fn header_at(&self, addr: u64) -> (header: Option<Avail>)
        requires
            self.structured(),
        ensures
            header == if self.holds(addr as nat) {
                Some(self.header(addr as nat))
            } else {
                None
            },
    {
        if addr >= SENTINEL_BASE {
            let beyond = addr - SENTINEL_BASE;
            let step = HEADER_SIZE as u64;
            if beyond % step == 0 && beyond / step < MAX_K as u64 {
                Some(self.avail[(beyond / step) as usize])
            } else {
                None
            }
        } else if addr + HEADER_SIZE as u64 <= region_len(&self.base) as u64 {
            Some(load_header(&self.base, addr))
        } else {
            None
        }
    }

    /// The free blocks of order `kval`, found by following the `next` links
    /// from the head of their list until the head is reached again.
    pub fn walk_forward(&self, kval: usize) -> (blocks: Vec<u64>)
        requires
            self.wf(),
            kval <= self.spec_max_order(),
        ensures
            blocks@.len() == self@.free[kval as int].len(),
            forall|i: int| 0 <= i < blocks@.len() ==> blocks@[i] == self@.free[kval as int][i],
    {
        let ghost k = kval as nat;
        let ghost list = self.model@.free[kval as int];
        let ghost r = ring(self.model@.free, k);
        let head = Self::head_addr(kval);
        let mut blocks: Vec<u64> = Vec::new();
        proof {
            assert(self.link_ok(k, 0));
            self.lemma_ring_clear(k, 0, k, 0);
        }
        let mut cur = self.avail[kval].next;
        while cur != head
            invariant
                self.wf(),
                k == kval,
                k <= self.kval_m,
                list == self.model@.free[kval as int],
                r == ring(self.model@.free, k),
                head == sentinel_addr(k),
                blocks@.len() <= list.len(),
                cur == ring_next(r, blocks@.len() as int),
                forall|i: int| 0 <= i < blocks@.len() ==> blocks@[i] == list[i],
            decreases list.len() - blocks@.len(),
        {
            let ghost i = blocks@.len() as int;
            proof {
                if i + 1 >= r.len() {
                    assert(cur == head);
                }
                self.lemma_ring_clear(k, i + 1, k, 0);
                self.lemma_free_header(cur as nat, k);
                assert(self.link_ok(k, i + 1));
            }
            blocks.push(cur);
            cur = load_next(&self.base, cur);
        }
        proof {
            let i = blocks@.len() as int;
            if i < list.len() {
                self.lemma_ring_clear(k, i + 1, k, 0);
            }
        }
        blocks
    }

    /// The free blocks of order `kval`, found by following the `prev` links
    /// from the head of their list until the head is reached again: the last
    /// block of the list comes first.
    pub fn walk_backward(&self, kval: usize) -> (blocks: Vec<u64>)
        requires
            self.wf(),
            kval <= self.spec_max_order(),
        ensures
            blocks@.len() == self@.free[kval as int].len(),
            forall|i: int|
                0 <= i < blocks@.len() ==> blocks@[i] == self@.free[kval as int][blocks@.len() - 1
                    - i],
    {
        let ghost k = kval as nat;
        let ghost list = self.model@.free[kval as int];
        let ghost r = ring(self.model@.free, k);
        let head = Self::head_addr(kval);
        let mut blocks: Vec<u64> = Vec::new();
        proof {
            assert(self.link_ok(k, 0));
            self.lemma_ring_clear(k, 0, k, 0);
        }
        let mut cur = self.avail[kval].prev;
        while cur != head
            invariant
                self.wf(),
                k == kval,
                k <= self.kval_m,
                list == self.model@.free[kval as int],
                r == ring(self.model@.free, k),
                head == sentinel_addr(k),
                blocks@.len() <= list.len(),
                cur == ring_prev(r, r.len() - blocks@.len()),
                forall|i: int| 0 <= i < blocks@.len() ==> blocks@[i] == list[list.len() - 1 - i],
            decreases list.len() - blocks@.len(),
        {
            let ghost i = blocks@.len() as int;
            proof {
                if i >= list.len() {
                    assert(cur == head);
                }
                self.lemma_ring_clear(k, r.len() - 1 - i, k, 0);
                self.lemma_free_header(cur as nat, k);
                assert(self.link_ok(k, r.len() - 1 - i));
            }
            blocks.push(cur);
            cur = load_prev(&self.base, cur);
        }
        proof {
            let i = blocks@.len() as int;
            if i < list.len() {
                self.lemma_ring_clear(k, r.len() - 1 - i, k, 0);
            }
        }
        blocks
    }

    /// Writes the changes of the region back to what backs it, if anything
    /// does, and tells whether that succeeded. The pool is not changed.
    pub fn flush(&self) -> (done: bool) {
        region_flush(&self.base)
    }

    /// The blocks of a well-formed pool meet the invariant of the model, and
    /// the region has the size of the order of the pool.
    pub proof fn lemma_wf(&self)
        requires
            self.wf(),
        ensures
            self.structured(),
            self@.inv(),
            self@.max_order == self.spec_max_order(),
            self.mem().len() == pow2(self.spec_max_order()),
    {
    }

    /// A pool that is the same as a well-formed pool is well formed, with
    /// the same blocks, bytes and headers.
    pub proof fn lemma_same_as(&self, before: &BuddyPool)
        requires
            self.same_as(before),
        ensures
            self@ == before@,
            self.mem() == before.mem(),
            self.spec_max_order() == before.spec_max_order(),
            forall|a: nat| self.header(a) == before.header(a),
            forall|p: nat| self.payload(p) == before.payload(p),
            before.wf() ==> self.wf(),
    {
        if before.wf() {
            assert forall|k: nat, j: int|
                k <= self.kval_m && 0 <= j <= self.model@.free[k as int].len()
                    implies #[trigger] self.link_ok(k, j) by {
                assert(before.link_ok(k, j));
            }
        }
    }

    /// What holds of every allocated pointer of a well-formed pool: its
    /// block lies in the region, its header carries the tag of a handed-out
    /// block and its order, and its payload is the block less the header.
    pub proof fn lemma_allocated(&self, ptr: nat)
        requires
            self.wf(),
            self@.allocated(ptr),
        ensures
            self.header((ptr - HEADER_SIZE) as nat).tag == BLOCK_RESERVED,
            self.header((ptr - HEADER_SIZE) as nat).kval == self@.reserved[(ptr
                - HEADER_SIZE) as nat],
            LEAST_K <= self@.reserved[(ptr - HEADER_SIZE) as nat] <= self.spec_max_order(),
            self.payload(ptr).len() == pow2(self@.reserved[(ptr - HEADER_SIZE) as nat])
                - HEADER_SIZE,
            ptr + self.payload(ptr).len() <= self.mem().len(),
            self.holds((ptr - HEADER_SIZE) as nat),
            self.structured(),
    {
        self.lemma_reserved_header((ptr - HEADER_SIZE) as nat);
    }

    /// Circularity: in a well-formed pool every entry of the ring of a free
    /// list, the head included, carries the order of the list and the tag of
    /// its kind, and is linked to the entry after it and the entry before it
    /// on the ring. Following `next` from the head therefore visits the
    /// blocks of the list first to last and returns to the head; following
    /// `prev` visits them last to first.
    pub proof fn lemma_ring_entry(&self, k: nat, j: int)
        requires
            self.wf(),
            k <= self.spec_max_order(),
            0 <= j <= self@.free[k as int].len(),
        ensures
            self.holds(ring(self@.free, k)[j]),
            self.header(ring(self@.free, k)[j]).kval == k,
            self.header(ring(self@.free, k)[j]).tag == if j == 0 {
                BLOCK_UNUSED
            } else {
                BLOCK_AVAIL
            },
            self.header(ring(self@.free, k)[j]).next == ring_next(ring(self@.free, k), j),
            self.header(ring(self@.free, k)[j]).prev == ring_prev(ring(self@.free, k), j),
    {
        assert(self.link_ok(k, j));
        self.lemma_ring_clear(k, j, k, j);
    }

    /// The topology of the full pool: every list head below the order of
    /// the region is linked to itself; the head of that order is linked to
    /// the block at the start of the region, which is free, has the order of
    /// the region and is linked to the head.
    pub proof fn lemma_full_topology(&self)
        requires
            self.wf(),
            self@ == PoolModel::full(self.spec_max_order()),
        ensures
            forall|k: nat|
                k < self.spec_max_order() ==> #[trigger] self.header(sentinel_addr(k)) == (Avail {
                    tag: BLOCK_UNUSED,
                    kval: k as usize,
                    next: sentinel_addr(k) as u64,
                    prev: sentinel_addr(k) as u64,
                }),
            self.header(sentinel_addr(self.spec_max_order())) == (Avail {
                tag: BLOCK_UNUSED,
                kval: self.spec_max_order() as usize,
                next: 0,
                prev: 0,
            }),
            self.header(0) == (Avail {
                tag: BLOCK_AVAIL,
                kval: self.spec_max_order() as usize,
                next: sentinel_addr(self.spec_max_order()) as u64,
                prev: sentinel_addr(self.spec_max_order()) as u64,
            }),
    {
        let top = self.kval_m as nat;
        let m = self.model@;
        assert forall|k: nat| k < top implies #[trigger] self.header(sentinel_addr(k)) == (Avail {
            tag: BLOCK_UNUSED,
            kval: k as usize,
            next: sentinel_addr(k) as u64,
            prev: sentinel_addr(k) as u64,
        }) by {
            assert(self.link_ok(k, 0));
            assert(ring(m.free, k) =~= seq![sentinel_addr(k)]);
        }
        assert(ring(m.free, top) =~= seq![sentinel_addr(top), 0nat]);
        assert(self.link_ok(top, 0));
        assert(self.link_ok(top, 1));
    }

    /// Fullness after drain: a well-formed pool of which no pointer is
    /// allocated is the full pool.
    pub proof fn lemma_drained_pool(&self)
        requires
            self.wf(),
            self@.drained(),
        ensures
            self@ == PoolModel::full(self.spec_max_order()),
    {
        self.model@.lemma_drained_is_full();
    }

    /// Both walks over a free list visit the same blocks, each as often as
    /// the other.
    pub proof fn lemma_walks_agree(list: Seq<nat>, forward: Seq<u64>, backward: Seq<u64>)
        requires
            forward.len() == list.len(),
            backward.len() == list.len(),
            forall|i: int| 0 <= i < forward.len() ==> forward[i] == list[i],
            forall|i: int| 0 <= i < backward.len() ==> backward[i] == list[backward.len() - 1 - i],
        ensures
            forward.to_multiset() == backward.to_multiset(),
    {
        assert(backward =~= forward.reverse());
        forward.lemma_reverse_to_multiset();
    }
}

} // verus!
