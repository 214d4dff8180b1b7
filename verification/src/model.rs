//! The mathematical model of a pool: which blocks exist, which of them are
//! free and in what order they stand on their lists, and which are handed out.
use vstd::prelude::*;
use vstd::arithmetic::power2::{pow2, lemma_pow2_pos, lemma_pow2_unfold};
use crate::order::{HEADER_SIZE, LEAST_K, MAX_K, MIN_K};
use crate::dyadic::{
    aligned, buddy_of, lemma_aligned_lower, lemma_buddy, lemma_holds_header,
    lemma_multiple_is_aligned, lower_of,
};

verus! {

/// The blocks of a pool. Offsets count bytes from the start of the region.
#[verifier::ext_equal]
pub struct PoolModel {
    /// The order of the whole region.
    pub max_order: nat,
    /// For each order, the offsets of the free blocks of that order, from the
    /// head of their list to its tail.
    pub free: Seq<Seq<nat>>,
    /// The blocks handed out: offset of the block to its order.
    pub reserved: Map<nat, nat>,
}

/// Removing one entry of a list without repetitions removes its value and
/// nothing else.
pub proof fn lemma_remove_entry(s: Seq<nat>, i: int)
    requires
        s.no_duplicates(),
        0 <= i < s.len(),
    ensures
        s.remove(i).no_duplicates(),
        s.remove(i).len() == s.len() - 1,
        forall|c: nat| s.remove(i).contains(c) <==> s.contains(c) && c != s[i],
{
    let r = s.remove(i);
    assert forall|c: nat| r.contains(c) <==> s.contains(c) && c != s[i] by {
        if r.contains(c) {
            let j = choose|j: int| 0 <= j < r.len() && r[j] == c;
            if j < i {
                assert(s[j] == c);
            } else {
                assert(s[j + 1] == c);
            }
        }
        if s.contains(c) && c != s[i] {
            let j = choose|j: int| 0 <= j < s.len() && s[j] == c;
            if j < i {
                assert(r[j] == c);
            } else {
                assert(r[j - 1] == c);
            }
        }
    }
}

/// Appending a value to a list adds that value and nothing else.
pub proof fn lemma_push_entry(s: Seq<nat>, v: nat)
    ensures
        forall|c: nat| s.push(v).contains(c) <==> s.contains(c) || c == v,
        s.no_duplicates() && !s.contains(v) ==> s.push(v).no_duplicates(),
{
    let r = s.push(v);
    assert forall|c: nat| r.contains(c) <==> s.contains(c) || c == v by {
        if r.contains(c) {
            let j = choose|j: int| 0 <= j < r.len() && r[j] == c;
            if j < s.len() {
                assert(s[j] == c);
            }
        }
        if s.contains(c) {
            let j = choose|j: int| 0 <= j < s.len() && s[j] == c;
            assert(r[j] == c);
        }
        if c == v {
            assert(r[s.len() as int] == c);
        }
    }
}

impl PoolModel {
    /// The block at `b` is on the free list of order `k`.
    pub open spec fn is_free(self, b: nat, k: nat) -> bool {
        k < self.free.len() && self.free[k as int].contains(b)
    }

    /// The block at `b` is handed out and has order `k`.
    pub open spec fn is_reserved(self, b: nat, k: nat) -> bool {
        self.reserved.contains_key(b) && self.reserved[b] == k
    }

    /// A block of order `k` starts at `b`.
    pub open spec fn has_block(self, b: nat, k: nat) -> bool {
        self.is_free(b, k) || self.is_reserved(b, k)
    }

    /// `ptr` is the address of the first byte after the header of a
    /// handed-out block: a pointer that the pool has given out and not taken
    /// back.
    pub open spec fn allocated(self, ptr: nat) -> bool {
        ptr >= HEADER_SIZE && self.reserved.contains_key((ptr - HEADER_SIZE) as nat)
    }

    /// Some block holds the byte at `x`.
    pub open spec fn covered(self, x: nat) -> bool {
        exists|b: nat, k: nat| #[trigger] self.has_block(b, k) && b <= x < b + pow2(k)
    }

    /// The order of the region is in range, there is one list for each order,
    /// and no list names a block twice.
    pub open spec fn shaped(self) -> bool {
        &&& MIN_K <= self.max_order < MAX_K
        &&& self.free.len() == MAX_K
        &&& forall|k: int| 0 <= k < MAX_K ==> #[trigger] self.free[k].no_duplicates()
    }

    /// Every block has an order between the least and that of the region,
    /// starts at a multiple of its size and ends within the region.
    pub open spec fn placed(self) -> bool {
        forall|b: nat, k: nat| #[trigger]
            self.has_block(b, k) ==> LEAST_K <= k <= self.max_order && aligned(b, k) && b + pow2(k)
                <= pow2(self.max_order)
    }

    /// No two blocks share a byte.
    pub open spec fn apart(self) -> bool {
        forall|b1: nat, k1: nat, b2: nat, k2: nat|
            #[trigger] self.has_block(b1, k1) && #[trigger] self.has_block(b2, k2) && !(b1 == b2
                && k1 == k2) ==> b1 + pow2(k1) <= b2 || b2 + pow2(k2) <= b1
    }

    /// No block is both free and handed out.
    pub open spec fn separate(self) -> bool {
        forall|b: nat, k: nat| #[trigger] self.is_free(b, k) ==> !self.reserved.contains_key(b)
    }

    /// Every byte of the region belongs to a block.
    pub open spec fn covering(self) -> bool {
        forall|x: nat| x < pow2(self.max_order) ==> #[trigger] self.covered(x)
    }

    /// No free block has a free buddy of its own order: such a pair would
    /// have been merged.
    pub open spec fn merged(self) -> bool {
        forall|b: nat, k: nat| #[trigger]
            self.is_free(b, k) && k < self.max_order ==> !self.is_free(buddy_of(b, k), k)
    }

    /// The invariant of a pool: its blocks tile the region, each in its
    /// place, and no two free buddies wait to be merged.
    pub open spec fn inv(self) -> bool {
        &&& self.shaped()
        &&& self.placed()
        &&& self.apart()
        &&& self.separate()
        &&& self.covering()
        &&& self.merged()
    }

    /// The pool in which the whole region is one free block.
    pub open spec fn full(max_order: nat) -> PoolModel {
        PoolModel {
            max_order,
            free: Seq::new(
                MAX_K as nat,
                |k: int|
                    if k == max_order {
                        seq![0nat]
                    } else {
                        Seq::<nat>::empty()
                    },
            ),
            reserved: Map::empty(),
        }
    }

    /// The free block at `b`, of order `k`, leaves its list and is handed out.
    pub open spec fn unlink(self, b: nat, k: nat) -> PoolModel {
        let list = self.free[k as int];
        PoolModel {
            free: self.free.update(k as int, list.remove(list.index_of(b))),
            reserved: self.reserved.insert(b, k),
            ..self
        }
    }

    /// The handed-out block at `b` joins the tail of the free list of its
    /// order.
    pub open spec fn insert(self, b: nat) -> PoolModel {
        let k = self.reserved[b];
        PoolModel {
            free: self.free.update(k as int, self.free[k as int].push(b)),
            reserved: self.reserved.remove(b),
            ..self
        }
    }

    /// The handed-out block at `b` is cut in two: the lower half stays handed
    /// out, the upper half joins the tail of the free list of its order.
    pub open spec fn split(self, b: nat) -> PoolModel {
        let k = (self.reserved[b] - 1) as nat;
        PoolModel {
            free: self.free.update(k as int, self.free[k as int].push(b + pow2(k))),
            reserved: self.reserved.insert(b, k),
            ..self
        }
    }

    /// The handed-out block at `b` can be merged: it is smaller than the
    /// region and its buddy is free and of the same order.
    pub open spec fn coalescable(self, b: nat) -> bool {
        let k = self.reserved[b];
        k < self.max_order && self.is_free(buddy_of(b, k), k)
    }

    /// The handed-out block at `b` absorbs its free buddy: the buddy leaves
    /// its list, and the lower of the two is handed out with the next order.
    pub open spec fn merge(self, b: nat) -> PoolModel {
        let k = self.reserved[b];
        let list = self.free[k as int];
        PoolModel {
            free: self.free.update(k as int, list.remove(list.index_of(buddy_of(b, k)))),
            reserved: self.reserved.remove(b).insert(lower_of(b, k), k + 1),
            ..self
        }
    }

    /// What is known of every block of a pool that meets its invariant.
    pub proof fn lemma_block(self, b: nat, k: nat)
        requires
            self.inv(),
            self.has_block(b, k),
        ensures
            LEAST_K <= k <= self.max_order < MAX_K,
            aligned(b, k),
            b + pow2(k) <= pow2(self.max_order),
            pow2(k) >= HEADER_SIZE,
            self.is_free(b, k) != self.is_reserved(b, k),
    {
        lemma_holds_header(k);
    }

    /// Two different blocks do not overlap, and so start at different
    /// offsets, at least the length of a header apart.
    pub proof fn lemma_two_blocks(self, b1: nat, k1: nat, b2: nat, k2: nat)
        requires
            self.inv(),
            self.has_block(b1, k1),
            self.has_block(b2, k2),
            b1 != b2 || k1 != k2,
        ensures
            b1 + pow2(k1) <= b2 || b2 + pow2(k2) <= b1,
            b1 + HEADER_SIZE <= b2 || b2 + HEADER_SIZE <= b1,
    {
        lemma_holds_header(k1);
        lemma_holds_header(k2);
    }

    /// A block has one order only.
    pub proof fn lemma_one_order(self, b: nat, k1: nat, k2: nat)
        requires
            self.inv(),
            self.has_block(b, k1),
            self.has_block(b, k2),
        ensures
            k1 == k2,
    {
        lemma_pow2_pos(k1);
        lemma_pow2_pos(k2);
    }

    /// The full pool meets the invariant.
    pub proof fn lemma_full_inv(max_order: nat)
        requires
            MIN_K <= max_order < MAX_K,
        ensures
            Self::full(max_order).inv(),
    {
        let m = Self::full(max_order);
        lemma_pow2_pos(max_order);
        assert(aligned(0, max_order)) by {
            lemma_multiple_is_aligned(0, max_order);
            assert(0 * pow2(max_order) == 0);
        }
        assert(m.free[max_order as int][0] == 0);
        assert(m.has_block(0, max_order));
        assert forall|b: nat, k: nat| #[trigger] m.has_block(b, k) implies b == 0 && k
            == max_order by {
            if k != max_order {
                assert(m.free[k as int].len() == 0);
            }
        }
        assert forall|x: nat| x < pow2(m.max_order) implies #[trigger] m.covered(x) by {
            assert(m.has_block(0, max_order) && 0 <= x < 0 + pow2(max_order));
        }
        assert forall|b: nat, k: nat| #[trigger]
            m.is_free(b, k) && k < m.max_order implies !m.is_free(buddy_of(b, k), k) by {
            assert(m.has_block(b, k));
        }
        assert forall|b: nat, k: nat| #[trigger] m.is_free(b, k) implies !m.reserved.contains_key(
            b,
        ) by {}
    }

    /// Unlinking a free block keeps the invariant and the set of blocks.
    pub proof fn lemma_unlink(self, b: nat, k: nat)
        requires
            self.inv(),
            self.is_free(b, k),
        ensures
            self.unlink(b, k).inv(),
            forall|c: nat, j: nat|
                self.unlink(b, k).is_free(c, j) <==> self.is_free(c, j) && c != b,
            forall|c: nat, j: nat| self.unlink(b, k).has_block(c, j) <==> self.has_block(c, j),
    {
        let n = self.unlink(b, k);
        let list = self.free[k as int];
        let i = list.index_of(b);
        lemma_remove_entry(list, i);
        assert(self.has_block(b, k));
        assert forall|c: nat, j: nat| n.is_free(c, j) <==> self.is_free(c, j) && c != b by {
            if j == k {
                assert(n.free[j as int] == list.remove(i));
            } else if j < self.free.len() {
                assert(n.free[j as int] == self.free[j as int]);
                if self.is_free(c, j) && c == b {
                    assert(self.has_block(c, j));
                    self.lemma_one_order(b, j, k);
                }
            }
        }
        assert forall|c: nat, j: nat| n.has_block(c, j) <==> self.has_block(c, j) by {
            if self.is_free(c, j) && c == b {
                assert(self.has_block(c, j));
                self.lemma_one_order(b, j, k);
            }
        }
        assert forall|j: int| 0 <= j < MAX_K implies #[trigger] n.free[j].no_duplicates() by {
            if j != k {
                assert(n.free[j] == self.free[j]);
            }
        }
        assert forall|c: nat, j: nat| #[trigger] n.has_block(c, j) implies LEAST_K <= j
            <= n.max_order && aligned(c, j) && c + pow2(j) <= pow2(n.max_order) by {
            assert(self.has_block(c, j));
        }
        assert forall|b1: nat, k1: nat, b2: nat, k2: nat|
            #[trigger] n.has_block(b1, k1) && #[trigger] n.has_block(b2, k2) && !(b1 == b2 && k1
                == k2) implies b1 + pow2(k1) <= b2 || b2 + pow2(k2) <= b1 by {
            assert(self.has_block(b1, k1) && self.has_block(b2, k2));
        }
        assert forall|x: nat| x < pow2(n.max_order) implies #[trigger] n.covered(x) by {
            assert(self.covered(x));
            let (c, j) = choose|c: nat, j: nat| #[trigger]
                self.has_block(c, j) && c <= x < c + pow2(j);
            assert(n.has_block(c, j));
        }
        assert forall|c: nat, j: nat| #[trigger] n.is_free(c, j) implies !n.reserved.contains_key(
            c,
        ) by {
            assert(self.is_free(c, j));
        }
        assert forall|c: nat, j: nat| #[trigger]
            n.is_free(c, j) && j < n.max_order implies !n.is_free(buddy_of(c, j), j) by {
            assert(self.is_free(c, j));
        }
    }

    /// Putting a handed-out block on its list keeps the invariant and the
    /// set of blocks, provided the block has no free buddy to merge with.
    pub proof fn lemma_insert(self, b: nat)
        requires
            self.inv(),
            self.reserved.contains_key(b),
            self.reserved[b] == self.max_order || !self.is_free(
                buddy_of(b, self.reserved[b]),
                self.reserved[b],
            ),
        ensures
            self.insert(b).inv(),
            forall|c: nat, j: nat|
                self.insert(b).is_free(c, j) <==> self.is_free(c, j) || (c == b && j
                    == self.reserved[b]),
            forall|c: nat, j: nat| self.insert(b).has_block(c, j) <==> self.has_block(c, j),
    {
        let n = self.insert(b);
        let k = self.reserved[b];
        let list = self.free[k as int];
        assert(self.has_block(b, k));
        self.lemma_block(b, k);
        lemma_push_entry(list, b);
        lemma_buddy(b, k);
        assert(!list.contains(b)) by {
            if list.contains(b) {
                assert(self.is_free(b, k));
            }
        }
        assert forall|c: nat, j: nat|
            n.is_free(c, j) <==> self.is_free(c, j) || (c == b && j == k) by {
            if j == k {
                assert(n.free[j as int] == list.push(b));
            } else if j < self.free.len() {
                assert(n.free[j as int] == self.free[j as int]);
            }
        }
        assert forall|c: nat, j: nat| n.has_block(c, j) <==> self.has_block(c, j) by {
            if self.is_free(c, j) {
                assert(!self.reserved.contains_key(c));
            }
        }
        assert forall|j: int| 0 <= j < MAX_K implies #[trigger] n.free[j].no_duplicates() by {
            if j != k {
                assert(n.free[j] == self.free[j]);
            }
        }
        assert forall|c: nat, j: nat| #[trigger] n.has_block(c, j) implies LEAST_K <= j
            <= n.max_order && aligned(c, j) && c + pow2(j) <= pow2(n.max_order) by {
            assert(self.has_block(c, j));
        }
        assert forall|b1: nat, k1: nat, b2: nat, k2: nat|
            #[trigger] n.has_block(b1, k1) && #[trigger] n.has_block(b2, k2) && !(b1 == b2 && k1
                == k2) implies b1 + pow2(k1) <= b2 || b2 + pow2(k2) <= b1 by {
            assert(self.has_block(b1, k1) && self.has_block(b2, k2));
        }
        assert forall|x: nat| x < pow2(n.max_order) implies #[trigger] n.covered(x) by {
            assert(self.covered(x));
            let (c, j) = choose|c: nat, j: nat| #[trigger]
                self.has_block(c, j) && c <= x < c + pow2(j);
            assert(n.has_block(c, j));
        }
        assert forall|c: nat, j: nat| #[trigger] n.is_free(c, j) implies !n.reserved.contains_key(
            c,
        ) by {
            if self.is_free(c, j) {
                assert(!self.reserved.contains_key(c));
            }
        }
        assert forall|c: nat, j: nat| #[trigger]
            n.is_free(c, j) && j < n.max_order implies !n.is_free(buddy_of(c, j), j) by {
            if self.is_free(c, j) {
                assert(self.has_block(c, j));
                self.lemma_block(c, j);
                lemma_buddy(c, j);
                assert(!self.is_free(buddy_of(c, j), j));
            }
        }
    }

    /// Cutting a handed-out block above the least order in two keeps the
    /// invariant: the block is replaced by its two halves.
    pub proof fn lemma_split(self, b: nat)
        requires
            self.inv(),
            self.reserved.contains_key(b),
            self.reserved[b] > LEAST_K,
        ensures
            self.split(b).inv(),
            forall|c: nat, j: nat|
                self.split(b).is_free(c, j) <==> self.is_free(c, j) || (c == b + pow2(
                    (self.reserved[b] - 1) as nat,
                ) && j == self.reserved[b] - 1),
            forall|c: nat, j: nat|
                self.split(b).has_block(c, j) <==> (self.has_block(c, j) && c != b) || ((c == b
                    || c == b + pow2((self.reserved[b] - 1) as nat)) && j == self.reserved[b] - 1),
            forall|c: nat, j: nat|
                c == b + pow2((self.reserved[b] - 1) as nat) ==> !#[trigger] self.has_block(c, j),
    {
        let n = self.split(b);
        let big = self.reserved[b];
        let k = (big - 1) as nat;
        let y = b + pow2(k);
        let list = self.free[k as int];
        assert(self.has_block(b, big));
        self.lemma_block(b, big);
        lemma_pow2_unfold(big);
        lemma_pow2_pos(k);
        lemma_aligned_lower(b, big, k);
        lemma_buddy(b, k);
        lemma_holds_header(k);
        assert(buddy_of(b, k) == y);
        assert forall|c: nat, j: nat| c == y implies !#[trigger] self.has_block(c, j) by {
            if self.has_block(y, j) {
                self.lemma_two_blocks(b, big, y, j);
                lemma_pow2_pos(j);
            }
        }
        assert(!list.contains(y)) by {
            if list.contains(y) {
                assert(self.has_block(y, k));
            }
        }
        lemma_push_entry(list, y);
        assert forall|c: nat, j: nat|
            n.is_free(c, j) <==> self.is_free(c, j) || (c == y && j == k) by {
            if j == k {
                assert(n.free[j as int] == list.push(y));
            } else if j < self.free.len() {
                assert(n.free[j as int] == self.free[j as int]);
            }
        }
        assert forall|c: nat, j: nat|
            n.has_block(c, j) <==> (self.has_block(c, j) && c != b) || ((c == b || c == y) && j
                == k) by {
            if self.has_block(c, j) && c == b {
                self.lemma_one_order(b, j, big);
            }
            if self.is_free(c, j) {
                assert(!self.reserved.contains_key(c));
            }
        }
        assert forall|j: int| 0 <= j < MAX_K implies #[trigger] n.free[j].no_duplicates() by {
            if j != k {
                assert(n.free[j] == self.free[j]);
            }
        }
        assert forall|c: nat, j: nat| #[trigger] n.has_block(c, j) implies LEAST_K <= j
            <= n.max_order && aligned(c, j) && c + pow2(j) <= pow2(n.max_order) by {
            if self.has_block(c, j) && c != b {
            } else {
            }
        }
        assert forall|b1: nat, k1: nat, b2: nat, k2: nat|
            #[trigger] n.has_block(b1, k1) && #[trigger] n.has_block(b2, k2) && !(b1 == b2 && k1
                == k2) implies b1 + pow2(k1) <= b2 || b2 + pow2(k2) <= b1 by {
            if self.has_block(b1, k1) && b1 != b {
                if self.has_block(b2, k2) && b2 != b {
                } else {
                    self.lemma_two_blocks(b1, k1, b, big);
                }
            } else {
                if self.has_block(b2, k2) && b2 != b {
                    self.lemma_two_blocks(b2, k2, b, big);
                } else {
                }
            }
        }
        assert forall|x: nat| x < pow2(n.max_order) implies #[trigger] n.covered(x) by {
            assert(self.covered(x));
            let (c, j) = choose|c: nat, j: nat| #[trigger]
                self.has_block(c, j) && c <= x < c + pow2(j);
            if c == b {
                self.lemma_one_order(b, j, big);
                if x < y {
                    assert(n.has_block(b, k) && b <= x < b + pow2(k));
                } else {
                    assert(n.has_block(y, k) && y <= x < y + pow2(k));
                }
            } else {
                assert(n.has_block(c, j));
            }
        }
        assert forall|c: nat, j: nat| #[trigger] n.is_free(c, j) implies !n.reserved.contains_key(
            c,
        ) by {
            if self.is_free(c, j) {
                assert(!self.reserved.contains_key(c));
            } else {
                assert(!self.has_block(y, self.reserved[y]));
            }
        }
        assert forall|c: nat, j: nat| #[trigger]
            n.is_free(c, j) && j < n.max_order implies !n.is_free(buddy_of(c, j), j) by {
            if self.is_free(c, j) {
                assert(self.has_block(c, j));
                self.lemma_block(c, j);
                lemma_buddy(c, j);
                assert(!self.is_free(buddy_of(c, j), j));
                if buddy_of(c, j) == y && j == k {
                    assert(c == b);
                    assert(!self.reserved.contains_key(c));
                }
            } else {
                assert(buddy_of(y, k) == b);
                if self.is_free(b, k) {
                    assert(!self.reserved.contains_key(b));
                }
            }
        }
    }

    /// Merging a handed-out block with its free buddy keeps the invariant:
    /// the two are replaced by the block of the next order that they make up.
    pub proof fn lemma_merge(self, b: nat)
        requires
            self.inv(),
            self.reserved.contains_key(b),
            self.coalescable(b),
        ensures
            self.merge(b).inv(),
            forall|c: nat, j: nat|
                self.merge(b).is_free(c, j) <==> self.is_free(c, j) && c != buddy_of(
                    b,
                    self.reserved[b],
                ),
            forall|c: nat, j: nat|
                self.merge(b).has_block(c, j) <==> (self.has_block(c, j) && c != b && c
                    != buddy_of(b, self.reserved[b])) || (c == lower_of(b, self.reserved[b]) && j
                    == self.reserved[b] + 1),
    {
        let n = self.merge(b);
        let k = self.reserved[b];
        let y = buddy_of(b, k);
        let low = lower_of(b, k);
        let list = self.free[k as int];
        let i = list.index_of(y);
        assert(self.has_block(b, k));
        assert(self.has_block(y, k));
        self.lemma_block(b, k);
        self.lemma_block(y, k);
        lemma_buddy(b, k);
        lemma_pow2_unfold(k + 1);
        lemma_pow2_pos(k);
        lemma_remove_entry(list, i);
        assert(!self.reserved.contains_key(y));
        assert forall|c: nat, j: nat| n.is_free(c, j) <==> self.is_free(c, j) && c != y by {
            if j == k {
                assert(n.free[j as int] == list.remove(i));
            } else if j < self.free.len() {
                assert(n.free[j as int] == self.free[j as int]);
                if self.is_free(c, j) && c == y {
                    assert(self.has_block(c, j));
                    self.lemma_one_order(y, j, k);
                }
            }
        }
        assert forall|c: nat, j: nat|
            n.has_block(c, j) <==> (self.has_block(c, j) && c != b && c != y) || (c == low && j
                == k + 1) by {
            if self.is_free(c, j) {
                assert(!self.reserved.contains_key(c));
            }
        }
        assert forall|j: int| 0 <= j < MAX_K implies #[trigger] n.free[j].no_duplicates() by {
            if j != k {
                assert(n.free[j] == self.free[j]);
            }
        }
        assert forall|c: nat, j: nat| #[trigger] n.has_block(c, j) implies LEAST_K <= j
            <= n.max_order && aligned(c, j) && c + pow2(j) <= pow2(n.max_order) by {
            if self.has_block(c, j) && c != b && c != y {
            } else {
            }
        }
        assert forall|b1: nat, k1: nat, b2: nat, k2: nat|
            #[trigger] n.has_block(b1, k1) && #[trigger] n.has_block(b2, k2) && !(b1 == b2 && k1
                == k2) implies b1 + pow2(k1) <= b2 || b2 + pow2(k2) <= b1 by {
            if self.has_block(b1, k1) && b1 != b && b1 != y {
                if self.has_block(b2, k2) && b2 != b && b2 != y {
                } else {
                    self.lemma_two_blocks(b1, k1, b, k);
                    self.lemma_two_blocks(b1, k1, y, k);
                }
            } else {
                if self.has_block(b2, k2) && b2 != b && b2 != y {
                    self.lemma_two_blocks(b2, k2, b, k);
                    self.lemma_two_blocks(b2, k2, y, k);
                } else {
                }
            }
        }
        assert forall|x: nat| x < pow2(n.max_order) implies #[trigger] n.covered(x) by {
            assert(self.covered(x));
            let (c, j) = choose|c: nat, j: nat| #[trigger]
                self.has_block(c, j) && c <= x < c + pow2(j);
            if c == b || c == y {
                self.lemma_one_order(c, j, k);
                assert(n.has_block(low, k + 1) && low <= x < low + pow2(k + 1));
            } else {
                assert(n.has_block(c, j));
            }
        }
        assert forall|c: nat, j: nat| #[trigger] n.is_free(c, j) implies !n.reserved.contains_key(
            c,
        ) by {
            assert(self.is_free(c, j));
            assert(!self.reserved.contains_key(c));
        }
        assert forall|c: nat, j: nat| #[trigger]
            n.is_free(c, j) && j < n.max_order implies !n.is_free(buddy_of(c, j), j) by {
            assert(self.is_free(c, j));
        }
    }
}

} // verus!
