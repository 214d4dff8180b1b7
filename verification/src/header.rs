//! Block headers: the record at the start of every block, and its layout in
//! the region.
//!
//! A header takes `HEADER_SIZE` bytes: the tag in byte 0, the order in byte 1,
//! the `next` link as a little-endian word in bytes 8 to 15 and the `prev` link
//! in bytes 16 to 23. The other bytes are not used.
use vstd::prelude::*;
use memmap2::MmapMut;
use crate::order::{HEADER_SIZE, MAX_K};
use crate::region::{load_word, region_bytes, region_get, region_set, store_word, word_at};

verus! {

/// Tag of a block that has been handed to the caller.
pub const BLOCK_RESERVED: u8 = 0;

/// Tag of a block that is on a free list.
pub const BLOCK_AVAIL: u8 = 1;

/// Tag of a list head, which is no block.
pub const BLOCK_UNUSED: u8 = 3;

/// The link of a header that is on no list.
pub const NIL: u64 = 0xffff_ffff_ffff_ffff;

/// The address of the head of the order-0 list; the head of the order-`k`
/// list is `k` above it. No region reaches this far.
pub const SENTINEL_BASE: u64 = 0x1_0000_0000_0000;

/// The header of a block or the head of a free list.
#[derive(Clone, Copy, Debug, PartialEq, Eq, Structural)]
pub struct Avail {
    /// `BLOCK_AVAIL`, `BLOCK_RESERVED` or `BLOCK_UNUSED`.
    pub tag: u8,
    /// The order of the block, or the order a list head serves.
    pub kval: usize,
    /// The address of the next header on the list.
    pub next: u64,
    /// The address of the previous header on the list.
    pub prev: u64,
}

impl Avail {
    /// A header that is on no list and describes no block.
    pub fn new() -> (fresh: Avail)
        ensures
            fresh == (Avail { tag: BLOCK_UNUSED, kval: 0, next: NIL, prev: NIL }),
    {
        Avail { tag: BLOCK_UNUSED, kval: 0, next: NIL, prev: NIL }
    }
}

/// The header that the bytes from `at` on encode.
pub closed spec fn header_at(bytes: Seq<u8>, at: int) -> Avail {
    Avail {
        tag: bytes[at],
        kval: bytes[at + 1] as usize,
        next: word_at(bytes, at + 8),
        prev: word_at(bytes, at + 16),
    }
}

/// A whole header lies at `at` within `bytes`.
pub open spec fn holds_header(bytes: Seq<u8>, at: int) -> bool {
    0 <= at && at + HEADER_SIZE <= bytes.len() <= usize::MAX
}

/// `after` differs from `before` at most within the header at `at`: every
/// other byte, and with it every header that does not overlap that one, is
/// the same.
pub open spec fn same_but_header(before: Seq<u8>, after: Seq<u8>, at: int) -> bool {
    &&& after.len() == before.len()
    &&& forall|i: int|
        0 <= i < before.len() && !(at <= i < at + HEADER_SIZE) ==> #[trigger] after[i] == before[i]
    &&& forall|o: int|
        0 <= o && o + HEADER_SIZE <= before.len() && (o + HEADER_SIZE <= at || at + HEADER_SIZE
            <= o) ==> #[trigger] header_at(after, o) == header_at(before, o)
}

/// Bytes that agree over the span of a header encode the same header.
pub proof fn lemma_header_from_bytes(before: Seq<u8>, after: Seq<u8>, at: int)
    requires
        forall|i: int| at <= i < at + HEADER_SIZE ==> after[i] == before[i],
    ensures
        header_at(after, at) == header_at(before, at),
{
}

/// Reads the whole header at `at`.
pub(crate) fn load_header(region: &MmapMut, at: u64) -> (header: Avail)
    requires
        holds_header(region_bytes(*region), at as int),
    ensures
        header == header_at(region_bytes(*region), at as int),
{
    let at = at as usize;
    Avail {
        tag: region_get(region, at),
        kval: region_get(region, at + 1) as usize,
        next: load_word(region, at + 8),
        prev: load_word(region, at + 16),
    }
}

/// Reads the tag of the header at `at`.
pub(crate) fn load_tag(region: &MmapMut, at: u64) -> (tag: u8)
    requires
        holds_header(region_bytes(*region), at as int),
    ensures
        tag == header_at(region_bytes(*region), at as int).tag,
{
    region_get(region, at as usize)
}

/// Reads the order of the header at `at`.
pub(crate) fn load_kval(region: &MmapMut, at: u64) -> (kval: usize)
    requires
        holds_header(region_bytes(*region), at as int),
    ensures
        kval == header_at(region_bytes(*region), at as int).kval,
{
    region_get(region, at as usize + 1) as usize
}

/// Reads the `next` link of the header at `at`.
pub(crate) fn load_next(region: &MmapMut, at: u64) -> (next: u64)
    requires
        holds_header(region_bytes(*region), at as int),
    ensures
        next == header_at(region_bytes(*region), at as int).next,
{
    load_word(region, at as usize + 8)
}

/// Reads the `prev` link of the header at `at`.
pub(crate) fn load_prev(region: &MmapMut, at: u64) -> (prev: u64)
    requires
        holds_header(region_bytes(*region), at as int),
    ensures
        prev == header_at(region_bytes(*region), at as int).prev,
{
    load_word(region, at as usize + 16)
}

/// Sets the tag of the header at `at`.
pub(crate) fn store_tag(region: &mut MmapMut, at: u64, tag: u8)
    requires
        holds_header(region_bytes(*old(region)), at as int),
    ensures
        same_but_header(region_bytes(*old(region)), region_bytes(*final(region)), at as int),
        header_at(region_bytes(*final(region)), at as int) == (Avail {
            tag,
            ..header_at(region_bytes(*old(region)), at as int)
        }),
{
    let ghost before = region_bytes(*region);
    region_set(region, at as usize, tag);
    proof {
        let after = region_bytes(*region);
        assert forall|o: int|
            0 <= o && o + HEADER_SIZE <= before.len() && (o + HEADER_SIZE <= at || at + HEADER_SIZE
                <= o) implies #[trigger] header_at(after, o) == header_at(before, o) by {
            lemma_header_from_bytes(before, after, o);
        }
    }
}

/// Sets the order of the header at `at`.
pub(crate) fn store_kval(region: &mut MmapMut, at: u64, kval: usize)
    requires
        holds_header(region_bytes(*old(region)), at as int),
        kval < MAX_K,
    ensures
        same_but_header(region_bytes(*old(region)), region_bytes(*final(region)), at as int),
        header_at(region_bytes(*final(region)), at as int) == (Avail {
            kval,
            ..header_at(region_bytes(*old(region)), at as int)
        }),
{
    let ghost before = region_bytes(*region);
    region_set(region, at as usize + 1, kval as u8);
    proof {
        let after = region_bytes(*region);
        assert forall|o: int|
            0 <= o && o + HEADER_SIZE <= before.len() && (o + HEADER_SIZE <= at || at + HEADER_SIZE
                <= o) implies #[trigger] header_at(after, o) == header_at(before, o) by {
            lemma_header_from_bytes(before, after, o);
        }
    }
}

/// Sets the `next` link of the header at `at`.
pub(crate) fn store_next(region: &mut MmapMut, at: u64, next: u64)
    requires
        holds_header(region_bytes(*old(region)), at as int),
    ensures
        same_but_header(region_bytes(*old(region)), region_bytes(*final(region)), at as int),
        header_at(region_bytes(*final(region)), at as int) == (Avail {
            next,
            ..header_at(region_bytes(*old(region)), at as int)
        }),
{
    let ghost before = region_bytes(*region);
    store_word(region, at as usize + 8, next);
    proof {
        let after = region_bytes(*region);
        assert forall|o: int|
            0 <= o && o + HEADER_SIZE <= before.len() && (o + HEADER_SIZE <= at || at + HEADER_SIZE
                <= o) implies #[trigger] header_at(after, o) == header_at(before, o) by {
            lemma_header_from_bytes(before, after, o);
        }
    }
}

/// Sets the `prev` link of the header at `at`.
pub(crate) fn store_prev(region: &mut MmapMut, at: u64, prev: u64)
    requires
        holds_header(region_bytes(*old(region)), at as int),
    ensures
        same_but_header(region_bytes(*old(region)), region_bytes(*final(region)), at as int),
        header_at(region_bytes(*final(region)), at as int) == (Avail {
            prev,
            ..header_at(region_bytes(*old(region)), at as int)
        }),
{
    let ghost before = region_bytes(*region);
    store_word(region, at as usize + 16, prev);
    proof {
        let after = region_bytes(*region);
        assert forall|o: int|
            0 <= o && o + HEADER_SIZE <= before.len() && (o + HEADER_SIZE <= at || at + HEADER_SIZE
                <= o) implies #[trigger] header_at(after, o) == header_at(before, o) by {
            lemma_header_from_bytes(before, after, o);
        }
    }
}

} // verus!
