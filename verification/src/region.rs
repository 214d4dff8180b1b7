//! The backing region: an anonymous memory mapping, read and written through
//! a handful of trusted calls, and the little-endian words built on them.
use vstd::prelude::*;
use memmap2::MmapMut;

verus! {

/// Makes `memmap2::MmapMut` known as a type whose inside is not looked into:
/// all that is said of a mapping is said through `region_bytes`.
#[verifier::external_type_specification]
#[verifier::external_body]
pub struct ExMmapMut(memmap2::MmapMut);

/// The bytes a mapping holds, from its first byte to its last.
pub uninterp spec fn region_bytes(region: MmapMut) -> Seq<u8>;

/// Calls `MmapMut::map_anon`. Whether the system grants the mapping is not
/// known beforehand; a mapping that was granted holds exactly `len` bytes.
#[verifier::external_body]
pub(crate) fn map_region(len: usize) -> (mapped: Option<MmapMut>)
    ensures
        mapped matches Some(region) ==> region_bytes(region).len() == len,
{
    MmapMut::map_anon(len).ok()
}

/// The length of the byte slice that `MmapMut` dereferences to.
#[verifier::external_body]
pub(crate) fn region_len(region: &MmapMut) -> (len: usize)
    ensures
        len == region_bytes(*region).len(),
{
    region.len()
}

/// Reads one byte of the slice that `MmapMut` dereferences to.
#[verifier::external_body]
pub(crate) fn region_get(region: &MmapMut, at: usize) -> (byte: u8)
    requires
        at < region_bytes(*region).len(),
    ensures
        byte == region_bytes(*region)[at as int],
{
    region[at]
}

/// Writes one byte of the slice that `MmapMut` dereferences to mutably; every
/// other byte of the mapping keeps its value.
#[verifier::external_body]
pub(crate) fn region_set(region: &mut MmapMut, at: usize, byte: u8)
    requires
        at < region_bytes(*old(region)).len(),
    ensures
        region_bytes(*final(region)) == region_bytes(*old(region)).update(at as int, byte),
{
    region[at] = byte;
}

/// Calls `MmapMut::flush`, which writes the changes of a mapping that is
/// backed by a file back to it. Whether that succeeded is the result; the
/// bytes of the mapping are not touched.
#[verifier::external_body]
pub(crate) fn region_flush(region: &MmapMut) -> (done: bool) {
    region.flush().is_ok()
}

/// `copy_within` on the slice that `MmapMut` dereferences to mutably: the
/// bytes from `src` up to `end` are copied to the bytes from `dst` on, and
/// every other byte keeps its value.
#[verifier::external_body]
pub(crate) fn region_copy(region: &mut MmapMut, src: usize, end: usize, dst: usize)
    requires
        src <= end <= region_bytes(*old(region)).len(),
        dst + (end - src) <= region_bytes(*old(region)).len(),
    ensures
        region_bytes(*final(region)).len() == region_bytes(*old(region)).len(),
        forall|i: int|
            0 <= i < region_bytes(*old(region)).len() ==> #[trigger] region_bytes(*final(region))[i]
                == if dst <= i < dst + (end - src) {
                region_bytes(*old(region))[i - dst + src]
            } else {
                region_bytes(*old(region))[i]
            },
{
    region.copy_within(src..end, dst);
}

/// The word whose little-endian bytes are `b0` (lowest) to `b7`.
pub open spec fn word_of(b0: u8, b1: u8, b2: u8, b3: u8, b4: u8, b5: u8, b6: u8, b7: u8) -> u64 {
    (b0 as u64) | (b1 as u64) << 8 | (b2 as u64) << 16 | (b3 as u64) << 24 | (b4 as u64) << 32 | (
    b5 as u64) << 40 | (b6 as u64) << 48 | (b7 as u64) << 56
}

/// Byte `i` of `word`, counted from the lowest.
pub open spec fn byte_of(word: u64, i: u64) -> u8 {
    ((word >> (8 * i)) & 0xff) as u8
}

/// The little-endian word stored in the eight bytes from `at` on.
pub open spec fn word_at(bytes: Seq<u8>, at: int) -> u64 {
    word_of(
        bytes[at],
        bytes[at + 1],
        bytes[at + 2],
        bytes[at + 3],
        bytes[at + 4],
        bytes[at + 5],
        bytes[at + 6],
        bytes[at + 7],
    )
}

/// Splitting a word into its bytes and joining them again gives the word.
pub proof fn lemma_word_of_bytes(word: u64)
    ensures
        word_of(
            byte_of(word, 0),
            byte_of(word, 1),
            byte_of(word, 2),
            byte_of(word, 3),
            byte_of(word, 4),
            byte_of(word, 5),
            byte_of(word, 6),
            byte_of(word, 7),
        ) == word,
{
    assert(word_of(
        byte_of(word, 0),
        byte_of(word, 1),
        byte_of(word, 2),
        byte_of(word, 3),
        byte_of(word, 4),
        byte_of(word, 5),
        byte_of(word, 6),
        byte_of(word, 7),
    ) == word) by (bit_vector);
}

/// Byte `i` of `word`, counted from the lowest.
fn nth_byte(word: u64, i: u64) -> (byte: u8)
    requires
        i < 8,
    ensures
        byte == byte_of(word, i),
{
    let low = (word >> (8 * i)) & 0xff;
    assert(low <= 0xff) by (bit_vector)
        requires
            low == (word >> (8 * i)) & 0xff,
    ;
    low as u8
}

/// Reads the little-endian word at `at`.
pub(crate) fn load_word(region: &MmapMut, at: usize) -> (word: u64)
    requires
        at + 8 <= region_bytes(*region).len() <= usize::MAX,
    ensures
        word == word_at(region_bytes(*region), at as int),
{
    let b0 = region_get(region, at);
    let b1 = region_get(region, at + 1);
    let b2 = region_get(region, at + 2);
    let b3 = region_get(region, at + 3);
    let b4 = region_get(region, at + 4);
    let b5 = region_get(region, at + 5);
    let b6 = region_get(region, at + 6);
    let b7 = region_get(region, at + 7);
    (b0 as u64) | (b1 as u64) << 8 | (b2 as u64) << 16 | (b3 as u64) << 24 | (b4 as u64) << 32 | (
    b5 as u64) << 40 | (b6 as u64) << 48 | (b7 as u64) << 56
}

/// Writes `word` at `at`, lowest byte first; bytes outside those eight keep
/// their values.
pub(crate) fn store_word(region: &mut MmapMut, at: usize, word: u64)
    requires
        at + 8 <= region_bytes(*old(region)).len() <= usize::MAX,
    ensures
        region_bytes(*final(region)).len() == region_bytes(*old(region)).len(),
        word_at(region_bytes(*final(region)), at as int) == word,
        forall|i: int|
            0 <= i < region_bytes(*old(region)).len() && !(at <= i < at + 8) ==> region_bytes(
                *final(region),
            )[i] == region_bytes(*old(region))[i],
{
    proof {
        lemma_word_of_bytes(word);
    }
    region_set(region, at, nth_byte(word, 0));
    region_set(region, at + 1, nth_byte(word, 1));
    region_set(region, at + 2, nth_byte(word, 2));
    region_set(region, at + 3, nth_byte(word, 3));
    region_set(region, at + 4, nth_byte(word, 4));
    region_set(region, at + 5, nth_byte(word, 5));
    region_set(region, at + 6, nth_byte(word, 6));
    region_set(region, at + 7, nth_byte(word, 7));
}

} // verus!
