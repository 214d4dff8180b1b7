//! Arithmetic of aligned power-of-two ranges: the geometry of buddy blocks.
//!
//! A block of order `k` at offset `b` takes the bytes `b` to `b + 2^k - 1`,
//! and `b` is a multiple of `2^k`. Two such ranges are either apart or one
//! lies within the other.
use vstd::prelude::*;
use vstd::arithmetic::power2::{
    lemma2_to64, lemma2_to64_rest, lemma_pow2_adds, lemma_pow2_pos, lemma_pow2_unfold, pow2,
};
use vstd::arithmetic::div_mod::{
    lemma_div_pos_is_pos, lemma_fundamental_div_mod, lemma_fundamental_div_mod_converse,
    lemma_mod_multiples_basic, lemma_mod_pos_bound,
};
use vstd::bits::{lemma_u64_low_bits_mask_is_mod, lemma_u64_shl_is_mul, low_bits_mask};
use vstd::arithmetic::mul::{
    lemma_mul_inequality, lemma_mul_is_commutative, lemma_mul_strict_inequality_converse,
};
use crate::order::{lemma_pow2_monotonic, HEADER_SIZE, LEAST_K, MAX_K};

verus! {

/// `b` is a multiple of `2^k`.
pub open spec fn aligned(b: nat, k: nat) -> bool {
    b % pow2(k) == 0
}

/// The offset of the buddy of the order-`k` block at `b`. For an aligned `b`
/// this is `b` with bit `k` flipped.
pub open spec fn buddy_of(b: nat, k: nat) -> nat {
    if b % pow2(k + 1) == 0 {
        b + pow2(k)
    } else {
        (b - pow2(k)) as nat
    }
}

/// The lower of the order-`k` block at `b` and its buddy: the offset of the
/// order-`k + 1` block that the two make up.
pub open spec fn lower_of(b: nat, k: nat) -> nat {
    if b % pow2(k + 1) == 0 {
        b
    } else {
        (b - pow2(k)) as nat
    }
}

/// Every multiple of `2^k` is aligned to it.
pub proof fn lemma_multiple_is_aligned(q: nat, k: nat)
    ensures
        aligned(q * pow2(k), k),
{
    lemma_pow2_pos(k);
    lemma_mod_multiples_basic(q as int, pow2(k) as int);
}

/// An aligned offset is its quotient times `2^k`.
pub proof fn lemma_aligned_quotient(b: nat, k: nat)
    requires
        aligned(b, k),
    ensures
        b == (b / pow2(k)) * pow2(k),
        0 <= b / pow2(k),
{
    lemma_pow2_pos(k);
    lemma_fundamental_div_mod(b as int, pow2(k) as int);
    lemma_mul_is_commutative(pow2(k) as int, (b / pow2(k)) as int);
}

/// What is aligned to `2^k` is aligned to every smaller power of two.
pub proof fn lemma_aligned_lower(b: nat, k: nat, j: nat)
    requires
        aligned(b, k),
        j <= k,
    ensures
        aligned(b, j),
{
    lemma_aligned_quotient(b, k);
    lemma_pow2_adds((k - j) as nat, j);
    let q = b / pow2(k);
    let m = pow2((k - j) as nat);
    let p = pow2(j);
    assert(b == (q * m) * p) by (nonlinear_arith)
        requires
            b == q * pow2(k),
            pow2(k) == m * p,
    ;
    lemma_multiple_is_aligned(q * m, j);
}

/// Two aligned ranges that share a byte are nested: the one of the smaller
/// order lies within the other.
pub proof fn lemma_nested(b1: nat, k1: nat, b2: nat, k2: nat)
    requires
        aligned(b1, k1),
        aligned(b2, k2),
        k1 <= k2,
        b1 < b2 + pow2(k2),
        b2 < b1 + pow2(k1),
    ensures
        b2 <= b1,
        b1 + pow2(k1) <= b2 + pow2(k2),
{
    lemma_pow2_pos(k1);
    lemma_pow2_pos(k2);
    lemma_aligned_quotient(b1, k1);
    lemma_aligned_quotient(b2, k2);
    lemma_pow2_adds((k2 - k1) as nat, k1);
    let p = pow2(k1) as int;
    let m = pow2((k2 - k1) as nat) as int;
    let q1 = (b1 / pow2(k1)) as int;
    let q2 = (b2 / pow2(k2)) as int;
    let x = q2 * m;
    assert(b2 == x * p) by (nonlinear_arith)
        requires
            b2 == q2 * pow2(k2),
            pow2(k2) == m * p,
            x == q2 * m,
    ;
    assert(b2 + pow2(k2) == (x + m) * p) by (nonlinear_arith)
        requires
            b2 == x * p,
            pow2(k2) == m * p,
    ;
    assert(b1 + pow2(k1) == (q1 + 1) * p) by (nonlinear_arith)
        requires
            b1 == q1 * p,
            pow2(k1) == p,
    ;
    lemma_mul_strict_inequality_converse(q1, x + m, p);
    lemma_mul_strict_inequality_converse(x, q1 + 1, p);
    lemma_mul_inequality(q1 + 1, x + m, p);
    lemma_mul_inequality(x, q1, p);
}

/// An offset aligned to `2^j` that lies in an aligned range of an order up to
/// `j` is the start of that range.
pub proof fn lemma_aligned_in_range(x: nat, j: nat, b: nat, k: nat)
    requires
        aligned(x, j),
        aligned(b, k),
        k <= j,
        b <= x < b + pow2(k),
    ensures
        x == b,
{
    lemma_pow2_pos(j);
    lemma_nested(b, k, x, j);
}

/// An aligned range that starts below `2^m` ends at or below it.
pub proof fn lemma_range_fits(b: nat, k: nat, m: nat)
    requires
        aligned(b, k),
        k <= m,
        b < pow2(m),
    ensures
        b + pow2(k) <= pow2(m),
{
    lemma_pow2_pos(k);
    lemma_pow2_pos(m);
    assert(aligned(0, m)) by {
        lemma_multiple_is_aligned(0, m);
        assert(0 * pow2(m) == 0);
    }
    lemma_nested(b, k, 0, m);
}

/// The buddy of an aligned block: it is aligned alike, the two lie side by
/// side and make up the aligned range of the next order, and each is the
/// other's buddy.
pub proof fn lemma_buddy(b: nat, k: nat)
    requires
        aligned(b, k),
    ensures
        aligned(buddy_of(b, k), k),
        aligned(lower_of(b, k), k + 1),
        lower_of(b, k) <= b,
        lower_of(b, k) <= buddy_of(b, k),
        b + buddy_of(b, k) == 2 * lower_of(b, k) + pow2(k),
        b != buddy_of(b, k),
        buddy_of(buddy_of(b, k), k) == b,
        lower_of(buddy_of(b, k), k) == lower_of(b, k),
{
    lemma_pow2_pos(k);
    lemma_pow2_unfold(k + 1);
    lemma_aligned_quotient(b, k);
    let p = pow2(k) as int;
    let pp = pow2(k + 1) as int;
    let q = (b / pow2(k)) as int;
    let d = (b as int) / pp;
    let r = (b as int) % pp;
    lemma_fundamental_div_mod(b as int, pp);
    lemma_mod_pos_bound(b as int, pp);
    let e = q - 2 * d;
    assert(r == e * p) by (nonlinear_arith)
        requires
            b == q * p,
            b == pp * d + r,
            pp == 2 * p,
            e == q - 2 * d,
    ;
    assert(-1 * p < e * p) by (nonlinear_arith)
        requires
            0 <= e * p,
            p > 0,
    ;
    lemma_mul_strict_inequality_converse(-1, e, p);
    lemma_mul_strict_inequality_converse(e, 2, p);
    assert(e == 0 || e == 1);
    assert(r == 0 || r == p) by (nonlinear_arith)
        requires
            r == e * p,
            e == 0 || e == 1,
    ;
    if r == 0 {
        let y = b + p;
        assert(y == (q + 1) * p) by (nonlinear_arith)
            requires
                b == q * p,
                y == b + p,
        ;
        lemma_multiple_is_aligned((q + 1) as nat, k);
        assert(y == d * pp + p) by (nonlinear_arith)
            requires
                b == pp * d + r,
                r == 0,
                y == b + p,
        ;
        lemma_fundamental_div_mod_converse(y, pp, d, p);
    } else {
        let y = b - p;
        assert(d >= 0) by {
            lemma_div_pos_is_pos(b as int, pp);
        }
        assert(q == 2 * d + 1);
        assert(y == (q - 1) * p) by (nonlinear_arith)
            requires
                b == q * p,
                y == b - p,
        ;
        lemma_multiple_is_aligned((q - 1) as nat, k);
        assert(y == d * pp) by (nonlinear_arith)
            requires
                b == pp * d + r,
                r == p,
                y == b - p,
        ;
        lemma_multiple_is_aligned(d as nat, k + 1);
    }
}

/// A block of the least order or above holds a header.
pub proof fn lemma_holds_header(k: nat)
    requires
        k >= LEAST_K,
    ensures
        pow2(k) >= HEADER_SIZE,
{
    lemma2_to64();
    lemma_pow2_monotonic(5, k);
}

/// Below `MAX_K` a power of two stays below `2^48`.
pub proof fn lemma_pow2_below_48(k: nat)
    requires
        k < MAX_K,
    ensures
        pow2(k) <= 0x8000_0000_0000,
{
    lemma2_to64_rest();
    lemma_pow2_monotonic(k, 47);
}

/// Shifting one left by `k` gives `2^k`.
pub proof fn lemma_shift_is_pow2(k: u64)
    requires
        k < MAX_K,
    ensures
        (1u64 << k) == pow2(k as nat),
{
    lemma_pow2_below_48(k as nat);
    lemma_u64_shl_is_mul(1, k);
}

/// For an aligned block, flipping bit `k` of its offset gives the offset of
/// its buddy.
pub proof fn lemma_xor_is_buddy(b: u64, k: u64)
    requires
        k < 47,
        b < 0x8000_0000_0000,
        aligned(b as nat, k as nat),
    ensures
        (b ^ (1u64 << k)) == buddy_of(b as nat, k as nat),
{
    let k1: u64 = (k + 1) as u64;
    let s: u64 = 1u64 << k;
    let d: u64 = 1u64 << k1;
    lemma_shift_is_pow2(k);
    lemma_shift_is_pow2(k1);
    lemma_pow2_pos(k as nat);
    lemma_pow2_pos(k1 as nat);
    assert(k1 as nat == (k + 1) as nat);
    lemma_u64_low_bits_mask_is_mod(b, k as nat);
    lemma_u64_low_bits_mask_is_mod(b, (k + 1) as nat);
    let low: u64 = (s - 1) as u64;
    let wide: u64 = (d - 1) as u64;
    assert(low == low_bits_mask(k as nat));
    assert(wide == low_bits_mask((k + 1) as nat));
    assert(b & low == 0);
    assert((b & wide == 0) <==> b as nat % pow2((k + 1) as nat) == 0);
    assert(if b & wide == 0 {
        b ^ s == b + s
    } else {
        b ^ s == b - s && b >= s
    }) by (bit_vector)
        requires
            s == 1u64 << k,
            k1 == (k + 1) as u64,
            d == 1u64 << k1,
            low == (s - 1) as u64,
            wide == (d - 1) as u64,
            k < 47,
            b < 0x8000_0000_0000,
            b & low == 0,
    ;
}

} // verus!
