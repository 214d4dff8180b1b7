//! Orders: a block of order `k` spans `2^k` bytes, header included.
use vstd::prelude::*;
use vstd::arithmetic::power2::{
    lemma2_to64, lemma_pow2_pos, lemma_pow2_strictly_increases, lemma_pow2_unfold, pow2,
};

verus! {

/// The order of the pool when the caller asks for zero bytes.
pub const DEFAULT_K: usize = 30;

/// The order of the smallest pool.
pub const MIN_K: usize = 20;

/// One past the largest order a pool can have.
pub const MAX_K: usize = 48;

/// The number of bytes a block header takes at the start of its block.
pub const HEADER_SIZE: usize = 32;

/// The order of the smallest block: the least order that holds a header.
pub const LEAST_K: usize = 5;

/// The number of binary digits of `n`: the least `k` with `n < 2^k`.
pub open spec fn bit_length(n: nat) -> nat
    decreases n,
{
    if n == 0 {
        0
    } else {
        1 + bit_length(n / 2)
    }
}

/// The least `k` with `2^k >= bytes`.
pub open spec fn spec_b_to_k(bytes: nat) -> nat {
    if bytes == 0 {
        0
    } else {
        bit_length((bytes - 1) as nat)
    }
}

/// The order of the block that serves a request of `size` bytes: the least
/// order whose block holds the header and `size` bytes after it.
pub open spec fn spec_order_for(size: nat) -> nat {
    spec_b_to_k(size + HEADER_SIZE as nat)
}

/// `bit_length(n)` is the least exponent whose power of two exceeds `n`.
pub proof fn lemma_bit_length(n: nat)
    ensures
        n < pow2(bit_length(n)),
        bit_length(n) > 0 ==> pow2((bit_length(n) - 1) as nat) <= n,
    decreases n,
{
    lemma2_to64();
    if n > 0 {
        lemma_bit_length(n / 2);
        let k = bit_length(n / 2);
        lemma_pow2_unfold(k + 1);
        if k > 0 {
            lemma_pow2_unfold(k);
        }
    }
}

/// Powers of two grow with the exponent.
pub proof fn lemma_pow2_monotonic(a: nat, b: nat)
    requires
        a <= b,
    ensures
        pow2(a) <= pow2(b),
{
    if a < b {
        lemma_pow2_strictly_increases(a, b);
    }
}

/// `spec_b_to_k(bytes)` is the least `k` with `2^k >= bytes`, and zero bytes
/// have order zero.
pub proof fn lemma_b_to_k_is_least(bytes: nat)
    ensures
        pow2(spec_b_to_k(bytes)) >= bytes,
        forall|j: nat| pow2(j) >= bytes ==> spec_b_to_k(bytes) <= j,
        spec_b_to_k(0) == 0,
{
    lemma_pow2_pos(0);
    if bytes > 0 {
        let n = (bytes - 1) as nat;
        lemma_bit_length(n);
        let k = bit_length(n);
        assert forall|j: nat| pow2(j) >= bytes implies k <= j by {
            if j < k {
                lemma_pow2_monotonic(j, (k - 1) as nat);
            }
        }
    }
}

/// A request of `bytes` bytes fits a block of order `k` exactly when
/// `spec_b_to_k(bytes) <= k`.
pub proof fn lemma_b_to_k_fits(bytes: nat, k: nat)
    ensures
        spec_b_to_k(bytes) <= k <==> bytes <= pow2(k),
{
    lemma_b_to_k_is_least(bytes);
    if spec_b_to_k(bytes) <= k {
        lemma_pow2_monotonic(spec_b_to_k(bytes), k);
    }
}

/// No request is served by a block below the least order.
pub proof fn lemma_order_for_at_least(size: nat)
    ensures
        spec_order_for(size) >= LEAST_K,
{
    lemma2_to64();
    lemma_b_to_k_fits(size + HEADER_SIZE as nat, 4);
}

/// Converts a byte count to the order of the smallest block that holds it.
pub fn b_to_k(bytes: usize) -> (k: usize)
    ensures
        k == spec_b_to_k(bytes as nat),
        k <= 64,
        pow2(k as nat) >= bytes,
        forall|j: nat| pow2(j) >= bytes ==> k <= j,
{
    proof {
        lemma_b_to_k_is_least(bytes as nat);
        lemma2_to64();
    }
    if bytes == 0 {
        return 0;
    }
    let mut rest: usize = bytes - 1;
    let mut k: usize = 0;
    while rest > 0
        invariant
            k + bit_length(rest as nat) == bit_length((bytes - 1) as nat),
            rest as nat * pow2(k as nat) <= usize::MAX,
            k <= 64,
        decreases rest,
    {
        proof {
            let r = rest;
            assert(r >> 1 == r / 2) by (bit_vector);
            lemma_pow2_unfold((k + 1) as nat);
            assert((rest / 2) as nat * pow2((k + 1) as nat) <= rest as nat * pow2(k as nat))
                by (nonlinear_arith)
                requires
                    pow2((k + 1) as nat) == 2 * pow2(k as nat),
            ;
            if k >= 64 {
                lemma_pow2_monotonic(64, k as nat);
                lemma2_to64();
                assert(rest as nat * pow2(k as nat) >= pow2(k as nat)) by (nonlinear_arith)
                    requires
                        rest >= 1,
                ;
            }
        }
        rest >>= 1;
        k += 1;
    }
    k
}

} // verus!
