//! Arithmetic facts about powers of two, alignment and shifts used by the memory manager.
use vstd::prelude::*;
use vstd::arithmetic::power2::*;
use vstd::bits::*;

verus! {

/// 2^k is positive.
pub proof fn lemma_pow2_pos_int(k: nat)
    ensures
        pow2(k) > 0,
{
    lemma_pow2_pos(k);
}

/// 2^(k+1) is twice 2^k.
pub proof fn lemma_pow2_succ(k: nat)
    ensures
        pow2(k + 1) == 2 * pow2(k),
{
    lemma_pow2_unfold(k + 1);
}

/// Powers of two are monotone.
pub proof fn lemma_pow2_mono(a: nat, b: nat)
    requires
        a <= b,
    ensures
        pow2(a) <= pow2(b),
{
    if a < b {
        lemma_pow2_strictly_increases(a, b);
    }
}

/// `1 << k` is 2^k for a shift that fits.
pub proof fn lemma_one_shl(k: usize)
    requires
        k < usize::BITS,
    ensures
        (1usize << k) == pow2(k as nat),
{
    lemma_usize_pow2_no_overflow(k as nat);
    lemma_usize_shl_is_mul(1, k);
}

/// `x << k` is `x * 2^k` when the product fits.
pub proof fn lemma_shl(x: usize, k: usize)
    requires
        k < usize::BITS,
        x * pow2(k as nat) <= usize::MAX,
    ensures
        (x << k) == x * pow2(k as nat),
{
    lemma_usize_shl_is_mul(x, k);
}

/// `x >> k` is `x / 2^k`.
pub proof fn lemma_shr(x: usize, k: usize)
    requires
        k < usize::BITS,
    ensures
        (x >> k) == x as nat / pow2(k as nat),
{
    lemma_usize_shr_is_div(x, k);
}

/// 2^BITS exceeds every `usize`, and 2^(BITS-1) does not.
pub proof fn lemma_pow2_usize_bits()
    ensures
        pow2(usize::BITS as nat) == usize::MAX + 1,
        pow2((usize::BITS - 1) as nat) <= usize::MAX,
{
    lemma2_to64();
    lemma2_to64_rest();
}

/// A power of two that fits a `usize` has an exponent below `usize::BITS`.
pub proof fn lemma_pow2_fits_usize(k: nat)
    requires
        pow2(k) <= usize::MAX,
    ensures
        k < usize::BITS,
{
    lemma_pow2_usize_bits();
    if k >= usize::BITS {
        lemma_pow2_mono(usize::BITS as nat, k);
    }
}

/// A multiple of 2^(k+1) is a multiple of 2^k, and so is the next multiple of 2^k.
pub proof fn lemma_align_split(x: int, k: nat)
    requires
        x % (pow2(k + 1) as int) == 0,
    ensures
        x % (pow2(k) as int) == 0,
        (x + pow2(k) as int) % (pow2(k) as int) == 0,
{
    let pk = pow2(k) as int;
    lemma_pow2_succ(k);
    lemma_pow2_pos(k);
    let q = x / (2 * pk);
    assert(x == q * (2 * pk)) by (nonlinear_arith)
        requires x % (2 * pk) == 0, pk > 0, q == x / (2 * pk);
    assert(x == (2 * q) * pk) by (nonlinear_arith)
        requires x == q * (2 * pk);
    assert(x % pk == 0) by (nonlinear_arith)
        requires x == (2 * q) * pk, pk > 0;
    assert((x + pk) % pk == 0) by (nonlinear_arith)
        requires x == (2 * q) * pk, pk > 0;
}

/// An aligned multiple of 2^k whose quotient is even is a multiple of 2^(k+1).
pub proof fn lemma_align_merge_even(x: int, k: nat)
    requires
        x % (pow2(k) as int) == 0,
        (x / (pow2(k) as int)) % 2 == 0,
    ensures
        x % (pow2(k + 1) as int) == 0,
{
    let pk = pow2(k) as int;
    lemma_pow2_succ(k);
    lemma_pow2_pos(k);
    let q = x / pk;
    assert(x == q * pk) by (nonlinear_arith)
        requires x % pk == 0, pk > 0, q == x / pk;
    let h = q / 2;
    assert(q == 2 * h) by (nonlinear_arith)
        requires q % 2 == 0, h == q / 2;
    assert(x == h * (2 * pk)) by (nonlinear_arith)
        requires x == q * pk, q == 2 * h;
    assert(x % (2 * pk) == 0) by (nonlinear_arith)
        requires x == h * (2 * pk), pk > 0;
}

/// An aligned multiple of 2^k whose quotient is odd lies 2^k past a multiple of 2^(k+1).
pub proof fn lemma_align_merge_odd(x: int, k: nat)
    requires
        x % (pow2(k) as int) == 0,
        (x / (pow2(k) as int)) % 2 == 1,
    ensures
        (x - pow2(k) as int) % (pow2(k + 1) as int) == 0,
        x >= pow2(k) as int || x < 0,
{
    let pk = pow2(k) as int;
    lemma_pow2_succ(k);
    lemma_pow2_pos(k);
    let q = x / pk;
    assert(x == q * pk) by (nonlinear_arith)
        requires x % pk == 0, pk > 0, q == x / pk;
    let h = q / 2;
    assert(q == 2 * h + 1) by (nonlinear_arith)
        requires q % 2 == 1, h == q / 2;
    assert(x - pk == h * (2 * pk)) by (nonlinear_arith)
        requires x == q * pk, q == 2 * h + 1;
    assert((x - pk) % (2 * pk) == 0) by (nonlinear_arith)
        requires x - pk == h * (2 * pk), pk > 0;
    assert(x >= pk || x < 0) by (nonlinear_arith)
        requires x == q * pk, q == 2 * h + 1, pk > 0;
}

/// Byte and page addresses: `(p * ps + d * ps) / ps == p + d`.
pub proof fn lemma_page_div(p: int, ps: int)
    requires
        ps > 0,
    ensures
        (p * ps) / ps == p,
        (p * ps) % ps == 0,
{
    assert((p * ps) / ps == p && (p * ps) % ps == 0) by (nonlinear_arith)
        requires ps > 0;
}

} // verus!
