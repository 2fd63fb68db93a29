//! The parameter deriver: from a target false-positive rate and an estimated
//! item count it computes the filter's bit count `m` and hash-function count
//! `k`.
//!
//! The closed-form optimum is `m = ceil(-n * ln(p) / (ln 2)^2)` and
//! `k = ceil((m_unrounded / n) * ln 2)`, with `k` computed from the
//! un-rounded intermediate bit count; rewritten in base 2 those are
//! `m = ceil(n * log2(1/p) * log2(e))` and `k = ceil(log2(1/p))`. Both are
//! rounded up, never down, since rounding down could violate the target
//! rate. The rate is handed over as a fraction `rate_num / rate_den`, and
//! `log2(rate_den / rate_num)` is computed in fixed point with 32 fractional
//! bits: the integer part by repeated doubling, the fractional bits by the
//! classic squaring recurrence on a 63-fractional-bit mantissa, precise to a
//! few units in the last place — far finer than the rounding the formula
//! itself performs.
//!
//! The whole derivation is mirrored step by step in spec functions
//! (`log2_q32_spec`, `bit_count_spec`, `hash_count_spec`), and the
//! executable code is proved equal to the mirror: the derived geometry is a
//! pinned, deterministic function of the inputs, not merely a bounded one.

use crate::error::CreationError;
use vstd::arithmetic::div_mod::lemma_div_is_ordered;
use vstd::arithmetic::div_mod::lemma_multiply_divide_lt;
use vstd::arithmetic::mul::lemma_mul_upper_bound;
use vstd::arithmetic::power2::lemma2_to64;
use vstd::arithmetic::power2::lemma_pow2_unfold;
use vstd::arithmetic::power2::pow2;
use vstd::prelude::*;

verus! {

/// `log2(e) * 2^32`, rounded up: the factor that turns `log2` into `1 / ln 2`.
pub const LOG2_E_Q32: u64 = 6_196_328_019;

/// Whether a fraction `num / den` is a valid false-positive rate: strictly
/// between 0 and 1.
pub open spec fn valid_rate(num: u64, den: u64) -> bool {
    0 < num < den
}

/// `p` doubled until doubling again would pass `a`: the normalized
/// denominator `b * 2^e` with `a / (b * 2^e)` in `[1, 2)`.
pub open spec fn doubled(a: int, p: int) -> int
    decreases a - p,
{
    if 1 <= p && 2 * p <= a {
        doubled(a, 2 * p)
    } else {
        p
    }
}

/// How many doublings that takes: the integer part of `log2(a / p)`.
pub open spec fn doublings(a: int, p: int) -> nat
    decreases a - p,
{
    if 1 <= p && 2 * p <= a {
        1 + doublings(a, 2 * p)
    } else {
        0
    }
}

/// The top `j` fractional digits of `log2` of a mantissa `x` in `[1, 2)`
/// held with 63 fractional bits: squaring the mantissa shifts the next
/// binary digit of the logarithm into the integer position.
pub open spec fn frac_bits(x: int, j: nat) -> int
    decreases j,
{
    if j == 0 {
        0
    } else {
        let y = x * x / 0x8000_0000_0000_0000;
        if y >= 0x1_0000_0000_0000_0000 {
            pow2((j - 1) as nat) + frac_bits(y / 2, (j - 1) as nat)
        } else {
            frac_bits(y, (j - 1) as nat)
        }
    }
}

/// `log2(a / b)` with 32 fractional bits: the integer part from the
/// doublings, the fraction from 32 squaring steps on the normalized
/// mantissa.
pub open spec fn log2_q32_spec(a: int, b: int) -> int
    recommends
        1 <= b < a,
{
    doublings(a, b) * 0x1_0000_0000 + frac_bits(a * 0x8000_0000_0000_0000 / doubled(a, b), 32)
}

/// The derived hash-function count: `ceil(log2(1/p))`, and at least 1.
pub open spec fn hash_count_spec(rate_num: u64, rate_den: u64) -> int
    recommends
        valid_rate(rate_num, rate_den),
{
    let k = (log2_q32_spec(rate_den as int, rate_num as int) + 0xFFFF_FFFF) / 0x1_0000_0000;
    if k == 0 {
        1
    } else {
        k
    }
}

/// The derived bit count: `ceil(n * log2(1/p) * log2(e))`, and at least 1.
pub open spec fn bit_count_spec(rate_num: u64, rate_den: u64, estimated_items: u64) -> int
    recommends
        valid_rate(rate_num, rate_den),
        estimated_items >= 1,
{
    let ell = log2_q32_spec(rate_den as int, rate_num as int);
    let m = ((estimated_items as int) * ell * (LOG2_E_Q32 as int) + 0xFFFF_FFFF_FFFF_FFFF)
        / 0x1_0000_0000_0000_0000;
    if m == 0 {
        1
    } else {
        m
    }
}

/// `log2(a / b)` with 32 fractional bits, for `1 <= b < a`: exactly
/// `log2_q32_spec`, and below `32 * 2^32` since `a` is capped at a billion.
fn log2_q32(a: u64, b: u64) -> (r: u64)
    requires
        1 <= b < a,
        a <= 1_000_000_000,
    ensures
        r == log2_q32_spec(a as int, b as int),
        r < 0x20_0000_0000,
{
    // Integer part: the largest e with b * 2^e <= a; p tracks b * 2^e.
    proof {
        assert(1u64 << 0u32 == 1) by (bit_vector);
    }
    let mut e: u32 = 0;
    let mut p: u64 = b;
    while p * 2 <= a
        invariant
            1 <= b < a,
            a <= 1_000_000_000,
            b <= p <= a,
            e <= 30,
            p >= (1u64 << e),
            doubled(a as int, p as int) == doubled(a as int, b as int),
            e + doublings(a as int, p as int) == doublings(a as int, b as int),
        decreases a - p,
    {
        proof {
            assert((1u64 << e) <= 0x2000_0000 && e <= 30 ==> e <= 29 && (2 * (1u64 << e)) == (
            1u64 << (e + 1) as u32)) by (bit_vector);
            assert(doubled(a as int, p as int) == doubled(a as int, 2 * (p as int)));
            assert(doublings(a as int, p as int) == 1 + doublings(a as int, 2 * (p as int)));
        }
        p = p * 2;
        e = e + 1;
    }
    proof {
        assert(doubled(a as int, p as int) == p);
        assert(doublings(a as int, p as int) == 0);
    }
    // Normalized mantissa a / p in [1, 2), with 63 fractional bits; the
    // quotient stays below 2^64 because a < 2p.
    proof {
        lemma_mul_upper_bound(a as int, 0x4000_0000, 0x8000_0000_0000_0000, 0x8000_0000_0000_0000);
        assert((a as int) * 0x8000_0000_0000_0000 < 0x1_0000_0000_0000_0000 * (p as int))
            by (nonlinear_arith)
            requires
                (a as int) < 2 * (p as int),
        ;
        lemma_multiply_divide_lt(
            (a as int) * 0x8000_0000_0000_0000,
            p as int,
            0x1_0000_0000_0000_0000,
        );
    }
    let x0: u128 = (a as u128) * 0x8000_0000_0000_0000u128 / (p as u128);
    proof {
        assert(x0 as int == (a as int) * 0x8000_0000_0000_0000 / (p as int));
        assert(x0 < 0x1_0000_0000_0000_0000u128);
    }
    let mut x: u64 = x0 as u64;
    // Fractional bits: squaring the mantissa shifts the next binary digit of
    // the logarithm into the integer position.
    let mut frac: u64 = 0;
    let mut j: u32 = 0;
    proof {
        lemma2_to64();
    }
    while j < 32
        invariant
            j <= 32,
            (frac as nat) < pow2(j as nat),
            (frac as int) * pow2((32 - j) as nat) + frac_bits(x as int, (32 - j) as nat)
                == frac_bits(x0 as int, 32),
        decreases 32 - j,
    {
        let ghost frac0 = frac as int;
        let ghost x_pre = x as int;
        let ghost r = (32 - j) as nat;
        proof {
            lemma2_to64();
            lemma_pow2_unfold((j + 1) as nat);
            lemma_pow2_unfold(r);
            lemma_mul_upper_bound(
                x as int,
                0xFFFF_FFFF_FFFF_FFFF,
                x as int,
                0xFFFF_FFFF_FFFF_FFFF,
            );
        }
        let y: u128 = (x as u128) * (x as u128) / 0x8000_0000_0000_0000u128;
        proof {
            lemma_multiply_divide_lt(
                (x as u128 * x as u128) as int,
                0x2_0000_0000_0000_0000,
                0x8000_0000_0000_0000,
            );
        }
        if y >= 0x1_0000_0000_0000_0000u128 {
            x = (y / 2) as u64;
            frac = frac * 2 + 1;
        } else {
            x = y as u64;
            frac = frac * 2;
        }
        j = j + 1;
        proof {
            let yi: int = x_pre * x_pre / 0x8000_0000_0000_0000;
            let p1: int = pow2((r - 1) as nat) as int;
            assert(y as int == yi);
            assert(r >= 1);
            assert(2 * p1 == pow2(r));
            if yi >= 0x1_0000_0000_0000_0000 {
                assert(frac as int == 2 * frac0 + 1);
                assert(x as int == yi / 2);
                assert(frac_bits(x_pre, r) == p1 + frac_bits(yi / 2, (r - 1) as nat));
                assert((2 * frac0 + 1) * p1 == frac0 * (2 * p1) + p1) by (nonlinear_arith);
            } else {
                assert(frac as int == 2 * frac0);
                assert(x as int == yi);
                assert(frac_bits(x_pre, r) == frac_bits(yi, (r - 1) as nat));
                assert((2 * frac0) * p1 == frac0 * (2 * p1)) by (nonlinear_arith);
            }
            assert((frac as int) * p1 + frac_bits(x as int, (r - 1) as nat) == frac_bits(
                x0 as int,
                32,
            ));
        }
    }
    proof {
        lemma2_to64();
        assert((frac as int) * pow2(0) == frac as int) by (nonlinear_arith)
            requires
                pow2(0) == 1,
        ;
        assert(frac == frac_bits(x0 as int, 32));
        assert(x0 as int == (a as int) * 0x8000_0000_0000_0000 / doubled(a as int, b as int));
    }
    (e as u64) * 0x1_0000_0000 + frac
}

/// Derives `(bit_count, hash_function_count)` from a target false-positive
/// rate `rate_num / rate_den` and an estimated item count.
///
/// Fails with `InvalidFalsePositiveRange` when the rate is not strictly
/// between 0 and 1, and with `InvalidEstimatedItems` when the count is zero;
/// on every other input it succeeds, and the results are exactly the
/// fixed-point derivation `bit_count_spec` / `hash_count_spec` — a pure,
/// deterministic function of the inputs, each at least 1.
pub fn derive(rate_num: u64, rate_den: u64, estimated_items: u64) -> (r: Result<
    (u64, u32),
    CreationError,
>)
    requires
        rate_den <= 1_000_000_000,
        estimated_items <= 0xFFFF_FFFF,
    ensures
        match r {
            Ok(p) => {
                &&& valid_rate(rate_num, rate_den)
                &&& estimated_items > 0
                &&& p.0 == bit_count_spec(rate_num, rate_den, estimated_items)
                &&& p.1 == hash_count_spec(rate_num, rate_den)
                &&& 1 <= p.0 <= 0x40_0000_0000
                &&& 1 <= p.1 <= 32
            },
            Err(CreationError::InvalidFalsePositiveRange(n, d)) => {
                &&& n == rate_num
                &&& d == rate_den
                &&& !valid_rate(rate_num, rate_den)
            },
            Err(CreationError::InvalidEstimatedItems(c)) => {
                &&& c == estimated_items
                &&& valid_rate(rate_num, rate_den)
                &&& estimated_items == 0
            },
        },
{
    if rate_num == 0 || rate_num >= rate_den {
        return Err(CreationError::InvalidFalsePositiveRange(rate_num, rate_den));
    }
    if estimated_items == 0 {
        return Err(CreationError::InvalidEstimatedItems(estimated_items));
    }
    let ell: u64 = log2_q32(rate_den, rate_num);
    proof {
        lemma_mul_upper_bound(estimated_items as int, 0xFFFF_FFFF, ell as int, 0x20_0000_0000);
        lemma_mul_upper_bound(
            (estimated_items as int) * (ell as int),
            0x2000_0000_0000_0000_0000,
            LOG2_E_Q32 as int,
            0x2_0000_0000,
        );
    }
    let prod: u128 = (estimated_items as u128) * (ell as u128) * (LOG2_E_Q32 as u128);
    let ceil_num: u128 = prod + 0xFFFF_FFFF_FFFF_FFFFu128;
    proof {
        assert(ceil_num >> 64 == ceil_num / 0x1_0000_0000_0000_0000) by (bit_vector);
        lemma_multiply_divide_lt(ceil_num as int, 0x40_0000_0001, 0x1_0000_0000_0000_0000);
    }
    let mut m: u64 = (ceil_num >> 64) as u64;
    if m == 0 {
        m = 1;
    }
    let ell_ceil: u64 = ell + 0xFFFF_FFFF;
    proof {
        assert(ell_ceil >> 32 == ell_ceil / 0x1_0000_0000) by (bit_vector);
        lemma_multiply_divide_lt(ell_ceil as int, 33, 0x1_0000_0000);
    }
    let mut k64: u64 = ell_ceil >> 32;
    if k64 == 0 {
        k64 = 1;
    }
    Ok((m, k64 as u32))
}

} // verus!
