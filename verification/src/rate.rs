//! The empirical false-positive estimator: `(1 - e^(-k*n/m))^k` for a filter
//! of `m` bits and `k` hash functions holding `n` items.
//!
//! The value is computed in fixed point, with no floating point anywhere:
//! `x = k*n/m` is held with 32 fractional bits, `e^(-x)` comes from squaring
//! `e^(-x / 2^32) ~ 1 - x/2^32` thirty-two times on a 63-fractional-bit
//! mantissa, and the power is taken by repeated multiplication. The result
//! has 32 fractional bits: `0` is exactly 0, `2^32` is 1. Every step is a
//! monotone function of `n`, which is what makes the estimate provably
//! non-decreasing as items are added.

use vstd::arithmetic::div_mod::lemma_div_is_ordered;
use vstd::arithmetic::div_mod::lemma_div_multiples_vanish;
use vstd::arithmetic::div_mod::lemma_div_pos_is_pos;
use vstd::arithmetic::div_mod::lemma_fundamental_div_mod;
use vstd::arithmetic::div_mod::lemma_div_multiples_vanish_fancy;
use vstd::arithmetic::mul::lemma_mul_inequality;
use vstd::arithmetic::mul::lemma_mul_nonnegative;
use vstd::arithmetic::mul::lemma_mul_upper_bound;
use vstd::prelude::*;

verus! {

/// One in 63-fractional-bit fixed point.
pub const ONE_Q63: u64 = 0x8000_0000_0000_0000;

/// `k * n / m` with 32 fractional bits, clamped to the 64-bit range.
pub open spec fn x_scaled(n: u64, m: u64, k: u32) -> int
    recommends
        m >= 1,
{
    let q = (k as int) * (n as int) * 0x1_0000_0000 / (m as int);
    if q > u64::MAX as int {
        u64::MAX as int
    } else {
        q
    }
}

/// `e^(-x / 2^64)` in 63-fractional-bit fixed point, to first order:
/// `1 - ceil(x / 2^64 * 2^63)`.
pub open spec fn base_q63(x: int) -> int {
    ONE_Q63 - (x + 1) / 2
}

/// One fixed-point squaring step on a 63-fractional-bit mantissa.
pub open spec fn sq_q63(b: int) -> int {
    b * b / (ONE_Q63 as int)
}

/// `j` fixed-point squarings of `b`: `b^(2^j)` up to rounding.
pub open spec fn sq_iter_q63(b: int, j: nat) -> int
    decreases j,
{
    if j == 0 {
        b
    } else {
        sq_q63(sq_iter_q63(b, (j - 1) as nat))
    }
}

/// `e^(-x)` for `x` with 32 fractional bits, in 63-fractional-bit fixed
/// point: the first-order base squared 32 times.
pub open spec fn exp_neg_q63(x: int) -> int {
    sq_iter_q63(base_q63(x), 32)
}

/// `b^e` in 63-fractional-bit fixed point, by repeated multiplication.
pub open spec fn pow_q63(b: int, e: nat) -> int
    decreases e,
{
    if e == 0 {
        ONE_Q63 as int
    } else {
        pow_q63(b, (e - 1) as nat) * b / (ONE_Q63 as int)
    }
}

/// The estimated false-positive rate `(1 - e^(-k*n/m))^k` with 32 fractional
/// bits: 0 is exactly 0, `2^32` is 1.
///
/// The mathematical rate lies in `[0, 1)`; the open upper end is
/// unattainable in any rounding arithmetic, so a saturated filter (every
/// position long set) rounds up to exactly `2^32`, the rendering of 1.
pub open spec fn rate_q32(n: u64, m: u64, k: u32) -> int
    recommends
        m >= 1,
{
    pow_q63(ONE_Q63 - exp_neg_q63(x_scaled(n, m, k)), k as nat) / 0x8000_0000
}

/// A product of two ordered pairs of non-negative factors is ordered.
proof fn lemma_mul_le_le(x1: int, x2: int, y1: int, y2: int)
    requires
        0 <= x1 <= x2,
        0 <= y1 <= y2,
    ensures
        0 <= x1 * y1 <= x2 * y2,
{
    lemma_mul_nonnegative(x1, y1);
    if x2 == 0 {
        vstd::arithmetic::mul::lemma_mul_basics(y1);
        vstd::arithmetic::mul::lemma_mul_basics(y2);
    } else {
        lemma_mul_inequality(x1, x2, y1);
        vstd::arithmetic::mul::lemma_mul_left_inequality(x2, y1, y2);
    }
}

/// A fixed-point squaring keeps the mantissa within `[0, 1]` and is monotone.
proof fn lemma_sq_ordered(a: int, b: int)
    requires
        0 <= a <= b <= ONE_Q63,
    ensures
        0 <= sq_q63(a) <= sq_q63(b) <= ONE_Q63,
{
    lemma_mul_le_le(a, b, a, b);
    lemma_mul_le_le(b, ONE_Q63 as int, b, ONE_Q63 as int);
    lemma_div_pos_is_pos(a * a, ONE_Q63 as int);
    lemma_div_is_ordered(a * a, b * b, ONE_Q63 as int);
    lemma_div_is_ordered(b * b, (ONE_Q63 as int) * (ONE_Q63 as int), ONE_Q63 as int);
    lemma_div_multiples_vanish(ONE_Q63 as int, ONE_Q63 as int);
}

/// Iterated squaring keeps the mantissa within `[0, 1]` and is monotone.
proof fn lemma_sq_iter_ordered(a: int, b: int, j: nat)
    requires
        0 <= a <= b <= ONE_Q63,
    ensures
        0 <= sq_iter_q63(a, j) <= sq_iter_q63(b, j) <= ONE_Q63,
    decreases j,
{
    if j > 0 {
        lemma_sq_iter_ordered(a, b, (j - 1) as nat);
        lemma_sq_ordered(sq_iter_q63(a, (j - 1) as nat), sq_iter_q63(b, (j - 1) as nat));
    }
}

/// The fixed-point power keeps the mantissa within `[0, 1]` and is monotone
/// in its base.
proof fn lemma_pow_ordered(a: int, b: int, e: nat)
    requires
        0 <= a <= b <= ONE_Q63,
    ensures
        0 <= pow_q63(a, e) <= pow_q63(b, e) <= ONE_Q63,
    decreases e,
{
    if e > 0 {
        lemma_pow_ordered(a, b, (e - 1) as nat);
        lemma_mul_le_le(pow_q63(a, (e - 1) as nat), pow_q63(b, (e - 1) as nat), a, b);
        lemma_mul_le_le(pow_q63(b, (e - 1) as nat), ONE_Q63 as int, b, ONE_Q63 as int);
        lemma_div_pos_is_pos(pow_q63(a, (e - 1) as nat) * a, ONE_Q63 as int);
        lemma_div_is_ordered(
            pow_q63(a, (e - 1) as nat) * a,
            pow_q63(b, (e - 1) as nat) * b,
            ONE_Q63 as int,
        );
        lemma_div_is_ordered(
            pow_q63(b, (e - 1) as nat) * b,
            (ONE_Q63 as int) * (ONE_Q63 as int),
            ONE_Q63 as int,
        );
        lemma_div_multiples_vanish(ONE_Q63 as int, ONE_Q63 as int);
    }
}

/// The scaled exponent `k*n/m` is within the 64-bit range and non-decreasing
/// in the item count.
proof fn lemma_x_scaled_ordered(n1: u64, n2: u64, m: u64, k: u32)
    requires
        m >= 1,
        n1 <= n2,
    ensures
        0 <= x_scaled(n1, m, k) <= x_scaled(n2, m, k) <= u64::MAX,
{
    lemma_mul_nonnegative(k as int, n1 as int);
    lemma_mul_nonnegative((k as int) * (n1 as int), 0x1_0000_0000);
    lemma_div_pos_is_pos((k as int) * (n1 as int) * 0x1_0000_0000, m as int);
    if k == 0 {
        vstd::arithmetic::mul::lemma_mul_basics(n1 as int);
        vstd::arithmetic::mul::lemma_mul_basics(n2 as int);
    } else {
        vstd::arithmetic::mul::lemma_mul_left_inequality(k as int, n1 as int, n2 as int);
    }
    lemma_mul_inequality((k as int) * (n1 as int), (k as int) * (n2 as int), 0x1_0000_0000);
    lemma_div_is_ordered(
        (k as int) * (n1 as int) * 0x1_0000_0000,
        (k as int) * (n2 as int) * 0x1_0000_0000,
        m as int,
    );
}

/// The first-order base lies within `[0, 1]` and falls as the exponent rises.
proof fn lemma_base_ordered(x1: int, x2: int)
    requires
        0 <= x1 <= x2 <= u64::MAX,
    ensures
        0 <= base_q63(x2) <= base_q63(x1) <= ONE_Q63,
{
    lemma_div_pos_is_pos(x1 + 1, 2);
    lemma_div_is_ordered(x1 + 1, x2 + 1, 2);
    lemma_div_is_ordered(x2 + 1, 0x1_0000_0000_0000_0000, 2);
    lemma_div_multiples_vanish(ONE_Q63 as int, 2);
    assert(2 * (ONE_Q63 as int) == 0x1_0000_0000_0000_0000);
}

/// The estimated rate never falls as items are added (with the filter's
/// geometry held fixed): adding can only set more bits, so the chance that
/// a never-added item finds all its bits set can only grow.
pub proof fn lemma_rate_monotonic(n1: u64, n2: u64, m: u64, k: u32)
    requires
        m >= 1,
        n1 <= n2,
    ensures
        rate_q32(n1, m, k) <= rate_q32(n2, m, k),
{
    let x1 = x_scaled(n1, m, k);
    let x2 = x_scaled(n2, m, k);
    lemma_x_scaled_ordered(n1, n2, m, k);
    lemma_base_ordered(x1, x2);
    lemma_sq_iter_ordered(base_q63(x2), base_q63(x1), 32);
    lemma_pow_ordered(
        ONE_Q63 - exp_neg_q63(x1),
        ONE_Q63 - exp_neg_q63(x2),
        k as nat,
    );
    lemma_div_is_ordered(
        pow_q63(ONE_Q63 - exp_neg_q63(x1), k as nat),
        pow_q63(ONE_Q63 - exp_neg_q63(x2), k as nat),
        0x8000_0000,
    );
}

/// With no items, the exponent is zero and the estimate is exactly zero.
proof fn lemma_rate_zero(m: u64, k: u32)
    requires
        m >= 1,
        k >= 1,
    ensures
        rate_q32(0, m, k) == 0,
{
    assert((k as int) * 0 == 0);
    assert(x_scaled(0, m, k) == 0) by {
        vstd::arithmetic::div_mod::lemma_div_of0(m as int);
    }
    assert(base_q63(0) == ONE_Q63);
    lemma_sq_iter_one(32);
    assert(exp_neg_q63(0) == ONE_Q63);
    lemma_pow_zero(k as nat);
    vstd::arithmetic::div_mod::lemma_div_of0(0x8000_0000);
}

/// Squaring a mantissa of exactly one yields exactly one, forever.
proof fn lemma_sq_iter_one(j: nat)
    ensures
        sq_iter_q63(ONE_Q63 as int, j) == ONE_Q63,
    decreases j,
{
    if j > 0 {
        lemma_sq_iter_one((j - 1) as nat);
        lemma_div_multiples_vanish(ONE_Q63 as int, ONE_Q63 as int);
    }
}

/// Any positive power of a zero base is zero.
proof fn lemma_pow_zero(e: nat)
    requires
        e >= 1,
    ensures
        pow_q63(0, e) == 0,
    decreases e,
{
    if e > 1 {
        lemma_pow_zero((e - 1) as nat);
    }
    vstd::arithmetic::div_mod::lemma_div_of0(ONE_Q63 as int);
}

/// Computes the estimated false-positive rate with 32 fractional bits:
/// exactly `rate_q32`, never above `2^32` (the saturated rendering of 1),
/// and exactly 0 while nothing has been added.
pub fn fp_rate_q32(n: u64, m: u64, k: u32) -> (r: u64)
    requires
        m >= 1,
    ensures
        r == rate_q32(n, m, k),
        r <= 0x1_0000_0000,
        n == 0 && k >= 1 ==> r == 0,
{
    proof {
        lemma_mul_upper_bound(k as int, 0xFFFF_FFFF, n as int, 0xFFFF_FFFF_FFFF_FFFF);
        lemma_mul_upper_bound(
            (k as int) * (n as int),
            0xFFFF_FFFE_FFFF_FFFF_0000_0001,
            0x1_0000_0000,
            0x1_0000_0000,
        );
        lemma_mul_nonnegative(k as int, n as int);
        lemma_mul_nonnegative((k as int) * (n as int), 0x1_0000_0000);
        lemma_div_pos_is_pos((k as int) * (n as int) * 0x1_0000_0000, m as int);
    }
    let q: u128 = (k as u128) * (n as u128) * 0x1_0000_0000u128 / (m as u128);
    let x: u64 = if q > 0xFFFF_FFFF_FFFF_FFFFu128 {
        0xFFFF_FFFF_FFFF_FFFFu64
    } else {
        q as u64
    };
    proof {
        assert(x == x_scaled(n, m, k));
    }
    // First-order base: 1 - ceil(x/2) in 63-fractional-bit fixed point.
    let half_up: u64 = x / 2 + x % 2;
    proof {
        lemma_fundamental_div_mod(x as int, 2);
        if x % 2 == 0 {
            lemma_div_multiples_vanish_fancy(x as int / 2, 1, 2);
        } else {
            lemma_div_multiples_vanish(x as int / 2 + 1, 2);
        }
        assert(half_up == (x as int + 1) / 2);
    }
    let mut acc: u64 = ONE_Q63 - half_up;
    proof {
        assert(acc == base_q63(x as int));
        lemma_base_ordered(x as int, x as int);
    }
    // e^(-x): square the base 32 times.
    let ghost base: int = acc as int;
    let mut j: u32 = 0;
    while j < 32
        invariant
            j <= 32,
            0 <= base <= ONE_Q63,
            acc == sq_iter_q63(base, j as nat),
            acc <= ONE_Q63,
        decreases 32 - j,
    {
        proof {
            lemma_sq_ordered(acc as int, acc as int);
        }
        let y: u128 = (acc as u128) * (acc as u128) / (ONE_Q63 as u128);
        acc = y as u64;
        j = j + 1;
    }
    let one_minus: u64 = ONE_Q63 - acc;
    // (1 - e^(-x))^k by repeated multiplication.
    let mut p: u64 = ONE_Q63;
    let mut t: u32 = 0;
    while t < k
        invariant
            t <= k,
            0 <= one_minus <= ONE_Q63,
            p == pow_q63(one_minus as int, t as nat),
            p <= ONE_Q63,
        decreases k - t,
    {
        proof {
            lemma_mul_le_le(p as int, ONE_Q63 as int, one_minus as int, ONE_Q63 as int);
            lemma_div_pos_is_pos((p as int) * (one_minus as int), ONE_Q63 as int);
            lemma_div_is_ordered(
                (p as int) * (one_minus as int),
                (ONE_Q63 as int) * (ONE_Q63 as int),
                ONE_Q63 as int,
            );
            lemma_div_multiples_vanish(ONE_Q63 as int, ONE_Q63 as int);
        }
        let y: u128 = (p as u128) * (one_minus as u128) / (ONE_Q63 as u128);
        p = y as u64;
        t = t + 1;
    }
    proof {
        assert(p >> 31 == p / 0x8000_0000) by (bit_vector);
        lemma_div_is_ordered(p as int, ONE_Q63 as int, 0x8000_0000);
        lemma_div_multiples_vanish(0x1_0000_0000, 0x8000_0000);
        if n == 0 && k >= 1 {
            lemma_rate_zero(m, k);
        }
    }
    p >> 31
}

} // verus!
