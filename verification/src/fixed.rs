//! Exact fixed-point scalar arithmetic.
//!
//! A scalar is an `i64` read as a Q31.32 fixed-point number: the real value
//! it stands for is the integer divided by `FX_ONE` (2^32). Addition,
//! subtraction and negation are exact up to saturation at the `i64` range;
//! multiplication truncates toward zero after the product is rescaled; the
//! hyperbolic tangent is a Padé approximant clamped to `FX_ONE` outside
//! `[-2, 2]`. Every operation is deterministic and total, and each
//! executable function is proved equal to its specification.

use vstd::arithmetic::div_mod::lemma_div_is_ordered;
use vstd::arithmetic::div_mod::lemma_div_is_ordered_by_denominator;
use vstd::arithmetic::div_mod::lemma_div_multiples_vanish;
use vstd::arithmetic::div_mod::lemma_div_pos_is_pos;
use vstd::prelude::*;

verus! {

/// The fixed-point representation of 1: scalars carry 32 fraction bits.
pub const FX_ONE: i64 = 0x1_0000_0000;

/// Saturate an unbounded integer into the `i64` range.
pub open spec fn fx_clip(v: int) -> int {
    if v > i64::MAX as int {
        i64::MAX as int
    } else if v < i64::MIN as int {
        i64::MIN as int
    } else {
        v
    }
}

/// Saturating fixed-point sum.
pub open spec fn fx_add(a: int, b: int) -> int {
    fx_clip(a + b)
}

/// Saturating fixed-point difference.
pub open spec fn fx_sub(a: int, b: int) -> int {
    fx_clip(a - b)
}

/// Saturating fixed-point negation.
pub open spec fn fx_neg(a: int) -> int {
    fx_clip(-a)
}

/// Quotient truncated toward zero, for a positive divisor.
pub open spec fn trunc_div(p: int, d: int) -> int {
    if p >= 0 {
        p / d
    } else {
        -((-p) / d)
    }
}

/// Saturating fixed-point product: the full product rescaled by `FX_ONE`,
/// truncated toward zero.
pub open spec fn fx_mul(a: int, b: int) -> int {
    fx_clip(trunc_div(a * b, FX_ONE as int))
}

proof fn lemma_trunc_div_mul_cancel(v: int)
    ensures
        trunc_div(v * (FX_ONE as int), FX_ONE as int) == v,
{
    let d = FX_ONE as int;
    if v >= 0 {
        lemma_div_multiples_vanish(v, d);
        assert(v * d == d * v) by (nonlinear_arith);
    } else {
        lemma_div_multiples_vanish(-v, d);
        assert(-(v * d) == d * (-v)) by (nonlinear_arith);
    }
}

/// Multiplying by the fixed-point 1 is exact: `1 * v == v`.
pub proof fn lemma_fx_mul_one(v: int)
    requires
        i64::MIN as int <= v <= i64::MAX as int,
    ensures
        fx_mul(FX_ONE as int, v) == v,
{
    assert((FX_ONE as int) * v == v * (FX_ONE as int)) by (nonlinear_arith);
    lemma_trunc_div_mul_cancel(v);
}

/// Fixed-point hyperbolic tangent of a non-negative argument.
///
/// Inside `[0, 2]` (in real terms) this is the Padé approximant
/// `v (15 + v^2) / (15 + 6 v^2)` of `tanh v`, which agrees with `tanh` to
/// seventh order around zero, rescaled to fixed point and truncated.
/// Beyond 2 the result is clamped to 1; the approximant reads about 0.974
/// there against a true `tanh` of about 0.964, so the jump is small and
/// the result stays within `[0, 1]` everywhere.
pub open spec fn fx_tanh_mag(m: int) -> int {
    let one = FX_ONE as int;
    if m >= 2 * one {
        one
    } else {
        (m * (15 * one * one + m * m)) / (15 * one * one + 6 * m * m)
    }
}

/// Fixed-point hyperbolic tangent, odd by construction.
pub open spec fn fx_tanh(x: int) -> int {
    if x >= 0 {
        fx_tanh_mag(x)
    } else {
        -fx_tanh_mag(-x)
    }
}

/// `fx_tanh_mag` stays within `[0, 1]` in fixed-point terms.
pub proof fn lemma_fx_tanh_mag_range(m: int)
    requires
        m >= 0,
    ensures
        0 <= fx_tanh_mag(m) <= FX_ONE as int,
{
    let one = FX_ONE as int;
    if m >= 2 * one {
    } else {
        let num = m * (15 * one * one + m * m);
        let den = 15 * one * one + 6 * m * m;
        assert(num >= 0 && den > 0) by (nonlinear_arith)
            requires
                0 <= m && num == m * (15 * one * one + m * m) && den == 15 * one * one + 6 * m
                    * m && one == 0x1_0000_0000,
        ;
        lemma_div_pos_is_pos(num, den);
        // 1 - P(m) has the sign of (2 - m)((m - 2)^2 + 3) + 1, in units of
        // `one`: positive everywhere below the clamp.
        assert(one * den - num == (2 * one - m) * ((m - 2 * one) * (m - 2 * one) + 3 * one * one)
            + one * one * one) by (nonlinear_arith)
            requires
                num == m * (15 * one * one + m * m) && den == 15 * one * one + 6 * m * m,
        ;
        assert((2 * one - m) * ((m - 2 * one) * (m - 2 * one) + 3 * one * one) >= 0)
            by (nonlinear_arith)
            requires
                2 * one - m >= 0,
        ;
        lemma_div_is_ordered(num, one * den, den);
        lemma_div_multiples_vanish(one, den);
        assert(den * one == one * den) by (nonlinear_arith);
    }
}

/// `fx_tanh` stays within `[-1, 1]` in fixed-point terms.
pub proof fn lemma_fx_tanh_range(x: int)
    ensures
        -(FX_ONE as int) <= fx_tanh(x) <= FX_ONE as int,
{
    if x >= 0 {
        lemma_fx_tanh_mag_range(x);
    } else {
        lemma_fx_tanh_mag_range(-x);
    }
}

/// The fixed-point image of a small integer.
pub fn scalar_from_int(n: i32) -> (r: i64)
    ensures
        r as int == (n as int) * (FX_ONE as int),
{
    (n as i64) * FX_ONE
}

/// Saturating sum, carried out exactly in `i128`.
pub fn scalar_add(a: i64, b: i64) -> (r: i64)
    ensures
        r as int == fx_add(a as int, b as int),
{
    clamp_to_i64(a as i128 + b as i128)
}

/// Saturating difference, carried out exactly in `i128`.
pub fn scalar_sub(a: i64, b: i64) -> (r: i64)
    ensures
        r as int == fx_sub(a as int, b as int),
{
    clamp_to_i64(a as i128 - b as i128)
}

/// Saturating negation.
pub fn scalar_neg(a: i64) -> (r: i64)
    ensures
        r as int == fx_neg(a as int),
{
    clamp_to_i64(-(a as i128))
}

/// Saturating product: the exact `i128` product, rescaled by `FX_ONE` with
/// truncation toward zero, then clipped to the `i64` range.
pub fn scalar_mul(a: i64, b: i64) -> (r: i64)
    ensures
        r as int == fx_mul(a as int, b as int),
{
    proof {
        assert(-0x4000_0000_0000_0000_0000_0000_0000_0000 <= (a as int) * (b as int)
            <= 0x4000_0000_0000_0000_0000_0000_0000_0000) by (nonlinear_arith)
            requires
                -0x8000_0000_0000_0000 <= a as int <= 0x7FFF_FFFF_FFFF_FFFF
                    && -0x8000_0000_0000_0000 <= b as int <= 0x7FFF_FFFF_FFFF_FFFF,
        ;
    }
    let p: i128 = (a as i128) * (b as i128);
    let q: i128 = rescale(p);
    clamp_to_i64(q)
}

/// Divide by `FX_ONE`, truncating toward zero.
fn rescale(p: i128) -> (q: i128)
    requires
        p != i128::MIN,
    ensures
        q as int == trunc_div(p as int, FX_ONE as int),
{
    let one: u128 = FX_ONE as u128;
    if p >= 0 {
        let m: u128 = p as u128;
        let d: u128 = m / one;
        proof {
            lemma_div_is_ordered_by_denominator(m as int, 1, one as int);
        }
        d as i128
    } else {
        let m: u128 = (-p) as u128;
        let d: u128 = m / one;
        proof {
            lemma_div_is_ordered_by_denominator(m as int, 1, one as int);
        }
        -(d as i128)
    }
}

/// Fixed-point hyperbolic tangent.
pub fn scalar_tanh(x: i64) -> (r: i64)
    ensures
        r as int == fx_tanh(x as int),
        -FX_ONE <= r <= FX_ONE,
{
    if x >= 0 {
        tanh_mag(x as i128)
    } else {
        let t: i64 = tanh_mag(-(x as i128));
        -t
    }
}

fn tanh_mag(m: i128) -> (t: i64)
    requires
        0 <= m as int <= i64::MAX as int + 1,
    ensures
        t as int == fx_tanh_mag(m as int),
        0 <= t <= FX_ONE,
{
    proof {
        lemma_fx_tanh_mag_range(m as int);
    }
    let one: i128 = FX_ONE as i128;
    if m >= 2 * one {
        FX_ONE
    } else {
        let mu: u128 = m as u128;
        let c15: u128 = 15 * (FX_ONE as u128) * (FX_ONE as u128);
        proof {
            assert(mu < 0x2_0000_0000);
            assert(mu * mu < 0x4_0000_0000_0000_0000) by (nonlinear_arith)
                requires
                    mu < 0x2_0000_0000,
            ;
        }
        let sq: u128 = mu * mu;
        proof {
            assert(mu * (c15 + sq) < 0x100_0000_0000_0000_0000_0000_0000) by (nonlinear_arith)
                requires
                    mu < 0x2_0000_0000 && sq < 0x4_0000_0000_0000_0000
                        && c15 == 15 * 0x1_0000_0000u128 * 0x1_0000_0000u128,
            ;
        }
        let num: u128 = mu * (c15 + sq);
        let den: u128 = c15 + 6 * sq;
        let q: u128 = num / den;
        proof {
            let onei = FX_ONE as int;
            assert(num as int == (m as int) * (15 * onei * onei + (m as int) * (m as int)))
                by (nonlinear_arith)
                requires
                    num == mu * (c15 + sq) && sq == mu * mu && mu == m
                        && c15 == 15 * 0x1_0000_0000u128 * 0x1_0000_0000u128
                        && onei == 0x1_0000_0000 && 0 <= m,
            ;
            assert(den as int == 15 * onei * onei + 6 * (m as int) * (m as int))
                by (nonlinear_arith)
                requires
                    den == c15 + 6 * sq && sq == mu * mu && mu == m
                        && c15 == 15 * 0x1_0000_0000u128 * 0x1_0000_0000u128
                        && onei == 0x1_0000_0000 && 0 <= m,
            ;
        }
        q as i64
    }
}

fn clamp_to_i64(v: i128) -> (r: i64)
    ensures
        r as int == fx_clip(v as int),
{
    if v > i64::MAX as i128 {
        i64::MAX
    } else if v < i64::MIN as i128 {
        i64::MIN
    } else {
        v as i64
    }
}

} // verus!
