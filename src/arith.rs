//! Fixed-point helpers shared by the buffer, sampler and sequencer code.
use vstd::arithmetic::div_mod::*;
use vstd::arithmetic::mul::*;
use vstd::prelude::*;

verus! {

/// One unit of every fractional configuration quantity: values carry six decimal places.
pub const MICRO: u64 = 1_000_000;

pub open spec fn magnitude(s: int) -> int {
    if s >= 0 {
        s
    } else {
        -s
    }
}

/// `s * num / den`, truncated toward zero.
pub open spec fn scaled(s: int, num: int, den: int) -> int {
    if s >= 0 {
        s * num / den
    } else {
        -((-s) * num / den)
    }
}

/// `s * num / den`, rounded to nearest with halves away from zero.
pub open spec fn rounded(s: int, num: int, den: int) -> int {
    if s >= 0 {
        (2 * s * num + den) / (2 * den)
    } else {
        -((2 * (-s) * num + den) / (2 * den))
    }
}

/// `n / d` for non-negative `n`, rounded to nearest with halves up.
pub open spec fn round_div(n: int, d: int) -> int {
    (2 * n + d) / (2 * d)
}

pub open spec fn clamp(x: int, lo: int, hi: int) -> int {
    if x < lo {
        lo
    } else if x > hi {
        hi
    } else {
        x
    }
}

pub fn magnitude_of(s: i64) -> (r: u64)
    ensures
        r == magnitude(s as int),
{
    if s >= 0 {
        s as u64
    } else {
        ((-(s as i128)) as u64)
    }
}

proof fn lemma_div_le_numerator(n: int, d: int)
    requires
        n >= 0,
        d >= 1,
    ensures
        0 <= n / d <= n,
{
    lemma_div_is_ordered_by_denominator(n, 1, d);
    lemma_div_pos_is_pos(n, d);
}

/// Exact `s * num / den` truncated toward zero; the result always fits in 128 bits.
pub fn scale(s: i64, num: u64, den: u64) -> (r: i128)
    requires
        den > 0,
    ensures
        r == scaled(s as int, num as int, den as int),
        magnitude(r as int) <= magnitude(s as int) * num,
{
    let m = magnitude_of(s);
    proof {
        lemma_mul_upper_bound(m as int, 0x8000_0000_0000_0000, num as int, 0xffff_ffff_ffff_ffff);
        lemma_mul_nonnegative(m as int, num as int);
    }
    let p: u128 = (m as u128) * (num as u128);
    let q: u128 = p / (den as u128);
    proof {
        lemma_div_le_numerator(p as int, den as int);
    }
    if s >= 0 {
        q as i128
    } else {
        -(q as i128)
    }
}

/// Exact `s * num / den` rounded to nearest, halves away from zero.
pub fn round_scale(s: i64, num: u64, den: u64) -> (r: i128)
    requires
        den > 0,
        num <= 0xffff_ffff,
    ensures
        r == rounded(s as int, num as int, den as int),
{
    let m = magnitude_of(s);
    proof {
        lemma_mul_upper_bound(m as int, 0x8000_0000_0000_0000, num as int, 0xffff_ffff);
        lemma_mul_nonnegative(m as int, num as int);
    }
    let p: u128 = (m as u128) * (num as u128);
    let n: u128 = 2 * p + (den as u128);
    let q: u128 = n / (2 * (den as u128));
    proof {
        lemma_div_le_numerator(n as int, 2 * den as int);
        assert(2 * (m as int) * (num as int) == 2 * ((m as int) * (num as int))) by (nonlinear_arith);
    }
    if s >= 0 {
        q as i128
    } else {
        -(q as i128)
    }
}

} // verus!
