//! Fixed-point numeric base: coordinate units, the latitude scale factor,
//! integer square root, and the degree-to-metre conversion.
//!
//! A coordinate is stored as an `i64` counting steps of 2^-20 degree
//! (`FP_ONE` steps per degree).  A latitude scale factor is the squared
//! cosine of the latitude, also in steps of 2^-20.  Distances in coordinate
//! units are turned into millimetres with `MM_PER_DEG`.

use vstd::prelude::*;
use vstd::arithmetic::power2::pow2;
use vstd::arithmetic::power2::lemma_pow2_unfold;
use vstd::arithmetic::power2::lemma_pow2_pos;
use vstd::arithmetic::power2::lemma2_to64;
use vstd::arithmetic::power2::lemma2_to64_rest;
use vstd::arithmetic::power2::lemma_pow2_strictly_increases;

verus! {

/// Number of coordinate units per degree (2^20).
pub const FP_ONE: i64 = 0x100000;

/// Largest admissible longitude, in coordinate units (180 degrees).
pub const X_LIMIT: i64 = 0xB400000;

/// Largest admissible latitude, in coordinate units (90 degrees).
pub const Y_LIMIT: i64 = 0x5A00000;

/// Millimetres per degree of arc: 6378137000 * pi / 180, rounded.
pub const MM_PER_DEG: i64 = 111319491;

/// pi / 180 in steps of 2^-40.
pub const DEG2RAD_Q40: i64 = 19190941892;

/// One in steps of 2^-30, the working precision of the cosine polynomial.
pub const ONE_Q30: i64 = 0x40000000;

/// Truncating division by a positive divisor: rounds toward zero, as
/// executable signed division does.
pub open spec fn spec_tdiv(a: int, b: int) -> int {
    if a >= 0 { a / b } else { -((-a) / b) }
}

/// The squared-cosine latitude scale factor, as a mathematical function of
/// the latitude `y` in coordinate units: an even polynomial approximation of
/// cos^2(y * pi / 180), evaluated in integer steps and clamped to [0, 1].
/// The result is in coordinate units (steps of 2^-20).
#[verifier::opaque]
pub open spec fn spec_scale_x2(y: int) -> int {
    let a = if y < 0 { -y } else { y };
    let theta = (a * DEG2RAD_Q40) / 0x40000000;
    let u = (theta * theta) / 0x40000000;
    let t1 = ONE_Q30 - u / 56;
    let t2 = ONE_Q30 - ((u / 30) * t1) / 0x40000000;
    let t3 = ONE_Q30 - ((u / 12) * t2) / 0x40000000;
    let c = ONE_Q30 - ((u / 2) * t3) / 0x40000000;
    let s = if c < 0 { 0 } else if c > ONE_Q30 { ONE_Q30 as int } else { c };
    (s * s) / 0x10000000000
}

/// The scale factor lies in [0, FP_ONE] whenever the latitude is in range.
pub proof fn lemma_scale_x2_bounds(y: int)
    requires
        -Y_LIMIT <= y <= Y_LIMIT,
    ensures
        0 <= spec_scale_x2(y) <= FP_ONE,
{
    reveal(spec_scale_x2);
    let a = if y < 0 { -y } else { y };
    let theta = (a * DEG2RAD_Q40) / 0x40000000;
    let u = (theta * theta) / 0x40000000;
    let t1 = ONE_Q30 - u / 56;
    let t2 = ONE_Q30 - ((u / 30) * t1) / 0x40000000;
    let t3 = ONE_Q30 - ((u / 12) * t2) / 0x40000000;
    let c = ONE_Q30 - ((u / 2) * t3) / 0x40000000;
    let s = if c < 0 { 0 } else if c > ONE_Q30 { ONE_Q30 as int } else { c };
    assert(0 <= s <= ONE_Q30);
    assert(0 <= s * s <= ONE_Q30 * ONE_Q30) by (nonlinear_arith)
        requires 0 <= s <= ONE_Q30;
}

/// Computes the squared-cosine latitude scale factor for a latitude given in
/// coordinate units.
pub fn scale_x2_of_lat(y: i64) -> (r: i64)
    requires
        -Y_LIMIT <= y <= Y_LIMIT,
    ensures
        r == spec_scale_x2(y as int),
        0 <= r <= FP_ONE,
{
    proof {
        reveal(spec_scale_x2);
        lemma_scale_x2_bounds(y as int);
    }
    let a: i64 = if y < 0 { -y } else { y };
    assert(0 <= a * DEG2RAD_Q40 <= Y_LIMIT * DEG2RAD_Q40) by (nonlinear_arith)
        requires 0 <= a <= Y_LIMIT;
    let theta: i64 = (a * DEG2RAD_Q40) / 0x40000000;
    assert(theta <= 0x65000000);
    assert(0 <= theta * theta && theta * theta <= 0x2800000000000000) by (nonlinear_arith)
        requires 0 <= theta <= 0x65000000;
    let u: i64 = (theta * theta) / 0x40000000;
    assert(u <= 0xA0000000);
    let t1: i64 = ONE_Q30 - u / 56;
    assert(0 <= t1 <= ONE_Q30);
    assert(0 <= (u / 30) * t1 <= 0x5800000 * ONE_Q30) by (nonlinear_arith)
        requires 0 <= u / 30 <= 0x5800000, 0 <= t1 <= ONE_Q30;
    let t2: i64 = ONE_Q30 - ((u / 30) * t1) / 0x40000000;
    assert(0 <= t2 <= ONE_Q30);
    assert(0 <= (u / 12) * t2 <= 0xE000000 * ONE_Q30) by (nonlinear_arith)
        requires 0 <= u / 12 <= 0xE000000, 0 <= t2 <= ONE_Q30;
    let t3: i64 = ONE_Q30 - ((u / 12) * t2) / 0x40000000;
    assert(0 <= t3 <= ONE_Q30);
    assert(0 <= (u / 2) * t3 <= 0x50000000 * ONE_Q30) by (nonlinear_arith)
        requires 0 <= u / 2 <= 0x50000000, 0 <= t3 <= ONE_Q30;
    let c: i64 = ONE_Q30 - ((u / 2) * t3) / 0x40000000;
    let s: i64 = if c < 0 { 0 } else if c > ONE_Q30 { ONE_Q30 } else { c };
    assert(0 <= s * s <= ONE_Q30 * ONE_Q30) by (nonlinear_arith)
        requires 0 <= s <= ONE_Q30;
    (s * s) / 0x10000000000
}

/// The integer square root as a mathematical function: the unique
/// nonnegative `r` with `r * r <= v < (r + 1) * (r + 1)`.
pub open spec fn spec_isqrt(v: int) -> int {
    choose|r: int| 0 <= r && #[trigger] (r * r) <= v && v < (r + 1) * (r + 1)
}

/// Any witness of the square-root property is the square root.
pub proof fn lemma_isqrt_unique(v: int, r: int)
    requires
        0 <= r,
        r * r <= v,
        v < (r + 1) * (r + 1),
    ensures
        spec_isqrt(v) == r,
{
    let r2 = spec_isqrt(v);
    assert(0 <= r2 && r2 * r2 <= v && v < (r2 + 1) * (r2 + 1)) by {
        assert(exists|c: int| 0 <= c && #[trigger] (c * c) <= v && v < (c + 1) * (c + 1)) by {
            assert(0 <= r && r * r <= v && v < (r + 1) * (r + 1));
        }
    }
    assert(r2 == r) by (nonlinear_arith)
        requires
            0 <= r,
            r * r <= v,
            v < (r + 1) * (r + 1),
            0 <= r2,
            r2 * r2 <= v,
            v < (r2 + 1) * (r2 + 1);
}

/// Integer square root: the largest `r` with `r * r <= v`.
pub fn isqrt64(v: u64) -> (r: u64)
    requires
        v < 0x4000000000000000,
    ensures
        r * r <= v,
        v < (r + 1) * (r + 1),
        r < 0x80000000,
{
    let mut r: u64 = 0;
    let mut p: u64 = 0x40000000;
    let ghost mut k: nat = 30nat;
    proof {
        lemma2_to64();
        assert(pow2(30) == 0x40000000);
    }
    while p > 0
        invariant
            v < 0x4000000000000000,
            r * r <= v,
            r + 2 * p <= 0x80000000,
            p > 0 ==> p == pow2(k),
            p > 0 ==> v < (r + 2 * p) * (r + 2 * p),
            p == 0 ==> v < (r + 1) * (r + 1),
        decreases p,
    {
        let cand = r + p;
        assert(cand * cand < 0x10000000000000000) by (nonlinear_arith)
            requires 0 <= cand <= 0x80000000;
        if cand * cand <= v {
            r = cand;
        }
        proof {
            if k > 0 {
                lemma_pow2_unfold(k);
                lemma_pow2_pos((k - 1) as nat);
                k = (k - 1) as nat;
            } else {
                lemma2_to64();
                assert(p == 1);
            }
        }
        p = p / 2;
    }
    assert((r + 1) * (r + 1) <= 0x80000000 * 0x80000000) by (nonlinear_arith)
        requires 0 <= r + 1 <= 0x80000000;
    assert(r < 0x80000000) by (nonlinear_arith)
        requires
            v < (r + 1) * (r + 1),
            v < 0x4000000000000000,
            r * r <= v,
            r + 1 <= 0x80000000;
    r
}

/// Computes a power of two.
pub fn pow2_u64(e: u32) -> (r: u64)
    requires
        e <= 63,
    ensures
        r == pow2(e as nat),
{
    let mut p: u64 = 1;
    let mut i: u32 = 0;
    proof {
        lemma2_to64();
        lemma2_to64_rest();
    }
    while i < e
        invariant
            i <= e <= 63,
            p == pow2(i as nat),
        decreases e - i,
    {
        proof {
            lemma_pow2_strictly_increases(i as nat, 63);
            lemma2_to64();
            lemma2_to64_rest();
            assert(p < 0x8000000000000000);
            lemma_pow2_unfold((i + 1) as nat);
        }
        p = p * 2;
        i = i + 1;
    }
    p
}

/// Millimetres corresponding to a distance given in coordinate units.
pub open spec fn spec_mm_of_units(r: int) -> int {
    (r * MM_PER_DEG) / 0x100000
}

/// Converts a distance in coordinate units to millimetres.
pub fn mm_of_units(r: u64) -> (mm: u64)
    requires
        r < 0x80000000,
    ensures
        mm == spec_mm_of_units(r as int),
{
    assert(0 <= r * MM_PER_DEG <= 0x80000000 * MM_PER_DEG) by (nonlinear_arith)
        requires 0 <= r < 0x80000000;
    (r * (MM_PER_DEG as u64)) / 0x100000
}

/// Coordinate units corresponding to a distance given in millimetres,
/// rounded down.
pub open spec fn spec_units_of_mm(mm: int) -> int {
    (mm * 0x100000) / (MM_PER_DEG as int)
}

/// Converts a distance in millimetres to coordinate units.
pub fn units_of_mm(mm: u64) -> (r: u64)
    requires
        mm <= 0x10000000000,
    ensures
        r == spec_units_of_mm(mm as int),
        r <= 0x9700000000,
{
    assert(0 <= mm * 0x100000 <= 0x10000000000 * 0x100000) by (nonlinear_arith)
        requires 0 <= mm <= 0x10000000000;
    assert(mm * 0x100000 / (MM_PER_DEG as int) <= 0x9700000000) by (nonlinear_arith)
        requires 0 <= mm * 0x100000 <= 0x10000000000 * 0x100000;
    (mm * 0x100000) / (MM_PER_DEG as u64)
}

} // verus!
