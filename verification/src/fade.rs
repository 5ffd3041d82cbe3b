//! The fade curve: maps a distance to a grayscale sample.
//!
//! Distances are micrometres. The curve is the cubic ease-in-ease-out
//! polynomial `3t^2 - 2t^3` of the normalized distance `t = d / f`,
//! evaluated exactly over the integers and scaled to the full sample
//! range: `fade(d, f) = floor(MAX_SAMPLE * (3 d^2 f - 2 d^3) / f^3)` for
//! `d < f`, and `MAX_SAMPLE` for every `d >= f`. It rises smoothly from 0
//! at distance 0 to `MAX_SAMPLE` at the fade distance and is monotone.

use vstd::prelude::*;
use vstd::arithmetic::div_mod::lemma_div_is_ordered;

verus! {

/// Largest grayscale sample value: full white, the flat rest plane.
pub const MAX_SAMPLE: u16 = 65535;

/// Numerator of the ease curve at distance `d`: `3 d^2 f - 2 d^3`.
pub open spec fn ease_num(d: int, f: int) -> int {
    3 * d * d * f - 2 * d * d * d
}

/// The fade curve over the unbounded integers.
pub open spec fn fade_spec(d: int, f: int) -> int
    recommends
        0 <= d,
        0 < f,
{
    if d >= f {
        MAX_SAMPLE as int
    } else {
        (MAX_SAMPLE as int * ease_num(d, f)) / (f * f * f)
    }
}

/// One unit step of the ease numerator does not decrease it.
proof fn lemma_ease_num_step(d: int, f: int)
    requires
        0 <= d < f,
    ensures
        ease_num(d, f) <= ease_num(d + 1, f),
{
    let e = d + 1;
    assert(ease_num(e, f) - ease_num(d, f) == 6 * d * f + 3 * f - 6 * d * d - 6 * d - 2)
        by (nonlinear_arith)
        requires
            e == d + 1,
            ease_num(d, f) == 3 * d * d * f - 2 * d * d * d,
            ease_num(e, f) == 3 * e * e * f - 2 * e * e * e,
    ;
    assert(6 * d * f + 3 * f - 6 * d * d - 6 * d - 2 >= 0) by (nonlinear_arith)
        requires
            0 <= d,
            d + 1 <= f,
    ;
}

/// The ease numerator is non-decreasing on `[0, f]`.
pub proof fn lemma_ease_num_monotone(d1: int, d2: int, f: int)
    requires
        0 <= d1 <= d2 <= f,
    ensures
        ease_num(d1, f) <= ease_num(d2, f),
    decreases d2 - d1,
{
    if d1 < d2 {
        lemma_ease_num_step(d1, f);
        lemma_ease_num_monotone(d1 + 1, d2, f);
    }
}

/// On `[0, f]` the ease numerator stays between 0 and `f^3`.
pub proof fn lemma_ease_num_bounds(d: int, f: int)
    requires
        0 <= d <= f,
    ensures
        0 <= ease_num(d, f),
        ease_num(d, f) <= f * f * f,
{
    lemma_ease_num_monotone(0, d, f);
    lemma_ease_num_monotone(d, f, f);
    assert(ease_num(0, f) == 0) by (nonlinear_arith);
    assert(ease_num(f, f) == f * f * f) by (nonlinear_arith)
        requires
            ease_num(f, f) == 3 * f * f * f - 2 * f * f * f,
    ;
}

/// The fade curve stays in the sample range.
pub proof fn lemma_fade_spec_bounds(d: int, f: int)
    requires
        0 <= d,
        0 < f,
    ensures
        0 <= fade_spec(d, f) <= MAX_SAMPLE as int,
{
    if d < f {
        lemma_ease_num_bounds(d, f);
        let n = ease_num(d, f);
        let f3 = f * f * f;
        assert(f3 > 0) by (nonlinear_arith)
            requires
                f3 == f * f * f,
                f > 0,
        ;
        assert(MAX_SAMPLE as int * n >= 0) by (nonlinear_arith)
            requires
                n >= 0,
        ;
        assert(MAX_SAMPLE as int * n <= MAX_SAMPLE as int * f3) by (nonlinear_arith)
            requires
                n <= f3,
        ;
        assert(MAX_SAMPLE as int * n / f3 >= 0);
        lemma_div_is_ordered(MAX_SAMPLE as int * n, MAX_SAMPLE as int * f3, f3);
        assert(MAX_SAMPLE as int * f3 / f3 == MAX_SAMPLE as int) by (nonlinear_arith)
            requires
                f3 > 0,
        ;
    }
}

/// At distance 0 the curve is exactly 0: the sheet is fully depressed
/// at a mark.
pub proof fn lemma_fade_spec_zero(f: int)
    requires
        0 < f,
    ensures
        fade_spec(0, f) == 0,
{
    assert(ease_num(0, f) == 0) by (nonlinear_arith);
    let f3 = f * f * f;
    assert(f3 > 0) by (nonlinear_arith)
        requires
            f3 == f * f * f,
            f > 0,
    ;
    assert(0int / f3 == 0);
}

/// From the fade distance on, the curve sits exactly at `MAX_SAMPLE`.
pub proof fn lemma_fade_spec_saturates(d: int, f: int)
    requires
        0 < f <= d,
    ensures
        fade_spec(d, f) == MAX_SAMPLE as int,
{
}

/// The fade curve is non-decreasing in the distance.
pub proof fn lemma_fade_spec_monotone(d1: int, d2: int, f: int)
    requires
        0 <= d1 <= d2,
        0 < f,
    ensures
        fade_spec(d1, f) <= fade_spec(d2, f),
{
    lemma_fade_spec_bounds(d1, f);
    if d2 < f {
        lemma_ease_num_monotone(d1, d2, f);
        let n1 = ease_num(d1, f);
        let n2 = ease_num(d2, f);
        let f3 = f * f * f;
        assert(f3 > 0) by (nonlinear_arith)
            requires
                f3 == f * f * f,
                f > 0,
        ;
        assert(MAX_SAMPLE as int * n1 <= MAX_SAMPLE as int * n2) by (nonlinear_arith)
            requires
                n1 <= n2,
        ;
        lemma_div_is_ordered(MAX_SAMPLE as int * n1, MAX_SAMPLE as int * n2, f3);
    }
}

/// Grayscale sample for a pixel at distance `distance_um` from the
/// nearest mark, for a fade that runs over `fade_um` micrometres.
pub fn fade_fn(distance_um: u64, fade_um: u32) -> (s: u16)
    requires
        fade_um > 0,
    ensures
        s as int == fade_spec(distance_um as int, fade_um as int),
{
    if distance_um >= fade_um as u64 {
        return MAX_SAMPLE;
    }
    let d: u128 = distance_um as u128;
    let f: u128 = fade_um as u128;
    assert(d * d <= 0xffff_ffff * 0xffff_ffff) by (nonlinear_arith)
        requires
            d <= 0xffff_ffff,
    ;
    let dd: u128 = d * d;
    assert(f * f <= 0xffff_ffff * 0xffff_ffff) by (nonlinear_arith)
        requires
            f <= 0xffff_ffff,
    ;
    let ff: u128 = f * f;
    assert(ff * f <= 0xffff_ffff * 0xffff_ffff * 0xffff_ffff) by (nonlinear_arith)
        requires
            ff <= 0xffff_ffff * 0xffff_ffff,
            f <= 0xffff_ffff,
    ;
    let f3: u128 = ff * f;
    assert(3 * dd * f <= 3 * (0xffff_ffff * 0xffff_ffff) * 0xffff_ffff) by (nonlinear_arith)
        requires
            dd <= 0xffff_ffff * 0xffff_ffff,
            f <= 0xffff_ffff,
    ;
    let num1: u128 = 3 * dd * f;
    assert(2 * dd * d <= num1) by (nonlinear_arith)
        requires
            num1 == 3 * dd * f,
            dd == d * d,
            0 <= d <= f,
    ;
    let num2: u128 = 2 * dd * d;
    let num: u128 = num1 - num2;
    proof {
        assert(num1 as int == 3 * (d as int) * (d as int) * (f as int)) by (nonlinear_arith)
            requires
                num1 == 3 * dd * f,
                dd == d * d,
        ;
        assert(num2 as int == 2 * (d as int) * (d as int) * (d as int)) by (nonlinear_arith)
            requires
                num2 == 2 * dd * d,
                dd == d * d,
        ;
        assert(num == ease_num(d as int, f as int));
    }
    assert(MAX_SAMPLE as u128 * num <= u128::MAX) by (nonlinear_arith)
        requires
            num <= 3 * (0xffff_ffff * 0xffff_ffff) * 0xffff_ffff,
    ;
    let scaled: u128 = MAX_SAMPLE as u128 * num;
    assert(f3 > 0) by (nonlinear_arith)
        requires
            f3 == f * f * f,
            f > 0,
    ;
    let q: u128 = scaled / f3;
    proof {
        lemma_fade_spec_bounds(d as int, f as int);
        assert(f3 == (f as int) * (f as int) * (f as int)) by (nonlinear_arith)
            requires
                f3 == f * f * f,
        ;
        assert(q == fade_spec(d as int, f as int));
    }
    q as u16
}

} // verus!
