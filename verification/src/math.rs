//! Integer square root: the mathematical definition, its defining
//! properties, and a verified executable binary search.

use vstd::prelude::*;

verus! {

/// Floor of the real square root of `x`.
pub open spec fn sqrt_floor(x: nat) -> nat
    decreases x,
{
    if x == 0 {
        0
    } else {
        let r = sqrt_floor((x - 1) as nat);
        if (r + 1) * (r + 1) <= x {
            r + 1
        } else {
            r
        }
    }
}

/// `sqrt_floor(x)` is the unique `r` with `r * r <= x < (r + 1) * (r + 1)`.
pub proof fn lemma_sqrt_floor_props(x: nat)
    ensures
        sqrt_floor(x) * sqrt_floor(x) <= x,
        x < (sqrt_floor(x) + 1) * (sqrt_floor(x) + 1),
    decreases x,
{
    if x > 0 {
        lemma_sqrt_floor_props((x - 1) as nat);
        let r = sqrt_floor((x - 1) as nat);
        if (r + 1) * (r + 1) <= x {
            assert(sqrt_floor(x) == r + 1);
            assert(x - 1 < (r + 1) * (r + 1));
            assert(x < (r + 2) * (r + 2)) by (nonlinear_arith)
                requires
                    x <= (r + 1) * (r + 1),
            ;
            assert(x < (sqrt_floor(x) + 1) * (sqrt_floor(x) + 1));
        } else {
            assert(sqrt_floor(x) == r);
            assert(r * r <= x - 1);
            assert(x < (r + 1) * (r + 1));
            assert(x < (sqrt_floor(x) + 1) * (sqrt_floor(x) + 1));
        }
    } else {
        let s = sqrt_floor(x);
        assert(s == 0);
        assert(x < (s + 1) * (s + 1)) by (nonlinear_arith)
            requires
                s == 0,
                x == 0,
        ;
    }
}

/// Squaring is monotone over the naturals.
pub proof fn lemma_square_monotone(a: nat, b: nat)
    requires
        a <= b,
    ensures
        a * a <= b * b,
{
    assert(a * a <= b * b) by (nonlinear_arith)
        requires
            0 <= a <= b,
    ;
}

/// Any `r` with `r * r <= x < (r + 1) * (r + 1)` equals `sqrt_floor(x)`.
pub proof fn lemma_sqrt_floor_unique(x: nat, r: nat)
    requires
        r * r <= x,
        x < (r + 1) * (r + 1),
    ensures
        r == sqrt_floor(x),
{
    let s = sqrt_floor(x);
    lemma_sqrt_floor_props(x);
    if r < s {
        lemma_square_monotone(r + 1, s);
        assert(false);
    }
    if s < r {
        lemma_square_monotone(s + 1, r);
        assert(false);
    }
}

/// The integer square root is monotone.
pub proof fn lemma_sqrt_floor_monotone(x: nat, y: nat)
    requires
        x <= y,
    ensures
        sqrt_floor(x) <= sqrt_floor(y),
{
    let a = sqrt_floor(x);
    let b = sqrt_floor(y);
    lemma_sqrt_floor_props(x);
    lemma_sqrt_floor_props(y);
    if b < a {
        lemma_square_monotone(b + 1, a);
        assert(false);
    }
}

/// The exact square of a natural is its own square root's square.
pub proof fn lemma_sqrt_floor_of_square(r: nat)
    ensures
        sqrt_floor(r * r) == r,
{
    assert(r * r < (r + 1) * (r + 1)) by (nonlinear_arith);
    lemma_sqrt_floor_unique(r * r, r);
}

/// Executable integer square root by binary search.
pub fn isqrt(x: u128) -> (r: u64)
    ensures
        r as nat == sqrt_floor(x as nat),
{
    let mut lo: u128 = 0;
    let mut hi: u128 = 0x1_0000_0000_0000_0000;
    proof {
        assert((hi as int) * (hi as int) > x as int) by (nonlinear_arith)
            requires
                hi == 0x1_0000_0000_0000_0000,
                x <= u128::MAX,
        ;
    }
    while lo + 1 < hi
        invariant
            lo < hi <= 0x1_0000_0000_0000_0000,
            lo * lo <= x,
            (hi as int) * (hi as int) > x as int,
        decreases hi - lo,
    {
        let mid = lo + (hi - lo) / 2;
        assert(lo < mid < hi);
        assert(mid * mid <= u128::MAX) by (nonlinear_arith)
            requires
                mid < 0x1_0000_0000_0000_0000,
        ;
        if mid * mid <= x {
            lo = mid;
        } else {
            hi = mid;
        }
    }
    proof {
        assert(hi == lo + 1);
        lemma_sqrt_floor_unique(x as nat, lo as nat);
    }
    lo as u64
}

} // verus!
