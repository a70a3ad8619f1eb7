//! Integer square roots: the floor of the real square root of a non-negative
//! integer, as a specification together with a verified binary search.

use vstd::prelude::*;

verus! {

/// The largest argument the executable square root accepts: `2^126`, so that
/// the square of every binary-search midpoint fits in an `i128`.
pub const SQRT_ARG_LIMIT: i128 = 0x4000_0000_0000_0000_0000_0000_0000_0000;

/// `r` is the floor of the square root of `x`.
pub open spec fn is_sqrt_floor(x: int, r: int) -> bool {
    0 <= r && r * r <= x && x < (r + 1) * (r + 1)
}

/// The floor of the square root of a non-negative integer.
pub open spec fn sqrt_floor(x: int) -> int {
    choose|r: int| is_sqrt_floor(x, r)
}

/// For every non-negative integer the floor square root exists, so
/// `sqrt_floor` satisfies its defining property.
pub proof fn lemma_sqrt_floor_exists(x: int)
    requires
        0 <= x,
    ensures
        is_sqrt_floor(x, sqrt_floor(x)),
    decreases x,
{
    if x == 0 {
        assert(is_sqrt_floor(0, 0));
    } else {
        lemma_sqrt_floor_exists(x - 1);
        let r = sqrt_floor(x - 1);
        if (r + 1) * (r + 1) <= x {
            assert(x - 1 < (r + 1) * (r + 1));
            assert((r + 1) * (r + 1) < (r + 2) * (r + 2)) by (nonlinear_arith)
                requires 0 <= r;
            assert(is_sqrt_floor(x, r + 1));
        } else {
            assert(is_sqrt_floor(x, r));
        }
    }
}

/// The floor square root is unique: any witness equals `sqrt_floor`.
pub proof fn lemma_sqrt_floor_unique(x: int, r: int)
    requires
        is_sqrt_floor(x, r),
    ensures
        r == sqrt_floor(x),
{
    let rr = sqrt_floor(x);
    assert(is_sqrt_floor(x, rr));
    if r < rr {
        assert((r + 1) * (r + 1) <= rr * rr) by (nonlinear_arith)
            requires 0 <= r + 1, r + 1 <= rr;
        assert(false);
    } else if rr < r {
        assert((rr + 1) * (rr + 1) <= r * r) by (nonlinear_arith)
            requires 0 <= rr + 1, rr + 1 <= r;
        assert(false);
    }
}

/// The floor square root of a perfect square `k * k` is `k`.
pub proof fn lemma_sqrt_floor_square(k: int)
    requires
        0 <= k,
    ensures
        sqrt_floor(k * k) == k,
{
    assert(is_sqrt_floor(k * k, k)) by (nonlinear_arith)
        requires 0 <= k;
    lemma_sqrt_floor_unique(k * k, k);
}

/// If `x <= b * b` then its floor square root is at most `b`.
pub proof fn lemma_sqrt_floor_le(x: int, b: int)
    requires
        0 <= x,
        0 <= b,
        x <= b * b,
    ensures
        0 <= sqrt_floor(x) <= b,
{
    lemma_sqrt_floor_exists(x);
    let r = sqrt_floor(x);
    if b < r {
        assert(b * b < r * r) by (nonlinear_arith)
            requires 0 <= b, b < r;
        assert(false);
    }
}

/// The floor square root is zero exactly on zero.
pub proof fn lemma_sqrt_floor_zero_iff(x: int)
    requires
        0 <= x,
    ensures
        sqrt_floor(x) == 0 <==> x == 0,
{
    lemma_sqrt_floor_exists(x);
    let r = sqrt_floor(x);
    if r == 0 {
        assert(x < 1);
    } else {
        assert(1 <= r * r) by (nonlinear_arith)
            requires 1 <= r;
    }
}

/// Floor square root of a non-negative integer below `SQRT_ARG_LIMIT`,
/// by binary search.
pub fn isqrt(x: i128) -> (r: i128)
    requires
        0 <= x < SQRT_ARG_LIMIT,
    ensures
        r == sqrt_floor(x as int),
        is_sqrt_floor(x as int, r as int),
{
    let mut lo: i128 = 0;
    let mut hi: i128 = 0x8000_0000_0000_0000;
    proof {
        assert((0x8000_0000_0000_0000 + 1) * (0x8000_0000_0000_0000 + 1) > SQRT_ARG_LIMIT as int)
            by (nonlinear_arith);
    }
    while lo < hi
        invariant
            0 <= lo <= hi <= 0x8000_0000_0000_0000,
            0 <= x < SQRT_ARG_LIMIT,
            (lo as int) * (lo as int) <= x as int,
            (x as int) < ((hi as int) + 1) * ((hi as int) + 1),
        decreases hi - lo,
    {
        let mid: i128 = lo + (hi - lo + 1) / 2;
        proof {
            assert(lo < mid <= hi);
            assert((mid as int) * (mid as int) <= SQRT_ARG_LIMIT as int) by (nonlinear_arith)
                requires 0 <= mid as int <= 0x8000_0000_0000_0000;
        }
        let sqv = mid * mid;
        if sqv <= x {
            lo = mid;
        } else {
            hi = mid - 1;
        }
    }
    proof {
        lemma_sqrt_floor_unique(x as int, lo as int);
    }
    lo
}

} // verus!
