//! Fixed-point arithmetic.
//!
//! Every frequency and weight in the library is an integer multiple of
//! `1 / FP`: the value 1.0 is stored as `FP`. Products of two fixed-point
//! values are scaled back by `FP` with `mul_fp`, so the scoring formulas read
//! like their real-valued counterparts. All aggregation runs in `i128`, whose
//! range the caps below keep far from overflow.

use vstd::prelude::*;

verus! {

/// The fixed-point unit: 1.0 is stored as `FP`.
pub const FP: i64 = 100_000_000;

/// Upper cap on any frequency (frequencies are fractions of a stream, at most
/// 1.0).
pub const FREQ_CAP: i64 = 100_000_000;

/// Upper cap on any configured weight (100.0 in fixed point).
pub const WEIGHT_CAP: i64 = 10_000_000_000;

/// Upper cap on a finger-speed distance (200.0 in fixed point).
pub const DIST_CAP: i64 = 20_000_000_000;

/// Upper cap on an effort-map entry.
pub const EFFORT_CAP: i64 = 200_000_000_000;

/// Upper cap on the number of trigram entries a model may hold.
pub const TRIGRAM_CAP: usize = 1_000_000;

/// Cap on the operands of `mul_fp`; far above anything the scorer produces.
pub const MUL_CAP: i128 = 1_000_000_000_000_000_000_000_000_000_000;

/// The fixed-point product of two non-negative values.
pub open spec fn spec_mul_fp(a: int, b: int) -> int {
    (a * b) / (FP as int)
}

/// Multiply two non-negative fixed-point values and scale back by `FP`.
pub fn mul_fp(a: i128, b: i128) -> (r: i128)
    requires
        0 <= a <= MUL_CAP,
        0 <= b <= MUL_CAP,
        a * b <= MUL_CAP,
    ensures
        r == spec_mul_fp(a as int, b as int),
        0 <= r,
        r <= a * b,
        (r as int) * (FP as int) <= a * b,
{
    proof {
        vstd::arithmetic::mul::lemma_mul_nonnegative(a as int, b as int);
        vstd::arithmetic::div_mod::lemma_div_nonincreasing(a * b, FP as int);
        vstd::arithmetic::div_mod::lemma_div_pos_is_pos(a * b, FP as int);
        vstd::arithmetic::div_mod::lemma_fundamental_div_mod(a * b, FP as int);
        vstd::arithmetic::div_mod::lemma_mod_bound(a * b, FP as int);
    }
    let p: u128 = (a as u128) * (b as u128);
    let q: u128 = p / (FP as u128);
    q as i128
}

/// A product of values below the given bounds stays below their product.
pub proof fn lemma_mul_fp_bound(a: int, b: int, ca: int, cb: int)
    requires
        0 <= a <= ca,
        0 <= b <= cb,
    ensures
        0 <= spec_mul_fp(a, b),
        spec_mul_fp(a, b) <= (ca * cb) / (FP as int),
        a * b <= ca * cb,
    {
    vstd::arithmetic::mul::lemma_mul_upper_bound(a, ca, b, cb);
    vstd::arithmetic::mul::lemma_mul_nonnegative(a, b);
    vstd::arithmetic::div_mod::lemma_div_is_ordered(a * b, ca * cb, FP as int);
    vstd::arithmetic::div_mod::lemma_div_pos_is_pos(a * b, FP as int);
}

/// Integer square root, rounded down.
pub fn isqrt(x: u128) -> (r: u128)
    ensures
        (r as int) * (r as int) <= x,
        x < ((r + 1) as int) * ((r + 1) as int),
{
    if x == 0 {
        return 0;
    }
    let mut lo: u128 = 0;
    let mut hi: u128 = x;
    // Invariant: lo*lo <= x < (hi+1)*(hi+1).
    proof {
        assert((x + 1) * (x + 1) > x) by (nonlinear_arith)
            requires
                x >= 1,
        ;
    }
    while lo < hi
        invariant
            (lo as int) * (lo as int) <= x,
            x < ((hi + 1) as int) * ((hi + 1) as int),
            lo <= hi <= x,
        decreases hi - lo,
    {
        let mid: u128 = lo + (hi - lo) / 2 + 1;
        proof {
            assert(lo < mid <= hi);
        }
        if mid <= x / mid {
            proof {
                vstd::arithmetic::div_mod::lemma_fundamental_div_mod(x as int, mid as int);
                assert((mid as int) * (mid as int) <= x) by (nonlinear_arith)
                    requires
                        mid >= 1,
                        mid <= x / mid,
                        x == (mid as int) * (x as int / mid as int) + (x as int) % (mid as int),
                        0 <= (x as int) % (mid as int),
                ;
            }
            lo = mid;
        } else {
            proof {
                vstd::arithmetic::div_mod::lemma_fundamental_div_mod(x as int, mid as int);
                assert(x < (mid as int) * (mid as int)) by (nonlinear_arith)
                    requires
                        mid >= 1,
                        mid > x / mid,
                        x == (mid as int) * (x as int / mid as int) + (x as int) % (mid as int),
                        (x as int) % (mid as int) < mid,
                ;
            }
            hi = mid - 1;
        }
    }
    lo
}

} // verus!
