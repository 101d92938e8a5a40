//! How far rounding moves a number.

use vstd::arithmetic::power2::{lemma2_to64, lemma2_to64_rest, lemma_pow2_adds};
use vstd::prelude::*;

use crate::coord::Coord;
use crate::rounding::{
    distance, law_round_error, lemma_ordinary, lemma_power_adds, lemma_power_is_pow2, ordinary,
    power, round, MANTISSA_END,
};

verus! {

/// The number of roundings that add up to the whole.
pub open spec fn scale() -> real {
    MANTISSA_END as real
}

/// Whether `d` is at most one rounding away from `r`.
pub open spec fn near(d: real, r: real) -> bool {
    distance(r, d) * scale() <= r
}

/// Whether `d` lies within `k` of `r`.
pub open spec fn within(d: real, r: real, k: real) -> bool {
    r - k <= d && d <= r + k
}

/// One rounding of a number that is not larger than `k * u * scale()` moves it by at most `k * u`.
#[verifier::spinoff_prover]
pub proof fn lemma_rounding_moves(d: real, r: real, k: real, u: real)
    requires
        near(d, r),
        r <= k * (u * scale()),
    ensures
        within(d, r, k * u),
{
    let c = scale();
    let off = distance(r, d);
    assert(off <= k * u) by (nonlinear_arith)
        requires
            off * c <= k * (u * c),
            c > 0real,
    ;
}

/// The error of one rounding, without regard to its direction.
#[verifier::spinoff_prover]
pub proof fn lemma_near_both_ways(d: real, r: real)
    requires
        near(d, r),
        0real <= r,
    ensures
        (d - r) * scale() <= r,
        (r - d) * scale() <= r,
{
    let c = scale();
    let off = distance(r, d);
    assert(-off * c <= r) by (nonlinear_arith)
        requires
            off >= 0real,
            c > 0real,
            r >= 0real,
    ;
}

/// One rounding of a number that is not larger than `k` moves it by far less than `k`.
#[verifier::spinoff_prover]
pub proof fn lemma_small_error(d: real, r: real, k: real)
    requires
        near(d, r),
        r <= k,
    ensures
        within(d, r, k / 1000000000000real),
{
    let c = scale();
    let off = distance(r, d);
    assert(off * 1000000000000real <= off * c) by (nonlinear_arith)
        requires
            0real <= off,
            1000000000000real <= c,
    ;
}

/// Zero and numbers of a middling size have an exponent.
#[verifier::spinoff_prover]
pub proof fn lemma_medium(r: real)
    requires
        r == 0real || 1real <= r * 1208925819614629174706176real,
        r <= 1152921504606846976real,
    ensures
        ordinary(r),
        near(round(r).value(), r),
        round(r).within(-132, 8),
        Coord::fits(round(r)),
{
    lemma_power_is_pow2(80);
    lemma_power_is_pow2(60);
    lemma2_to64();
    lemma2_to64_rest();
    lemma_pow2_adds(64, 16);
    lemma_power_adds(80, -80);
    let p = power(-80);
    if r != 0real {
        assert(p <= r) by (nonlinear_arith)
            requires
                1208925819614629174706176real * p == 1real,
                1real <= r * 1208925819614629174706176real,
        ;
        lemma_ordinary(r, -80, 60);
    }
    law_round_error(r);
}

} // verus!
