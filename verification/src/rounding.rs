//! Non-negative doubles and how IEEE 754 rounds to them.

use vstd::arithmetic::power2::{lemma2_to64, lemma2_to64_rest, lemma_pow2_unfold, pow2};
use vstd::prelude::*;

verus! {

/// The smallest mantissa: 2 to the power of 52.
pub const MANTISSA_MIN: u64 = 0x10_0000_0000_0000;

/// What every mantissa is less than: 2 to the power of 53.
pub const MANTISSA_END: u64 = 0x20_0000_0000_0000;

/// A non-negative double: `mantissa` times 2 to the power of `exponent`. The mantissa has 53
/// binary digits, but for zero, which is written with the exponent zero.
#[derive(Clone, Copy, Debug, PartialEq, Eq, Structural)]
pub struct Double {
    pub mantissa: u64,
    pub exponent: i32,
}

/// 2 to the power of `e`.
pub open spec fn power(e: int) -> real
    decreases
            (if e < 0 {
                -e
            } else {
                e
            }),
{
    if e == 0 {
        1real
    } else if e > 0 {
        2real * power(e - 1)
    } else {
        power(e + 1) / 2real
    }
}

impl Double {
    /// The mantissa has 53 binary digits, or the number is zero.
    pub open spec fn wf(self) -> bool {
        MANTISSA_MIN <= self.mantissa < MANTISSA_END || self == zero()
    }

    /// The number.
    pub open spec fn value(self) -> real {
        self.mantissa as real * power(self.exponent as int)
    }

    /// The exponent lies between `low` and `high`.
    pub open spec fn within(self, low: int, high: int) -> bool {
        self.wf() && low <= self.exponent <= high
    }
}

/// Zero.
pub open spec fn zero() -> Double {
    Double { mantissa: 0, exponent: 0 }
}

/// Whether `r`, in units of 2 to the power of `e`, has 53 binary digits before the point.
pub open spec fn in_binade(r: real, e: int) -> bool {
    MANTISSA_MIN as real * power(e) <= r && r < MANTISSA_END as real * power(e)
}

/// The exponent in which a positive number has 53 binary digits before the point.
pub open spec fn binade(r: real) -> int {
    choose|e: int| in_binade(r, e)
}

/// Whether a non-negative number is neither too large nor too small for an exponent.
pub open spec fn ordinary(r: real) -> bool {
    r == 0real || (in_binade(r, binade(r)) && -20000 < binade(r) < 20000)
}

/// The integer nearest to `q`; of two equally near ones, the even one.
pub open spec fn half_even(q: real) -> int {
    let below = q.floor();
    let rest = q - below as real;
    if 2real * rest < 1real || (2real * rest == 1real && below % 2 == 0) {
        below
    } else {
        below + 1
    }
}

/// The double nearest to a non-negative number; of two equally near ones, the even one.
pub open spec fn round(r: real) -> Double {
    if r <= 0real {
        zero()
    } else {
        let e = binade(r);
        let m = half_even(r / power(e));
        if m == MANTISSA_END {
            Double { mantissa: MANTISSA_MIN, exponent: (e + 1) as i32 }
        } else {
            Double { mantissa: m as u64, exponent: e as i32 }
        }
    }
}

/// An integer, cut off at zero and at `max`.
pub open spec fn saturated(n: int, max: int) -> int {
    if n < 0 {
        0
    } else if n > max {
        max
    } else {
        n
    }
}

/// The distance of two numbers.
pub open spec fn distance(a: real, b: real) -> real {
    if a <= b {
        b - a
    } else {
        a - b
    }
}

/// Rounding gives a double, and no other double is nearer.
#[verifier::spinoff_prover]
pub proof fn law_round_is_nearest(r: real, d: Double)
    requires
        0real <= r,
        ordinary(r),
        d.wf(),
    ensures
        round(r).wf(),
        distance(r, round(r).value()) <= distance(r, d.value()),
{
    if r == 0real {
        assert(0real * power(0) == 0real);
    } else {
        lemma_round_in_units(r);
        lemma_no_double_between(r, d);
        let p = power(binade(r));
        let q = r / p;
        let below = q.floor() as real;
        let m = half_even(q) as real;
        let rest = q - below;
        assert(r - below * p == rest * p && (below + 1real) * p - r == (1real - rest) * p)
            by (nonlinear_arith)
            requires
                r == q * p,
                rest == q - below,
        ;
        if 2real * rest <= 1real {
            assert(2real * (rest * p) <= p) by (nonlinear_arith)
                requires
                    p > 0real,
                    2real * rest <= 1real,
            ;
        }
        if 2real * rest >= 1real {
            assert(2real * (rest * p) >= p) by (nonlinear_arith)
                requires
                    p > 0real,
                    2real * rest >= 1real,
            ;
        }
        assert((1real - rest) * p == p - rest * p) by (nonlinear_arith);
        assert(rest * p >= 0real && (1real - rest) * p >= 0real) by (nonlinear_arith)
            requires
                p > 0real,
                0real <= rest,
                rest <= 1real,
        ;
        assert(m == below || m == below + 1real);
        if d.value() == r {
            assert(rest == 0real) by (nonlinear_arith)
                requires
                    p > 0real,
                    rest * p == 0real,
            ;
        }
    }
}

/// Rounding does not move a number past a double.
#[verifier::spinoff_prover]
pub proof fn law_round_stays_below(r: real, d: Double)
    requires
        0real <= r,
        ordinary(r),
        d.wf(),
        r <= d.value(),
    ensures
        round(r).value() <= d.value(),
{
    law_round_is_nearest(r, d);
    if r > 0real {
        lemma_no_double_between(r, d);
        lemma_round_in_units(r);
        let p = power(binade(r));
        let q = r / p;
        let below = q.floor();
        let m = half_even(q) as real;
        assert(m * p <= (below + 1) as real * p) by (nonlinear_arith)
            requires
                p > 0real,
                m <= (below + 1) as real,
        ;
    }
}

/// Rounding moves a number by no more than the part of it that 2 to the power of 53 gives.
#[verifier::spinoff_prover]
pub proof fn law_round_error(r: real)
    requires
        0real <= r,
        ordinary(r),
    ensures
        distance(r, round(r).value()) * MANTISSA_END as real <= r,
{
    if r == 0real {
        assert(0real * power(0) == 0real);
        assert(0real * MANTISSA_END as real == 0real);
    } else {
        lemma_round_in_units(r);
        let p = power(binade(r));
        let q = r / p;
        let m = half_even(q) as real;
        let up = m - q;
        let down = q - m;
        let off = distance(r, m * p);
        assert(m * p - r == up * p && r - m * p == down * p) by (nonlinear_arith)
            requires
                r == q * p,
                up == m - q,
                down == q - m,
        ;
        assert(2real * (up * p) <= p) by (nonlinear_arith)
            requires
                p > 0real,
                2real * up <= 1real,
        ;
        assert(2real * (down * p) <= p) by (nonlinear_arith)
            requires
                p > 0real,
                2real * down <= 1real,
        ;
        assert(2real * off <= p);
        let c = MANTISSA_MIN as real;
        assert(MANTISSA_MIN as real * p <= r);
        assert(MANTISSA_END as real == 2real * c);
        assert(off * (2real * c) <= c * p) by (nonlinear_arith)
            requires
                2real * off <= p,
                c > 0real,
        ;
    }
}

#[verifier::spinoff_prover]
pub proof fn lemma_power_step(e: int)
    ensures
        power(e + 1) == 2real * power(e),
{
}

#[verifier::spinoff_prover]
pub proof fn lemma_power_positive(e: int)
    ensures
        power(e) > 0real,
    decreases
            (if e < 0 {
                -e
            } else {
                e
            }),
{
    if e > 0 {
        lemma_power_positive(e - 1);
    } else if e < 0 {
        lemma_power_positive(e + 1);
    }
}

#[verifier::spinoff_prover]
pub proof fn lemma_power_adds(a: int, b: int)
    ensures
        power(a + b) == power(a) * power(b),
    decreases
            (if b < 0 {
                -b
            } else {
                b
            }),
{
    if b > 0 {
        lemma_power_adds(a, b - 1);
        lemma_power_step(a + b - 1);
        assert(2real * (power(a) * power(b - 1)) == power(a) * (2real * power(b - 1)))
            by (nonlinear_arith);
    } else if b < 0 {
        lemma_power_adds(a, b + 1);
        lemma_power_step(a + b);
        assert(2real * (power(a) * power(b)) == power(a) * (2real * power(b)))
            by (nonlinear_arith);
    } else {
        assert(power(a) * 1real == power(a)) by (nonlinear_arith);
    }
}

#[verifier::spinoff_prover]
pub proof fn lemma_power_monotone(a: int, b: int)
    requires
        a <= b,
    ensures
        power(a) <= power(b),
    decreases b - a,
{
    if a < b {
        lemma_power_monotone(a, b - 1);
        lemma_power_step(b - 1);
        lemma_power_positive(b - 1);
    }
}

#[verifier::spinoff_prover]
pub proof fn lemma_power_is_pow2(k: nat)
    ensures
        power(k as int) == pow2(k) as real,
    decreases k,
{
    if k == 0 {
        lemma2_to64();
    } else {
        lemma_power_is_pow2((k - 1) as nat);
        lemma_pow2_unfold(k);
    }
}

#[verifier::spinoff_prover]
pub proof fn lemma_binade_end(e: int, f: int)
    requires
        e < f,
    ensures
        MANTISSA_END as real * power(e) <= MANTISSA_MIN as real * power(f),
{
    lemma_power_monotone(e + 1, f);
    lemma_power_step(e);
    assert(MANTISSA_END as real * power(e) <= MANTISSA_MIN as real * power(f))
        by (nonlinear_arith)
        requires
            2real * power(e) <= power(f),
    ;
}

/// A positive number has one exponent in which it has 53 binary digits before the point.
#[verifier::spinoff_prover]
proof fn lemma_binade_unique(r: real, e: int)
    requires
        in_binade(r, e),
    ensures
        binade(r) == e,
{
    let f = binade(r);
    assert(in_binade(r, f));
    if e < f {
        lemma_binade_end(e, f);
    } else if f < e {
        lemma_binade_end(f, e);
    }
}

/// A number with 53 binary digits before the point, times a power of two.
#[verifier::spinoff_prover]
pub proof fn lemma_in_binade(x: real, e: int)
    requires
        MANTISSA_MIN as real <= x,
        x < MANTISSA_END as real,
    ensures
        in_binade(x * power(e), e),
        binade(x * power(e)) == e,
        x * power(e) > 0real,
        x * power(e) / power(e) == x,
{
    let p = power(e);
    let r = x * p;
    lemma_power_positive(e);
    assert(in_binade(r, e)) by {
        assert(MANTISSA_MIN as real * p <= r && r < MANTISSA_END as real * p) by (nonlinear_arith)
            requires
                p > 0real,
                MANTISSA_MIN as real <= x,
                x < MANTISSA_END as real,
                r == x * p,
        ;
    }
    lemma_binade_unique(r, e);
    assert(r / p == x) by (nonlinear_arith)
        requires
            p > 0real,
            r == x * p,
    ;
    assert(r > 0real) by (nonlinear_arith)
        requires
            p > 0real,
            x >= 1real,
            r == x * p,
    ;
}

/// A quotient, multiplied by the divisor.
pub proof fn lemma_quotient(w: real, t: real)
    by (nonlinear_arith)
    requires
        t != 0real,
    ensures
        (w / t) * t == w,
{
}

/// What gives `w` when multiplied by `t` is the quotient of `w` and `t`.
#[verifier::spinoff_prover]
pub proof fn lemma_is_quotient(w: real, t: real, x: real)
    requires
        t != 0real,
        x * t == w,
    ensures
        w / t == x,
{
    lemma_quotient(w, t);
    let y = w / t;
    assert(x == y) by (nonlinear_arith)
        requires
            t != 0real,
            x * t == y * t,
    ;
}

/// A product of integers as a real number.
pub proof fn lemma_product_as_real(a: int, b: int)
    by (nonlinear_arith)
    ensures
        (a * b) as real == a as real * b as real,
{
}

/// How the rounded quotient of two integers follows from the integer quotient.
#[verifier::spinoff_prover]
pub proof fn lemma_round_quotient(n: int, d: int, e: int)
    requires
        0 < d,
        d * MANTISSA_MIN <= n < d * MANTISSA_END,
        -100000 < e < 100000,
    ensures
        ({
            let r = n as real / d as real * power(e);
            let q = n / d;
            let rest = n % d;
            let m = if 2 * rest < d || (2 * rest == d && q % 2 == 0) {
                q
            } else {
                q + 1
            };
            &&& r > 0real
            &&& MANTISSA_MIN <= q < MANTISSA_END
            &&& in_binade(r, e)
            &&& binade(r) == e
            &&& half_even(r / power(e)) == m
        }),
{
    let x = n as real / d as real;
    let p = power(e);
    let r = x * p;
    let q = n / d;
    let rest = n % d;
    lemma_power_positive(e);
    assert(n == d * q + rest && 0 <= rest < d) by (nonlinear_arith)
        requires
            d > 0,
            q == n / d,
            rest == n % d,
    ;
    assert(MANTISSA_MIN <= q < MANTISSA_END) by (nonlinear_arith)
        requires
            d > 0,
            n == d * q + rest,
            0 <= rest < d,
            d * MANTISSA_MIN <= n < d * MANTISSA_END,
    ;
    assert(n as real == d as real * q as real + rest as real) by {
        lemma_product_as_real(d, q);
    }
    assert(x == q as real + rest as real / d as real) by (nonlinear_arith)
        requires
            d as real > 0real,
            n as real == d as real * q as real + rest as real,
            x == n as real / d as real,
    ;
    let frac = rest as real / d as real;
    assert(0real <= frac && frac < 1real) by (nonlinear_arith)
        requires
            0real <= rest as real,
            (rest as real) < (d as real),
            frac == rest as real / d as real,
    ;
    assert((2real * frac < 1real) == (2 * rest < d)) by (nonlinear_arith)
        requires
            d as real > 0real,
            frac == rest as real / d as real,
    ;
    assert((2real * frac == 1real) == (2 * rest == d)) by (nonlinear_arith)
        requires
            d as real > 0real,
            frac == rest as real / d as real,
    ;
    assert(x.floor() == q);
    assert(r / p == x) by (nonlinear_arith)
        requires
            p > 0real,
            r == x * p,
    ;
    assert(r > 0real) by (nonlinear_arith)
        requires
            p > 0real,
            x >= 1real,
            r == x * p,
    ;
    assert(in_binade(r, e)) by {
        assert(MANTISSA_MIN as real * p <= r && r < MANTISSA_END as real * p) by (nonlinear_arith)
            requires
                p > 0real,
                MANTISSA_MIN as real <= x,
                x < MANTISSA_END as real,
                r == x * p,
        ;
    }
    lemma_binade_unique(r, e);
}

/// A double is nearest to itself.
#[verifier::spinoff_prover]
pub proof fn lemma_round_exact(d: Double)
    requires
        d.wf(),
        -10000 < d.exponent < 10000,
    ensures
        round(d.value()) == d,
        ordinary(d.value()),
{
    let m = d.mantissa as int;
    let e = d.exponent as int;
    lemma_power_positive(e);
    if m > 0 {
        lemma_round_quotient(m, 1, e);
        assert(m as real / 1real * power(e) == d.value());
    } else {
        assert(d.value() == 0real);
    }
}

/// A positive number lies in a unit in which it has 53 binary digits before the point, and is
/// rounded to an integer of such units.
#[verifier::spinoff_prover]
proof fn lemma_round_in_units(r: real)
    requires
        r > 0real,
        ordinary(r),
    ensures
        ({
            let p = power(binade(r));
            let q = r / p;
            &&& p > 0real
            &&& r == q * p
            &&& MANTISSA_MIN as real <= q
            &&& q < MANTISSA_END as real
            &&& MANTISSA_MIN <= q.floor() < MANTISSA_END
            &&& MANTISSA_MIN <= half_even(q) <= MANTISSA_END
            &&& round(r).value() == half_even(q) as real * p
            &&& round(r).wf()
            &&& round(r).mantissa > 0
        }),
{
    let e = binade(r);
    let p = power(e);
    let q = r / p;
    lemma_power_positive(e);
    lemma_power_step(e);
    assert(MANTISSA_MIN as real <= q && q < MANTISSA_END as real && r == q * p) by (nonlinear_arith)
        requires
            p > 0real,
            q == r / p,
            MANTISSA_MIN as real * p <= r,
            r < MANTISSA_END as real * p,
    ;
    assert(MANTISSA_MIN <= q.floor() < MANTISSA_END);
    assert(MANTISSA_MIN as real * (2real * p) == MANTISSA_END as real * p) by (nonlinear_arith);
}

/// No double lies strictly between a number and the integers of its unit around it.
#[verifier::spinoff_prover]
proof fn lemma_no_double_between(r: real, d: Double)
    requires
        r > 0real,
        ordinary(r),
        d.wf(),
    ensures
        ({
            let p = power(binade(r));
            let below = (r / p).floor();
            &&& d.value() < r ==> d.value() <= below as real * p
            &&& d.value() > r ==> d.value() >= (below + 1) as real * p
            &&& d.value() == r ==> r == below as real * p
        }),
{
    lemma_round_in_units(r);
    let e = binade(r);
    let p = power(e);
    let q = r / p;
    let below = q.floor();
    let f = d.exponent as int;
    let n = d.mantissa as real;
    let u = power(f);
    lemma_power_positive(f);
    assert(0real < below as real * p) by (nonlinear_arith)
        requires
            p > 0real,
            below as real >= 1real,
    ;
    if d.mantissa == 0 {
        assert(0real * u == 0real);
    } else if f < e {
        lemma_binade_end(f, e);
        assert(n * u < MANTISSA_END as real * u) by (nonlinear_arith)
            requires
                n < MANTISSA_END as real,
                u > 0real,
        ;
        assert(MANTISSA_MIN as real * p <= below as real * p) by (nonlinear_arith)
            requires
                p > 0real,
                MANTISSA_MIN as real <= below as real,
        ;
        assert(below as real * p <= q * p) by (nonlinear_arith)
            requires
                p > 0real,
                below as real <= q,
        ;
    } else {
        let k = f - e;
        lemma_power_adds(k, e);
        lemma_power_is_pow2(k as nat);
        let scaled = d.mantissa * pow2(k as nat);
        lemma_product_as_real(d.mantissa as int, pow2(k as nat) as int);
        let s = scaled as real;
        assert(d.value() == s * p) by (nonlinear_arith)
            requires
                d.value() == n * (power(k) * p),
                s == n * power(k),
        ;
        if d.value() < r {
            assert(s < q) by (nonlinear_arith)
                requires
                    p > 0real,
                    s * p < q * p,
            ;
            assert(scaled <= below);
            assert(s * p <= below as real * p) by (nonlinear_arith)
                requires
                    p > 0real,
                    s <= below as real,
            ;
        } else if d.value() > r {
            assert(s > q) by (nonlinear_arith)
                requires
                    p > 0real,
                    s * p > q * p,
            ;
            assert(scaled >= below + 1);
            assert(s * p >= (below + 1) as real * p) by (nonlinear_arith)
                requires
                    p > 0real,
                    s >= (below + 1) as real,
            ;
        } else {
            assert(s == q) by (nonlinear_arith)
                requires
                    p > 0real,
                    s * p == q * p,
            ;
            assert(scaled == below);
        }
    }
}

/// A number between two powers of two has an exponent in which it has 53 binary digits before the
/// point.
#[verifier::spinoff_prover]
pub proof fn lemma_ordinary(r: real, low: int, high: int)
    requires
        power(low) <= r,
        r <= power(high),
        -10000 <= low <= high <= 10000,
    ensures
        ordinary(r),
        r > 0real,
        round(r).within(low - 52, high - 52),
{
    lemma_power_positive(low);
    lemma_power_is_pow2(52);
    lemma2_to64_rest();
    lemma_power_adds(52, low - 52);
    lemma_power_adds(52, high - 51);
    lemma_power_step(high);
    lemma_power_positive(high);
    lemma_binade_exists(r, low - 52, high - 51);
    lemma_round_in_units(r);
    if binade(r) == high - 52 {
        lemma_power_adds(52, high - 52);
        lemma_in_binade(MANTISSA_MIN as real, high - 52);
    }
}

#[verifier::spinoff_prover]
proof fn lemma_binade_exists(r: real, low: int, high: int)
    requires
        MANTISSA_MIN as real * power(low) <= r,
        r < MANTISSA_MIN as real * power(high),
        -15000 < low,
        high < 15000,
    ensures
        in_binade(r, binade(r)),
        low <= binade(r) < high,
    decreases high - low,
{
    lemma_power_step(high - 1);
    if high <= low {
        lemma_power_monotone(high, low);
        let p = power(high);
        let q = power(low);
        assert(MANTISSA_MIN as real * p <= MANTISSA_MIN as real * q) by (nonlinear_arith)
            requires
                p <= q,
        ;
    } else if MANTISSA_MIN as real * power(high - 1) <= r {
        assert(MANTISSA_MIN as real * (2real * power(high - 1)) == MANTISSA_END as real * power(
            high - 1,
        )) by (nonlinear_arith);
        assert(in_binade(r, high - 1));
        lemma_binade_unique(r, high - 1);
    } else {
        lemma_binade_exists(r, low, high - 1);
    }
}

/// If another double is just as near, the one that is given has an even mantissa.
#[verifier::spinoff_prover]
pub proof fn law_round_ties_to_even(r: real, d: Double)
    requires
        0real < r,
        ordinary(r),
        d.wf(),
        d.value() != round(r).value(),
        distance(r, d.value()) == distance(r, round(r).value()),
    ensures
        round(r).mantissa % 2 == 0,
{
    lemma_round_in_units(r);
    lemma_no_double_between(r, d);
    let p = power(binade(r));
    let q = r / p;
    let below = q.floor() as real;
    let rest = q - below;
    assert(r - below * p == rest * p && (below + 1real) * p - r == (1real - rest) * p)
        by (nonlinear_arith)
        requires
            r == q * p,
            rest == q - below,
    ;
    assert((1real - rest) * p == p - rest * p) by (nonlinear_arith);
    if 2real * rest < 1real {
        assert(2real * (rest * p) < p) by (nonlinear_arith)
            requires
                p > 0real,
                2real * rest < 1real,
        ;
    }
    if 2real * rest > 1real {
        assert(2real * (rest * p) > p) by (nonlinear_arith)
            requires
                p > 0real,
                2real * rest > 1real,
        ;
    }
    assert(rest * p >= 0real && (1real - rest) * p >= 0real) by (nonlinear_arith)
        requires
            p > 0real,
            0real <= rest,
            rest <= 1real,
    ;
}

/// Each power of two is twice the one before, and one is the first that is an integer.
pub proof fn law_powers_double(e: int)
    ensures
        power(0) == 1real,
        power(e + 1) == 2real * power(e),
        power(e) > 0real,
{
    lemma_power_step(e);
    lemma_power_positive(e);
}

/// An integer is cut off at zero and at the maximum, and otherwise kept.
pub proof fn law_saturated_is_between(n: int, max: int)
    requires
        0 <= max,
    ensures
        0 <= saturated(n, max) <= max,
        0 <= n <= max ==> saturated(n, max) == n,
        n < 0 ==> saturated(n, max) == 0,
        n > max ==> saturated(n, max) == max,
{
}

} // verus!
