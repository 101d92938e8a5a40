//! Arithmetic on non-negative doubles, rounded as IEEE 754 demands.

use vstd::arithmetic::div_mod::{lemma_fundamental_div_mod, lemma_mod_bound};
use vstd::arithmetic::mul::{
    lemma_mul_nonnegative, lemma_mul_strictly_positive, lemma_mul_upper_bound,
};
use vstd::arithmetic::power2::{
    lemma2_to64, lemma2_to64_rest, lemma_pow2_adds, lemma_pow2_strictly_increases, lemma_pow2_unfold,
    pow2,
};
use vstd::prelude::*;

use crate::rounding::{
    lemma_binade_end, lemma_in_binade, lemma_is_quotient, lemma_power_adds, lemma_power_is_pow2,
    lemma_power_monotone, lemma_power_positive, lemma_power_step, lemma_product_as_real,
    lemma_quotient, lemma_round_exact, lemma_round_quotient, ordinary, power, round, saturated,
    zero, Double, MANTISSA_END, MANTISSA_MIN,
};

verus! {

/// The double nearest to `num / den` times 2 to the power of `exp`.
#[verifier::spinoff_prover]
fn round_quotient(num: u128, den: u64, exp: i32) -> (r: Double)
    requires
        0 < num < 0x40_0000_0000_0000_0000_0000_0000_0000,
        0 < den < MANTISSA_END,
        -10000 < exp < 10000,
    ensures
        r == round(num as real / den as real * power(exp as int)),
        ordinary(num as real / den as real * power(exp as int)),
        r.wf(),
        r.mantissa > 0,
        exp - 118 <= r.exponent <= exp + 67,
{
    let ghost exact = num as real / den as real * power(exp as int);
    let mut n: u128 = num;
    let mut d: u128 = den as u128;
    let mut e: i32 = exp;
    assert(pow2(0) == 1) by {
        lemma2_to64();
    }
    while n < d * 0x10_0000_0000_0000
        invariant
            0 < n < 0x40_0000_0000_0000_0000_0000_0000_0000,
            d == den,
            0 < den < MANTISSA_END,
            -10000 < exp < 10000,
            exp - 118 <= e <= exp,
            n >= pow2((exp - e) as nat),
            exact == n as real / d as real * power(e as int),
        decreases d * 0x20_0000_0000_0000 - n,
    {
        proof {
            lemma_double_numerator(n as int, d as int, e as int);
            lemma_pow2_unfold((exp - e + 1) as nat);
            lemma_large_powers();
            if exp - e + 1 > 118 {
                lemma_pow2_strictly_increases(118, (exp - e + 1) as nat);
            }
        }
        n = n * 2;
        e = e - 1;
    }
    let ghost first = e;
    while n >= d * 0x20_0000_0000_0000
        invariant
            0 < n < 0x40_0000_0000_0000_0000_0000_0000_0000,
            d * 0x10_0000_0000_0000 <= n,
            0 < d < 0x4_0000_0000_0000_0000,
            -10000 < exp < 10000,
            exp - 118 <= first <= exp,
            first <= e <= first + 66,
            d >= pow2((e - first) as nat),
            exact == n as real / d as real * power(e as int),
        decreases n - d,
    {
        proof {
            lemma_double_denominator(n as int, d as int, e as int);
            lemma_pow2_unfold((e - first + 1) as nat);
            lemma_large_powers();
            if e - first + 1 > 66 {
                lemma_pow2_strictly_increases(66, (e - first + 1) as nat);
            }
        }
        d = d * 2;
        e = e + 1;
    }
    proof {
        lemma_round_quotient(n as int, d as int, e as int);
    }
    let q: u128 = n / d;
    let rest: u128 = n % d;
    let m: u64 = if 2 * rest < d || (2 * rest == d && q % 2 == 0) {
        q as u64
    } else {
        q as u64 + 1
    };
    if m == MANTISSA_END {
        Double { mantissa: MANTISSA_MIN, exponent: e + 1 }
    } else {
        Double { mantissa: m, exponent: e }
    }
}

/// Powers of two that bound the numbers of [`round_quotient`].
#[verifier::spinoff_prover]
proof fn lemma_large_powers()
    ensures
        pow2(66) == 0x4_0000_0000_0000_0000,
        pow2(118) == 0x40_0000_0000_0000_0000_0000_0000_0000,
{
    lemma2_to64();
    lemma2_to64_rest();
    lemma_pow2_adds(64, 2);
    lemma_pow2_adds(64, 54);
}

/// What doubling the numerator and halving the unit leaves as it was.
#[verifier::spinoff_prover]
proof fn lemma_double_numerator(n: int, d: int, e: int)
    requires
        d > 0,
    ensures
        n as real / d as real * power(e) == (2 * n) as real / d as real * power(e - 1),
{
    lemma_power_step(e - 1);
    let p = power(e - 1);
    let x = n as real / d as real;
    lemma_quotient(n as real, d as real);
    assert((2real * x) * d as real == 2real * (x * d as real)) by (nonlinear_arith);
    lemma_is_quotient((2 * n) as real, d as real, 2real * x);
    assert(x * (2real * p) == (2real * x) * p) by (nonlinear_arith);
}

/// What doubling the denominator and the unit leaves as it was.
#[verifier::spinoff_prover]
proof fn lemma_double_denominator(n: int, d: int, e: int)
    requires
        d > 0,
    ensures
        n as real / d as real * power(e) == n as real / (2 * d) as real * power(e + 1),
{
    lemma_power_step(e);
    let p = power(e);
    let x = n as real / (2 * d) as real;
    let y = d as real;
    lemma_quotient(n as real, (2 * d) as real);
    assert((2real * x) * y == x * (2real * y)) by (nonlinear_arith);
    lemma_is_quotient(n as real, d as real, 2real * x);
    assert((2real * x) * p == x * (2real * p)) by (nonlinear_arith);
}

/// Powers of two that fit in 64 bits and a bit.
#[verifier::spinoff_prover]
fn two_to(k: u32) -> (p: u128)
    requires
        k < 64,
    ensures
        0 < p <= 0x8000_0000_0000_0000,
        p as real == power(k as int),
{
    let mut p: u128 = 1;
    let mut i: u32 = 0;
    proof {
        lemma2_to64();
        lemma2_to64_rest();
    }
    while i < k
        invariant
            i <= k < 64,
            p == pow2(i as nat),
            p as real == power(i as int),
            pow2(63) == 0x8000_0000_0000_0000,
            p > 0,
            p <= 0x8000_0000_0000_0000,
        decreases k - i,
    {
        proof {
            lemma_power_step(i as int);
            lemma_pow2_unfold((i + 1) as nat);
            if i + 1 < 63 {
                lemma_pow2_strictly_increases((i + 1) as nat, 63);
            }
        }
        p = p * 2;
        i = i + 1;
    }
    p
}

impl Double {
    /// The double that is an integer.
    #[verifier::spinoff_prover]
    pub fn from_int(n: u64) -> (d: Double)
        requires
            n < MANTISSA_END,
        ensures
            d.value() == n as real,
            d.within(-52, 0),
            n > 0 ==> d.mantissa > 0,
    {
        Double::from_parts(n, 0)
    }

    /// The double that is an integer times 2 to the power of `exp`.
    #[verifier::spinoff_prover]
    pub fn from_parts(n: u64, exp: i32) -> (d: Double)
        requires
            n < MANTISSA_END,
            -10000 < exp < 10000,
        ensures
            d.value() == n as real * power(exp as int),
            d.wf(),
            n == 0 ==> d == zero(),
            n > 0 ==> d.mantissa > 0 && exp - 52 <= d.exponent <= exp,
    {
        if n == 0 {
            proof {
                let p = power(exp as int);
                assert(0real * p == 0real) by (nonlinear_arith);
                assert(0real * power(0) == 0real);
            }
            return Double { mantissa: 0, exponent: 0 };
        }
        let mut m: u64 = n;
        let mut e: i32 = exp;
        proof {
            lemma2_to64();
            lemma2_to64_rest();
        }
        while m < MANTISSA_MIN
            invariant
                0 < m < MANTISSA_END,
                -10000 < exp < 10000,
                exp - 52 <= e <= exp,
                m >= pow2((exp - e) as nat),
                pow2(52) == MANTISSA_MIN,
                n as real * power(exp as int) == m as real * power(e as int),
            decreases MANTISSA_END - m,
        {
            proof {
                lemma_power_step(e - 1);
                lemma_pow2_unfold((exp - e + 1) as nat);
                if exp - e + 1 > 52 {
                    lemma_pow2_strictly_increases(52, (exp - e + 1) as nat);
                }
                let (x, p) = (m as real, power(e - 1));
                assert(x * (2real * p) == (2real * x) * p) by (nonlinear_arith);
            }
            m = m * 2;
            e = e - 1;
        }
        Double { mantissa: m, exponent: e }
    }

    /// The quotient, rounded.
    #[verifier::spinoff_prover]
    pub fn div(self, other: Double) -> (r: Double)
        requires
            self.within(-2000, 2000),
            other.within(-2000, 2000),
            other.mantissa > 0,
        ensures
            r == round(self.value() / other.value()),
            ordinary(self.value() / other.value()),
            r.wf(),
            r.mantissa > 0 ==> self.exponent - other.exponent - 118 <= r.exponent
                <= self.exponent - other.exponent + 67,
            self.mantissa > 0 ==> r.mantissa > 0,
    {
        proof {
            lemma_quotient_value(self, other);
        }
        if self.mantissa == 0 {
            proof {
                let n = other.mantissa as real;
                let p = power(self.exponent - other.exponent);
                assert(0real * n == 0real && 0real * p == 0real) by (nonlinear_arith);
                lemma_is_quotient(0real, n, 0real);
            }
            return Double { mantissa: 0, exponent: 0 };
        }
        round_quotient(self.mantissa as u128, other.mantissa, self.exponent - other.exponent)
    }

    /// The product, rounded.
    #[verifier::spinoff_prover]
    pub fn mul(self, other: Double) -> (r: Double)
        requires
            self.within(-2000, 2000),
            other.within(-2000, 2000),
        ensures
            r == round(self.value() * other.value()),
            ordinary(self.value() * other.value()),
            r.wf(),
            r.mantissa > 0 ==> self.exponent + other.exponent - 118 <= r.exponent
                <= self.exponent + other.exponent + 67,
    {
        let m: u128 = self.mantissa as u128;
        let o: u128 = other.mantissa as u128;
        proof {
            lemma_product_value(self, other);
            lemma_mul_upper_bound(m as int, 0x1f_ffff_ffff_ffff, o as int, 0x1f_ffff_ffff_ffff);
            lemma_mul_nonnegative(m as int, o as int);
        }
        let product: u128 = m * o;
        if product == 0 {
            proof {
                let p = power(self.exponent + other.exponent);
                assert(0real * p == 0real) by (nonlinear_arith);
            }
            return Double { mantissa: 0, exponent: 0 };
        }
        round_quotient(product, 1, self.exponent + other.exponent)
    }

    /// The sum, rounded.
    #[verifier::spinoff_prover]
    pub fn add(self, other: Double) -> (r: Double)
        requires
            self.within(-2000, 2000),
            other.within(-2000, 2000),
        ensures
            r == round(self.value() + other.value()),
            ordinary(self.value() + other.value()),
            r.wf(),
            forall|low: int, high: int|
                #![trigger self.within(low, high), other.within(low, high)]
                self.within(low, high) && other.within(low, high) ==> r.within(
                    low - 118,
                    high + 67,
                ) || r == zero(),
    {
        if self.mantissa == 0 || other.mantissa == 0 {
            proof {
                lemma_round_exact(self);
                lemma_round_exact(other);
                assert(0real * power(0) == 0real);
            }
            return if self.mantissa == 0 {
                other
            } else {
                self
            };
        }
        let (large, small): (Double, Double) = if self.exponent >= other.exponent {
            (self, other)
        } else {
            (other, self)
        };
        let k: i32 = large.exponent - small.exponent;
        if k >= 64 {
            proof {
                lemma_add_far(large, small);
            }
            return large;
        }
        let p: u128 = two_to(k as u32);
        let m: u128 = large.mantissa as u128;
        proof {
            lemma_common_unit(large, small, p as int);
            lemma_mul_upper_bound(m as int, 0x1f_ffff_ffff_ffff, p as int, 0x8000_0000_0000_0000);
            lemma_mul_strictly_positive(m as int, p as int);
        }
        round_quotient(m * p + small.mantissa as u128, 1, small.exponent)
    }

    /// The difference, rounded.
    #[verifier::spinoff_prover]
    pub fn sub(self, other: Double) -> (r: Double)
        requires
            self.within(-2000, 2000),
            other.within(-2000, 2000),
            other.value() <= self.value(),
        ensures
            r == round(self.value() - other.value()),
            ordinary(self.value() - other.value()),
            r.wf(),
            forall|low: int, high: int|
                #![trigger self.within(low, high), other.within(low, high)]
                self.within(low, high) && other.within(low, high) ==> r.within(
                    low - 118,
                    high + 67,
                ) || r == zero(),
    {
        if other.mantissa == 0 {
            proof {
                lemma_round_exact(self);
                assert(0real * power(0) == 0real);
            }
            return self;
        }
        proof {
            lemma_larger_exponent(self, other);
        }
        let k: i32 = self.exponent - other.exponent;
        if k >= 64 {
            proof {
                lemma_sub_far(self, other);
            }
            return self;
        }
        let p: u128 = two_to(k as u32);
        let m: u128 = self.mantissa as u128;
        proof {
            lemma_common_unit(self, other, p as int);
            lemma_mul_upper_bound(m as int, 0x1f_ffff_ffff_ffff, p as int, 0x8000_0000_0000_0000);
            lemma_mul_strictly_positive(m as int, p as int);
            let unit = power(other.exponent as int);
            let scaled = m * p;
            lemma_power_positive(other.exponent as int);
            let (x, y) = (other.mantissa as real, scaled as real);
            assert(x <= y) by (nonlinear_arith)
                requires
                    unit > 0real,
                    x * unit <= y * unit,
            ;
        }
        let difference: u128 = m * p - other.mantissa as u128;
        if difference == 0 {
            return Double { mantissa: 0, exponent: 0 };
        }
        round_quotient(difference, 1, other.exponent)
    }

    /// The largest integer that is not larger than the double, or `u32::MAX` if that is larger
    /// than any number of 32 bits.
    #[verifier::spinoff_prover]
    pub fn floor(self) -> (n: u32)
        requires
            self.within(-2000, 2000),
        ensures
            n == saturated(self.value().floor(), u32::MAX as int),
    {
        if self.mantissa == 0 {
            assert(0real * power(0) == 0real);
            return 0;
        }
        if self.exponent >= 0 {
            proof {
                lemma_power_monotone(0, self.exponent as int);
                let m = self.mantissa as real;
                let p = power(self.exponent as int);
                assert(m * p >= m) by (nonlinear_arith)
                    requires
                        m >= 0real,
                        p >= 1real,
                ;
            }
            return u32::MAX;
        }
        let k: i32 = -self.exponent;
        proof {
            lemma_power_adds(self.exponent as int, k as int);
        }
        if k >= 64 {
            proof {
                lemma_power_is_pow2(64);
                lemma2_to64();
                lemma_power_monotone(64, k as int);
                let m = self.mantissa as real;
                let u = power(self.exponent as int);
                let p = power(k as int);
                lemma_power_positive(self.exponent as int);
                assert(0real <= m * u && m * u < 1real) by (nonlinear_arith)
                    requires
                        0real <= m,
                        m < p,
                        u > 0real,
                        u * p == 1real,
                ;
            }
            return 0;
        }
        let p: u128 = two_to(k as u32);
        let n: u128 = self.mantissa as u128 / p;
        proof {
            let m = self.mantissa as real;
            let u = power(self.exponent as int);
            let f = p as real;
            assert((m * u) * f == m) by (nonlinear_arith)
                requires
                    u * f == 1real,
            ;
            lemma_is_quotient(m, f, m * u);
            lemma_floor_quotient(self.mantissa as int, p as int);
        }
        if n > u32::MAX as u128 {
            u32::MAX
        } else {
            n as u32
        }
    }
}

#[verifier::spinoff_prover]
proof fn lemma_floor_quotient(n: int, d: int)
    requires
        n >= 0,
        d > 0,
    ensures
        (n as real / d as real).floor() == n / d,
{
    let x = n as real / d as real;
    let q = n / d;
    let rest = n % d;
    lemma_fundamental_div_mod(n, d);
    lemma_mod_bound(n, d);
    lemma_product_as_real(d, q);
    lemma_quotient(n as real, d as real);
    let (y, t, z) = (q as real, d as real, rest as real);
    assert(y <= x) by (nonlinear_arith)
        requires
            t > 0real,
            x * t == t * y + z,
            0real <= z,
    ;
    assert(x < y + 1real) by (nonlinear_arith)
        requires
            t > 0real,
            x * t == t * y + z,
            z < t,
    ;
}

/// Two doubles in the unit of the second, where `p` is the quotient of the units.
#[verifier::spinoff_prover]
proof fn lemma_common_unit(a: Double, b: Double, p: int)
    requires
        p as real == power(a.exponent - b.exponent),
    ensures
        a.value() == (a.mantissa * p) as real * power(b.exponent as int),
        a.value() + b.value() == (a.mantissa * p + b.mantissa) as real / 1real * power(
            b.exponent as int,
        ),
        a.value() - b.value() == (a.mantissa * p - b.mantissa) as real / 1real * power(
            b.exponent as int,
        ),
{
    let u = power(b.exponent as int);
    let m = a.mantissa as real;
    let n = b.mantissa as real;
    lemma_power_adds(a.exponent - b.exponent, b.exponent as int);
    lemma_product_as_real(a.mantissa as int, p);
    let f = p as real;
    assert(m * (f * u) == m * f * u) by (nonlinear_arith);
    let a = m * f;
    assert(a * u + n * u == (a + n) * u) by (nonlinear_arith);
    assert(a * u - n * u == (a - n) * u) by (nonlinear_arith);
}

/// The exponent of the larger of two doubles is not smaller.
#[verifier::spinoff_prover]
proof fn lemma_larger_exponent(a: Double, b: Double)
    requires
        a.wf(),
        b.wf(),
        b.mantissa > 0,
        b.value() <= a.value(),
    ensures
        a.exponent >= b.exponent,
        a.mantissa > 0,
{
    let p = power(a.exponent as int);
    let q = power(b.exponent as int);
    let m = a.mantissa as real;
    let n = b.mantissa as real;
    lemma_power_positive(a.exponent as int);
    lemma_power_positive(b.exponent as int);
    assert(n * q > 0real) by (nonlinear_arith)
        requires
            n > 0real,
            q > 0real,
    ;
    if a.mantissa == 0 {
        assert(0real * p == 0real);
    } else if a.exponent < b.exponent {
        lemma_binade_end(a.exponent as int, b.exponent as int);
        assert(m * p < MANTISSA_END as real * p) by (nonlinear_arith)
            requires
                m < MANTISSA_END as real,
                p > 0real,
        ;
        assert(MANTISSA_MIN as real * q <= n * q) by (nonlinear_arith)
            requires
                MANTISSA_MIN as real <= n,
                q > 0real,
        ;
    }
}

/// A double that is far smaller than another is less than a thousandth of the other's unit.
#[verifier::spinoff_prover]
proof fn lemma_far(a: Double, b: Double) -> (delta: real)
    requires
        a.wf(),
        b.wf(),
        b.mantissa > 0,
        a.exponent - b.exponent >= 64,
    ensures
        0real < delta,
        1000real * delta < 1real,
        b.value() == delta * power(a.exponent as int),
{
    let k = a.exponent - b.exponent;
    let u = power(b.exponent as int);
    let f = power(k);
    let n = b.mantissa as real;
    lemma_power_adds(b.exponent as int, k);
    lemma_power_positive(b.exponent as int);
    lemma_power_monotone(64, k);
    lemma_power_is_pow2(64);
    lemma2_to64();
    let delta = n / f;
    lemma_quotient(n, f);
    assert(0real < delta) by (nonlinear_arith)
        requires
            0real < delta * f,
            0real < f,
    ;
    assert(1000real * delta < 1real) by (nonlinear_arith)
        requires
            1000real * (delta * f) < f,
            0real < f,
    ;
    assert((delta * f) * u == delta * (u * f)) by (nonlinear_arith);
    delta
}

/// Adding a far smaller number changes nothing.
#[verifier::spinoff_prover]
proof fn lemma_add_far(a: Double, b: Double)
    requires
        a.wf(),
        b.wf(),
        a.mantissa > 0,
        b.mantissa > 0,
        a.exponent - b.exponent >= 64,
        -10000 < a.exponent < 10000,
    ensures
        round(a.value() + b.value()) == a,
        ordinary(a.value() + b.value()),
{
    let delta = lemma_far(a, b);
    let e = a.exponent as int;
    let p = power(e);
    let m = a.mantissa as real;
    let r = a.value() + b.value();
    lemma_power_positive(e);
    assert(r == (m + delta) * p) by (nonlinear_arith)
        requires
            r == m * p + delta * p,
    ;
    lemma_in_binade(m + delta, e);
    assert((m + delta).floor() == a.mantissa);
}

/// Subtracting a far smaller number changes nothing.
#[verifier::spinoff_prover]
proof fn lemma_sub_far(a: Double, b: Double)
    requires
        a.wf(),
        b.wf(),
        a.mantissa > 0,
        b.mantissa > 0,
        a.exponent - b.exponent >= 64,
        -10000 < a.exponent < 10000,
    ensures
        round(a.value() - b.value()) == a,
        ordinary(a.value() - b.value()),
{
    let delta = lemma_far(a, b);
    let e = a.exponent as int;
    let p = power(e);
    let m = a.mantissa as real;
    let r = a.value() - b.value();
    lemma_power_positive(e);
    assert(r == (m - delta) * p) by (nonlinear_arith)
        requires
            r == m * p - delta * p,
    ;
    if a.mantissa > MANTISSA_MIN {
        lemma_in_binade(m - delta, e);
        assert((m - delta).floor() == a.mantissa - 1);
    } else {
        let h = power(e - 1);
        lemma_power_step(e - 1);
        assert(r == (2real * (m - delta)) * h) by (nonlinear_arith)
            requires
                r == (m - delta) * p,
                p == 2real * h,
        ;
        lemma_in_binade(2real * (m - delta), e - 1);
        assert((2real * (m - delta)).floor() == MANTISSA_END - 1);
    }
}

/// The quotient of two doubles is that of their mantissas, in another unit.
#[verifier::spinoff_prover]
proof fn lemma_quotient_value(a: Double, b: Double)
    requires
        b.mantissa > 0,
    ensures
        a.value() / b.value() == a.mantissa as real / b.mantissa as real * power(
            a.exponent - b.exponent,
        ),
{
    let p = power(b.exponent as int);
    let q = power(a.exponent - b.exponent);
    let m = a.mantissa as real;
    let n = b.mantissa as real;
    lemma_power_positive(b.exponent as int);
    lemma_power_adds(b.exponent as int, a.exponent - b.exponent);
    let x = m / n;
    lemma_quotient(m, n);
    assert((x * q) * (n * p) == (x * n) * (p * q)) by (nonlinear_arith);
    assert(n * p > 0real) by (nonlinear_arith)
        requires
            p > 0real,
            n > 0real,
    ;
    lemma_is_quotient(m * (p * q), n * p, x * q);
}

/// The product of two doubles is that of their mantissas, in another unit.
#[verifier::spinoff_prover]
proof fn lemma_product_value(a: Double, b: Double)
    ensures
        a.value() * b.value() == (a.mantissa * b.mantissa) as real / 1real * power(
            a.exponent + b.exponent,
        ),
{
    let p = power(a.exponent as int);
    let q = power(b.exponent as int);
    let m = a.mantissa as real;
    let n = b.mantissa as real;
    lemma_power_adds(a.exponent as int, b.exponent as int);
    lemma_product_as_real(a.mantissa as int, b.mantissa as int);
    assert((m * p) * (n * q) == (m * n) * (p * q)) by (nonlinear_arith);
}

} // verus!
