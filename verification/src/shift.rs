//! Moving a place by half of a measured length.

use vstd::arithmetic::power2::{lemma2_to64, lemma2_to64_rest, lemma_pow2_unfold, pow2};
use vstd::prelude::*;

use crate::accuracy::within;
use crate::coord::{
    law_order_is_numeric, law_position_keeps_value, lemma_equal_magnitudes, lemma_multiple,
    lemma_value_bound, Coord, INFINITY, NAN, SIGN_BIT,
};
use crate::rounding::{
    distance, half_even, law_round_error, lemma_ordinary, lemma_power_adds, lemma_power_is_pow2,
    lemma_power_monotone, lemma_power_positive, lemma_power_step, ordinary, power, round, Double,
    MANTISSA_END, MANTISSA_MIN,
};

verus! {

/// What the magnitude of half of every finite length is less than.
pub const HALF_END: u64 = 0x7fe0_0000_0000_0000;

impl Coord {
    /// Half of a length. Among the smallest numbers, which have no exponent to lower, half of an
    /// odd multiple of the unit is rounded to the even neighbour.
    pub open spec fn halved(self) -> Coord {
        let m = self.magnitude();
        let half = if m >= INFINITY {
            m
        } else if m >= 2 * MANTISSA_MIN {
            m - MANTISSA_MIN
        } else {
            half_even(m as real / 2real)
        };
        Coord {
            bits: (if self.is_negative() {
                half + SIGN_BIT
            } else {
                half
            }) as u64,
        }
    }

    /// The length with the other sign.
    pub open spec fn negated(self) -> Coord {
        Coord {
            bits: (if self.is_negative() {
                self.magnitude()
            } else {
                self.magnitude() + SIGN_BIT
            }) as u64,
        }
    }

    /// The place `d`, moved by a signed length.
    pub open spec fn moved(d: Double, by: Coord) -> Coord {
        if by.is_nan() {
            Coord { bits: NAN }
        } else if by.magnitude() == INFINITY {
            by
        } else if by.magnitude() == 0 {
            Coord::of(d)
        } else if d.mantissa == 0 {
            by
        } else if by.is_negative() {
            Coord::minus(d.value(), by.size())
        } else {
            Coord::of(round(d.value() + by.size()))
        }
    }

    /// Half of a length.
    #[verifier::spinoff_prover]
    pub fn half(self) -> (c: Coord)
        ensures
            c == self.halved(),
            c.magnitude() < HALF_END || c.magnitude() >= INFINITY,
    {
        let (negative, m): (bool, u64) = self.split();
        let half: u64 = if m >= INFINITY {
            m
        } else if m >= 2 * MANTISSA_MIN {
            m - MANTISSA_MIN
        } else {
            assert((m as real / 2real).floor() == m / 2);
            if m % 2 == 0 || m / 2 % 2 == 0 {
                m / 2
            } else {
                m / 2 + 1
            }
        };
        Coord {
            bits: if negative {
                half + SIGN_BIT
            } else {
                half
            },
        }
    }

    /// The length with the other sign.
    #[verifier::spinoff_prover]
    pub fn negate(self) -> (c: Coord)
        ensures
            c == self.negated(),
            c.magnitude() == self.magnitude(),
    {
        let (negative, m): (bool, u64) = self.split();
        Coord {
            bits: if negative {
                m
            } else {
                m + SIGN_BIT
            },
        }
    }

    /// The place `d`, moved by a signed length.
    #[verifier::spinoff_prover]
    pub fn from_moved(d: Double, by: Coord) -> (c: Coord)
        requires
            d.within(-1000, 900),
            by.magnitude() < HALF_END || by.magnitude() >= INFINITY,
        ensures
            c == Coord::moved(d, by),
    {
        let (negative, m): (bool, u64) = by.split();
        if m > INFINITY {
            return Coord { bits: NAN };
        }
        if m == INFINITY {
            return by;
        }
        let place: Coord = Coord::from_double(d);
        if m == 0 {
            return place;
        }
        if d.mantissa == 0 {
            return by;
        }
        let length: Double = by.to_double();
        let size: Coord = Coord { bits: m };
        proof {
            law_position_keeps_value(d);
            lemma_equal_magnitudes(size, by);
            law_order_is_numeric(place, size);
            assert(by.exponent_field() <= 2045);
            lemma_moved_fits(d, length);
        }
        if !negative {
            Coord::from_double(d.add(length))
        } else if place.is_before(size) {
            Coord { bits: Coord::from_double(length.sub(d)).bits + SIGN_BIT }
        } else {
            Coord::from_double(d.sub(length))
        }
    }
}

/// The sum and the difference of a place and a length are positions.
#[verifier::spinoff_prover]
proof fn lemma_moved_fits(a: Double, b: Double)
    requires
        a.within(-1000, 900),
        a.mantissa > 0,
        b.within(-1200, 970),
        b.mantissa > 0,
    ensures
        ({
            let (sum, more, less) = (
                a.value() + b.value(),
                a.value() - b.value(),
                b.value() - a.value(),
            );
            &&& ordinary(sum) && Coord::fits(round(sum))
            &&& more >= 0real ==> ordinary(more) && Coord::fits(round(more))
            &&& less >= 0real ==> ordinary(less) && Coord::fits(round(less))
        }),
{
    let (m, p) = (a.mantissa as real, power(a.exponent as int));
    let (n, q) = (b.mantissa as real, power(b.exponent as int));
    let (x, y) = (a.value(), b.value());
    let low = power(-1000);
    let top = power(970);
    lemma_power_positive(a.exponent as int);
    lemma_power_positive(b.exponent as int);
    lemma_power_positive(-1000);
    lemma_power_positive(970);
    lemma_power_monotone(-1000, a.exponent as int);
    lemma_power_monotone(b.exponent as int, 970);
    lemma_power_monotone(953, 970);
    lemma_value_bound(a, 900);
    lemma_power_is_pow2(53);
    lemma2_to64_rest();
    lemma_power_adds(970, 53);
    let c = MANTISSA_END as real;
    assert(low <= m * p) by (nonlinear_arith)
        requires
            1real <= m,
            low <= p,
            0real < low,
    ;
    assert(0real < n * q && n * q <= (c - 1real) * top) by (nonlinear_arith)
        requires
            1real <= n,
            n <= c - 1real,
            0real < q,
            q <= top,
    ;
    assert((c - 1real) * top == top * c - top) by (nonlinear_arith);
    assert(x + y <= power(1023));
    lemma_ordinary(x + y, -1000, 1023);
    if x != y {
        let r = if x > y {
            x - y
        } else {
            y - x
        };
        lemma_difference_is_large(a, b, r);
        lemma_ordinary(r, -1001, 1023);
    }
}

/// A place differs from a length not at all or by more than the smallest numbers.
#[verifier::spinoff_prover]
proof fn lemma_difference_is_large(a: Double, b: Double, r: real)
    requires
        a.within(-1000, 900),
        a.mantissa > 0,
        b.within(-1200, 970),
        b.mantissa > 0,
        r > 0real,
        r == a.value() - b.value() || r == b.value() - a.value(),
    ensures
        power(-1001) <= r,
{
    let e = a.exponent as int;
    let f = b.exponent as int;
    let (m, p) = (a.mantissa as real, power(e));
    let (n, q) = (b.mantissa as real, power(f));
    let low = power(-1001);
    lemma_power_positive(e);
    lemma_power_positive(f);
    lemma_power_positive(-1001);
    if f < e - 1 {
        lemma_power_monotone(f, e - 2);
        lemma_power_monotone(-1001, e);
        lemma_power_step(e - 2);
        lemma_power_step(e - 1);
        assert(4real * q <= p);
        let h = MANTISSA_MIN as real;
        assert(n * q <= 2real * (h * q)) by (nonlinear_arith)
            requires
                n <= 2real * h,
                0real < q,
        ;
        assert(h * p <= m * p) by (nonlinear_arith)
            requires
                h <= m,
                0real < p,
        ;
        assert(4real * (h * q) <= h * p && 2real * p <= h * p) by (nonlinear_arith)
            requires
                4real * q <= p,
                2real <= h,
                0real < p,
        ;
    } else {
        let j = lemma_multiple(a, -1001);
        let k = lemma_multiple(b, -1001);
        let steps = if r == a.value() - b.value() {
            (j - k) as real
        } else {
            (k - j) as real
        };
        assert((j as real - k as real) * low == j as real * low - k as real * low)
            by (nonlinear_arith);
        assert((k as real - j as real) * low == k as real * low - j as real * low)
            by (nonlinear_arith);
        assert(steps > 0real) by (nonlinear_arith)
            requires
                steps * low > 0real,
                low > 0real,
        ;
        assert(low <= steps * low) by (nonlinear_arith)
            requires
                1real <= steps,
                low > 0real,
        ;
    }
}

/// An integer times a power of two, written as a double.
#[verifier::spinoff_prover]
proof fn lemma_normalized(m: int, e: int, j: nat) -> (d: Double)
    requires
        0 < m < MANTISSA_END,
        pow2(j) * m >= MANTISSA_MIN,
        j <= 52,
        -2000 <= e - j,
        e <= 2000,
    ensures
        d.wf(),
        d.mantissa > 0,
        d.value() == m as real * power(e),
        e - j <= d.exponent <= e,
    decreases j,
{
    if m >= MANTISSA_MIN {
        Double { mantissa: m as u64, exponent: e as i32 }
    } else {
        lemma2_to64();
        if j == 0 {
            assert(pow2(0) == 1);
            assert(1 * m == m);
        }
        lemma_pow2_unfold(j);
        let (half, p) = (pow2((j - 1) as nat), power(e - 1));
        assert((2 * half) * m == half * (2 * m)) by (nonlinear_arith);
        lemma_power_step(e - 1);
        let x = m as real;
        assert(x * (2real * p) == (2real * x) * p) by (nonlinear_arith);
        lemma_normalized(2 * m, e - 1, (j - 1) as nat)
    }
}

/// The size of a length as a double.
#[verifier::spinoff_prover]
proof fn lemma_size_as_double(c: Coord) -> (d: Double)
    requires
        0 < c.magnitude() < HALF_END,
    ensures
        d.within(-1200, 970),
        d.mantissa > 0,
        d.value() == c.size(),
{
    let m = c.mantissa();
    lemma2_to64_rest();
    assert(pow2(52) * m >= MANTISSA_MIN) by (nonlinear_arith)
        requires
            pow2(52) == MANTISSA_MIN,
            m >= 1,
    ;
    lemma_normalized(m, c.exponent(), 52)
}

/// Half of a length is half as long, but for at most the smallest number.
#[verifier::spinoff_prover]
pub proof fn law_half_is_half(c: Coord)
    requires
        c.is_finite(),
    ensures
        c.halved().magnitude() < HALF_END,
        c.halved().is_negative() == c.is_negative(),
        within(c.halved().value(), c.value() / 2real, power(-1074)),
{
    let h = c.halved();
    let m = c.magnitude();
    lemma_power_positive(-1074);
    if m >= 2 * MANTISSA_MIN {
        assert(h.magnitude() == m - MANTISSA_MIN);
        assert(h.exponent_field() == c.exponent_field() - 1);
        assert(h.mantissa() == c.mantissa());
        lemma_power_step(h.exponent());
        let (x, p) = (c.mantissa() as real, power(h.exponent()));
        assert(x * (2real * p) == 2real * (x * p)) by (nonlinear_arith);
    } else {
        let x = m as real;
        let k = half_even(x / 2real);
        let y = k as real;
        let p = power(-1074);
        assert(x / 2real - 1real <= y && y <= x / 2real + 1real);
        assert(h.magnitude() == k);
        assert(c.size() == x * p && h.size() == y * p);
        assert(y * p <= (x * p) / 2real + p && (x * p) / 2real - p <= y * p) by (nonlinear_arith)
            requires
                x / 2real - 1real <= y,
                y <= x / 2real + 1real,
                0real < p,
        ;
    }
}

/// A place that is moved is where the sum of both lies, rounded once.
#[verifier::spinoff_prover]
pub proof fn law_moving_adds(d: Double, by: Coord)
    requires
        d.within(-1000, 900),
        by.magnitude() < HALF_END,
    ensures
        Coord::moved(d, by).is_finite(),
        distance(d.value() + by.value(), Coord::moved(d, by).value()) * MANTISSA_END as real
            <= distance(0real, d.value() + by.value()),
{
    let sum = d.value() + by.value();
    let c = Coord::moved(d, by);
    let end = MANTISSA_END as real;
    assert(0real * end == 0real) by (nonlinear_arith);
    law_position_keeps_value(d);
    if by.magnitude() == 0 {
        let p = power(-1074);
        assert(0real * p == 0real) by (nonlinear_arith);
    } else if d.mantissa == 0 {
        assert(0real * power(0) == 0real);
    } else {
        let b = lemma_size_as_double(by);
        lemma_moved_fits(d, b);
        lemma_value_positive(d);
        lemma_value_positive(b);
        let r = distance(0real, sum);
        law_round_error(r);
        law_position_keeps_value(round(r));
        if sum < 0real {
            lemma_equal_magnitudes(c, Coord::of(round(r)));
        }
    }
}

/// A double that is not zero is positive.
#[verifier::spinoff_prover]
proof fn lemma_value_positive(d: Double)
    requires
        d.mantissa > 0,
    ensures
        d.value() > 0real,
{
    lemma_power_positive(d.exponent as int);
    let (m, p) = (d.mantissa as real, power(d.exponent as int));
    assert(m * p > 0real) by (nonlinear_arith)
        requires
            m > 0real,
            p > 0real,
    ;
}

/// The length with the other sign is as long and points the other way. Half of a length that is
/// not among the smallest is exactly half as long; an infinite one, and one that is no number, stay
/// as they are.
#[verifier::spinoff_prover]
pub proof fn law_lengths_are_turned_and_halved(c: Coord)
    ensures
        c.is_finite() ==> c.negated().is_finite() && c.negated().value() == -c.value(),
        c.is_nan() <==> c.negated().is_nan(),
        c.is_nan() <==> c.halved().is_nan(),
        c.bits == 0x7ff0_0000_0000_0000 ==> c.halved() == c && c.negated().bits
            == 0xfff0_0000_0000_0000,
        c.bits == 0xfff0_0000_0000_0000 ==> c.halved() == c && c.negated().bits
            == 0x7ff0_0000_0000_0000,
        c.is_finite() && c.bits as int % 0x8000_0000_0000_0000 >= 0x20_0000_0000_0000
            ==> c.halved().value() + c.halved().value() == c.value(),
{
    lemma_equal_magnitudes(c, c.negated());
    if c.is_finite() && c.magnitude() >= 2 * MANTISSA_MIN {
        let h = c.halved();
        assert(h.magnitude() == c.magnitude() - MANTISSA_MIN);
        assert(h.exponent_field() == c.exponent_field() - 1);
        assert(h.mantissa() == c.mantissa());
        lemma_power_step(h.exponent());
        let (x, p) = (c.mantissa() as real, power(h.exponent()));
        assert(x * (2real * p) == 2real * (x * p)) by (nonlinear_arith);
    }
    if c.is_finite() && c.magnitude() < 2 * MANTISSA_MIN {
        assert(c.halved().magnitude() <= MANTISSA_MIN);
    }
}

/// A place that is moved infinitely far is infinitely far away, and one that is moved by no number
/// is no place.
pub proof fn law_moving_endlessly(d: Double, by: Coord)
    ensures
        by.is_nan() ==> Coord::moved(d, by).is_nan(),
        by.bits == 0x7ff0_0000_0000_0000 ==> Coord::moved(d, by) == by,
        by.bits == 0xfff0_0000_0000_0000 ==> Coord::moved(d, by) == by,
{
}

} // verus!
