//! Positions on the bar, as they are measured.

use vstd::arithmetic::power2::{lemma2_to64_rest, pow2};
use vstd::prelude::*;

use crate::rounding::{
    distance, lemma_ordinary, lemma_power_adds, lemma_power_is_pow2, lemma_power_monotone,
    lemma_power_positive, lemma_product_as_real, ordinary, power, round, Double, MANTISSA_END,
    MANTISSA_MIN,
};

verus! {

/// The weight of the sign bit of a double.
pub const SIGN_BIT: u64 = 0x8000_0000_0000_0000;

/// The bit pattern of positive infinity, the largest magnitude that is a number.
pub const INFINITY: u64 = 0x7ff0_0000_0000_0000;

/// A bit pattern that is not a number.
pub const NAN: u64 = 0x7ff8_0000_0000_0000;

/// A position along one axis of the bar: the bit pattern of an IEEE 754 double.
///
/// For everything but NaN the order of doubles is the order of sign and magnitude read as
/// integers.
#[derive(Clone, Copy, Debug, PartialEq, Eq, Structural)]
pub struct Coord {
    pub bits: u64,
}

impl Coord {
    /// Whether the sign bit is set.
    pub open spec fn is_negative(self) -> bool {
        self.bits >= SIGN_BIT
    }

    /// The bits below the sign, as a number.
    pub open spec fn magnitude(self) -> int {
        if self.is_negative() {
            self.bits - SIGN_BIT
        } else {
            self.bits as int
        }
    }

    /// Whether the position is not a number.
    pub open spec fn is_nan(self) -> bool {
        self.magnitude() > INFINITY
    }

    /// Whether the position is a number and not infinite.
    pub open spec fn is_finite(self) -> bool {
        self.magnitude() < INFINITY
    }

    /// The rank of the position among all positions; both zeros have rank zero.
    pub open spec fn rank(self) -> int {
        if self.is_negative() {
            -self.magnitude()
        } else {
            self.magnitude()
        }
    }

    /// Whether this position comes before the other one. What is not a number comes neither
    /// before nor after anything.
    pub open spec fn before(self, other: Coord) -> bool {
        !self.is_nan() && !other.is_nan() && self.rank() < other.rank()
    }

    /// The eleven bits below the sign.
    pub open spec fn exponent_field(self) -> int {
        self.magnitude() / MANTISSA_MIN as int
    }

    /// The integer that is scaled by a power of two. Its first digit is implied, but for the
    /// smallest exponent.
    pub open spec fn mantissa(self) -> int {
        if self.exponent_field() == 0 {
            self.magnitude() % MANTISSA_MIN as int
        } else {
            self.magnitude() % MANTISSA_MIN as int + MANTISSA_MIN
        }
    }

    /// The exponent of the power of two that scales the mantissa.
    pub open spec fn exponent(self) -> int {
        if self.exponent_field() == 0 {
            -1074
        } else {
            self.exponent_field() - 1075
        }
    }

    /// The size of a finite position.
    pub open spec fn size(self) -> real {
        self.mantissa() as real * power(self.exponent())
    }

    /// The number that a finite position is.
    pub open spec fn value(self) -> real {
        if self.is_negative() {
            -self.size()
        } else {
            self.size()
        }
    }

    /// The sign bit and the bits below it.
    #[verifier::spinoff_prover]
    pub fn split(self) -> (r: (bool, u64))
        ensures
            r.0 == self.is_negative(),
            r.1 == self.magnitude(),
    {
        if self.bits >= SIGN_BIT {
            (true, self.bits - SIGN_BIT)
        } else {
            (false, self.bits)
        }
    }

    /// Whether this position comes before the other one.
    #[verifier::spinoff_prover]
    pub fn is_before(self, other: Coord) -> (r: bool)
        ensures
            r == self.before(other),
    {
        let (negative_a, magnitude_a): (bool, u64) = self.split();
        let (negative_b, magnitude_b): (bool, u64) = other.split();
        if magnitude_a > INFINITY || magnitude_b > INFINITY {
            return false;
        }
        if negative_a {
            if negative_b {
                magnitude_a > magnitude_b
            } else {
                magnitude_a > 0 || magnitude_b > 0
            }
        } else {
            !negative_b && magnitude_a < magnitude_b
        }
    }

    /// The size of a finite position as a double.
    #[verifier::spinoff_prover]
    pub fn to_double(self) -> (d: Double)
        requires
            self.is_finite(),
        ensures
            d.value() == self.size(),
            d.within(-1126, 971),
            d.mantissa > 0 <==> self.magnitude() > 0,
            d.mantissa > 0 ==> d.exponent <= self.exponent(),
    {
        let (_, magnitude): (bool, u64) = self.split();
        let field: u64 = magnitude / MANTISSA_MIN;
        let fraction: u64 = magnitude % MANTISSA_MIN;
        if field == 0 {
            Double::from_parts(fraction, -1074)
        } else {
            Double::from_parts(fraction + MANTISSA_MIN, field as i32 - 1075)
        }
    }

    /// Whether a double can be written with eleven bits for the exponent and an implied first
    /// digit.
    pub open spec fn fits(d: Double) -> bool {
        d.within(-1074, 971)
    }

    /// The position that is a double.
    pub open spec fn of(d: Double) -> Coord {
        if d.mantissa == 0 {
            Coord { bits: 0 }
        } else {
            Coord { bits: ((d.exponent + 1074) * MANTISSA_MIN + d.mantissa) as u64 }
        }
    }

    /// The position that is a double.
    #[verifier::spinoff_prover]
    pub fn from_double(d: Double) -> (c: Coord)
        requires
            Coord::fits(d),
        ensures
            c == Coord::of(d),
    {
        if d.mantissa == 0 {
            Coord { bits: 0 }
        } else {
            Coord { bits: (d.exponent + 1074) as u64 * MANTISSA_MIN + d.mantissa }
        }
    }
}

impl Coord {
    /// The difference of two numbers, rounded, as a position.
    pub open spec fn minus(a: real, b: real) -> Coord {
        if b <= a {
            Coord::of(round(a - b))
        } else {
            Coord { bits: (Coord::of(round(b - a)).bits + SIGN_BIT) as u64 }
        }
    }

    /// The difference of two doubles.
    #[verifier::spinoff_prover]
    pub fn from_difference(a: Double, b: Double) -> (c: Coord)
        requires
            a.within(-1000, 900),
            b.within(-1000, 900),
        ensures
            c == Coord::minus(a.value(), b.value()),
    {
        proof {
            law_position_keeps_value(a);
            law_position_keeps_value(b);
            law_order_is_numeric(Coord::of(a), Coord::of(b));
        }
        if Coord::from_double(a).is_before(Coord::from_double(b)) {
            proof {
                lemma_difference_fits(b, a);
            }
            Coord { bits: Coord::from_double(b.sub(a)).bits + SIGN_BIT }
        } else {
            proof {
                lemma_difference_fits(a, b);
            }
            Coord::from_double(a.sub(b))
        }
    }
}

/// A double as a multiple of a power of two.
#[verifier::spinoff_prover]
pub proof fn lemma_multiple(d: Double, low: int) -> (k: int)
    requires
        d.wf(),
        low <= d.exponent,
    ensures
        d.value() == k as real * power(low),
{
    let e = (d.exponent - low) as nat;
    let m = d.mantissa as int;
    let k = m * pow2(e);
    lemma_power_is_pow2(e);
    lemma_power_adds(low, e as int);
    lemma_product_as_real(m, pow2(e) as int);
    let (p, q) = (power(low), power(e as int));
    assert(m as real * (p * q) == (m as real * q) * p) by (nonlinear_arith);
    k
}

/// The difference of two doubles that are neither too large nor too small is a position.
#[verifier::spinoff_prover]
proof fn lemma_difference_fits(a: Double, b: Double)
    requires
        a.within(-1000, 900),
        b.within(-1000, 900),
        b.value() <= a.value(),
    ensures
        ordinary(a.value() - b.value()),
        Coord::fits(round(a.value() - b.value())),
        !Coord::of(round(a.value() - b.value())).is_negative(),
{
    let r = a.value() - b.value();
    if r > 0real {
        let j = lemma_multiple(a, -1000);
        let k = lemma_multiple(b, -1000);
        let p = power(-1000);
        lemma_power_positive(-1000);
        let steps = (j - k) as real;
        assert(r == steps * p) by (nonlinear_arith)
            requires
                r == j as real * p - k as real * p,
                steps == j as real - k as real,
        ;
        assert(steps > 0real) by (nonlinear_arith)
            requires
                steps * p > 0real,
                p > 0real,
        ;
        assert(p <= r) by (nonlinear_arith)
            requires
                r == steps * p,
                1real <= steps,
                p > 0real,
        ;
        lemma_value_bound(a, 900);
        assert(0real <= b.value()) by {
            lemma_power_positive(b.exponent as int);
            let (m, q) = (b.mantissa as real, power(b.exponent as int));
            assert(0real <= m * q) by (nonlinear_arith)
                requires
                    0real <= m,
                    0real <= q,
            ;
        }
        lemma_ordinary(r, -1000, 953);
    }
    law_position_keeps_value(round(r));
}

/// A bound of a double by its exponent.
#[verifier::spinoff_prover]
pub proof fn lemma_value_bound(d: Double, high: int)
    requires
        d.wf(),
        d.exponent <= high,
    ensures
        d.value() <= power(high + 53),
{
    let (m, p, q) = (d.mantissa as real, power(d.exponent as int), power(high));
    let c = MANTISSA_END as real;
    lemma_power_positive(d.exponent as int);
    lemma_power_monotone(d.exponent as int, high);
    lemma_power_adds(high, 53);
    lemma_power_is_pow2(53);
    lemma2_to64_rest();
    assert(m * p <= q * c) by (nonlinear_arith)
        requires
            0real <= m,
            m <= c,
            0real < p,
            p <= q,
    ;
}

/// Writing a double as a position keeps its value.
#[verifier::spinoff_prover]
pub proof fn law_position_keeps_value(d: Double)
    requires
        Coord::fits(d),
    ensures
        Coord::of(d).is_finite(),
        !Coord::of(d).is_negative(),
        Coord::of(d).value() == d.value(),
{
    let c = Coord::of(d);
    if d.mantissa == 0 {
        let p = power(-1074);
        assert(0real * p == 0real) by (nonlinear_arith);
        assert(0real * power(0) == 0real);
    } else {
        let rest = d.mantissa - MANTISSA_MIN;
        assert(c.magnitude() == (d.exponent + 1075) * MANTISSA_MIN + rest);
        assert(c.exponent_field() == d.exponent + 1075);
        assert(c.magnitude() % MANTISSA_MIN as int == rest);
    }
}

/// The difference of two doubles, as a position, is the rounded difference with its sign.
#[verifier::spinoff_prover]
pub proof fn law_difference_keeps_sign(a: Double, b: Double)
    requires
        a.within(-1000, 900),
        b.within(-1000, 900),
    ensures
        ({
            let c = Coord::minus(a.value(), b.value());
            &&& c.is_finite()
            &&& ordinary(distance(a.value(), b.value()))
            &&& c.is_negative() <==> a.value() < b.value()
            &&& c.value() == if b.value() <= a.value() {
                round(a.value() - b.value()).value()
            } else {
                -round(b.value() - a.value()).value()
            }
        }),
{
    if b.value() <= a.value() {
        lemma_difference_fits(a, b);
        law_position_keeps_value(round(a.value() - b.value()));
    } else {
        let d = round(b.value() - a.value());
        lemma_difference_fits(b, a);
        law_position_keeps_value(d);
        lemma_equal_magnitudes(Coord::minus(a.value(), b.value()), Coord::of(d));
    }
}

/// A larger magnitude is a larger number.
#[verifier::spinoff_prover]
proof fn lemma_size_grows(a: Coord, b: Coord)
    requires
        a.magnitude() < b.magnitude(),
        b.is_finite(),
    ensures
        a.size() < b.size(),
{
    let p = power(a.exponent());
    let q = power(b.exponent());
    let m = a.mantissa() as real;
    let n = b.mantissa() as real;
    lemma_power_positive(a.exponent());
    lemma_power_positive(b.exponent());
    assert(a.exponent_field() <= b.exponent_field());
    if a.exponent() == b.exponent() {
        assert(m * p < n * p) by (nonlinear_arith)
            requires
                p > 0real,
                m < n,
        ;
    } else {
        crate::rounding::lemma_binade_end(a.exponent(), b.exponent());
        assert(m * p < MANTISSA_END as real * p) by (nonlinear_arith)
            requires
                p > 0real,
                m < MANTISSA_END as real,
        ;
        assert(MANTISSA_MIN as real * q <= n * q) by (nonlinear_arith)
            requires
                q > 0real,
                MANTISSA_MIN as real <= n,
        ;
    }
}

/// Finite positions come one before another exactly as their numbers do.
#[verifier::spinoff_prover]
pub proof fn law_order_is_numeric(a: Coord, b: Coord)
    requires
        a.is_finite(),
        b.is_finite(),
    ensures
        a.before(b) <==> a.value() < b.value(),
{
    let zero = Coord { bits: 0 };
    assert(zero.size() == 0real) by {
        let p = power(-1074);
        assert(0real * p == 0real) by (nonlinear_arith);
    }
    lemma_equal_magnitudes(a, b);
    lemma_equal_magnitudes(a, zero);
    lemma_equal_magnitudes(b, zero);
    if a.magnitude() < b.magnitude() {
        lemma_size_grows(a, b);
    }
    if b.magnitude() < a.magnitude() {
        lemma_size_grows(b, a);
    }
    if a.magnitude() > 0 {
        lemma_size_grows(zero, a);
    }
    if b.magnitude() > 0 {
        lemma_size_grows(zero, b);
    }
}

/// The size depends on the magnitude alone.
#[verifier::spinoff_prover]
pub proof fn lemma_equal_magnitudes(a: Coord, b: Coord)
    ensures
        a.magnitude() == b.magnitude() ==> a.size() == b.size(),
{
}

/// A position is read from its bits as the standard says: the highest bit is the sign, the next
/// eleven are the exponent, and the rest are the digits after the first.
#[verifier::spinoff_prover]
pub proof fn law_position_is_read_from_its_bits(c: Coord)
    ensures
        ({
            let m = c.bits as int % 0x8000_0000_0000_0000;
            let digits = m % 0x10_0000_0000_0000;
            let field = m / 0x10_0000_0000_0000;
            let size = if field == 0 {
                digits as real * power(-1074)
            } else {
                (0x10_0000_0000_0000 + digits) as real * power(field - 1075)
            };
            &&& c.is_nan() <==> m > 0x7ff0_0000_0000_0000
            &&& c.is_finite() <==> m < 0x7ff0_0000_0000_0000
            &&& c.size() == size
            &&& c.value() == if c.bits >= 0x8000_0000_0000_0000 {
                -size
            } else {
                size
            }
        }),
{
}

/// Among all positions but those that are no numbers, the negative ones come before the others,
/// and the larger the magnitude, the later or, for negative ones, the earlier. The two zeros are at
/// the same place.
#[verifier::spinoff_prover]
pub proof fn law_positions_are_ordered(a: Coord, b: Coord)
    ensures
        ({
            let m = a.bits as int % 0x8000_0000_0000_0000;
            let n = b.bits as int % 0x8000_0000_0000_0000;
            let (left, right) = (
                if a.bits >= 0x8000_0000_0000_0000 {
                    -m
                } else {
                    m
                },
                if b.bits >= 0x8000_0000_0000_0000 {
                    -n
                } else {
                    n
                },
            );
            a.before(b) <==> m <= 0x7ff0_0000_0000_0000 && n <= 0x7ff0_0000_0000_0000 && left
                < right
        }),
{
}

} // verus!
