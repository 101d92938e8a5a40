use tiny_dfr::coord::Coord;
use tiny_dfr::rounding::Double;

/// The double that the library computes with, as a number of the machine.
fn number(d: Double) -> f64 {
    f64::from_bits(Coord::from_double(d).bits)
}

fn double(x: f64) -> Double {
    Coord { bits: x.to_bits() }.to_double()
}

/// A sequence of numbers without a pattern.
fn next(seed: &mut u64) -> u64 {
    *seed ^= *seed << 13;
    *seed ^= *seed >> 7;
    *seed ^= *seed << 17;
    *seed
}

/// A positive number of a middling size, with all its digits in use or with only a few.
fn sample(seed: &mut u64) -> f64 {
    let exponent = (next(seed) % 140) as i32 - 70;
    let digits = next(seed) % 53;
    let mantissa = (next(seed) >> 11) >> digits << digits;
    (mantissa.max(1) as f64) * 2f64.powi(exponent - 52)
}

#[test]
fn integers_are_exact() {
    for n in [0u64, 1, 2, 3, 12, 13, 2008, 2170, 65535, (1 << 53) - 1] {
        assert_eq!(number(Double::from_int(n)), n as f64);
    }
}

#[test]
fn one_third_is_rounded_down() {
    let third = Double::from_int(1).div(Double::from_int(3));
    assert_eq!(third.mantissa, 0x15_5555_5555_5555);
    assert_eq!(third.exponent, -54);
    assert_eq!(number(third), 1.0 / 3.0);
}

#[test]
fn two_thirds_are_rounded_up() {
    let fraction = Double::from_int(2).div(Double::from_int(3));
    assert_eq!(fraction.mantissa, 0x15_5555_5555_5555);
    assert_eq!(fraction.exponent, -53);
    let fraction = Double::from_int(5).div(Double::from_int(3));
    assert_eq!(fraction.mantissa, 0x1a_aaaa_aaaa_aaab);
}

#[test]
fn ties_go_to_the_even_neighbour() {
    let large = Double::from_int((1 << 53) - 1);
    // (2^53 - 1) + 1/2 and (2^53 - 2) + 1/2 lie half way between two doubles.
    let half = Double::from_int(1).div(Double::from_int(2));
    assert_eq!(number(large.add(half)), 9007199254740992.0);
    let even = Double::from_int((1 << 53) - 2);
    assert_eq!(number(even.add(half)), 9007199254740990.0);
}

#[test]
fn sums_are_those_of_the_machine() {
    let mut seed = 0x9e3779b97f4a7c15;
    for _ in 0..50000 {
        let (a, b) = (sample(&mut seed), sample(&mut seed));
        assert_eq!(number(double(a).add(double(b))).to_bits(), (a + b).to_bits(), "{a} + {b}");
    }
}

#[test]
fn differences_are_those_of_the_machine() {
    let mut seed = 0xdeadbeefcafebabe;
    for _ in 0..50000 {
        let (a, b) = (sample(&mut seed), sample(&mut seed));
        let (a, b) = if a < b { (b, a) } else { (a, b) };
        assert_eq!(number(double(a).sub(double(b))).to_bits(), (a - b).to_bits(), "{a} - {b}");
        let close = f64::from_bits(a.to_bits() - next(&mut seed) % 9);
        assert_eq!(number(double(a).sub(double(close))).to_bits(), (a - close).to_bits());
    }
}

#[test]
fn subtracting_little_from_a_power_of_two() {
    for exponent in 40..80 {
        let (a, b) = (1.0, 2f64.powi(-exponent));
        assert_eq!(number(double(a).sub(double(b))), a - b);
        let b = 3.0 * b;
        assert_eq!(number(double(a).sub(double(b))), a - b);
    }
}

#[test]
fn products_are_those_of_the_machine() {
    let mut seed = 0x0123456789abcdef;
    for _ in 0..50000 {
        let (a, b) = (sample(&mut seed), sample(&mut seed));
        assert_eq!(number(double(a).mul(double(b))).to_bits(), (a * b).to_bits(), "{a} * {b}");
    }
    assert_eq!(number(double(0.0).mul(double(3.0))), 0.0);
}

#[test]
fn quotients_are_those_of_the_machine() {
    let mut seed = 0xfedcba9876543210;
    for _ in 0..50000 {
        let (a, b) = (sample(&mut seed), sample(&mut seed));
        assert_eq!(number(double(a).div(double(b))).to_bits(), (a / b).to_bits(), "{a} / {b}");
    }
    assert_eq!(number(double(0.0).div(double(3.0))), 0.0);
}

#[test]
fn floors_are_casts_of_the_machine() {
    let mut seed = 0x5555aaaa5555aaaa;
    for _ in 0..50000 {
        let a = sample(&mut seed);
        assert_eq!(double(a).floor(), a as u32, "{a}");
    }
    for a in [0.0, 0.5, 0.9999999999999999, 1.0, 4294967294.5, 4294967295.0, 4294967296.0, 1e300] {
        assert_eq!(double(a).floor(), a as u32, "{a}");
    }
}

#[test]
fn every_size_has_a_double() {
    for x in [0.0, -0.0, 5e-324, 2.2250738585072014e-308, 1.0, f64::MAX, -1.5] {
        let d = double(x);
        let size = x.abs();
        if size >= f64::MIN_POSITIVE {
            assert_eq!(number(d), size);
        }
        assert_eq!(d.mantissa == 0, size == 0.0);
    }
    // The smallest positive double, with its mantissa made 53 digits long.
    assert_eq!(double(5e-324), Double { mantissa: 1 << 52, exponent: -1126 });
}
