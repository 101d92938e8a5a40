use tiny_dfr::coord::Coord;
use tiny_dfr::geometry::{button_shade, button_shape};
use tiny_dfr::picture::label_place;
use tiny_dfr::rounding::Double;

const LENGTHS: [f64; 24] = [
    0.0,
    -0.0,
    5e-324,
    -5e-324,
    1e-323,
    1.5e-323,
    -1.5e-323,
    2e-323,
    2.2250738585072009e-308,
    2.2250738585072014e-308,
    4.4501477170144023e-308,
    4.450147717014403e-308,
    1e-200,
    0.1,
    1.0,
    17.25,
    41.300000000000004,
    -41.3,
    65535.0,
    1e300,
    f64::MAX,
    f64::MIN,
    f64::INFINITY,
    f64::NEG_INFINITY,
];

fn at(x: f64) -> Coord {
    Coord { bits: x.to_bits() }
}

fn number(c: Coord) -> f64 {
    f64::from_bits(c.bits)
}

fn assert_same(position: Coord, expected: f64) {
    if expected.is_nan() {
        assert!(number(position).is_nan());
    } else {
        assert_eq!(position.bits, expected.to_bits(), "{} {expected}", number(position));
    }
}

#[test]
fn halves_are_those_of_the_machine() {
    for x in LENGTHS {
        assert_same(at(x).half(), x / 2.0);
        assert_same(at(x).negate(), -x);
    }
    assert!(number(at(f64::NAN).half()).is_nan());
    for bits in (0..200).chain((1 << 52) - 100..(1 << 52) + 100).chain((1 << 53) - 100..(1 << 53) + 100) {
        let x = f64::from_bits(bits);
        assert_same(at(x).half(), x / 2.0);
        assert_same(at(-x).half(), -x / 2.0);
    }
}

#[test]
fn moved_places_are_those_of_the_machine() {
    let thirds = Double::from_int(2).div(Double::from_int(3));
    for (d, x) in [
        (Double::from_int(0), 0.0),
        (Double::from_int(1), 1.0),
        (thirds, 2.0 / 3.0),
        (Double::from_int(1085), 1085.0),
    ] {
        for length in LENGTHS {
            assert_same(Coord::from_moved(d, at(length).half()), x + length / 2.0);
            assert_same(Coord::from_moved(d, at(length).half().negate()), x - length / 2.0);
        }
        assert!(number(Coord::from_moved(d, at(f64::NAN))).is_nan());
    }
}

#[test]
fn labels_are_placed_as_by_the_machine() {
    for num in [1u32, 2, 3, 12, 13, 70000, 4294967294] {
        for (width, height) in [(0u16, 0u16), (1, 1), (1752, 60), (2170, 60), (2008, 61), (65535, 65535)] {
            for idx in [0, 1, num / 2, num - 1] {
                let button_width = width as f64 / (num + 1) as f64;
                let spacing_width = (width as f64 - num as f64 * button_width) / (num - 1) as f64;
                let left_edge = idx as f64 * (button_width + spacing_width);
                for length in LENGTHS.into_iter().chain([f64::NAN]) {
                    let place = label_place(num, idx, width, height, at(length), at(length));
                    assert_same(place.x, left_edge + button_width / 2.0 - length / 2.0);
                    assert_same(place.y, height as f64 / 2.0 + length / 2.0);
                }
            }
        }
    }
}

#[test]
fn label_on_the_first_button() {
    let place = label_place(13, 0, 2170, 60, at(41.0), at(23.0));
    assert_eq!(number(place.x), 57.0);
    assert_eq!(number(place.y), 41.5);
}

#[test]
fn pictures_lie_in_the_middle_of_their_buttons() {
    for (num, width) in [(13u32, 2170u16), (12, 2008), (12, 1752), (2, 0), (70000, 65535)] {
        for idx in [0, 1, num - 1] {
            for height in [0u16, 1, 60, 65535] {
                let shape = button_shape(num, idx, width, height);
                let centre = number(shape.left_edge) + number(shape.button_width) / 2.0;
                let size = number(shape.icon_size);
                assert!((size - 0.8 * height as f64).abs() <= 1e-6);
                assert!((number(shape.icon_x) + size / 2.0 - centre).abs() <= 1e-6);
                assert!((number(shape.icon_y) + size / 2.0 - height as f64 / 2.0).abs() <= 1e-6);
                let place = label_place(num, idx, width, height, at(33.3), at(20.1));
                assert!((number(place.x) + 33.3 / 2.0 - centre).abs() <= 1e-3);
                assert!((number(place.y) - 20.1 / 2.0 - height as f64 / 2.0).abs() <= 1e-3);
            }
        }
    }
}

#[test]
fn pictures_move_with_their_buttons() {
    let first = button_shape(13, 0, 2170, 60);
    let from = label_place(13, 0, 2170, 60, at(33.3), at(20.1));
    for idx in 1..13 {
        let shape = button_shape(13, idx, 2170, 60);
        let to = label_place(13, idx, 2170, 60, at(33.3), at(20.1));
        let distance = number(shape.left_edge) - number(first.left_edge);
        assert!((number(shape.icon_x) - number(first.icon_x) - distance).abs() <= 1e-6);
        assert!((number(to.x) - number(from.x) - distance).abs() <= 1e-6);
        assert_eq!((shape.icon_y, shape.icon_size), (first.icon_y, first.icon_size));
        assert_eq!(to.y, from.y);
    }
}

#[test]
fn touched_buttons_are_lighter() {
    assert_same(button_shade(false), 0.200);
    assert_same(button_shade(true), 0.400);
}
