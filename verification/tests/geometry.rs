use tiny_dfr::coord::{Coord, INFINITY};
use tiny_dfr::geometry::{
    button_clip, button_frame, button_hit, button_index, button_shape, full_clip, hit_area,
    pixel_box, ClipRect, HitArea, PixelBox,
};
use tiny_dfr::rounding::Double;

fn at(x: f64) -> Coord {
    Coord { bits: x.to_bits() }
}

fn number(c: Coord) -> f64 {
    f64::from_bits(c.bits)
}

fn machine_hit(num: u32, idx: u32, width: u16, height: u16, x: f64, y: f64) -> bool {
    let button_width = width as f64 / (num + 1) as f64;
    let spacing_width = (width as f64 - num as f64 * button_width) / (num - 1) as f64;
    let left_edge = idx as f64 * (button_width + spacing_width);
    if x < left_edge || x > (left_edge + button_width) {
        return false;
    }
    y > 0.09 * height as f64 && y < 0.91 * height as f64
}

const NUMS: [u32; 14] = [1, 2, 3, 5, 9, 11, 12, 13, 14, 16, 17, 100, 4096, 4294967294];
const SIZES: [(u16, u16); 9] = [
    (0, 0),
    (1, 1),
    (65, 3),
    (616, 60),
    (1752, 60),
    (2008, 60),
    (2170, 60),
    (32767, 32767),
    (65535, 65535),
];

#[test]
fn positions_are_ordered_as_numbers() {
    let samples = [
        f64::NAN,
        f64::NEG_INFINITY,
        -1e300,
        -1.0,
        -5e-324,
        -0.0,
        0.0,
        5e-324,
        2.2250738585072014e-308,
        0.5,
        1.0,
        1.0000000000000002,
        155.0,
        f64::MAX,
        f64::INFINITY,
        -f64::NAN,
    ];
    for a in samples {
        for b in samples {
            assert_eq!(at(a).is_before(at(b)), a < b, "{a} {b}");
        }
    }
}

#[test]
fn areas_are_those_of_the_machine() {
    for num in NUMS {
        for (width, height) in SIZES {
            for idx in [0, 1, 2, 3, 7, 11, 12, 13, 100, u32::MAX] {
                let button_width = width as f64 / (num + 1) as f64;
                let spacing_width = (width as f64 - num as f64 * button_width) / (num - 1) as f64;
                let left_edge = idx as f64 * (button_width + spacing_width);
                let right_edge = left_edge + button_width;
                let area = hit_area(num, idx, width, height);
                let (left, length) = button_frame(num, idx, width);
                assert_eq!(number(length), button_width);
                assert_eq!(left, area.left);
                if left_edge.is_nan() {
                    assert!(number(area.left).is_nan() && number(area.right).is_nan());
                } else {
                    assert_eq!(number(area.left), left_edge, "{num} {idx} {width}");
                    assert_eq!(number(area.right), right_edge, "{num} {idx} {width}");
                }
                assert_eq!(number(area.low), 0.09 * height as f64);
                assert_eq!(number(area.high), 0.91 * height as f64);
            }
        }
    }
}

#[test]
fn every_width_of_a_bar_has_the_edges_of_the_machine() {
    for num in [12u32, 13] {
        for width in (0..=65535u16).step_by(7) {
            let button_width = width as f64 / (num + 1) as f64;
            let spacing_width = (width as f64 - num as f64 * button_width) / (num - 1) as f64;
            for idx in 0..num {
                let left_edge = idx as f64 * (button_width + spacing_width);
                let (left, _) = button_frame(num, idx, width);
                assert_eq!(number(left), left_edge);
            }
        }
    }
}

#[test]
fn pixels_are_those_of_the_machine() {
    for num in NUMS {
        for (width, height) in SIZES {
            for idx in [0, 1, 3, 7, 11, 12] {
                let button_width = width as f64 / (num + 1) as f64;
                let spacing_width = (width as f64 - num as f64 * button_width) / (num - 1) as f64;
                let left_edge = idx as f64 * (button_width + spacing_width);
                let expected = PixelBox {
                    left: left_edge as u16,
                    length: button_width as u16,
                    lower: ((height as f64) * 0.15) as u16,
                    upper: ((height as f64) * 0.85) as u16,
                };
                assert_eq!(pixel_box(num, idx, width, height), expected);
            }
        }
    }
}

#[test]
fn an_edge_just_below_a_pixel_belongs_to_the_pixel_before() {
    // The exact edge is 949, the rounded one a little less.
    assert_eq!(pixel_box(13, 7, 1752, 60).left, 948);
    assert_eq!(pixel_box(13, 12, 2170, 60).left, 2015);
}

#[test]
fn hits_are_those_of_the_machine() {
    for num in NUMS {
        for (width, height) in SIZES {
            for step in 0..200 {
                let x = step as f64 * width as f64 / 180.0 - 5.0;
                let y = step as f64 * height as f64 / 190.0 - 0.5;
                for idx in [0, 1, 5, 12] {
                    let expected = machine_hit(num, idx, width, height, x, y);
                    assert_eq!(button_hit(num, idx, width, height, at(x), at(y)), expected);
                }
            }
        }
    }
}

#[test]
fn edges_belong_to_the_button_and_the_rim_does_not() {
    let area = hit_area(13, 1, 2170, 60);
    let left = number(area.left);
    let right = number(area.right);
    let hit = |x: f64, y: f64| button_hit(13, 1, 2170, 60, at(x), at(y));
    assert!(hit(left, 30.0) && hit(right, 30.0));
    assert!(!hit(f64::from_bits(left.to_bits() - 1), 30.0));
    assert!(!hit(f64::from_bits(right.to_bits() + 1), 30.0));
    assert!(!hit(200.0, 0.09 * 60.0) && !hit(200.0, 0.91 * 60.0));
    assert!(hit(200.0, 5.5) && hit(200.0, 54.5));
    assert!(!hit(200.0, f64::NAN));
}

#[test]
fn a_single_button_answers_everywhere() {
    assert!(button_hit(1, 0, 2170, 60, at(-3.0), at(30.0)));
    assert!(button_hit(1, 0, 2170, 60, at(5000.0), at(30.0)));
    assert!(!button_hit(1, 0, 2170, 60, at(100.0), at(59.0)));
    assert!(!button_hit(1, 1, 2170, 60, at(100.0), at(30.0)));
    assert_eq!(hit_area(1, 1, 2170, 60).left, Coord { bits: INFINITY });
}

#[test]
fn indices_are_those_of_the_machine() {
    let mut xs = vec![
        f64::NAN,
        f64::NEG_INFINITY,
        -1.0,
        -0.0,
        0.0,
        5e-324,
        1e-300,
        155.0,
        2169.9999999999995,
        2170.0,
        1e9,
        1e12,
        1e308,
        f64::INFINITY,
    ];
    for step in 0..500 {
        xs.push(step as f64 * 4.71);
    }
    for num in NUMS {
        for (width, _) in SIZES {
            for x in &xs {
                let expected = (x / (width as f64 / num as f64)) as u32;
                assert_eq!(button_index(at(*x), width, num), expected, "{x} {width} {num}");
            }
        }
    }
}

#[test]
fn a_touch_lies_in_one_area_at_most() {
    let areas: Vec<HitArea> = (0..13).map(|i| hit_area(13, i, 2170, 60)).collect();
    for pair in areas.windows(2) {
        assert!(pair[0].right.is_before(pair[1].left));
    }
    for x in 0..2170 {
        let hits = areas.iter().filter(|a| a.is_hit(at(x as f64), at(30.0))).count();
        assert!(hits <= 1);
    }
}

#[test]
fn clip_of_a_button() {
    let pixels = pixel_box(13, 1, 2170, 60);
    assert_eq!(pixels, PixelBox { left: 167, length: 155, lower: 9, upper: 51 });
    let clip = button_clip(pixels, 60);
    assert_eq!(clip, Some(ClipRect { x1: 1, y1: 167, x2: 59, y2: 322 }));
}

#[test]
fn clips_that_leave_the_framebuffer() {
    let pixels = PixelBox { left: 10, length: 20, lower: 7, upper: 43 };
    assert_eq!(button_clip(pixels, 51), Some(ClipRect { x1: 0, y1: 10, x2: 52, y2: 30 }));
    assert_eq!(button_clip(pixels, 50), None);
    assert_eq!(button_clip(PixelBox { left: 65530, ..pixels }, 51), None);
    assert_eq!(button_clip(PixelBox { lower: 52, ..pixels }, 51), None);
    assert_eq!(button_clip(PixelBox { lower: 0, ..pixels }, 65530), None);
}

#[test]
fn clip_of_the_bar() {
    assert_eq!(full_clip(60, 2170), ClipRect { x1: 0, y1: 0, x2: 60, y2: 2170 });
}

fn assert_same(position: Coord, expected: f64) {
    if expected.is_nan() {
        assert!(number(position).is_nan());
    } else {
        assert_eq!(position.bits, expected.to_bits(), "{} {expected}", number(position));
    }
}

#[test]
fn shapes_are_those_of_the_machine() {
    for num in NUMS {
        for (width, height) in SIZES.into_iter().chain([(5, 47), (2170, 53), (2170, 54), (90, 10)]) {
            for idx in [0, 1, 2, num / 2, num - 1] {
                let shape = button_shape(num, idx, width, height);
                let height = height as f64;
                let button_width = width as f64 / (num + 1) as f64;
                let spacing_width = (width as f64 - num as f64 * button_width) / (num - 1) as f64;
                let left_edge = idx as f64 * (button_width + spacing_width);
                let radius = 8.0f64;
                let bot = height * 0.15;
                let top = height * 0.85;
                assert_same(shape.left_edge, left_edge);
                assert_same(shape.button_width, button_width);
                assert_same(shape.background, bot - radius);
                assert_same(shape.background_height, top - bot + radius * 2.0);
                assert_same(shape.left, left_edge + radius);
                assert_same(shape.right, left_edge + button_width - radius);
                assert_same(shape.bot, bot);
                assert_same(shape.top, top);
                let y = 0.10 * height;
                let size = height - y * 2.0;
                assert_same(shape.icon_x, left_edge + button_width / 2.0 - size / 2.0);
                assert_same(shape.icon_y, y);
                assert_same(shape.icon_size, size);
            }
        }
    }
}

#[test]
fn shape_of_the_first_button() {
    let shape = button_shape(13, 0, 2170, 60);
    assert_eq!(number(shape.left_edge), 0.0);
    assert_eq!(number(shape.button_width), 155.0);
    assert_eq!(number(shape.background), 1.0);
    assert_eq!(number(shape.background_height), 58.0);
    assert_eq!(number(shape.left), 8.0);
    assert_eq!(number(shape.right), 147.0);
    assert_eq!(number(shape.bot), 9.0);
    assert_eq!(number(shape.top), 51.0);
    assert_eq!(number(shape.icon_x), 53.5);
    assert_eq!(number(shape.icon_y), 6.0);
    assert_eq!(number(shape.icon_size), 48.0);
}

#[test]
fn differences_have_a_sign() {
    let double = |n| Double::from_int(n);
    assert_same(Coord::from_difference(double(5), double(3)), 2.0);
    assert_same(Coord::from_difference(double(3), double(5)), -2.0);
    assert_same(Coord::from_difference(double(3), double(3)), 0.0);
    let third = double(1).div(double(3));
    assert_same(Coord::from_difference(third, double(1)), 1.0 / 3.0 - 1.0);
    assert_same(Coord::from_difference(double(1), third), 1.0 - 1.0 / 3.0);
}

#[test]
fn the_layout_is_mirrored() {
    for num in [2, 3, 12, 13, 4096, 65535] {
        for (width, height) in [(0u16, 0u16), (1, 1), (1752, 60), (2170, 60), (65535, 65535)] {
            for idx in [0, 1, num / 2, num - 1] {
                let area = hit_area(num, idx, width, height);
                let mirrored = hit_area(num, num - 1 - idx, width, height);
                let sum = number(mirrored.left) + number(area.right);
                assert!((sum - width as f64).abs() <= 1e-9);
                let sum = number(mirrored.right) + number(area.left);
                assert!((sum - width as f64).abs() <= 1e-9);
                let sum = number(area.low) + number(area.high);
                assert!((sum - height as f64).abs() <= 5e-7);
            }
        }
    }
}

#[test]
fn mirrored_touches_hit_the_counterpart() {
    for idx in 0..13 {
        for x in 0..2170 {
            for y in [1.25, 5.25, 5.75, 30.25, 54.25, 54.75, 58.25] {
                let x = x as f64 + 0.25;
                let hit = button_hit(13, idx, 2170, 60, at(x), at(y));
                let (mirror_x, mirror_y) = (at(2170.0 - x), at(60.0 - y));
                assert_eq!(button_hit(13, 12 - idx, 2170, 60, mirror_x, at(y)), hit);
                assert_eq!(button_hit(13, idx, 2170, 60, at(x), mirror_y), hit);
                assert_eq!(button_hit(13, 12 - idx, 2170, 60, mirror_x, mirror_y), hit);
            }
        }
    }
}
