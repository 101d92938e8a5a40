//! Where the buttons lie on the bar, and which of them a touch hits.
//!
//! A bar with `num` buttons is divided into `num + 1` parts. Each button is one part long, and the
//! part that is left over is divided evenly among the gaps. All lengths are doubles, rounded after
//! every step.

use vstd::prelude::*;

use crate::accuracy::{lemma_medium, lemma_small_error, within};
use crate::coord::{Coord, INFINITY, NAN};
use crate::rounding::{
    law_round_error, law_round_stays_below, ordinary, power, round, saturated, Double,
};

verus! {

/// The distance, in pixels, by which the background of a button reaches past its straight edges.
pub const CORNER_RADIUS: u16 = 8;

/// The shade of grey, in percent of white, of a button that is not touched.
pub const SHADE_INACTIVE: u8 = 20;

/// The shade of grey, in percent of white, of a button that is touched.
pub const SHADE_ACTIVE: u8 = 40;

/// The area, borders included to the left and right and excluded above and below, in which a
/// touch belongs to a button.
#[derive(Clone, Copy, Debug, PartialEq, Eq, Structural)]
pub struct HitArea {
    pub left: Coord,
    pub right: Coord,
    pub low: Coord,
    pub high: Coord,
}

/// The pixels of a button: its first row and its length along the bar, and its lower and upper
/// edge across the bar.
#[derive(Clone, Copy, Debug, PartialEq, Eq, Structural)]
pub struct PixelBox {
    pub left: u16,
    pub length: u16,
    pub lower: u16,
    pub upper: u16,
}

/// A rectangle of the framebuffer: columns `x1..x2` of the rows `y1..y2`.
#[derive(Clone, Copy, Debug, PartialEq, Eq, Structural)]
pub struct ClipRect {
    pub x1: u16,
    pub y1: u16,
    pub x2: u16,
    pub y2: u16,
}

/// The strokes that make up a button, on a bar that lies along the first axis.
#[derive(Clone, Copy, Debug, PartialEq, Eq, Structural)]
pub struct ButtonShape {
    /// Where the button begins along the bar.
    pub left_edge: Coord,
    /// How long the button is.
    pub button_width: Coord,
    /// Where the background begins across the bar.
    pub background: Coord,
    /// How far the background reaches across the bar.
    pub background_height: Coord,
    /// The centres of the rounded corners along the bar: those on the left and on the right.
    pub left: Coord,
    pub right: Coord,
    /// The centres of the rounded corners across the bar: those at the bottom and at the top.
    pub bot: Coord,
    pub top: Coord,
    /// The square that holds an icon.
    pub icon_x: Coord,
    pub icon_y: Coord,
    pub icon_size: Coord,
}

/// The length of a button.
pub open spec fn button_width(width: u16, num: int) -> Double {
    round(width as real / (num + 1) as real)
}

/// The part of the bar that the buttons leave over.
pub open spec fn free_width(width: u16, num: int) -> Double {
    round(width as real - round(num as real * button_width(width, num).value()).value())
}

/// The length of the gap between two buttons, of which there are at least two.
pub open spec fn spacing_width(width: u16, num: int) -> Double {
    round(free_width(width, num).value() / (num - 1) as real)
}

/// The distance from the beginning of a button to the beginning of the next.
pub open spec fn button_step(width: u16, num: int) -> Double {
    round(button_width(width, num).value() + spacing_width(width, num).value())
}

/// Where button `idx` of at least two begins.
pub open spec fn left_edge(width: u16, num: int, idx: int) -> Double {
    round(idx as real * button_step(width, num).value())
}

/// Where button `idx` of at least two ends.
pub open spec fn right_edge(width: u16, num: int, idx: int) -> Double {
    round(left_edge(width, num, idx).value() + button_width(width, num).value())
}

/// A percentage of the height. The percentage itself is a double, too.
pub open spec fn height_share(height: u16, percent: int) -> Double {
    round(round(percent as real / 100real).value() * height as real)
}

/// Where button `idx` begins. With a single button the gaps are infinite, for there are none to
/// divide what is left over among; the product of an infinite gap and zero is not a number.
pub open spec fn left_coord(width: u16, num: int, idx: int) -> Coord {
    if num != 1 {
        Coord::of(left_edge(width, num, idx))
    } else if idx == 0 || width == 0 {
        Coord { bits: NAN }
    } else {
        Coord { bits: INFINITY }
    }
}

/// Where button `idx` ends.
pub open spec fn right_coord(width: u16, num: int, idx: int) -> Coord {
    if num != 1 {
        Coord::of(right_edge(width, num, idx))
    } else {
        left_coord(width, num, idx)
    }
}

/// The area in which a touch belongs to button `idx` of a bar with `num` buttons.
pub open spec fn spec_hit_area(num: int, idx: int, width: u16, height: u16) -> HitArea {
    HitArea {
        left: left_coord(width, num, idx),
        right: right_coord(width, num, idx),
        low: Coord::of(height_share(height, 9)),
        high: Coord::of(height_share(height, 91)),
    }
}

/// The pixels of button `idx`. Positions are cut off after the point and at the largest number of
/// 16 bits; what is not a number becomes zero.
pub open spec fn spec_pixel_box(num: int, idx: int, width: u16, height: u16) -> PixelBox {
    PixelBox {
        left: if num != 1 {
            to_pixel(left_edge(width, num, idx))
        } else if idx == 0 || width == 0 {
            0
        } else {
            u16::MAX
        },
        length: to_pixel(button_width(width, num)),
        lower: to_pixel(height_share(height, 15)),
        upper: to_pixel(height_share(height, 85)),
    }
}

/// A double, cut off after the point and at the largest number of 16 bits.
pub open spec fn to_pixel(d: Double) -> u16 {
    saturated(d.value().floor(), u16::MAX as int) as u16
}

impl HitArea {
    /// Whether a touch at `(x, y)` belongs to the area.
    pub open spec fn contains(self, x: Coord, y: Coord) -> bool {
        &&& !x.before(self.left)
        &&& !self.right.before(x)
        &&& self.low.before(y)
        &&& y.before(self.high)
    }

    /// Whether a touch at `(x, y)` belongs to the area.
    #[verifier::spinoff_prover]
    pub fn is_hit(self, x: Coord, y: Coord) -> (hit: bool)
        ensures
            hit == self.contains(x, y),
    {
        if x.is_before(self.left) || self.right.is_before(x) {
            return false;
        }
        self.low.is_before(y) && y.is_before(self.high)
    }
}

/// The buttons together are not longer than the bar.
#[verifier::spinoff_prover]
proof fn lemma_buttons_fit(width: u16, num: int, bar: Double)
    requires
        1 <= num < u32::MAX,
        bar.wf(),
        bar.value() == width as real,
        ordinary(width as real / (num + 1) as real),
        ordinary(num as real * button_width(width, num).value()),
    ensures
        0real <= num as real * button_width(width, num).value(),
        round(num as real * button_width(width, num).value()).value() <= width as real,
{
    let w = width as real;
    let n = num as real;
    let exact = w / (num + 1) as real;
    let part = button_width(width, num).value();
    let scale = crate::rounding::MANTISSA_END as real;
    assert(0real <= exact && exact * (n + 1real) == w) by (nonlinear_arith)
        requires
            0real <= w,
            0real <= n,
            exact == w / (n + 1real),
    ;
    law_round_error(exact);
    assert(part * scale <= exact * scale + exact) by {
        let off = part - exact;
        assert(off * scale == part * scale - exact * scale) by (nonlinear_arith)
            requires
                off == part - exact,
        ;
        if off < 0real {
            assert(off * scale <= 0real) by (nonlinear_arith)
                requires
                    off < 0real,
                    scale > 0real,
            ;
        }
    }
    assert(n * (part * scale) <= n * (exact * scale + exact)) by (nonlinear_arith)
        requires
            0real <= n,
            part * scale <= exact * scale + exact,
    ;
    assert(n * exact <= scale * exact) by (nonlinear_arith)
        requires
            n <= scale,
            0real <= exact,
    ;
    assert((n * part) * scale <= w * scale) by (nonlinear_arith)
        requires
            n * (part * scale) <= n * (exact * scale + exact),
            n * exact <= scale * exact,
            exact * (n + 1real) == w,
    ;
    assert(n * part <= w) by (nonlinear_arith)
        requires
            (n * part) * scale <= w * scale,
            scale > 0real,
    ;
    crate::rounding::lemma_power_positive(button_width(width, num).exponent as int);
    let m = button_width(width, num).mantissa as real;
    let p = crate::rounding::power(button_width(width, num).exponent as int);
    assert(0real <= n * (m * p)) by (nonlinear_arith)
        requires
            0real <= n,
            0real <= m,
            0real <= p,
    ;
    law_round_stays_below(n * part, bar);
}

/// The length of a button.
#[verifier::spinoff_prover]
fn measure_button(width: u16, num: u32) -> (d: Double)
    requires
        num < u32::MAX,
    ensures
        d == button_width(width, num as int),
        ordinary(width as real / (num + 1) as real),
        d.within(-170, 119),
{
    Double::from_int(width as u64).div(Double::from_int(num as u64 + 1))
}

/// The distance from the beginning of a button to the beginning of the next.
#[verifier::spinoff_prover]
fn measure_step(width: u16, num: u32) -> (d: Double)
    requires
        2 <= num < u32::MAX,
    ensures
        d == button_step(width, num as int),
        d.within(-694, 439),
{
    let bar: Double = Double::from_int(width as u64);
    let part: Double = measure_button(width, num);
    let used: Double = Double::from_int(num as u64).mul(part);
    proof {
        lemma_buttons_fit(width, num as int, bar);
    }
    assert(bar.within(-340, 186) && used.within(-340, 186));
    let free: Double = bar.sub(used);
    let gap: Double = free.div(Double::from_int(num as u64 - 1));
    assert(part.within(-576, 372) && gap.within(-576, 372));
    part.add(gap)
}

/// Where button `idx` of at least two begins.
#[verifier::spinoff_prover]
fn measure_left(width: u16, num: u32, idx: u32) -> (d: Double)
    requires
        2 <= num < u32::MAX,
    ensures
        d == left_edge(width, num as int, idx as int),
        d.within(-864, 506),
{
    Double::from_int(idx as u64).mul(measure_step(width, num))
}

/// A percentage of the height.
#[verifier::spinoff_prover]
fn measure_share(height: u16, percent: u8) -> (d: Double)
    ensures
        d == height_share(height, percent as int),
        d.within(-340, 186),
{
    let share: Double = Double::from_int(percent as u64).div(Double::from_int(100));
    share.mul(Double::from_int(height as u64))
}

/// Where button `idx` begins, and how long it is.
#[verifier::spinoff_prover]
pub fn button_frame(num: u32, idx: u32, width: u16) -> (frame: (Coord, Coord))
    requires
        1 <= num < u32::MAX,
    ensures
        frame.0 == left_coord(width, num as int, idx as int),
        frame.1 == Coord::of(button_width(width, num as int)),
{
    let length: Coord = Coord::from_double(measure_button(width, num));
    if num != 1 {
        (Coord::from_double(measure_left(width, num, idx)), length)
    } else if idx == 0 || width == 0 {
        (Coord { bits: NAN }, length)
    } else {
        (Coord { bits: INFINITY }, length)
    }
}

/// The area in which a touch belongs to button `idx` of a bar with `num` buttons.
#[verifier::spinoff_prover]
pub fn hit_area(num: u32, idx: u32, width: u16, height: u16) -> (area: HitArea)
    requires
        1 <= num < u32::MAX,
    ensures
        area == spec_hit_area(num as int, idx as int, width, height),
{
    let (left, _): (Coord, Coord) = button_frame(num, idx, width);
    let right: Coord = if num != 1 {
        let begin: Double = measure_left(width, num, idx);
        let length: Double = measure_button(width, num);
        assert(begin.within(-864, 506) && length.within(-864, 506));
        Coord::from_double(begin.add(length))
    } else {
        left
    };
    HitArea {
        left,
        right,
        low: Coord::from_double(measure_share(height, 9)),
        high: Coord::from_double(measure_share(height, 91)),
    }
}

/// Whether a touch at `(x, y)` hits button `idx` of a bar with `num` buttons.
#[verifier::spinoff_prover]
pub fn button_hit(num: u32, idx: u32, width: u16, height: u16, x: Coord, y: Coord) -> (hit: bool)
    requires
        1 <= num < u32::MAX,
    ensures
        hit == spec_hit_area(num as int, idx as int, width, height).contains(x, y),
{
    hit_area(num, idx, width, height).is_hit(x, y)
}

/// The length of one of `num` equal columns of the bar.
pub open spec fn column_width(width: u16, num: int) -> Double {
    round(width as real / num as real)
}

/// The column in which a touch lies, if the bar is divided evenly among `num` buttons: the
/// position divided by the length of a column, cut off after the point and at the bounds of 32
/// bit numbers. Division by zero gives infinity, or, of zero, what is not a number and counts as
/// zero.
pub open spec fn spec_button_index(x: Coord, width: u16, num: int) -> int {
    let column = column_width(width, num);
    if x.is_nan() || x.is_negative() || x.magnitude() == 0 {
        0
    } else if x.magnitude() == INFINITY || column.mantissa == 0 {
        u32::MAX as int
    } else {
        saturated(round(x.value() / column.value()).value().floor(), u32::MAX as int)
    }
}

/// The column in which a touch lies, if the bar is divided evenly among `num` buttons.
#[verifier::spinoff_prover]
pub fn button_index(x: Coord, width: u16, num: u32) -> (btn: u32)
    requires
        1 <= num,
    ensures
        btn == spec_button_index(x, width, num as int),
{
    let zero: Coord = Coord { bits: 0 };
    let infinity: Coord = Coord { bits: INFINITY };
    if !zero.is_before(x) {
        return 0;
    }
    let column: Double = Double::from_int(width as u64).div(Double::from_int(num as u64));
    if !x.is_before(infinity) || column.mantissa == 0 {
        return u32::MAX;
    }
    x.to_double().div(column).floor()
}

/// The pixels of button `idx` of a bar with `num` buttons.
#[verifier::spinoff_prover]
pub fn pixel_box(num: u32, idx: u32, width: u16, height: u16) -> (pixels: PixelBox)
    requires
        1 <= num < u32::MAX,
    ensures
        pixels == spec_pixel_box(num as int, idx as int, width, height),
{
    let left: u16 = if num != 1 {
        pixel(measure_left(width, num, idx))
    } else if idx == 0 || width == 0 {
        0
    } else {
        u16::MAX
    };
    PixelBox {
        left,
        length: pixel(measure_button(width, num)),
        lower: pixel(measure_share(height, 15)),
        upper: pixel(measure_share(height, 85)),
    }
}

/// A double, cut off after the point and at the largest number of 16 bits.
#[verifier::spinoff_prover]
fn pixel(d: Double) -> (n: u16)
    requires
        d.within(-2000, 2000),
    ensures
        n == to_pixel(d),
{
    let n: u32 = d.floor();
    if n > u16::MAX as u32 {
        u16::MAX
    } else {
        n as u16
    }
}

/// How far rounding moves a percentage of the height.
#[verifier::spinoff_prover]
pub proof fn lemma_share(height: u16, percent: int)
    requires
        1 <= percent <= 100,
    ensures
        within(
            height_share(height, percent).value(),
            percent as real * height as real / 100real,
            1real / 4000000real,
        ),
        height == 0 ==> height_share(height, percent).value() == 0real,
        height_share(height, percent).within(-132, 8),
{
    let h = height as real;
    let r = percent as real / 100real;
    let d = round(r).value();
    let x = d * h;
    let share = height_share(height, percent).value();
    lemma_medium(r);
    lemma_small_error(d, r, 1real);
    if height == 0 {
        assert(d * 0real == 0real) by (nonlinear_arith);
        assert(0real * power(0) == 0real);
        lemma_medium(0real);
    } else {
        let off = 1real / 1000000000000real;
        assert(d <= d * h) by (nonlinear_arith)
            requires
                0real <= d,
                1real <= h,
        ;
        assert(d * h <= 2real * h) by (nonlinear_arith)
            requires
                d <= 2real,
                0real <= h,
        ;
        lemma_medium(x);
        lemma_small_error(share, x, 131070real);
        assert(d * h <= (r + off) * h && (r - off) * h <= d * h) by (nonlinear_arith)
            requires
                d <= r + off,
                r - off <= d,
                0real <= h,
        ;
        assert((r + off) * h == r * h + off * h && (r - off) * h == r * h - off * h)
            by (nonlinear_arith);
        assert(percent as real * h / 100real == r * h) by (nonlinear_arith)
            requires
                r == percent as real / 100real,
        ;
    }
}

/// The shade of a button, as a fraction of white.
pub open spec fn spec_button_shade(active: bool) -> Coord {
    Coord::of(
        round(
            (if active {
                SHADE_ACTIVE
            } else {
                SHADE_INACTIVE
            }) as real / 100real,
        ),
    )
}

/// The shade of a button, as a fraction of white.
#[verifier::spinoff_prover]
pub fn button_shade(active: bool) -> (shade: Coord)
    ensures
        shade == spec_button_shade(active),
{
    let percent: u8 = if active {
        SHADE_ACTIVE
    } else {
        SHADE_INACTIVE
    };
    Coord::from_double(Double::from_int(percent as u64).div(Double::from_int(100)))
}

/// The extent of a background across the bar: that of the button and a radius on either side.
pub open spec fn background_height(height: u16) -> Double {
    round(round(height_share(height, 85).value() - height_share(height, 15).value()).value()
        + (2 * CORNER_RADIUS) as real)
}

/// The extent of an icon: the height less a tenth of it on either side.
pub open spec fn icon_size(height: u16) -> Double {
    round(height as real - round(height_share(height, 10).value() * 2real).value())
}

/// Half of a double.
pub open spec fn half(d: Double) -> Double {
    round(d.value() / 2real)
}

/// The middle of button `idx` of at least two.
pub open spec fn middle(width: u16, num: int, idx: int) -> Double {
    round(left_edge(width, num, idx).value() + half(button_width(width, num)).value())
}

/// The middle of button `idx` of at least two.
#[verifier::spinoff_prover]
pub fn measure_middle(width: u16, num: u32, idx: u32) -> (d: Double)
    requires
        2 <= num < u32::MAX,
    ensures
        d == middle(width, num as int, idx as int),
        d.within(-1000, 900),
{
    let begin: Double = measure_left(width, num, idx);
    let part: Double = measure_button(width, num).div(Double::from_int(2));
    assert(begin.within(-864, 506) && part.within(-864, 506));
    begin.add(part)
}

/// The strokes that make up button `idx`. With a single button none of them has a place along the
/// bar.
pub open spec fn spec_button_shape(num: int, idx: int, width: u16, height: u16) -> ButtonShape {
    let nowhere = left_coord(width, num, idx);
    let radius = CORNER_RADIUS as real;
    ButtonShape {
        left_edge: left_coord(width, num, idx),
        button_width: Coord::of(button_width(width, num)),
        background: Coord::minus(height_share(height, 15).value(), radius),
        background_height: Coord::of(background_height(height)),
        left: if num != 1 {
            Coord::of(round(left_edge(width, num, idx).value() + radius))
        } else {
            nowhere
        },
        right: if num != 1 {
            Coord::minus(right_edge(width, num, idx).value(), radius)
        } else {
            nowhere
        },
        bot: Coord::of(height_share(height, 15)),
        top: Coord::of(height_share(height, 85)),
        icon_x: if num != 1 {
            Coord::minus(middle(width, num, idx).value(), half(icon_size(height)).value())
        } else {
            nowhere
        },
        icon_y: Coord::of(height_share(height, 10)),
        icon_size: Coord::of(icon_size(height)),
    }
}

/// The extent of a background across the bar.
#[verifier::spinoff_prover]
fn measure_background(height: u16) -> (d: Double)
    ensures
        d == background_height(height),
        d.within(-800, 500),
{
    let bot: Double = measure_share(height, 15);
    let top: Double = measure_share(height, 85);
    proof {
        lemma_share(height, 15);
        lemma_share(height, 85);
    }
    let inner: Double = top.sub(bot);
    let margin: Double = Double::from_int(2 * CORNER_RADIUS as u64);
    assert(inner.within(-600, 400) && margin.within(-600, 400));
    inner.add(margin)
}

/// The extent of an icon.
#[verifier::spinoff_prover]
fn measure_icon(height: u16) -> (d: Double)
    ensures
        d == icon_size(height),
        d.within(-800, 500),
{
    let bar: Double = Double::from_int(height as u64);
    let margins: Double = measure_share(height, 10).mul(Double::from_int(2));
    proof {
        lemma_share(height, 10);
        law_round_stays_below(height_share(height, 10).value() * 2real, bar);
    }
    assert(bar.within(-600, 400) && margins.within(-600, 400));
    bar.sub(margins)
}

/// The strokes that make up button `idx` of a bar with `num` buttons.
#[verifier::spinoff_prover]
pub fn button_shape(num: u32, idx: u32, width: u16, height: u16) -> (shape: ButtonShape)
    requires
        1 <= num < u32::MAX,
    ensures
        shape == spec_button_shape(num as int, idx as int, width, height),
{
    let (left_edge, button_width): (Coord, Coord) = button_frame(num, idx, width);
    let radius: Double = Double::from_int(CORNER_RADIUS as u64);
    let bot: Double = measure_share(height, 15);
    let size: Double = measure_icon(height);
    let two: Double = Double::from_int(2);
    let (left, right, icon_x): (Coord, Coord, Coord) = if num != 1 {
        let begin: Double = measure_left(width, num, idx);
        let length: Double = measure_button(width, num);
        assert(begin.within(-864, 506) && length.within(-864, 506));
        assert(radius.within(-864, 506));
        (
            Coord::from_double(begin.add(radius)),
            Coord::from_difference(begin.add(length), radius),
            Coord::from_difference(measure_middle(width, num, idx), size.div(two)),
        )
    } else {
        (left_edge, left_edge, left_edge)
    };
    ButtonShape {
        left_edge,
        button_width,
        background: Coord::from_difference(bot, radius),
        background_height: Coord::from_double(measure_background(height)),
        left,
        right,
        bot: Coord::from_double(bot),
        top: Coord::from_double(measure_share(height, 85)),
        icon_x,
        icon_y: Coord::from_double(measure_share(height, 10)),
        icon_size: Coord::from_double(size),
    }
}

/// Whether the rectangle of a button can be given in 16 bit coordinates.
pub open spec fn clip_exists(pixels: PixelBox, height: u16) -> bool {
    &&& pixels.upper + CORNER_RADIUS <= height
    &&& pixels.lower <= height
    &&& height - pixels.lower + CORNER_RADIUS <= u16::MAX
    &&& pixels.left + pixels.length <= u16::MAX
}

/// The rectangle that holds a button. The bar stands upright in the framebuffer and its upper
/// edge lies to the left.
pub open spec fn spec_button_clip(pixels: PixelBox, height: u16) -> ClipRect {
    ClipRect {
        x1: (height - pixels.upper - CORNER_RADIUS) as u16,
        y1: pixels.left,
        x2: (height - pixels.lower + CORNER_RADIUS) as u16,
        y2: (pixels.left + pixels.length) as u16,
    }
}

/// The rectangle that holds a button, unless it cannot be given in 16 bit coordinates.
#[verifier::spinoff_prover]
pub fn button_clip(pixels: PixelBox, height: u16) -> (clip: Option<ClipRect>)
    ensures
        clip == if clip_exists(pixels, height) {
            Some(spec_button_clip(pixels, height))
        } else {
            None
        },
{
    let h: u32 = height as u32;
    if pixels.upper as u32 + CORNER_RADIUS as u32 > h || pixels.lower > height {
        return None;
    }
    let x2: u32 = h - pixels.lower as u32 + CORNER_RADIUS as u32;
    let y2: u32 = pixels.left as u32 + pixels.length as u32;
    if x2 > u16::MAX as u32 || y2 > u16::MAX as u32 {
        return None;
    }
    Some(
        ClipRect {
            x1: height - pixels.upper - CORNER_RADIUS,
            y1: pixels.left,
            x2: x2 as u16,
            y2: y2 as u16,
        },
    )
}

/// The rectangle that holds the whole bar.
pub open spec fn spec_full_clip(height: u16, width: u16) -> ClipRect {
    ClipRect { x1: 0, y1: 0, x2: height, y2: width }
}

/// The rectangle that holds the whole bar.
#[verifier::spinoff_prover]
pub fn full_clip(height: u16, width: u16) -> (clip: ClipRect)
    ensures
        clip == spec_full_clip(height, width),
{
    ClipRect { x1: 0, y1: 0, x2: height, y2: width }
}

} // verus!
