//! Where things lie on the bar, in numbers: the exact places, how near the measured ones come to
//! them, and which doubles these are.

use vstd::prelude::*;

use crate::accuracy::{lemma_medium, lemma_small_error, scale, within};
use crate::coord::{
    law_difference_keeps_sign, law_order_is_numeric, law_position_keeps_value, Coord,
};
use crate::geometry::{
    background_height, button_width, clip_exists, column_width, half, height_share, icon_size,
    left_edge, lemma_share, middle, right_edge, spec_button_clip, spec_button_index, spec_button_shape,
    spec_hit_area, spec_pixel_box, PixelBox,
};
use crate::layout::{
    exact_button, exact_gap, lemma_column, lemma_edges, lemma_exact, lemma_lengths,
    lemma_no_length, lemma_on_bar, lemma_stays_above, lemma_stays_below, unit,
};
use crate::picture::{lemma_icon_size, lemma_middle};
use crate::rounding::{
    distance, law_round_error, lemma_is_quotient, lemma_power_adds, lemma_power_is_pow2,
    lemma_power_positive, lemma_quotient, power, round, zero, Double, MANTISSA_MIN,
};

verus! {

/// What a place may be off: a millionth of a pixel.
pub open spec fn close(found: real, exact: real) -> bool {
    within(found, exact, 1real / 1000000real)
}

/// The area of a button lies where it should: the bar is divided into one part more than there are
/// buttons, each button is one part long, the part left over is divided evenly among the gaps, and
/// across the bar a touch counts between 9 and 91 hundredths of the height.
#[verifier::spinoff_prover]
pub proof fn law_areas_lie_where_they_should(num: int, idx: int, width: u16, height: u16)
    requires
        2 <= num < u32::MAX,
        0 <= idx < num,
    ensures
        ({
            let area = spec_hit_area(num, idx, width, height);
            let part = width as real / (num + 1) as real;
            let gap = part / (num - 1) as real;
            &&& area.left.is_finite()
            &&& area.right.is_finite()
            &&& area.low.is_finite()
            &&& area.high.is_finite()
            &&& close(area.left.value(), idx as real * (part + gap))
            &&& close(area.right.value(), idx as real * (part + gap) + part)
            &&& close(area.low.value(), 9real * height as real / 100real)
            &&& close(area.high.value(), 91real * height as real / 100real)
        }),
{
    lemma_share(height, 9);
    lemma_share(height, 91);
    law_position_keeps_value(height_share(height, 9));
    law_position_keeps_value(height_share(height, 91));
    lemma_close_edges(num, idx, width);
    lemma_on_bar(width, num, idx);
    law_position_keeps_value(left_edge(width, num, idx));
    law_position_keeps_value(right_edge(width, num, idx));
}

/// How close the edges of a button come to the exact ones.
#[verifier::spinoff_prover]
proof fn lemma_close_edges(num: int, idx: int, width: u16)
    requires
        2 <= num < u32::MAX,
        0 <= idx < num,
    ensures
        ({
            let b = exact_button(width, num);
            let s = b + exact_gap(width, num);
            let k = 1real / 2000000real;
            &&& within(left_edge(width, num, idx).value(), idx as real * s, k)
            &&& within(right_edge(width, num, idx).value(), idx as real * s + b, k)
            &&& within(button_width(width, num).value(), b, k)
        }),
{
    let n = num as real;
    let i = idx as real;
    let b = exact_button(width, num);
    let g = exact_gap(width, num);
    let u = unit(width, num);
    if width == 0 {
        lemma_no_length(num, idx);
        assert(right_edge(0, num, idx) == zero());
        lemma_is_quotient_zero(n + 1real);
        lemma_is_quotient_zero(n - 1real);
        assert(i * 0real == 0real) by (nonlinear_arith);
    } else {
        lemma_exact(width, num);
        lemma_lengths(width, num);
        lemma_edges(width, num, idx);
        let c = scale();
        assert(i * u <= n * u && u <= n * u) by (nonlinear_arith)
            requires
                i <= n,
                1real <= n,
                0real < u,
        ;
        assert(u * 1000000000000000real <= u * c) by (nonlinear_arith)
            requires
                1000000000000000real <= c,
                0real < u,
        ;
        assert(n * u * 1000000000000000real <= n * b) by (nonlinear_arith)
            requires
                0real <= n,
                u * 1000000000000000real <= b,
        ;
    }
}

/// Nothing, divided, is nothing.
#[verifier::spinoff_prover]
proof fn lemma_is_quotient_zero(t: real)
    requires
        t > 0real,
    ensures
        0real / t == 0real,
{
    assert(0real * t == 0real) by (nonlinear_arith);
    lemma_is_quotient(0real, t, 0real);
}

/// The edges of a button are those doubles that the lengths give when each is rounded to the
/// nearest double in turn: the button, the buttons together, what they leave over, the gap, the
/// step from a button to the next, and the edges.
#[verifier::spinoff_prover]
pub proof fn law_edges_are_rounded_in_turn(num: int, idx: int, width: u16, height: u16)
    requires
        2 <= num < u32::MAX,
        0 <= idx < num,
    ensures
        ({
            let area = spec_hit_area(num, idx, width, height);
            let w = width as real;
            let h = height as real;
            let length = round(w / (num + 1) as real).value();
            let used = round(num as real * length).value();
            let free = round(w - used).value();
            let gap = round(free / (num - 1) as real).value();
            let step = round(length + gap).value();
            let left = round(idx as real * step).value();
            &&& area.left.value() == left
            &&& area.right.value() == round(left + length).value()
            &&& area.low.value() == round(round(9real / 100real).value() * h).value()
            &&& area.high.value() == round(round(91real / 100real).value() * h).value()
            &&& spec_button_shape(num, idx, width, height).left_edge == area.left
            &&& spec_button_shape(num, idx, width, height).button_width.value() == length
        }),
{
    lemma_share(height, 9);
    lemma_share(height, 91);
    law_position_keeps_value(height_share(height, 9));
    law_position_keeps_value(height_share(height, 91));
    lemma_on_bar(width, num, idx);
    law_position_keeps_value(left_edge(width, num, idx));
    law_position_keeps_value(right_edge(width, num, idx));
    law_position_keeps_value(button_width(width, num));
}

/// A touch hits a button exactly if it lies from its left edge up to its right edge, both
/// included, and between the lower and the upper end of its area, both excluded. A touch at no
/// place along the bar counts as along every button, and one at no place across it as outside.
#[verifier::spinoff_prover]
pub proof fn law_hit_is_between_the_edges(
    num: int,
    idx: int,
    width: u16,
    height: u16,
    x: Coord,
    y: Coord,
)
    requires
        2 <= num < u32::MAX,
        0 <= idx < num,
    ensures
        ({
            let area = spec_hit_area(num, idx, width, height);
            let across = y.is_finite() && area.low.value() < y.value() && y.value()
                < area.high.value();
            let along = x.is_nan() || (x.is_finite() && area.left.value() <= x.value() && x.value()
                <= area.right.value());
            area.contains(x, y) <==> along && across
        }),
{
    let area = spec_hit_area(num, idx, width, height);
    law_areas_lie_where_they_should(num, idx, width, height);
    if x.is_finite() {
        law_order_is_numeric(x, area.left);
        law_order_is_numeric(area.right, x);
    }
    if y.is_finite() {
        law_order_is_numeric(area.low, y);
        law_order_is_numeric(y, area.high);
    }
}

/// A touch that is not within a millionth of a pixel of an edge hits a button exactly if it lies
/// in the area that the button should have.
#[verifier::spinoff_prover]
pub proof fn law_clear_touches_hit_what_they_should(
    num: int,
    idx: int,
    width: u16,
    height: u16,
    x: Coord,
    y: Coord,
)
    requires
        2 <= num < u32::MAX,
        0 <= idx < num,
        x.is_finite(),
        y.is_finite(),
        ({
            let part = width as real / (num + 1) as real;
            let left = idx as real * (part + part / (num - 1) as real);
            &&& !close(x.value(), left)
            &&& !close(x.value(), left + part)
            &&& !close(y.value(), 9real * height as real / 100real)
            &&& !close(y.value(), 91real * height as real / 100real)
        }),
    ensures
        ({
            let part = width as real / (num + 1) as real;
            let left = idx as real * (part + part / (num - 1) as real);
            spec_hit_area(num, idx, width, height).contains(x, y) <==> {
                &&& left <= x.value()
                &&& x.value() <= left + part
                &&& 9real * height as real / 100real < y.value()
                &&& y.value() < 91real * height as real / 100real
            }
        }),
{
    law_areas_lie_where_they_should(num, idx, width, height);
    law_hit_is_between_the_edges(num, idx, width, height, x, y);
}

/// A single button has no place along the bar, and the places past it are infinitely far: along
/// the bar every touch is on the button, and none but an infinitely far one on a place past it.
/// Across the bar it is like any other.
#[verifier::spinoff_prover]
pub proof fn law_single_button_is_everywhere(
    idx: int,
    width: u16,
    height: u16,
    x: Coord,
    y: Coord,
)
    requires
        0 <= idx,
    ensures
        ({
            let area = spec_hit_area(1, idx, width, height);
            let across = y.is_finite() && area.low.value() < y.value() && y.value()
                < area.high.value();
            &&& area.low.value() == round(round(9real / 100real).value() * height as real).value()
            &&& area.high.value() == round(
                round(91real / 100real).value() * height as real,
            ).value()
            &&& idx == 0 || width == 0 ==> (area.contains(x, y) <==> across)
            &&& idx > 0 && width > 0 ==> (area.contains(x, y) <==> across && (x.is_nan() || x.bits
                == 0x7ff0_0000_0000_0000))
        }),
{
    let area = spec_hit_area(1, idx, width, height);
    lemma_share(height, 9);
    lemma_share(height, 91);
    law_position_keeps_value(height_share(height, 9));
    law_position_keeps_value(height_share(height, 91));
    if y.is_finite() {
        law_order_is_numeric(area.low, y);
        law_order_is_numeric(y, area.high);
    }
}

/// The column of a touch: its place, divided by the length of a column, both rounded, and cut off
/// after the point. Touches before the bar and at no place are in the first column; those too far
/// away to count, and all on a bar without columns, are in the last that can be counted.
#[verifier::spinoff_prover]
pub proof fn law_column_is_counted(x: Coord, width: u16, num: int)
    requires
        1 <= num <= u32::MAX,
    ensures
        ({
            let btn = spec_button_index(x, width, num);
            let column = round(width as real / num as real).value();
            let q = round(x.value() / column).value();
            let magnitude = x.bits as int % 0x8000_0000_0000_0000;
            if x.bits >= 0x8000_0000_0000_0000 || magnitude == 0 || magnitude
                > 0x7ff0_0000_0000_0000 {
                btn == 0
            } else if width == 0 || magnitude == 0x7ff0_0000_0000_0000 {
                btn == 0xffff_ffff
            } else if q < 4294967296real {
                btn as real <= q && q < (btn + 1) as real
            } else {
                btn == 0xffff_ffff
            }
        }),
{
    let exact = width as real / num as real;
    let column = column_width(width, num);
    let q = round(x.value() / column.value());
    let (m, p) = (q.mantissa as real, power(q.exponent as int));
    lemma_power_positive(q.exponent as int);
    assert(0real <= m * p) by (nonlinear_arith)
        requires
            0real <= m,
            0real < p,
    ;
    if width == 0 {
        lemma_is_quotient_zero(num as real);
    } else {
        let n = num as real;
        lemma_quotient(width as real, n);
        assert(1real <= exact * 4294967296real && exact <= 65535real) by (nonlinear_arith)
            requires
                1real <= exact * n,
                exact * n <= 65535real,
                1real <= n,
                n <= 4294967296real,
        ;
        lemma_medium(exact);
        lemma_small_error(column.value(), exact, exact);
        let r = power(column.exponent as int);
        assert(0real * r == 0real) by (nonlinear_arith);
    }
}

/// A touch that is clearly in a column, by a billionth of a pixel, is found there.
#[verifier::spinoff_prover]
pub proof fn law_column_is_found(x: Coord, width: u16, num: int, k: int)
    requires
        1 <= width,
        1 <= num <= u16::MAX,
        x.is_finite(),
        x.value() <= 65536real,
        0 <= k,
        k as real * (width as real / num as real) + 1real / 1000000000real <= x.value(),
        x.value() + 1real / 1000000000real <= (k + 1) as real * (width as real / num as real),
    ensures
        spec_button_index(x, width, num) == k,
{
    let n = num as real;
    let exact = width as real / n;
    let col = column_width(width, num).value();
    let i = k as real;
    let v = x.value();
    let margin = 1real / 1000000000real;
    let c = scale();
    lemma_quotient(width as real, n);
    assert(1real <= exact * 65535real && exact <= 65535real) by (nonlinear_arith)
        requires
            1real <= exact * n,
            exact * n <= 65535real,
            1real <= n,
            n <= 65535real,
    ;
    assert(0real <= i * exact) by (nonlinear_arith)
        requires
            0real <= i,
            0real < exact,
    ;
    lemma_medium(exact);
    lemma_small_error(col, exact, exact);
    let p = power(x.exponent());
    assert(0real * p == 0real) by (nonlinear_arith);
    law_order_is_numeric(Coord { bits: 0 }, x);
    let z = power(-1074);
    assert(0real * z == 0real) by (nonlinear_arith);
    lemma_column(x, col);
    assert(1000000real <= margin * c) by (nonlinear_arith)
        requires
            margin == 1real / 1000000000real,
            c == 9007199254740992real,
    ;
    lemma_stays_above(v, col, exact, i, v, margin);
    assert((i + 1real) * exact == i * exact + exact) by (nonlinear_arith);
    lemma_stays_below(v, col, exact, i + 1real, v, margin);
    let q = round(v / col).value();
    assert(q.floor() == k);
    lemma_count(i, exact);
    let r = power(column_width(width, num).exponent as int);
    assert(0real * r == 0real) by (nonlinear_arith);
}

/// A number of columns that fit on a bar can be counted.
#[verifier::spinoff_prover]
proof fn lemma_count(i: real, exact: real)
    requires
        0real <= i,
        i * exact <= 65536real,
        1real <= exact * 65535real,
    ensures
        i <= 4294901760real,
{
    assert(i <= 4294901760real) by (nonlinear_arith)
        requires
            0real <= i,
            i * exact <= 65536real,
            1real <= exact * 65535real,
    ;
}

/// The first row of a button's pixels, their number, and its lower and upper end are the integer
/// parts of where the button begins, its length, and 15 and 85 hundredths of the height.
#[verifier::spinoff_prover]
pub proof fn law_pixels_are_integer_parts(num: int, idx: int, width: u16, height: u16)
    requires
        2 <= num < u32::MAX,
        0 <= idx < num,
    ensures
        ({
            let pixels = spec_pixel_box(num, idx, width, height);
            let shape = spec_button_shape(num, idx, width, height);
            let bot = round(round(15real / 100real).value() * height as real).value();
            let top = round(round(85real / 100real).value() * height as real).value();
            &&& pixels.left as real <= shape.left_edge.value() < (pixels.left + 1) as real
            &&& pixels.length as real <= shape.button_width.value() < (pixels.length + 1) as real
            &&& pixels.lower as real <= bot < (pixels.lower + 1) as real
            &&& pixels.upper as real <= top < (pixels.upper + 1) as real
        }),
{
    lemma_share(height, 15);
    lemma_share(height, 85);
    lemma_on_bar(width, num, idx);
    law_position_keeps_value(left_edge(width, num, idx));
    law_position_keeps_value(button_width(width, num));
}

/// The strokes of a button lie where they should: the corners a radius of eight within the ends of
/// the button, at 15 and 85 hundredths of the height, and the background a radius around them.
#[verifier::spinoff_prover]
pub proof fn law_strokes_lie_where_they_should(num: int, idx: int, width: u16, height: u16)
    requires
        2 <= num < u32::MAX,
        0 <= idx < num,
    ensures
        ({
            let shape = spec_button_shape(num, idx, width, height);
            let h = height as real;
            let part = width as real / (num + 1) as real;
            let left = idx as real * (part + part / (num - 1) as real);
            &&& close(shape.left_edge.value(), left)
            &&& close(shape.button_width.value(), part)
            &&& close(shape.background.value(), 15real * h / 100real - 8real)
            &&& close(shape.background_height.value(), 70real * h / 100real + 16real)
            &&& close(shape.left.value(), left + 8real)
            &&& close(shape.right.value(), left + part - 8real)
            &&& close(shape.bot.value(), 15real * h / 100real)
            &&& close(shape.top.value(), 85real * h / 100real)
            &&& close(shape.icon_y.value(), 10real * h / 100real)
        }),
{
    let h = height as real;
    let bot = height_share(height, 15);
    let top = height_share(height, 85);
    let left = left_edge(width, num, idx);
    let right = right_edge(width, num, idx);
    let radius = lemma_eight();
    lemma_share(height, 10);
    lemma_share(height, 15);
    lemma_share(height, 85);
    law_position_keeps_value(height_share(height, 10));
    law_position_keeps_value(bot);
    law_position_keeps_value(top);
    lemma_close_edges(num, idx, width);
    lemma_on_bar(width, num, idx);
    law_position_keeps_value(left);
    law_position_keeps_value(button_width(width, num));
    let sum = left.value() + button_width(width, num).value();
    lemma_medium(sum);
    lemma_small_error(right.value(), sum, sum);
    lemma_close_difference(bot, radius);
    lemma_close_difference(right, radius);
    lemma_medium(left.value() + 8real);
    lemma_small_error(
        round(left.value() + 8real).value(),
        left.value() + 8real,
        100000real,
    );
    law_position_keeps_value(round(left.value() + 8real));
    let inner = top.value() - bot.value();
    lemma_medium(inner);
    lemma_small_error(round(inner).value(), inner, 100000real);
    let outer = round(inner).value() + 16real;
    lemma_medium(outer);
    lemma_small_error(round(outer).value(), outer, 100000real);
    law_position_keeps_value(background_height(height));
}

/// The radius as a double.
#[verifier::spinoff_prover]
proof fn lemma_eight() -> (d: Double)
    ensures
        d.within(-132, 8),
        d.value() == 8real,
{
    lemma_power_adds(52, -49);
    lemma_power_is_pow2(52);
    lemma_power_is_pow2(3);
    vstd::arithmetic::power2::lemma2_to64();
    vstd::arithmetic::power2::lemma2_to64_rest();
    Double { mantissa: MANTISSA_MIN, exponent: (-49) as i32 }
}

/// How close a rounded difference comes to the exact one.
#[verifier::spinoff_prover]
proof fn lemma_close_difference(a: Double, b: Double)
    requires
        a.within(-132, 8),
        b.within(-132, 8),
        0real <= a.value(),
        a.value() <= 70000real,
        0real <= b.value(),
        b.value() <= 70000real,
    ensures
        within(
            Coord::minus(a.value(), b.value()).value(),
            a.value() - b.value(),
            1real / 10000000real,
        ),
{
    law_difference_keeps_sign(a, b);
    let r = distance(a.value(), b.value());
    law_round_error(r);
    lemma_small_error(round(r).value(), r, 70000real);
}

/// The rectangle of a button spans its pixels along the bar. Across the bar it is counted from the
/// upper edge and spans those from the lower end to the upper end and eight more on either side. It
/// exists exactly if none of its edges is negative or too large for 16 bits.
pub proof fn law_rectangle_spans_the_pixels(pixels: PixelBox, height: u16)
    ensures
        clip_exists(pixels, height) <==> {
            &&& 0 <= height - pixels.upper - 8
            &&& 0 <= height - pixels.lower
            &&& height - pixels.lower + 8 <= 65535
            &&& pixels.left + pixels.length <= 65535
        },
        clip_exists(pixels, height) ==> {
            let clip = spec_button_clip(pixels, height);
            &&& clip.x1 == height - pixels.upper - 8
            &&& clip.x2 == height - pixels.lower + 8
            &&& clip.y1 == pixels.left
            &&& clip.y2 == pixels.left + pixels.length
        },
{
}

/// A difference, rounded to the nearest double.
pub open spec fn rounded_difference(a: real, b: real) -> real {
    if b <= a {
        round(a - b).value()
    } else {
        -round(b - a).value()
    }
}

/// The strokes of a button are those doubles that their lengths give when each is rounded to the
/// nearest double in turn.
#[verifier::spinoff_prover]
pub proof fn law_strokes_are_rounded_in_turn(num: int, idx: int, width: u16, height: u16)
    requires
        2 <= num < u32::MAX,
        0 <= idx < num,
    ensures
        ({
            let shape = spec_button_shape(num, idx, width, height);
            let h = height as real;
            let bot = round(round(15real / 100real).value() * h).value();
            let top = round(round(85real / 100real).value() * h).value();
            let margin = round(round(10real / 100real).value() * h).value();
            let size = round(h - round(margin * 2real).value()).value();
            let left = shape.left_edge.value();
            let length = shape.button_width.value();
            let middle = round(left + round(length / 2real).value()).value();
            &&& shape.bot.value() == bot
            &&& shape.top.value() == top
            &&& shape.background.value() == rounded_difference(bot, 8real)
            &&& shape.background_height.value() == round(round(top - bot).value() + 16real).value()
            &&& shape.left.value() == round(left + 8real).value()
            &&& shape.right.value() == rounded_difference(round(left + length).value(), 8real)
            &&& shape.icon_y.value() == margin
            &&& shape.icon_size.value() == size
            &&& shape.icon_x.value() == rounded_difference(middle, round(size / 2real).value())
        }),
{
    let bot = height_share(height, 15);
    let top = height_share(height, 85);
    let left = left_edge(width, num, idx);
    let radius = lemma_eight();
    lemma_share(height, 10);
    lemma_share(height, 15);
    lemma_share(height, 85);
    law_position_keeps_value(height_share(height, 10));
    law_position_keeps_value(bot);
    law_position_keeps_value(top);
    lemma_on_bar(width, num, idx);
    law_position_keeps_value(left);
    law_position_keeps_value(button_width(width, num));
    law_difference_keeps_sign(bot, radius);
    law_difference_keeps_sign(right_edge(width, num, idx), radius);
    lemma_medium(left.value() + 8real);
    law_position_keeps_value(round(left.value() + 8real));
    let inner = top.value() - bot.value();
    lemma_medium(inner);
    lemma_small_error(round(inner).value(), inner, inner);
    lemma_medium(round(inner).value() + 16real);
    law_position_keeps_value(background_height(height));
    lemma_middle(width, num, idx);
    lemma_icon_size(height);
    law_position_keeps_value(icon_size(height));
    law_difference_keeps_sign(middle(width, num, idx), half(icon_size(height)));
}

} // verus!
