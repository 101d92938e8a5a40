//! Where the labels and icons of the buttons lie.

use vstd::arithmetic::power2::lemma2_to64_rest;
use vstd::prelude::*;

use crate::accuracy::{lemma_medium, lemma_small_error, within};
use crate::coord::{
    law_difference_keeps_sign, law_position_keeps_value, lemma_equal_magnitudes, Coord, INFINITY,
    NAN,
};
use crate::geometry::{
    button_width, half, height_share, icon_size, left_coord, left_edge, lemma_share,
    measure_middle, middle, spec_button_shape,
};
use crate::layout::lemma_on_bar;
use crate::rounding::{
    distance, law_round_error, lemma_power_adds, lemma_power_is_pow2, lemma_power_monotone,
    lemma_power_positive, power, round, Double, MANTISSA_END,
};
use crate::shift::{law_half_is_half, law_lengths_are_turned_and_halved, law_moving_adds};

verus! {

/// Where the writing of a label begins.
#[derive(Clone, Copy, Debug, PartialEq, Eq, Structural)]
pub struct LabelPlace {
    pub x: Coord,
    pub y: Coord,
}

/// Where a label of the given size begins on button `idx`: its middle is the middle of the button
/// along the bar and across it. A single button has no middle along the bar; its place is infinite
/// or not a number, and moving it makes a difference only by a length that is no number.
pub open spec fn spec_label_place(
    num: int,
    idx: int,
    width: u16,
    height: u16,
    text_width: Coord,
    text_height: Coord,
) -> LabelPlace {
    let nowhere = left_coord(width, num, idx);
    let back = text_width.halved().negated();
    LabelPlace {
        x: if num != 1 {
            Coord::moved(middle(width, num, idx), back)
        } else if back.is_nan() || back == (Coord { bits: INFINITY }).negated() {
            Coord { bits: NAN }
        } else {
            nowhere
        },
        y: Coord::moved(round(height as real / 2real), text_height.halved()),
    }
}

/// Where a label of the given size begins on button `idx` of a bar with `num` buttons.
#[verifier::spinoff_prover]
pub fn label_place(
    num: u32,
    idx: u32,
    width: u16,
    height: u16,
    text_width: Coord,
    text_height: Coord,
) -> (place: LabelPlace)
    requires
        1 <= num < u32::MAX,
    ensures
        place == spec_label_place(num as int, idx as int, width, height, text_width, text_height),
{
    let back: Coord = text_width.half().negate();
    let x: Coord = if num != 1 {
        Coord::from_moved(measure_middle(width, num, idx), back)
    } else {
        let (negative, magnitude): (bool, u64) = back.split();
        if magnitude > INFINITY || (negative && magnitude == INFINITY) || idx == 0 || width == 0 {
            Coord { bits: NAN }
        } else {
            Coord { bits: INFINITY }
        }
    };
    let centre: Double = Double::from_int(height as u64).div(Double::from_int(2));
    LabelPlace { x, y: Coord::from_moved(centre, text_height.half()) }
}

/// How far rounding moves the middle of a button.
#[verifier::spinoff_prover]
pub proof fn lemma_middle(width: u16, num: int, idx: int)
    requires
        2 <= num < u32::MAX,
        0 <= idx < num,
    ensures
        ({
            let left = left_edge(width, num, idx).value();
            let length = button_width(width, num).value();
            let d = middle(width, num, idx);
            &&& d.within(-132, 8)
            &&& 0real <= d.value()
            &&& d.value() <= 2real * (width as real + 1real)
            &&& within(
                d.value(),
                left + length / 2real,
                3real * (width as real + 1real) / 1000000000000real,
            )
        }),
{
    let left = left_edge(width, num, idx).value();
    let length = button_width(width, num).value();
    let part = half(button_width(width, num)).value();
    lemma_on_bar(width, num, idx);
    lemma_medium(length / 2real);
    lemma_small_error(part, length / 2real, length / 2real);
    lemma_medium(left + part);
    lemma_small_error(middle(width, num, idx).value(), left + part, left + part);
}

/// How far rounding moves the extent of an icon.
#[verifier::spinoff_prover]
pub proof fn lemma_icon_size(height: u16)
    ensures
        icon_size(height).within(-132, 8),
        half(icon_size(height)).within(-132, 8),
        0real <= icon_size(height).value(),
        within(icon_size(height).value(), 8real * height as real / 10real, 1real / 1000000real),
        within(
            height_share(height, 10).value() + icon_size(height).value() / 2real,
            height as real / 2real,
            1real / 1000000real,
        ),
        within(
            half(icon_size(height)).value(),
            icon_size(height).value() / 2real,
            1real / 10000000real,
        ),
{
    let h = height as real;
    let y = height_share(height, 10).value();
    let margins = round(y * 2real).value();
    let size = icon_size(height).value();
    lemma_share(height, 10);
    lemma_medium(y * 2real);
    lemma_small_error(margins, y * 2real, 20000real);
    lemma_medium(h - margins);
    lemma_small_error(size, h - margins, 65536real);
    lemma_medium(size / 2real);
    lemma_small_error(half(icon_size(height)).value(), size / 2real, 65536real);
}

/// An icon is a square of eight tenths of the height, and its middle is the middle of its button,
/// along the bar and across it, up to a millionth of a pixel.
#[verifier::spinoff_prover]
pub proof fn law_icon_is_centred(num: int, idx: int, width: u16, height: u16)
    requires
        2 <= num < u32::MAX,
        0 <= idx < num,
    ensures
        ({
            let shape = spec_button_shape(num, idx, width, height);
            let size = shape.icon_size.value();
            &&& shape.left_edge.is_finite()
            &&& shape.button_width.is_finite()
            &&& shape.icon_x.is_finite()
            &&& shape.icon_y.is_finite()
            &&& shape.icon_size.is_finite()
            &&& within(size, 8real * height as real / 10real, 1real / 1000000real)
            &&& within(
                shape.icon_x.value() + size / 2real,
                shape.left_edge.value() + shape.button_width.value() / 2real,
                1real / 1000000real,
            )
            &&& within(
                shape.icon_y.value() + size / 2real,
                height as real / 2real,
                1real / 1000000real,
            )
        }),
{
    let d = middle(width, num, idx);
    let part = half(icon_size(height));
    lemma_on_bar(width, num, idx);
    lemma_middle(width, num, idx);
    lemma_icon_size(height);
    lemma_share(height, 10);
    law_position_keeps_value(left_edge(width, num, idx));
    law_position_keeps_value(button_width(width, num));
    law_position_keeps_value(icon_size(height));
    law_position_keeps_value(height_share(height, 10));
    law_difference_keeps_sign(d, part);
    let r = distance(d.value(), part.value());
    law_round_error(r);
    lemma_small_error(round(r).value(), r, 200000real);
}

/// The middle of a label is the middle of its button, along the bar and across it, up to a
/// billionth of the lengths involved.
#[verifier::spinoff_prover]
pub proof fn law_label_is_centred(
    num: int,
    idx: int,
    width: u16,
    height: u16,
    text_width: Coord,
    text_height: Coord,
)
    requires
        2 <= num < u32::MAX,
        0 <= idx < num,
        text_width.is_finite(),
        text_height.is_finite(),
    ensures
        ({
            let shape = spec_button_shape(num, idx, width, height);
            let place = spec_label_place(num, idx, width, height, text_width, text_height);
            &&& shape.left_edge.is_finite()
            &&& shape.button_width.is_finite()
            &&& place.x.is_finite()
            &&& place.y.is_finite()
            &&& within(
                place.x.value() + text_width.value() / 2real,
                shape.left_edge.value() + shape.button_width.value() / 2real,
                (width as real + 1real + text_width.size()) / 1000000000real,
            )
            &&& within(
                place.y.value() - text_height.value() / 2real,
                height as real / 2real,
                (height as real + 1real + text_height.size()) / 1000000000real,
            )
        }),
{
    let d = middle(width, num, idx);
    let back = text_width.halved().negated();
    let h = height as real;
    let centre = round(h / 2real);
    lemma_on_bar(width, num, idx);
    lemma_middle(width, num, idx);
    law_position_keeps_value(left_edge(width, num, idx));
    law_position_keeps_value(button_width(width, num));
    lemma_tiny();
    law_half_is_half(text_width);
    lemma_equal_magnitudes(text_width.halved(), back);
    lemma_size_not_negative(text_width);
    law_moving_adds(d, back);
    lemma_medium(h / 2real);
    lemma_small_error(centre.value(), h / 2real, h);
    law_half_is_half(text_height);
    lemma_size_not_negative(text_height);
    law_moving_adds(centre, text_height.halved());
    let x = Coord::moved(d, back).value();
    let y = Coord::moved(centre, text_height.halved()).value();
    lemma_rounded_sum(
        x,
        d.value() + back.value(),
        2real * (width as real + 1real) + text_width.size() + 1real,
    );
    lemma_rounded_sum(
        y,
        centre.value() + text_height.halved().value(),
        h + text_height.size() + 2real,
    );
}

/// The smallest number is tiny.
#[verifier::spinoff_prover]
proof fn lemma_tiny()
    ensures
        0real < power(-1074),
        power(-1074) <= 1real / 1000000000000real,
{
    lemma_power_positive(-1074);
    lemma_power_monotone(-1074, -60);
    lemma_power_adds(60, -60);
    lemma_power_is_pow2(60);
    lemma2_to64_rest();
    let p = power(-60);
    assert(p <= 1real / 1000000000000real) by (nonlinear_arith)
        requires
            1152921504606846976real * p == 1real,
    ;
}

/// Sizes are not negative.
#[verifier::spinoff_prover]
proof fn lemma_size_not_negative(c: Coord)
    ensures
        c.size() >= 0real,
{
    lemma_power_positive(c.exponent());
    let (m, p) = (c.mantissa() as real, power(c.exponent()));
    assert(m * p >= 0real) by (nonlinear_arith)
        requires
            m >= 0real,
            p > 0real,
    ;
}

/// How far one rounding moves a sum that is not larger than `k`, whatever its sign.
#[verifier::spinoff_prover]
proof fn lemma_rounded_sum(d: real, r: real, k: real)
    requires
        distance(r, d) * MANTISSA_END as real <= distance(0real, r),
        -k <= r,
        r <= k,
    ensures
        within(d, r, k / 1000000000000real),
{
    let c = MANTISSA_END as real;
    let off = distance(r, d);
    assert(off * 1000000000000real <= off * c) by (nonlinear_arith)
        requires
            0real <= off,
            1000000000000real <= c,
    ;
}

/// The size of an icon and its place across the bar depend on the height of the bar alone, and the
/// place of a label across the bar on the heights of the bar and the label.
#[verifier::spinoff_prover]
pub proof fn law_pictures_keep_their_size(
    a: (int, int, u16),
    b: (int, int, u16),
    height: u16,
    text_widths: (Coord, Coord),
    text_height: Coord,
)
    ensures
        ({
            let first = spec_button_shape(a.0, a.1, a.2, height);
            let second = spec_button_shape(b.0, b.1, b.2, height);
            &&& first.icon_size == second.icon_size
            &&& first.icon_y == second.icon_y
            &&& spec_label_place(a.0, a.1, a.2, height, text_widths.0, text_height).y
                == spec_label_place(b.0, b.1, b.2, height, text_widths.1, text_height).y
        }),
{
}

/// On buttons of the same length, icons and labels move along the bar with the left edge, up to
/// rounding: as far as one button lies from the other, so far lie their icons and their labels,
/// and these lie at the same height.
#[verifier::spinoff_prover]
pub proof fn law_pictures_move_with_their_button(
    a: (int, int, u16),
    b: (int, int, u16),
    height: u16,
    text_width: Coord,
    text_height: Coord,
)
    requires
        2 <= a.0 < u32::MAX,
        0 <= a.1 < a.0,
        2 <= b.0 < u32::MAX,
        0 <= b.1 < b.0,
        button_width(a.2, a.0) == button_width(b.2, b.0),
        text_width.is_finite(),
        text_height.is_finite(),
    ensures
        ({
            let first = spec_button_shape(a.0, a.1, a.2, height);
            let second = spec_button_shape(b.0, b.1, b.2, height);
            let from = spec_label_place(a.0, a.1, a.2, height, text_width, text_height);
            let to = spec_label_place(b.0, b.1, b.2, height, text_width, text_height);
            let distance = second.left_edge.value() - first.left_edge.value();
            &&& within(second.icon_x.value() - first.icon_x.value(), distance, 2real / 1000000real)
            &&& second.icon_y == first.icon_y
            &&& second.icon_size == first.icon_size
            &&& within(
                to.x.value() - from.x.value(),
                distance,
                ((a.2 + b.2 + 2) as real + 2real * text_width.size()) / 1000000000real,
            )
            &&& to.y == from.y
        }),
{
    law_icon_is_centred(a.0, a.1, a.2, height);
    law_icon_is_centred(b.0, b.1, b.2, height);
    law_label_is_centred(a.0, a.1, a.2, height, text_width, text_height);
    law_label_is_centred(b.0, b.1, b.2, height, text_width, text_height);
}

/// A label whose size is infinite or no number has no finite place: along the bar it begins
/// infinitely far to the left, and across it infinitely far off, or at no place at all.
#[verifier::spinoff_prover]
pub proof fn law_endless_labels_have_no_place(
    num: int,
    idx: int,
    width: u16,
    height: u16,
    text_width: Coord,
    text_height: Coord,
)
    requires
        1 <= num < u32::MAX,
        0 <= idx,
    ensures
        ({
            let place = spec_label_place(num, idx, width, height, text_width, text_height);
            &&& text_width.is_nan() ==> place.x.is_nan()
            &&& text_height.is_nan() ==> place.y.is_nan()
            &&& text_height.bits == 0x7ff0_0000_0000_0000 ==> place.y == text_height
            &&& text_height.bits == 0xfff0_0000_0000_0000 ==> place.y == text_height
            &&& num > 1 && text_width.bits == 0x7ff0_0000_0000_0000 ==> place.x.bits
                == 0xfff0_0000_0000_0000
            &&& num > 1 && text_width.bits == 0xfff0_0000_0000_0000 ==> place.x.bits
                == 0x7ff0_0000_0000_0000
            &&& num == 1 && (idx == 0 || width == 0 || text_width.bits == 0x7ff0_0000_0000_0000)
                ==> place.x.is_nan()
            &&& num == 1 && idx > 0 && width > 0 && !text_width.is_nan() && text_width.bits
                != 0x7ff0_0000_0000_0000 ==> place.x.bits == 0x7ff0_0000_0000_0000
        }),
{
    law_lengths_are_turned_and_halved(text_width);
    law_lengths_are_turned_and_halved(text_height);
    if text_width.is_finite() {
        law_half_is_half(text_width);
    }
}

/// A label begins half of its length before the middle of the button, and half of its height past
/// the middle of the bar, each rounded once more: off by at most half a unit in the last place.
#[verifier::spinoff_prover]
pub proof fn law_label_is_rounded_in_turn(
    num: int,
    idx: int,
    width: u16,
    height: u16,
    text_width: Coord,
    text_height: Coord,
)
    requires
        2 <= num < u32::MAX,
        0 <= idx < num,
        text_width.is_finite(),
        text_height.is_finite(),
    ensures
        ({
            let shape = spec_button_shape(num, idx, width, height);
            let place = spec_label_place(num, idx, width, height, text_width, text_height);
            let part = round(shape.button_width.value() / 2real).value();
            let x = round(shape.left_edge.value() + part).value() - text_width.halved().value();
            let y = round(height as real / 2real).value() + text_height.halved().value();
            &&& distance(x, place.x.value()) * 9007199254740992real <= distance(0real, x)
            &&& distance(y, place.y.value()) * 9007199254740992real <= distance(0real, y)
        }),
{
    let back = text_width.halved().negated();
    lemma_on_bar(width, num, idx);
    lemma_middle(width, num, idx);
    law_position_keeps_value(left_edge(width, num, idx));
    law_position_keeps_value(button_width(width, num));
    law_half_is_half(text_width);
    lemma_equal_magnitudes(text_width.halved(), back);
    law_moving_adds(middle(width, num, idx), back);
    lemma_medium(height as real / 2real);
    law_half_is_half(text_height);
    law_moving_adds(round(height as real / 2real), text_height.halved());
}

} // verus!
