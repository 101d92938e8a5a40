//! What a redraw shows: which buttons, how, and where.

use vstd::prelude::*;

use crate::accuracy::{lemma_medium, lemma_small_error, within};
use crate::button::ButtonView;
use crate::coord::{law_position_keeps_value, Coord};
use crate::geometry::{
    button_width, height_share, left_edge, lemma_share, spec_button_shape, to_pixel, ClipRect,
};
use crate::layer::{
    drawable, drawn_buttons, drawn_clips, due, due_indices, law_complete_redraw_draws_all,
    layer_wf,
};
use crate::layout::{law_bar_can_be_drawn, lemma_on_bar};
use crate::rounding::{distance, law_round_is_nearest, round, Double};

verus! {

/// A filter keeps the order of numbers that ascend.
#[verifier::spinoff_prover]
proof fn lemma_filter_ascends(s: Seq<int>, pred: spec_fn(int) -> bool)
    requires
        forall|a: int, b: int| 0 <= a < b < s.len() ==> #[trigger] s[a] < #[trigger] s[b],
    ensures
        forall|a: int, b: int|
            0 <= a < b < s.filter(pred).len() ==> #[trigger] s.filter(pred)[a]
                < #[trigger] s.filter(pred)[b],
    decreases s.len(),
{
    reveal(Seq::filter);
    if s.len() > 0 {
        let rest = s.drop_last();
        lemma_filter_ascends(rest, pred);
        assert forall|a: int, b: int| 0 <= a < b < s.filter(pred).len() implies #[trigger] s.filter(
            pred,
        )[a] < #[trigger] s.filter(pred)[b] by {
            assert(rest.filter(pred)[a] == s.filter(pred)[a]);
            if b < rest.filter(pred).len() {
                assert(rest.filter(pred)[b] == s.filter(pred)[b]);
            } else {
                assert(rest.filter(pred).contains(rest.filter(pred)[a]));
                rest.lemma_filter_contains_rev(pred, rest.filter(pred)[a]);
                let c = rest.index_of(rest.filter(pred)[a]);
                assert(s[c] < s[s.len() - 1]);
            }
        }
    }
}

/// The place of a button that is drawn.
#[verifier::spinoff_prover]
proof fn lemma_due_index(buttons: Seq<ButtonView>, complete_redraw: bool, k: int)
    requires
        0 <= k < due_indices(buttons, complete_redraw).len(),
    ensures
        0 <= due_indices(buttons, complete_redraw)[k] < buttons.len(),
        due(buttons, complete_redraw, due_indices(buttons, complete_redraw)[k]),
{
    broadcast use vstd::seq_lib::group_filter_ensures;

    let order = Seq::new(buttons.len(), |i: int| i);
    let pred = |i: int| due(buttons, complete_redraw, i);
    let i = due_indices(buttons, complete_redraw)[k];
    assert(order.filter(pred).contains(i));
    order.lemma_filter_contains_rev(pred, i);
    assert(pred(order.filter(pred)[k]));
}

/// Whether a number is the double nearest to `goal`.
pub open spec fn nearest_double(found: real, goal: real) -> bool {
    &&& within(found, goal, 1real / 1000000000000real)
    &&& forall|d: Double|
        d.wf() ==> distance(goal, found) <= distance(goal, #[trigger] d.value())
}

/// In every redraw, partial or complete, a button that is drawn is drawn as what it is: in the
/// double nearest to 0.4 of white if it is touched, and to 0.2 if it is not, in the strokes of its
/// place among all buttons of the layer. The old one is painted over first unless everything is.
/// Only buttons that changed are drawn, or all, and from the first to the last.
#[verifier::spinoff_prover]
pub proof fn law_buttons_are_drawn_as_they_are(
    buttons: Seq<ButtonView>,
    height: u16,
    width: u16,
    complete_redraw: bool,
    k: int,
)
    requires
        layer_wf(buttons),
        0 <= k < drawn_buttons(buttons, height, width, complete_redraw).len(),
    ensures
        ({
            let drawn = drawn_buttons(buttons, height, width, complete_redraw);
            let i = drawn[k].index as int;
            &&& 0 <= i < buttons.len()
            &&& complete_redraw || buttons[i].changed
            &&& forall|j: int| 0 <= j < k ==> (#[trigger] drawn[j]).index < i
            &&& drawn[k].erase == !complete_redraw
            &&& drawn[k].active == buttons[i].active
            &&& drawn[k].shade.is_finite()
            &&& buttons[i].active ==> nearest_double(drawn[k].shade.value(), 4real / 10real)
            &&& !buttons[i].active ==> nearest_double(drawn[k].shade.value(), 2real / 10real)
            &&& drawn[k].shape == spec_button_shape(buttons.len() as int, i, width, height)
        }),
{
    let order = Seq::new(buttons.len(), |i: int| i);
    let pred = |i: int| due(buttons, complete_redraw, i);
    let places = due_indices(buttons, complete_redraw);
    let i = places[k];
    lemma_filter_ascends(order, pred);
    lemma_due_index(buttons, complete_redraw, k);
    assert forall|j: int| 0 <= j < k implies (#[trigger] drawn_buttons(
        buttons,
        height,
        width,
        complete_redraw,
    )[j]).index < i by {
        lemma_due_index(buttons, complete_redraw, j);
        assert(places[j] < places[k]);
    }
    lemma_shade(4real / 10real);
    lemma_shade(2real / 10real);
    assert(40real / 100real == 4real / 10real && 20real / 100real == 2real / 10real);
}

/// A shade is the nearest double.
#[verifier::spinoff_prover]
proof fn lemma_shade(goal: real)
    requires
        1real <= 100real * goal,
        goal <= 1real,
    ensures
        nearest_double(round(goal).value(), goal),
        Coord::of(round(goal)).is_finite(),
        Coord::of(round(goal)).value() == round(goal).value(),
{
    lemma_medium(goal);
    lemma_small_error(round(goal).value(), goal, 1real);
    law_position_keeps_value(round(goal));
    assert forall|d: Double| d.wf() implies distance(goal, round(goal).value()) <= distance(
        goal,
        #[trigger] d.value(),
    ) by {
        law_round_is_nearest(goal, d);
    }
}

/// A button that has to be drawn is drawn: each one in a complete redraw, and each one that
/// changed in a partial one.
#[verifier::spinoff_prover]
pub proof fn law_no_button_is_left_out(
    buttons: Seq<ButtonView>,
    height: u16,
    width: u16,
    complete_redraw: bool,
    i: int,
)
    requires
        layer_wf(buttons),
        0 <= i < buttons.len(),
        complete_redraw || buttons[i].changed,
    ensures
        exists|k: int|
            0 <= k < drawn_buttons(buttons, height, width, complete_redraw).len() && (
            #[trigger] drawn_buttons(buttons, height, width, complete_redraw)[k]).index == i,
        complete_redraw ==> drawn_buttons(buttons, height, width, complete_redraw).len()
            == buttons.len(),
{
    broadcast use vstd::seq_lib::group_filter_ensures;

    let order = Seq::new(buttons.len(), |i: int| i);
    let pred = |i: int| due(buttons, complete_redraw, i);
    let places = due_indices(buttons, complete_redraw);
    assert(order[i] == i && pred(order[i]));
    assert(order.filter(pred).contains(order[i]));
    let k = places.index_of(i);
    assert(drawn_buttons(buttons, height, width, complete_redraw)[k].index == i);
    if complete_redraw {
        law_complete_redraw_draws_all(buttons);
    }
}

/// A complete redraw refreshes the whole bar. A partial one refreshes, for each button that it
/// draws, the rectangle of its pixels: along the bar those of the button, and across the bar those
/// of the button and of a radius of eight on either side, counted from the other edge.
#[verifier::spinoff_prover]
pub proof fn law_refreshed_rectangles_hold_the_buttons(
    buttons: Seq<ButtonView>,
    height: u16,
    width: u16,
    complete_redraw: bool,
    k: int,
)
    requires
        layer_wf(buttons),
        drawable(buttons, height, width, complete_redraw),
    ensures
        ({
            let clips = drawn_clips(buttons, height, width, complete_redraw);
            let drawn = drawn_buttons(buttons, height, width, complete_redraw);
            &&& complete_redraw ==> clips.len() == 1 && clips[0] == (ClipRect {
                x1: 0,
                y1: 0,
                x2: height,
                y2: width,
            })
            &&& !complete_redraw ==> clips.len() == drawn.len()
            &&& !complete_redraw && 0 <= k < drawn.len() ==> {
                let clip = clips[k];
                let shape = drawn[k].shape;
                let top = height - 8 - clip.x1;
                let bot = height + 8 - clip.x2;
                &&& top as real <= shape.top.value() < (top + 1) as real
                &&& bot as real <= shape.bot.value() < (bot + 1) as real
                &&& clip.y1 <= clip.y2
                &&& (clip.y2 - clip.y1) as real <= shape.button_width.value() < (clip.y2 - clip.y1
                    + 1) as real
                &&& if buttons.len() == 1 {
                    clip.y1 == 0
                } else {
                    clip.y1 as real <= shape.left_edge.value() < (clip.y1 + 1) as real
                }
            }
        }),
{
    if !complete_redraw && 0 <= k < due_indices(buttons, complete_redraw).len() {
        let i = due_indices(buttons, complete_redraw)[k];
        let num = buttons.len() as int;
        let length = button_width(width, num);
        lemma_due_index(buttons, complete_redraw, k);
        lemma_share(height, 15);
        lemma_share(height, 85);
        law_position_keeps_value(height_share(height, 15));
        law_position_keeps_value(height_share(height, 85));
        law_bar_can_be_drawn(buttons, height, width, complete_redraw);
        lemma_pixel(height_share(height, 15));
        lemma_pixel(height_share(height, 85));
        if num == 1 {
            lemma_medium(width as real / 2real);
            lemma_small_error(length.value(), width as real / 2real, width as real / 2real);
        } else {
            lemma_on_bar(width, num, i);
            law_position_keeps_value(left_edge(width, num, i));
            lemma_pixel(left_edge(width, num, i));
        }
        law_position_keeps_value(length);
        lemma_pixel(length);
    }
}

/// A pixel is the integer part of a double on the bar.
#[verifier::spinoff_prover]
proof fn lemma_pixel(d: Double)
    requires
        0real <= d.value(),
        d.value() < 65536real,
    ensures
        to_pixel(d) as real <= d.value(),
        d.value() < (to_pixel(d) + 1) as real,
{
}

} // verus!
