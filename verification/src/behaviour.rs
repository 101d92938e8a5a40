//! What the bar is for: what each event and each redraw does, said of the fields of the bar.

use vstd::prelude::*;

use crate::button::{Button, ButtonImage, ButtonView, ImageView};
use crate::config::LayerType;
use crate::coord::Coord;
use crate::device::occurs_in;
use crate::geometry::{spec_button_index, spec_hit_area};
use crate::key::Key;
use crate::layer::{
    all_drawn, any_changed, drawn_buttons, drawn_clips, due, fitting, function_row, special_row,
    views, FunctionLayer,
};
use crate::layout::law_bar_can_be_drawn;
use crate::touch_bar::{actions, BarView, Event, KeyState, TouchBar, TouchEvent};
use crate::uinput::{event, key_toggle, EventKind, InputEvent};

verus! {

/// Holding Fn shows the layer that the bar has as its secondary one, and letting it go the layer
/// that it has as its primary one, whichever these are, lit or dark. The layer is drawn anew if
/// it was not shown before. Nothing else changes, no other key does anything, and nothing is
/// written.
pub proof fn law_fn_shows_the_configured_layer(
    bar: BarView,
    key: u32,
    state: KeyState,
    backlight: u32,
)
    ensures
        ({
            let next = bar.after(Event::Key { key, state }, backlight);
            let configured = match state {
                KeyState::Pressed => bar.secondary_layer,
                KeyState::Released => bar.primary_layer,
            };
            &&& key == 464 && configured == LayerType::Function ==> next.active_layer == 0
            &&& key == 464 && configured == LayerType::Special ==> next.active_layer == 1
            &&& key != 464 ==> next.active_layer == bar.active_layer
            &&& next.needs_complete_redraw == (bar.needs_complete_redraw || next.active_layer
                != bar.active_layer)
            &&& next == (BarView {
                active_layer: next.active_layer,
                needs_complete_redraw: next.needs_complete_redraw,
                ..bar
            })
            &&& bar.after_key(key, state) == next
            &&& bar.output(Event::Key { key, state }, backlight).len() == 0
        }),
{
}

/// A device is the digitizer from now on exactly if its name holds a space and the words `Touch
/// Bar`, at any place. Nothing else changes, and nothing is written.
pub proof fn law_digitizer_is_known_by_its_name(
    bar: BarView,
    device: u64,
    name: String,
    backlight: u32,
)
    ensures
        ({
            let next = bar.after(Event::DeviceAdded { device, name }, backlight);
            let text = name@;
            let words = seq![' ', 'T', 'o', 'u', 'c', 'h', ' ', 'B', 'a', 'r'];
            &&& forall|head: Seq<char>, tail: Seq<char>|
                text == #[trigger] (head + words + tail) ==> next.digitizer == Some(device)
            &&& next.digitizer != bar.digitizer ==> next.digitizer == Some(device) && exists|
                head: Seq<char>,
                tail: Seq<char>,
            |
                text == #[trigger] (head + words + tail)
            &&& next == (BarView { digitizer: next.digitizer, ..bar })
            &&& bar.output(Event::DeviceAdded { device, name }, backlight).len() == 0
        }),
{
    reveal_strlit(" Touch Bar");
    let text = name@;
    let words = seq![' ', 'T', 'o', 'u', 'c', 'h', ' ', 'B', 'a', 'r'];
    assert(" Touch Bar"@ =~= words);
    assert forall|head: Seq<char>, tail: Seq<char>|
        text == #[trigger] (head + words + tail) implies occurs_in(words, text) by {
        let i = head.len() as int;
        assert(text.subrange(i, i + words.len()) =~= words);
    }
    if occurs_in(words, text) {
        let i = choose|i: int|
            0 <= i && i + words.len() <= text.len() && #[trigger] text.subrange(
                i,
                i + words.len(),
            ) == words;
        let head = text.subrange(0, i);
        let tail = text.subrange(i + words.len(), text.len() as int);
        assert(text =~= head + words + tail);
    }
}

/// Anything else that happens changes nothing and writes nothing.
pub proof fn law_other_events_do_nothing(bar: BarView, device: u64, backlight: u32)
    ensures
        bar.after(Event::Other, backlight) == bar,
        bar.output(Event::Other, backlight).len() == 0,
        bar.after(Event::Touch { device, touch: TouchEvent::Other }, backlight) == bar,
        bar.output(Event::Touch { device, touch: TouchEvent::Other }, backlight).len() == 0,
{
}

/// What a button is like once a finger is on it or off it.
pub open spec fn touched(button: ButtonView, on: bool) -> ButtonView {
    ButtonView {
        image: button.image,
        changed: button.changed || button.active != on,
        active: on,
        action: button.action,
    }
}

/// Whether what is written when a finger comes on a button or off it is right: nothing if it was
/// so before, and otherwise that the button's key goes down or up, and a report.
pub open spec fn right_output(button: ButtonView, on: bool, output: Seq<InputEvent>) -> bool {
    if button.active == on {
        output.len() == 0
    } else {
        &&& output.len() == 2
        &&& output[0] == (InputEvent {
            tv_sec: 0,
            tv_usec: 0,
            type_: 1,
            code: button.action.spec_code(),
            value: if on {
                1
            } else {
                0
            },
        })
        &&& output[1] == (InputEvent { tv_sec: 0, tv_usec: 0, type_: 0, code: 0, value: 0 })
    }
}

/// A button keeps its image and its key whatever is done to it. It is as touched as it was last
/// told, and has to be drawn from when it is told something new until it is drawn.
pub proof fn law_button_follows_the_finger(button: ButtonView, on: bool)
    ensures
        button.with_active(on) == touched(button, on),
        right_output(button, on, button.toggle_events(on)),
        button.drawn() == (ButtonView {
            image: button.image,
            changed: false,
            active: button.active,
            action: button.action,
        }),
{
}

/// A new button shows what it was given, presses the key that it was given, and is neither touched
/// nor changed. The function layer is the first and the special layer the second.
pub proof fn law_buttons_begin_untouched(image: ImageView, action: Key)
    ensures
        ButtonView::idle(image, action) == (ButtonView {
            image,
            changed: false,
            active: false,
            action,
        }),
        LayerType::Function.spec_index() == 0,
        LayerType::Special.spec_index() == 1,
{
}

/// An event to write holds what it was asked for, and no time.
pub proof fn law_event_holds_what_was_asked(kind: EventKind, code: u16, value: i32, key: Key)
    ensures
        event(kind, code, value) == (InputEvent {
            tv_sec: 0,
            tv_usec: 0,
            type_: if kind == EventKind::Key {
                1
            } else {
                0
            },
            code,
            value,
        }),
        key_toggle(key, value).len() == 2,
        key_toggle(key, value)[0] == (InputEvent {
            tv_sec: 0,
            tv_usec: 0,
            type_: 1,
            code: key.spec_code(),
            value,
        }),
        key_toggle(key, value)[1] == (InputEvent {
            tv_sec: 0,
            tv_usec: 0,
            type_: 0,
            code: 0,
            value: 0,
        }),
{
}

/// The area in which a touch belongs to a button is the same for both layers: it is that of the
/// button's place among as many buttons as its layer has, on a bar of this size.
pub proof fn law_hit_is_a_touch_in_the_area(
    bar: BarView,
    layer: int,
    btn: int,
    x: Coord,
    y: Coord,
)
    ensures
        bar.hits(layer, btn, x, y) <==> spec_hit_area(
            bar.layers[layer].len() as int,
            btn,
            bar.width,
            bar.height,
        ).contains(x, y),
        bar.candidate(x) == spec_button_index(
            x,
            bar.width,
            bar.layers[bar.active_layer].len() as int,
        ),
        spec_hit_area(bar.layers[layer].len() as int, btn, bar.width, bar.height).contains(x, y)
            <==> ({
            let area = spec_hit_area(
                bar.layers[layer].len() as int,
                btn,
                bar.width,
                bar.height,
            );
            !x.before(area.left) && !area.right.before(x) && area.low.before(y) && y.before(
                area.high,
            )
        }),
{
}

/// A finger that comes down presses the button of the layer shown in whose column and area it is,
/// on every layer alike, and is remembered with it. Elsewhere it does nothing.
pub proof fn law_down_presses_the_button_under_the_finger(
    bar: BarView,
    device: u64,
    backlight: u32,
    slot: u32,
    x: Coord,
    y: Coord,
)
    requires
        bar.wf(),
        bar.digitizer == Some(device),
        backlight > 0,
    ensures
        ({
            let touch = TouchEvent::Down { slot, x, y };
            let next = bar.after(Event::Touch { device, touch }, backlight);
            let output = bar.output(Event::Touch { device, touch }, backlight);
            let shown = bar.active_layer;
            let row = bar.layers[shown];
            let btn = spec_button_index(x, bar.width, row.len() as int);
            if spec_hit_area(row.len() as int, btn, bar.width, bar.height).contains(x, y) {
                btn < row.len() ==> {
                    &&& next == (BarView {
                        layers: bar.layers.update(
                            shown,
                            row.update(btn, touched(row[btn], true)),
                        ),
                        touches: bar.touches.insert(slot, (shown as usize, btn as u32)),
                        ..bar
                    })
                    &&& right_output(row[btn], true, output)
                }
            } else {
                next == bar && output.len() == 0
            }
        }),
{
    law_button_follows_the_finger(
        bar.layers[bar.active_layer][bar.candidate(x)],
        true,
    );
}

/// A finger that moves presses the button that it came down on while it is in the button's area,
/// and releases it while it is not, whatever layer is shown. A finger that came down on no button
/// does nothing.
pub proof fn law_motion_follows_the_button(
    bar: BarView,
    device: u64,
    backlight: u32,
    slot: u32,
    x: Coord,
    y: Coord,
)
    requires
        bar.wf(),
        bar.digitizer == Some(device),
        backlight > 0,
    ensures
        ({
            let touch = TouchEvent::Motion { slot, x, y };
            let next = bar.after(Event::Touch { device, touch }, backlight);
            let output = bar.output(Event::Touch { device, touch }, backlight);
            if bar.touches.contains_key(slot) {
                let layer = bar.touches[slot].0 as int;
                let btn = bar.touches[slot].1 as int;
                let row = bar.layers[layer];
                let on = spec_hit_area(row.len() as int, btn, bar.width, bar.height).contains(x, y);
                &&& next == (BarView {
                    layers: bar.layers.update(layer, row.update(btn, touched(row[btn], on))),
                    ..bar
                })
                &&& right_output(row[btn], on, output)
            } else {
                next == bar && output.len() == 0
            }
        }),
{
    if bar.touches.contains_key(slot) {
        let (layer, btn) = bar.touches[slot];
        law_button_follows_the_finger(
            bar.layers[layer as int][btn as int],
            bar.hits(layer as int, btn as int, x, y),
        );
    }
}

/// A finger that leaves the bar releases the button that it came down on, whatever layer is shown.
/// One that came down on no button does nothing.
pub proof fn law_up_releases_the_button(bar: BarView, device: u64, backlight: u32, slot: u32)
    requires
        bar.wf(),
        bar.digitizer == Some(device),
        backlight > 0,
    ensures
        ({
            let touch = TouchEvent::Up { slot };
            let next = bar.after(Event::Touch { device, touch }, backlight);
            let output = bar.output(Event::Touch { device, touch }, backlight);
            if bar.touches.contains_key(slot) {
                let layer = bar.touches[slot].0 as int;
                let btn = bar.touches[slot].1 as int;
                let row = bar.layers[layer];
                &&& next == (BarView {
                    layers: bar.layers.update(layer, row.update(btn, touched(row[btn], false))),
                    ..bar
                })
                &&& right_output(row[btn], false, output)
            } else {
                next == bar && output.len() == 0
            }
        }),
{
    if bar.touches.contains_key(slot) {
        let (layer, btn) = bar.touches[slot];
        law_button_follows_the_finger(bar.layers[layer as int][btn as int], false);
    }
}

/// Touches count on a lit bar, and only those of the digitizer; the others change nothing and
/// write nothing. A touch that counts is answered as such.
pub proof fn law_touches_count_on_a_lit_digitizer(
    bar: BarView,
    device: u64,
    touch: TouchEvent,
    backlight: u32,
)
    ensures
        ({
            let event = Event::Touch { device, touch };
            if bar.digitizer == Some(device) && backlight > 0 {
                &&& bar.after(event, backlight) == bar.after_touch(touch)
                &&& bar.output(event, backlight) == bar.touch_output(touch)
            } else {
                &&& bar.after(event, backlight) == bar
                &&& bar.output(event, backlight).len() == 0
            }
        }),
{
}

/// Every event can be answered, but for a finger that comes down, where touches count, in the area
/// of a place past the last button.
pub proof fn law_events_can_be_answered(bar: BarView, event: Event, backlight: u32)
    ensures
        !(event is Touch) ==> bar.answerable(event, backlight),
        event matches Event::Touch { device, touch } ==> {
            &&& !(touch is Down) || bar.digitizer != Some(device) || backlight == 0
                ==> bar.answerable(event, backlight)
            &&& touch matches TouchEvent::Down { slot, x, y } ==> bar.digitizer == Some(device)
                ==> backlight > 0 ==> (bar.answerable(event, backlight) <==> {
                let num = bar.layers[bar.active_layer].len() as int;
                let btn = spec_button_index(x, bar.width, num);
                btn < num || !spec_hit_area(num, btn, bar.width, bar.height).contains(x, y)
            })
        },
{
}

/// There is something to draw exactly if all of the bar has to be drawn or a button of the layer
/// shown has changed; it can be drawn unless the bar is too flat; and once drawn, none of these
/// buttons is changed any more. Drawing changes nothing else, nor anything of the other layer.
pub proof fn law_redraw_settles_the_layer_shown(bar: BarView)
    requires
        bar.wf(),
    ensures
        ({
            let row = bar.layers[bar.active_layer];
            let next = bar.after_draw();
            &&& bar.redraw_due() <==> bar.needs_complete_redraw || exists|i: int|
                0 <= i < row.len() && (#[trigger] row[i]).changed
            &&& bar.drawable() <==> bar.height >= 47 || !bar.redraw_due()
            &&& next.needs_complete_redraw == false
            &&& next.layers.len() == bar.layers.len()
            &&& forall|l: int|
                0 <= l < bar.layers.len() && l != bar.active_layer ==> #[trigger] next.layers[l]
                    == bar.layers[l]
            &&& next.layers[bar.active_layer].len() == row.len()
            &&& forall|i: int|
                0 <= i < row.len() ==> #[trigger] next.layers[bar.active_layer][i] == (
                ButtonView {
                    image: row[i].image,
                    changed: false,
                    active: row[i].active,
                    action: row[i].action,
                })
            &&& next == (BarView {
                layers: next.layers,
                needs_complete_redraw: next.needs_complete_redraw,
                ..bar
            })
        }),
{
    let row = bar.layers[bar.active_layer];
    law_bar_can_be_drawn(row, bar.height, bar.width, bar.needs_complete_redraw);
    if bar.redraw_due() {
        if bar.needs_complete_redraw {
            assert(due(row, true, 0));
        } else {
            let i = choose|i: int| 0 <= i < row.len() && (#[trigger] row[i]).changed;
            assert(due(row, false, i));
        }
    } else {
        assert forall|i: int| 0 <= i < row.len() implies !#[trigger] due(
            row,
            bar.needs_complete_redraw,
            i,
        ) by {
            assert(!row[i].changed);
        }
    }
}

/// A redraw is one of the layer shown, at the size of the bar, complete if it has to be.
pub proof fn law_redraw_is_of_the_layer_shown(bar: BarView)
    ensures
        bar.drawn_buttons() == drawn_buttons(
            bar.layers[bar.active_layer],
            bar.height,
            bar.width,
            bar.needs_complete_redraw,
        ),
        bar.drawn_clips() == drawn_clips(
            bar.layers[bar.active_layer],
            bar.height,
            bar.width,
            bar.needs_complete_redraw,
        ),
{
}

/// On a bar narrower than 2170 pixels button `i` of a layer is button `i + 1` of the full layer,
/// so that the first is left out; on every other bar it is button `i`.
pub proof fn law_narrow_bars_leave_out_the_first_button(
    row: Seq<ButtonView>,
    width: u16,
    i: int,
)
    requires
        row.len() > 0,
    ensures
        width < 2170 ==> fitting(row, width).len() == row.len() - 1,
        width < 2170 && 0 <= i < row.len() - 1 ==> fitting(row, width)[i] == row[i + 1],
        width >= 2170 ==> fitting(row, width).len() == row.len(),
        width >= 2170 && 0 <= i < row.len() ==> fitting(row, width)[i] == row[i],
{
}

/// The layers end with F12 and with the key for more volume, on every bar, and begin with the
/// escape key on those that have room for it.
pub proof fn law_layers_begin_and_end(width: u16)
    ensures
        ({
            let function = fitting(function_row(), width);
            let special = fitting(special_row(), width);
            &&& function.len() == special.len()
            &&& function.len() == if width < 2170 {
                12nat
            } else {
                13nat
            }
            &&& function.last().action.spec_code() == 88
            &&& special.last().action.spec_code() == 115
            &&& function[0].action.spec_code() == if width < 2170 {
                59u16
            } else {
                1u16
            }
            &&& special[0].action.spec_code() == if width < 2170 {
                224u16
            } else {
                1u16
            }
        }),
{
}

/// The mathematical values of a bar, a layer and a button hold what their fields hold.
pub proof fn law_views_hold_the_fields(bar: TouchBar, layer: FunctionLayer, button: Button)
    ensures
        bar@.width == bar.width,
        bar@.height == bar.height,
        bar@.active_layer == bar.active_layer,
        bar@.needs_complete_redraw == bar.needs_complete_redraw,
        bar@.digitizer == bar.digitizer,
        bar@.touches == bar.touches@,
        bar@.primary_layer == bar.primary_layer,
        bar@.secondary_layer == bar.secondary_layer,
        bar@.layers.len() == bar.layers@.len(),
        forall|l: int|
            0 <= l < bar.layers@.len() ==> #[trigger] bar@.layers[l] == views(
                bar.layers@[l].buttons@,
            ),
        layer@.len() == layer.buttons@.len(),
        forall|i: int|
            0 <= i < layer.buttons@.len() ==> #[trigger] layer@[i] == layer.buttons@[i]@,
        button@.changed == button.changed,
        button@.active == button.active,
        button@.action == button.action,
        button.image matches ButtonImage::Text(text) ==> button@.image == ImageView::Text(text@),
        button.image matches ButtonImage::Svg(name) ==> button@.image == ImageView::Svg(name@),
{
}

/// The keys of buttons are their keys, one for each button and in their order.
pub proof fn law_keys_are_those_of_the_buttons(buttons: Seq<ButtonView>, i: int)
    requires
        0 <= i < buttons.len(),
    ensures
        actions(buttons).len() == buttons.len(),
        actions(buttons)[i] == buttons[i].action,
        all_drawn(buttons).len() == buttons.len(),
        all_drawn(buttons)[i] == buttons[i].drawn(),
        buttons[i].changed ==> any_changed(buttons),
        any_changed(buttons) ==> exists|j: int|
            0 <= j < buttons.len() && (#[trigger] buttons[j]).changed,
{
}

} // verus!
