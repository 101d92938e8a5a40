//! What holds of every history of the bar: of any events and redraws, in any order.

use vstd::prelude::*;

use crate::button::{key_value, ButtonView};
use crate::coord::Coord;
use crate::key::{fn_code, Key};
use crate::layer::{all_drawn, any_changed};
use crate::touch_bar::{BarView, Event, KeyState, TouchEvent, LAYERS};
use crate::uinput::{is_key_event, key_toggle, report, InputEvent};

verus! {

/// One thing that happens to the bar.
pub enum Step {
    /// An event, and the brightness of the backlight when it came.
    Input(Event, u32),
    /// The bar is drawn.
    Draw,
}

impl BarView {
    /// Whether a step can be taken.
    pub open spec fn allows(self, step: Step) -> bool {
        match step {
            Step::Input(event, backlight) => self.answerable(event, backlight),
            Step::Draw => true,
        }
    }

    /// The bar after a step.
    pub open spec fn after_step(self, step: Step) -> BarView {
        match step {
            Step::Input(event, backlight) => self.after(event, backlight),
            Step::Draw => self.after_draw(),
        }
    }

    /// The events that a step writes.
    pub open spec fn step_output(self, step: Step) -> Seq<InputEvent> {
        match step {
            Step::Input(event, backlight) => self.output(event, backlight),
            Step::Draw => seq![],
        }
    }

    /// Whether steps can be taken, one after another.
    pub open spec fn allows_all(self, steps: Seq<Step>) -> bool
        decreases steps.len(),
    {
        steps.len() == 0 || (self.allows(steps[0]) && self.after_step(steps[0]).allows_all(
            steps.drop_first(),
        ))
    }

    /// The bar after steps.
    pub open spec fn after_all(self, steps: Seq<Step>) -> BarView
        decreases steps.len(),
    {
        if steps.len() == 0 {
            self
        } else {
            self.after_step(steps[0]).after_all(steps.drop_first())
        }
    }

    /// The events that steps write.
    pub open spec fn all_output(self, steps: Seq<Step>) -> Seq<InputEvent>
        decreases steps.len(),
    {
        if steps.len() == 0 {
            seq![]
        } else {
            self.step_output(steps[0]) + self.after_step(steps[0]).all_output(steps.drop_first())
        }
    }

    /// The button that a step gives a state, with that state: its layer, its place, and whether
    /// it is touched from then on.
    pub open spec fn target(self, step: Step) -> Option<(int, int, bool)> {
        match step {
            Step::Input(Event::Touch { device, touch }, backlight) => {
                if !self.accepts(device, backlight) {
                    None
                } else {
                    match touch {
                        TouchEvent::Down { slot, x, y } => {
                            let btn = self.candidate(x);
                            if self.hits(self.active_layer, btn, x, y) {
                                Some((self.active_layer, btn, true))
                            } else {
                                None
                            }
                        },
                        TouchEvent::Motion { slot, x, y } => {
                            if self.touches.contains_key(slot) {
                                let (layer, btn) = self.touches[slot];
                                Some(
                                    (
                                        layer as int,
                                        btn as int,
                                        self.hits(layer as int, btn as int, x, y),
                                    ),
                                )
                            } else {
                                None
                            }
                        },
                        TouchEvent::Up { slot } => {
                            if self.touches.contains_key(slot) {
                                let (layer, btn) = self.touches[slot];
                                Some((layer as int, btn as int, false))
                            } else {
                                None
                            }
                        },
                        TouchEvent::Other => None,
                    }
                }
            },
            _ => None,
        }
    }
}

/// A state makes sense if the one before did, every layer has kept its number of buttons, a layer
/// is shown, and every slot refers to what it did before or to a button that exists.
proof fn lemma_still_sensible(bar: BarView, next: BarView)
    requires
        bar.wf(),
        next.layers.len() == LAYERS,
        forall|l: int|
            0 <= l < LAYERS ==> (#[trigger] next.layers[l]).len() == bar.layers[l].len(),
        0 <= next.active_layer < LAYERS,
        forall|slot: u32| #[trigger]
            next.touches.contains_key(slot) ==> {
                ||| bar.touches.contains_key(slot) && next.touches[slot] == bar.touches[slot]
                ||| bar.has_button(next.touches[slot].0 as int, next.touches[slot].1 as int)
            },
    ensures
        next.wf(),
{
    assert forall|slot: u32| #[trigger] next.touches.contains_key(slot) implies next.has_button(
        next.touches[slot].0 as int,
        next.touches[slot].1 as int,
    ) by {
        if bar.touches.contains_key(slot) {
            assert(bar.has_button(bar.touches[slot].0 as int, bar.touches[slot].1 as int));
        }
    }
}

/// What a step does to the buttons: nothing, but to the one button that it gives a state, and but
/// for taking the buttons of the layer that is shown as drawn. What it writes are the events of
/// that button.
proof fn lemma_step(bar: BarView, step: Step)
    requires
        bar.wf(),
        bar.allows(step),
    ensures
        bar.after_step(step).wf(),
        match bar.target(step) {
            Some((layer, btn, active)) => {
                &&& bar.has_button(layer, btn)
                &&& bar.after_step(step).layers == bar.with_active(layer, btn, active).layers
                &&& bar.step_output(step) == bar.button(layer, btn).toggle_events(active)
            },
            None => {
                &&& bar.step_output(step) == Seq::<InputEvent>::empty()
                &&& step !is Draw ==> bar.after_step(step).layers == bar.layers
            },
        },
        step is Draw ==> bar.after_step(step).layers == bar.layers.update(
            bar.active_layer,
            all_drawn(bar.layers[bar.active_layer]),
        ),
{
    lemma_still_sensible(bar, bar.after_step(step));
}

/// Every step leaves the bar in a state that makes sense, and so do any number of steps.
pub proof fn law_state_stays_sensible(bar: BarView, steps: Seq<Step>)
    requires
        bar.wf(),
        bar.allows_all(steps),
    ensures
        bar.after_all(steps).wf(),
    decreases steps.len(),
{
    if steps.len() > 0 {
        lemma_step(bar, steps[0]);
        law_state_stays_sensible(bar.after_step(steps[0]), steps.drop_first());
    }
}

/// No step adds, removes or relabels a button, or changes the key that it presses.
pub proof fn law_buttons_keep_their_keys(bar: BarView, steps: Seq<Step>, layer: int, btn: int)
    requires
        bar.wf(),
        bar.allows_all(steps),
        bar.has_button(layer, btn),
    ensures
        bar.after_all(steps).layers.len() == bar.layers.len(),
        bar.after_all(steps).layers[layer].len() == bar.layers[layer].len(),
        bar.after_all(steps).button(layer, btn).action == bar.button(layer, btn).action,
        bar.after_all(steps).button(layer, btn).image == bar.button(layer, btn).image,
    decreases steps.len(),
{
    if steps.len() > 0 {
        lemma_step(bar, steps[0]);
        law_buttons_keep_their_keys(bar.after_step(steps[0]), steps.drop_first(), layer, btn);
    }
}

/// The number of times that events give the key of a code a value.
pub open spec fn key_events(events: Seq<InputEvent>, code: u16, value: i32) -> nat
    decreases events.len(),
{
    if events.len() == 0 {
        0
    } else {
        key_events(events.drop_last(), code, value) + if is_key_event(events.last(), code, value) {
            1nat
        } else {
            0nat
        }
    }
}

/// The number of buttons that press the key of a code.
pub open spec fn carriers(buttons: Seq<ButtonView>, code: u16) -> nat
    decreases buttons.len(),
{
    if buttons.len() == 0 {
        0
    } else {
        carriers(buttons.drop_last(), code) + if buttons.last().action.spec_code() == code {
            1nat
        } else {
            0nat
        }
    }
}

/// The number of touched buttons that press the key of a code.
pub open spec fn holders(buttons: Seq<ButtonView>, code: u16) -> nat
    decreases buttons.len(),
{
    if buttons.len() == 0 {
        0
    } else {
        holders(buttons.drop_last(), code) + holds(buttons.last(), code)
    }
}

/// Whether a button is touched and presses the key of a code, as a number.
pub open spec fn holds(button: ButtonView, code: u16) -> nat {
    if button.active && button.action.spec_code() == code {
        1
    } else {
        0
    }
}

impl BarView {
    /// The number of buttons of both layers that press the key of a code.
    pub open spec fn all_carriers(self, code: u16) -> nat {
        carriers(self.layers[0], code) + carriers(self.layers[1], code)
    }

    /// The number of touched buttons of both layers that press the key of a code.
    pub open spec fn all_holders(self, code: u16) -> nat {
        holders(self.layers[0], code) + holders(self.layers[1], code)
    }
}

proof fn lemma_holders_update(buttons: Seq<ButtonView>, btn: int, button: ButtonView, code: u16)
    requires
        0 <= btn < buttons.len(),
    ensures
        holders(buttons.update(btn, button), code) + holds(buttons[btn], code) == holders(
            buttons,
            code,
        ) + holds(button, code),
    decreases buttons.len(),
{
    let updated = buttons.update(btn, button);
    if btn == buttons.len() - 1 {
        assert(updated.drop_last() =~= buttons.drop_last());
    } else {
        assert(updated.drop_last() =~= buttons.drop_last().update(btn, button));
        lemma_holders_update(buttons.drop_last(), btn, button, code);
    }
}

proof fn lemma_carriers_update(buttons: Seq<ButtonView>, btn: int, button: ButtonView, code: u16)
    requires
        0 <= btn < buttons.len(),
        button.action == buttons[btn].action,
    ensures
        carriers(buttons.update(btn, button), code) == carriers(buttons, code),
    decreases buttons.len(),
{
    let updated = buttons.update(btn, button);
    if btn == buttons.len() - 1 {
        assert(updated.drop_last() =~= buttons.drop_last());
    } else {
        assert(updated.drop_last() =~= buttons.drop_last().update(btn, button));
        lemma_carriers_update(buttons.drop_last(), btn, button, code);
    }
}

proof fn lemma_drawn_counts(buttons: Seq<ButtonView>, code: u16)
    ensures
        holders(all_drawn(buttons), code) == holders(buttons, code),
        carriers(all_drawn(buttons), code) == carriers(buttons, code),
    decreases buttons.len(),
{
    if buttons.len() > 0 {
        assert(all_drawn(buttons).drop_last() =~= all_drawn(buttons.drop_last()));
        lemma_drawn_counts(buttons.drop_last(), code);
    }
}

proof fn lemma_holders_bounded(buttons: Seq<ButtonView>, code: u16)
    ensures
        holders(buttons, code) <= carriers(buttons, code),
    decreases buttons.len(),
{
    if buttons.len() > 0 {
        lemma_holders_bounded(buttons.drop_last(), code);
    }
}

proof fn lemma_key_events_add(a: Seq<InputEvent>, b: Seq<InputEvent>, code: u16, value: i32)
    ensures
        key_events(a + b, code, value) == key_events(a, code, value) + key_events(b, code, value),
    decreases b.len(),
{
    if b.len() == 0 {
        assert(a + b =~= a);
    } else {
        assert((a + b).drop_last() =~= a + b.drop_last());
        lemma_key_events_add(a, b.drop_last(), code, value);
    }
}

proof fn lemma_toggle_counts(key: Key, toggled: i32, code: u16, value: i32)
    ensures
        key_events(key_toggle(key, toggled), code, value) == if key.spec_code() == code && toggled
            == value {
            1nat
        } else {
            0nat
        },
{
    reveal_with_fuel(key_events, 3);
    let events = key_toggle(key, toggled);
    assert(events.drop_last().drop_last() =~= Seq::<InputEvent>::empty());
    assert(events.drop_last().last() == events[0]);
    assert(events.last() == events[1]);
}

/// What one step writes of a key balances with the number of touched buttons that press it.
proof fn lemma_step_balance(bar: BarView, step: Step, code: u16)
    requires
        bar.wf(),
        bar.allows(step),
    ensures
        bar.after_step(step).all_carriers(code) == bar.all_carriers(code),
        bar.after_step(step).all_holders(code) + key_events(bar.step_output(step), code, 0)
            == bar.all_holders(code) + key_events(bar.step_output(step), code, 1),
{
    lemma_step(bar, step);
    match bar.target(step) {
        Some((layer, btn, active)) => {
            let buttons = bar.layers[layer];
            let button = buttons[btn].with_active(active);
            lemma_holders_update(buttons, btn, button, code);
            lemma_carriers_update(buttons, btn, button, code);
            lemma_toggle_counts(buttons[btn].action, key_value(active), code, 0);
            lemma_toggle_counts(buttons[btn].action, key_value(active), code, 1);
        },
        None => {
            if step is Draw {
                lemma_drawn_counts(bar.layers[bar.active_layer], code);
            }
        },
    }
}

/// Over any history, a key has been pressed as many times more than released as the number of
/// touched buttons that press it has grown.
pub proof fn law_presses_balance_releases(bar: BarView, steps: Seq<Step>, code: u16)
    requires
        bar.wf(),
        bar.allows_all(steps),
    ensures
        bar.after_all(steps).all_holders(code) + key_events(bar.all_output(steps), code, 0)
            == bar.all_holders(code) + key_events(bar.all_output(steps), code, 1),
        bar.after_all(steps).all_carriers(code) == bar.all_carriers(code),
    decreases steps.len(),
{
    if steps.len() > 0 {
        let next = bar.after_step(steps[0]);
        let first = bar.step_output(steps[0]);
        let rest = next.all_output(steps.drop_first());
        lemma_step(bar, steps[0]);
        lemma_step_balance(bar, steps[0], code);
        law_presses_balance_releases(next, steps.drop_first(), code);
        lemma_key_events_add(first, rest, code, 0);
        lemma_key_events_add(first, rest, code, 1);
    }
}

/// From a bar that no finger touches, no key is ever released more often than it was pressed,
/// nor pressed more often than released by more than the number of buttons that press it. So a
/// key that one button presses is pressed and released in turn.
pub proof fn law_no_key_is_stuck_or_doubled(bar: BarView, steps: Seq<Step>, code: u16)
    requires
        bar.wf(),
        bar.allows_all(steps),
        bar.all_holders(code) == 0,
    ensures
        key_events(bar.all_output(steps), code, 0) <= key_events(bar.all_output(steps), code, 1),
        key_events(bar.all_output(steps), code, 1) <= key_events(bar.all_output(steps), code, 0)
            + bar.all_carriers(code),
{
    law_presses_balance_releases(bar, steps, code);
    lemma_holders_bounded(bar.after_all(steps).layers[0], code);
    lemma_holders_bounded(bar.after_all(steps).layers[1], code);
}

/// Whether events come in pairs: one that presses or releases a key, and the report that ends it.
pub open spec fn paired(events: Seq<InputEvent>) -> bool {
    &&& events.len() % 2 == 0
    &&& forall|i: int|
        0 <= i < events.len() && i % 2 == 0 ==> exists|key: Key, active: bool|
            #[trigger] events[i] == #[trigger] key_toggle(key, key_value(active))[0]
    &&& forall|i: int|
        0 <= i < events.len() && i % 2 == 1 ==> #[trigger] events[i] == report()
}

/// Everything that is ever written comes in pairs of a key event and a report.
pub proof fn law_every_key_event_is_reported(bar: BarView, steps: Seq<Step>)
    requires
        bar.wf(),
        bar.allows_all(steps),
    ensures
        paired(bar.all_output(steps)),
    decreases steps.len(),
{
    if steps.len() > 0 {
        let next = bar.after_step(steps[0]);
        let first = bar.step_output(steps[0]);
        let rest = next.all_output(steps.drop_first());
        lemma_step(bar, steps[0]);
        law_every_key_event_is_reported(next, steps.drop_first());
        assert(first.len() == 0 || first.len() == 2);
        assert(paired(first)) by {
            if let Some((layer, btn, active)) = bar.target(steps[0]) {
                let key = bar.button(layer, btn).action;
                if first.len() == 2 {
                    assert(first[0] == key_toggle(key, key_value(active))[0]);
                }
            }
        }
        let all = first + rest;
        assert forall|i: int| 0 <= i < all.len() && i % 2 == 0 implies exists|
            key: Key,
            active: bool,
        | #[trigger] all[i] == #[trigger] key_toggle(key, key_value(active))[0] by {
            if i < first.len() {
                assert(all[i] == first[i]);
            } else {
                assert(all[i] == rest[i - first.len()]);
            }
        }
        assert forall|i: int| 0 <= i < all.len() && i % 2 == 1 implies #[trigger] all[i]
            == report() by {
            if i < first.len() {
                assert(all[i] == first[i]);
            } else {
                assert(all[i] == rest[i - first.len()]);
            }
        }
    }
}

/// Whether a history holds no redraw.
pub open spec fn undrawn(steps: Seq<Step>) -> bool {
    forall|i: int| 0 <= i < steps.len() ==> (#[trigger] steps[i]) !is Draw
}

/// As long as no redraw is due, what was last drawn is what there is to see: the same layer, with
/// every button touched or not as it was then.
pub proof fn law_screen_is_current_unless_redraw_is_due(bar: BarView, steps: Seq<Step>, btn: int)
    requires
        bar.wf(),
        bar.allows_all(steps),
        undrawn(steps),
        !bar.after_all(steps).redraw_due(),
        bar.has_button(bar.active_layer, btn),
    ensures
        !bar.redraw_due(),
        bar.after_all(steps).active_layer == bar.active_layer,
        bar.after_all(steps).button(bar.active_layer, btn) == bar.button(bar.active_layer, btn),
    decreases steps.len(),
{
    if steps.len() > 0 {
        let step = steps[0];
        let next = bar.after_step(step);
        let rest = steps.drop_first();
        lemma_step(bar, step);
        assert(step !is Draw);
        assert forall|i: int| 0 <= i < rest.len() implies (#[trigger] rest[i]) !is Draw by {
            assert(steps[i + 1] !is Draw);
        }
        lemma_due_stays_due(bar, step);
        assert(next.has_button(next.active_layer, 0)) by {
            assert(next.layers[next.active_layer].len() >= 1);
        }
        law_screen_is_current_unless_redraw_is_due(next, rest, 0);
        assert(next.active_layer == bar.active_layer);
        law_screen_is_current_unless_redraw_is_due(next, rest, btn);
        let shown = bar.active_layer;
        if next.button(shown, btn) != bar.button(shown, btn) {
            assert(next.button(shown, btn).changed);
            assert(next.layers[shown][btn].changed);
            assert(any_changed(next.layers[shown]));
        }
    }
}

/// No event makes a redraw that is due superfluous, and one that shows another layer or changes
/// how a shown button looks makes it due.
proof fn lemma_due_stays_due(bar: BarView, step: Step)
    requires
        bar.wf(),
        bar.allows(step),
        step !is Draw,
    ensures
        bar.redraw_due() ==> bar.after_step(step).redraw_due(),
        bar.after_step(step).active_layer != bar.active_layer ==> bar.after_step(
            step,
        ).redraw_due(),
{
    lemma_step(bar, step);
    let next = bar.after_step(step);
    let shown = bar.active_layer;
    if any_changed(bar.layers[shown]) && next.active_layer == shown {
        let i = choose|i: int|
            0 <= i < bar.layers[shown].len() && (#[trigger] bar.layers[shown][i]).changed;
        assert(next.layers[shown][i].changed);
    }
}

/// Once the bar is drawn, nothing is left to draw.
pub proof fn law_drawing_settles(bar: BarView)
    requires
        bar.wf(),
    ensures
        !bar.after_draw().redraw_due(),
        bar.after_draw().after_draw() == bar.after_draw(),
{
    let once = bar.after_draw();
    assert(all_drawn(once.layers[once.active_layer]) =~= once.layers[once.active_layer]);
    assert(once.after_draw().layers =~= once.layers);
}

/// A touch on another device, or while the bar is dark, changes nothing and writes nothing.
pub proof fn law_other_touches_are_ignored(
    bar: BarView,
    device: u64,
    touch: TouchEvent,
    backlight: u32,
)
    requires
        bar.digitizer != Some(device) || backlight == 0,
    ensures
        bar.after(Event::Touch { device, touch }, backlight) == bar,
        bar.output(Event::Touch { device, touch }, backlight) == Seq::<InputEvent>::empty(),
{
}

/// The Fn key shows the secondary layer while it is down and the primary layer while it is up,
/// and calls for a complete redraw exactly if that is another layer. No other key does anything.
pub proof fn law_fn_key_chooses_the_layer(bar: BarView, key: u32, state: KeyState)
    ensures
        key != fn_code() ==> bar.after_key(key, state) == bar,
        key == fn_code() ==> bar.after_key(key, state).active_layer == bar.called_layer(state),
        key == fn_code() ==> bar.after_key(key, state).needs_complete_redraw == (
        bar.needs_complete_redraw || bar.active_layer != bar.called_layer(state)),
        bar.after_key(key, state).layers == bar.layers,
        bar.after_key(key, state).touches == bar.touches,
{
}

/// Pressing and releasing the Fn key shows the primary layer again.
pub proof fn law_fn_key_comes_back(bar: BarView)
    requires
        bar.active_layer == bar.primary_layer.spec_index(),
    ensures
        bar.after_key(fn_code(), KeyState::Pressed).after_key(
            fn_code(),
            KeyState::Released,
        ).active_layer == bar.active_layer,
{
}

/// What is remembered of a finger changes only when a finger comes down in the same slot.
pub proof fn law_slots_are_remembered(bar: BarView, step: Step, slot: u32)
    requires
        bar.touches.contains_key(slot),
        !(step matches Step::Input(Event::Touch { device, touch }, backlight)
            && touch matches TouchEvent::Down { slot: other, x, y } && other == slot),
    ensures
        bar.after_step(step).touches.contains_key(slot),
        bar.after_step(step).touches[slot] == bar.touches[slot],
{
}

/// A finger that came down on a button and does not move keeps the key pressed: the same place,
/// reported again, writes nothing and changes nothing, whatever layer is shown by then.
pub proof fn law_resting_finger_is_silent(
    bar: BarView,
    slot: u32,
    x: Coord,
    y: Coord,
    shown: int,
)
    requires
        bar.wf(),
        bar.on_bar(TouchEvent::Down { slot, x, y }),
        bar.hits(bar.active_layer, bar.candidate(x), x, y),
    ensures
        ({
            let down = BarView {
                active_layer: shown,
                ..bar.after_touch(TouchEvent::Down { slot, x, y })
            };
            &&& down.after_touch(TouchEvent::Motion { slot, x, y }) == down
            &&& down.touch_output(TouchEvent::Motion { slot, x, y }) == Seq::<InputEvent>::empty()
        }),
{
    let down = BarView {
        active_layer: shown,
        ..bar.after_touch(TouchEvent::Down { slot, x, y })
    };
    let (l, b) = down.touches[slot];
    assert(l == bar.active_layer && b == bar.candidate(x));
    assert(down.layers[l as int].len() == bar.layers[l as int].len());
    assert(down.layers[l as int].update(b as int, down.layers[l as int][b as int])
        =~= down.layers[l as int]);
    assert(down.layers.update(l as int, down.layers[l as int]) =~= down.layers);
}

/// Whether none of the steps gives a state to button `btn` of layer `layer`, and none is a finger
/// that comes down in `slot`.
pub open spec fn leave_alone(
    bar: BarView,
    steps: Seq<Step>,
    slot: u32,
    layer: int,
    btn: int,
) -> bool
    decreases steps.len(),
{
    steps.len() == 0 || {
        &&& !(bar.target(steps[0]) matches Some(t) && t.0 == layer && t.1 == btn)
        &&& !(steps[0] matches Step::Input(Event::Touch { device, touch }, backlight)
            && touch matches TouchEvent::Down { slot: other, x, y } && other == slot)
        &&& leave_alone(bar.after_step(steps[0]), steps.drop_first(), slot, layer, btn)
    }
}

proof fn lemma_left_alone(bar: BarView, steps: Seq<Step>, slot: u32, layer: int, btn: int)
    requires
        bar.wf(),
        bar.allows_all(steps),
        bar.has_button(layer, btn),
        bar.touches.contains_key(slot),
        leave_alone(bar, steps, slot, layer, btn),
    ensures
        bar.after_all(steps).wf(),
        bar.after_all(steps).touches.contains_key(slot),
        bar.after_all(steps).touches[slot] == bar.touches[slot],
        bar.after_all(steps).button(layer, btn).active == bar.button(layer, btn).active,
        bar.after_all(steps).button(layer, btn).action == bar.button(layer, btn).action,
    decreases steps.len(),
{
    if steps.len() > 0 {
        let next = bar.after_step(steps[0]);
        lemma_step(bar, steps[0]);
        law_slots_are_remembered(bar, steps[0], slot);
        lemma_left_alone(next, steps.drop_first(), slot, layer, btn);
    }
}

/// The key that a finger presses is the key that it releases. A finger that comes down on an
/// untouched button writes that the button's key is pressed, and when it leaves it writes that
/// the same key is released, whatever happened in between, redraws and changes of the layer
/// included, so long as nothing else happened to the button or in the slot.
pub proof fn law_finger_releases_what_it_pressed(
    bar: BarView,
    slot: u32,
    x: Coord,
    y: Coord,
    steps: Seq<Step>,
)
    requires
        bar.wf(),
        bar.on_bar(TouchEvent::Down { slot, x, y }),
        bar.hits(bar.active_layer, bar.candidate(x), x, y),
        !bar.button(bar.active_layer, bar.candidate(x)).active,
        bar.after_touch(TouchEvent::Down { slot, x, y }).allows_all(steps),
        leave_alone(
            bar.after_touch(TouchEvent::Down { slot, x, y }),
            steps,
            slot,
            bar.active_layer,
            bar.candidate(x),
        ),
    ensures
        ({
            let key = bar.button(bar.active_layer, bar.candidate(x)).action;
            let down = TouchEvent::Down { slot, x, y };
            let up = TouchEvent::Up { slot };
            let last = bar.after_touch(down).after_all(steps);
            &&& bar.touch_output(down) == key_toggle(key, 1)
            &&& last.touch_output(up) == key_toggle(key, 0)
            &&& !last.after_touch(up).button(bar.active_layer, bar.candidate(x)).active
        }),
{
    let down = TouchEvent::Down { slot, x, y };
    let layer = bar.active_layer;
    let btn = bar.candidate(x);
    let next = bar.after_touch(down);
    lemma_down_is_a_step(bar, down);
    lemma_left_alone(next, steps, slot, layer, btn);
    let last = next.after_all(steps);
    assert(last.has_button(layer, btn)) by {
        assert(last.touches[slot] == (layer as usize, btn as u32));
    }
}

/// A touch that counts keeps the state sensible.
proof fn lemma_down_is_a_step(bar: BarView, touch: TouchEvent)
    requires
        bar.wf(),
        bar.on_bar(touch),
    ensures
        bar.after_touch(touch).wf(),
{
    lemma_still_sensible(bar, bar.after_touch(touch));
}

/// A finger that has left releases nothing more.
pub proof fn law_second_release_is_silent(bar: BarView, slot: u32)
    requires
        bar.wf(),
    ensures
        bar.after_touch(TouchEvent::Up { slot }).touch_output(TouchEvent::Up { slot }) == Seq::<
            InputEvent,
        >::empty(),
{
}

/// The touch bar that was added last is the digitizer, and other devices do not matter.
pub proof fn law_last_touch_bar_is_the_digitizer(bar: BarView, device: u64, name: Seq<char>)
    ensures
        crate::device::occurs_in(" Touch Bar"@, name) ==> bar.after_device_added(
            device,
            name,
        ).digitizer == Some(device),
        !crate::device::occurs_in(" Touch Bar"@, name) ==> bar.after_device_added(device, name)
            == bar,
{
}

} // verus!
