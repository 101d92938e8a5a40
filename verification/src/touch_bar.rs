//! The state of the bar and its answer to every event.

use std::collections::HashMap;
use vstd::prelude::*;

use crate::button::{Button, ButtonView};
use crate::config::LayerType;
use crate::coord::Coord;
use crate::device::{is_touch_bar, occurs_in};
use crate::geometry::{button_hit, button_index, spec_button_index, spec_hit_area, ClipRect};
use crate::key::{fn_code, is_fn_key, Key};
use crate::layer::{
    all_drawn, any_changed, drawable, drawn_buttons, drawn_clips, layer_wf, views, ButtonDrawing,
    Drawing, FunctionLayer,
};
use crate::uinput::InputEvent;

verus! {

/// The number of layers of a bar.
pub const LAYERS: usize = 2;

/// Whether a key went down or up.
#[derive(Clone, Copy, Debug, PartialEq, Eq, Structural)]
pub enum KeyState {
    Pressed,
    Released,
}

/// What a finger does. Every finger has a slot of its own while it touches the bar.
#[derive(Clone, Copy, Debug)]
pub enum TouchEvent {
    /// A finger touches the bar at `(x, y)`.
    Down { slot: u32, x: Coord, y: Coord },
    /// A finger moves to `(x, y)`.
    Motion { slot: u32, x: Coord, y: Coord },
    /// A finger leaves the bar.
    Up { slot: u32 },
    /// Anything else.
    Other,
}

/// Something that happened at an input device. Devices are told apart by number.
#[derive(Debug)]
pub enum Event {
    /// A device with this name is there.
    DeviceAdded { device: u64, name: String },
    /// A key of a keyboard went down or up.
    Key { key: u32, state: KeyState },
    /// A finger did something on a device.
    Touch { device: u64, touch: TouchEvent },
    /// Anything else.
    Other,
}

/// The state of the bar.
#[derive(Debug)]
pub struct TouchBar {
    /// The extent of the bar along the row of buttons, in pixels.
    pub width: u16,
    /// The extent of the bar across the row of buttons, in pixels.
    pub height: u16,
    pub layers: Vec<FunctionLayer>,
    /// The layer that is shown.
    pub active_layer: usize,
    /// Whether everything has to be drawn anew.
    pub needs_complete_redraw: bool,
    /// The device from which touches are taken.
    pub digitizer: Option<u64>,
    /// The layer and the button that the finger in each slot pressed last.
    pub touches: HashMap<u32, (usize, u32)>,
    /// The layer shown while the Fn key is up.
    pub primary_layer: LayerType,
    /// The layer shown while the Fn key is down.
    pub secondary_layer: LayerType,
}

/// The state of the bar as a mathematical value.
pub struct BarView {
    pub width: u16,
    pub height: u16,
    pub layers: Seq<Seq<ButtonView>>,
    pub active_layer: int,
    pub needs_complete_redraw: bool,
    pub digitizer: Option<u64>,
    pub touches: Map<u32, (usize, u32)>,
    pub primary_layer: LayerType,
    pub secondary_layer: LayerType,
}

impl View for TouchBar {
    type V = BarView;

    open spec fn view(&self) -> BarView {
        BarView {
            width: self.width,
            height: self.height,
            layers: self.layers@.map_values(|l: FunctionLayer| l@),
            active_layer: self.active_layer as int,
            needs_complete_redraw: self.needs_complete_redraw,
            digitizer: self.digitizer,
            touches: self.touches@,
            primary_layer: self.primary_layer,
            secondary_layer: self.secondary_layer,
        }
    }
}

impl BarView {
    /// There are two layers, each with a button, one of them is shown, and every slot refers to a
    /// button that exists.
    pub open spec fn wf(self) -> bool {
        &&& self.layers.len() == LAYERS
        &&& forall|l: int| 0 <= l < LAYERS ==> layer_wf(#[trigger] self.layers[l])
        &&& 0 <= self.active_layer < LAYERS
        &&& forall|slot: u32|
            #[trigger]
            self.touches.contains_key(slot) ==> self.has_button(
                self.touches[slot].0 as int,
                self.touches[slot].1 as int,
            )
    }

    /// Whether there is a button `btn` in layer `layer`.
    pub open spec fn has_button(self, layer: int, btn: int) -> bool {
        0 <= layer < self.layers.len() && 0 <= btn < self.layers[layer].len()
    }

    /// Button `btn` of layer `layer`.
    pub open spec fn button(self, layer: int, btn: int) -> ButtonView {
        self.layers[layer][btn]
    }

    /// The bar once a button has been given a state.
    pub open spec fn with_active(self, layer: int, btn: int, active: bool) -> BarView {
        let buttons = self.layers[layer];
        BarView {
            layers: self.layers.update(
                layer,
                buttons.update(btn, buttons[btn].with_active(active)),
            ),
            ..self
        }
    }

    /// Whether a touch at `(x, y)` hits the place of button `btn` of layer `layer`.
    pub open spec fn hits(self, layer: int, btn: int, x: Coord, y: Coord) -> bool {
        spec_hit_area(self.layers[layer].len() as int, btn, self.width, self.height).contains(x, y)
    }

    /// The button of the layer that is shown which a touch at `x` can hit.
    pub open spec fn candidate(self, x: Coord) -> int {
        spec_button_index(x, self.width, self.layers[self.active_layer].len() as int)
    }

    /// Whether a touch does not begin past the last button, at a place where one more button
    /// would be.
    pub open spec fn on_bar(self, touch: TouchEvent) -> bool {
        match touch {
            TouchEvent::Down { slot, x, y } => self.hits(
                self.active_layer,
                self.candidate(x),
                x,
                y,
            ) ==> self.candidate(x) < self.layers[self.active_layer].len(),
            _ => true,
        }
    }

    /// The layer that the Fn key calls for.
    pub open spec fn called_layer(self, state: KeyState) -> int {
        match state {
            KeyState::Pressed => self.secondary_layer.spec_index() as int,
            KeyState::Released => self.primary_layer.spec_index() as int,
        }
    }

    /// Whether something has to be drawn.
    pub open spec fn redraw_due(self) -> bool {
        self.needs_complete_redraw || any_changed(self.layers[self.active_layer])
    }

    /// The bar after a device was added: the last touch bar added is the digitizer.
    pub open spec fn after_device_added(self, device: u64, name: Seq<char>) -> BarView {
        if occurs_in(" Touch Bar"@, name) {
            BarView { digitizer: Some(device), ..self }
        } else {
            self
        }
    }

    /// The bar after a key event: the Fn key chooses the layer, and a new layer is drawn
    /// completely.
    pub open spec fn after_key(self, key: u32, state: KeyState) -> BarView {
        if key == fn_code() && self.active_layer != self.called_layer(state) {
            BarView {
                active_layer: self.called_layer(state),
                needs_complete_redraw: true,
                ..self
            }
        } else {
            self
        }
    }

    /// The bar after a touch that counts.
    pub open spec fn after_touch(self, touch: TouchEvent) -> BarView {
        match touch {
            TouchEvent::Down { slot, x, y } => {
                let btn = self.candidate(x);
                if self.hits(self.active_layer, btn, x, y) {
                    BarView {
                        touches: self.touches.insert(
                            slot,
                            (self.active_layer as usize, btn as u32),
                        ),
                        ..self
                    }.with_active(self.active_layer, btn, true)
                } else {
                    self
                }
            },
            TouchEvent::Motion { slot, x, y } => {
                if self.touches.contains_key(slot) {
                    let (layer, btn) = self.touches[slot];
                    self.with_active(
                        layer as int,
                        btn as int,
                        self.hits(layer as int, btn as int, x, y),
                    )
                } else {
                    self
                }
            },
            TouchEvent::Up { slot } => {
                if self.touches.contains_key(slot) {
                    let (layer, btn) = self.touches[slot];
                    self.with_active(layer as int, btn as int, false)
                } else {
                    self
                }
            },
            TouchEvent::Other => self,
        }
    }

    /// The events to write for a touch that counts.
    pub open spec fn touch_output(self, touch: TouchEvent) -> Seq<InputEvent> {
        match touch {
            TouchEvent::Down { slot, x, y } => {
                let btn = self.candidate(x);
                if self.hits(self.active_layer, btn, x, y) {
                    self.button(self.active_layer, btn).toggle_events(true)
                } else {
                    seq![]
                }
            },
            TouchEvent::Motion { slot, x, y } => {
                if self.touches.contains_key(slot) {
                    let (layer, btn) = self.touches[slot];
                    self.button(layer as int, btn as int).toggle_events(
                        self.hits(layer as int, btn as int, x, y),
                    )
                } else {
                    seq![]
                }
            },
            TouchEvent::Up { slot } => {
                if self.touches.contains_key(slot) {
                    let (layer, btn) = self.touches[slot];
                    self.button(layer as int, btn as int).toggle_events(false)
                } else {
                    seq![]
                }
            },
            TouchEvent::Other => seq![],
        }
    }

    /// Whether touches of a device count: it is the digitizer and the bar is lit.
    pub open spec fn accepts(self, device: u64, backlight: u32) -> bool {
        self.digitizer == Some(device) && backlight != 0
    }

    /// The bar after an event, given the brightness of its backlight.
    pub open spec fn after(self, event: Event, backlight: u32) -> BarView {
        match event {
            Event::DeviceAdded { device, name } => self.after_device_added(device, name@),
            Event::Key { key, state } => self.after_key(key, state),
            Event::Touch { device, touch } => {
                if self.accepts(device, backlight) {
                    self.after_touch(touch)
                } else {
                    self
                }
            },
            Event::Other => self,
        }
    }

    /// The events to write for an event, given the brightness of the backlight.
    pub open spec fn output(self, event: Event, backlight: u32) -> Seq<InputEvent> {
        match event {
            Event::Touch { device, touch } => {
                if self.accepts(device, backlight) {
                    self.touch_output(touch)
                } else {
                    seq![]
                }
            },
            _ => seq![],
        }
    }

    /// Whether an event can be answered: a touch that counts does not begin past the last button.
    pub open spec fn answerable(self, event: Event, backlight: u32) -> bool {
        event matches Event::Touch { device, touch } ==> self.accepts(device, backlight)
            ==> self.on_bar(touch)
    }

    /// Whether what has to be drawn fits on the bar.
    pub open spec fn drawable(self) -> bool {
        drawable(
            self.layers[self.active_layer],
            self.height,
            self.width,
            self.needs_complete_redraw,
        )
    }

    /// The buttons that are drawn.
    pub open spec fn drawn_buttons(self) -> Seq<ButtonDrawing> {
        drawn_buttons(
            self.layers[self.active_layer],
            self.height,
            self.width,
            self.needs_complete_redraw,
        )
    }

    /// The rectangles that drawing changes.
    pub open spec fn drawn_clips(self) -> Seq<ClipRect> {
        drawn_clips(
            self.layers[self.active_layer],
            self.height,
            self.width,
            self.needs_complete_redraw,
        )
    }

    /// The bar once it has been drawn.
    pub open spec fn after_draw(self) -> BarView {
        BarView {
            layers: self.layers.update(
                self.active_layer,
                all_drawn(self.layers[self.active_layer]),
            ),
            needs_complete_redraw: false,
            ..self
        }
    }
}

impl TouchBar {
    /// The state makes sense.
    pub open spec fn wf(self) -> bool {
        self@.wf()
    }

    /// A bar that shows its primary layer, to be drawn completely, and knows of no finger and no
    /// digitizer.
    pub fn new(
        width: u16,
        height: u16,
        layers: Vec<FunctionLayer>,
        primary_layer: LayerType,
        secondary_layer: LayerType,
    ) -> (bar: TouchBar)
        requires
            layers@.len() == LAYERS,
            forall|l: int| 0 <= l < LAYERS ==> layer_wf((#[trigger] layers@[l])@),
        ensures
            bar.wf(),
            bar.width == width,
            bar.height == height,
            bar.layers == layers,
            bar@.active_layer == primary_layer.spec_index(),
            bar@.needs_complete_redraw,
            bar@.digitizer == None::<u64>,
            bar@.touches == Map::<u32, (usize, u32)>::empty(),
            bar@.primary_layer == primary_layer,
            bar@.secondary_layer == secondary_layer,
    {
        TouchBar {
            width,
            height,
            layers,
            active_layer: primary_layer.index(),
            needs_complete_redraw: true,
            digitizer: None,
            touches: HashMap::new(),
            primary_layer,
            secondary_layer,
        }
    }

    /// Gives a button a state and returns the events to write for it.
    fn set_active(&mut self, layer: usize, btn: usize, active: bool) -> (events: Vec<InputEvent>)
        requires
            old(self)@.has_button(layer as int, btn as int),
        ensures
            final(self)@ == old(self)@.with_active(layer as int, btn as int, active),
            events@ == old(self)@.button(layer as int, btn as int).toggle_events(active),
    {
        let ghost before = *self;
        let events: Vec<InputEvent> = self.layers[layer].buttons[btn].set_active(active);
        proof {
            let shown = before@.layers[layer as int];
            assert(self.layers@[layer as int]@ =~= shown.update(
                btn as int,
                shown[btn as int].with_active(active),
            ));
            assert(self@.layers =~= before@.with_active(layer as int, btn as int, active).layers);
        }
        events
    }

    /// Whether a touch at `(x, y)` hits the place of a button.
    fn is_hit(&self, layer: usize, btn: u32, x: Coord, y: Coord) -> (hit: bool)
        requires
            self.wf(),
            layer < LAYERS,
        ensures
            hit == self@.hits(layer as int, btn as int, x, y),
    {
        let count: u32 = self.count(layer);
        button_hit(count, btn, self.width, self.height, x, y)
    }

    /// The number of buttons of a layer.
    fn count(&self, layer: usize) -> (count: u32)
        requires
            self.wf(),
            layer < LAYERS,
        ensures
            count == self@.layers[layer as int].len(),
            1 <= count < u32::MAX,
    {
        assert(self.layers@[layer as int]@ == self@.layers[layer as int]);
        self.layers[layer].buttons.len() as u32
    }

    /// The button of the layer that is shown which a touch at `x` can hit.
    fn find(&self, x: Coord) -> (btn: u32)
        requires
            self.wf(),
        ensures
            btn == self@.candidate(x),
    {
        button_index(x, self.width, self.count(self.active_layer))
    }

    /// Whether an event can be answered: a touch that counts does not begin past the last button.
    pub fn can_answer(&self, event: &Event, backlight: u32) -> (r: bool)
        requires
            self.wf(),
        ensures
            r == self@.answerable(*event, backlight),
    {
        match event {
            Event::Touch { device, touch: TouchEvent::Down { slot, x, y } } => {
                let btn: u32 = self.find(*x);
                !self.is_accepted(*device, backlight) || btn < self.count(self.active_layer)
                    || !self.is_hit(self.active_layer, btn, *x, *y)
            },
            _ => true,
        }
    }

    /// Whether touches of a device count: it is the digitizer and the bar is lit.
    fn is_accepted(&self, device: u64, backlight: u32) -> (r: bool)
        ensures
            r == self@.accepts(device, backlight),
    {
        let from_digitizer: bool = match self.digitizer {
            Some(digitizer) => digitizer == device,
            None => false,
        };
        from_digitizer && backlight != 0
    }

    /// The layer and the button that the finger in a slot pressed last.
    fn touched(&self, slot: u32) -> (target: Option<(usize, u32)>)
        ensures
            target == if self@.touches.contains_key(slot) {
                Some(self@.touches[slot])
            } else {
                None
            },
    {
        match self.touches.get(&slot) {
            Some(target) => Some(*target),
            None => None,
        }
    }

    /// Takes note of a device.
    pub fn device_added(&mut self, device: u64, name: &str)
        ensures
            final(self)@ == old(self)@.after_device_added(device, name@),
    {
        if is_touch_bar(name) {
            self.digitizer = Some(device);
        }
    }

    /// Answers a key of a keyboard.
    pub fn key_event(&mut self, key: u32, state: KeyState)
        ensures
            final(self)@ == old(self)@.after_key(key, state),
            key == 464 && state is Pressed ==> final(self).active_layer == if old(
                self,
            ).secondary_layer is Function {
                0usize
            } else {
                1usize
            },
            key == 464 && state is Released ==> final(self).active_layer == if old(
                self,
            ).primary_layer is Function {
                0usize
            } else {
                1usize
            },
            key != 464 ==> final(self).active_layer == old(self).active_layer,
    {
        if is_fn_key(key) {
            let new_layer: usize = match state {
                KeyState::Pressed => self.secondary_layer.index(),
                KeyState::Released => self.primary_layer.index(),
            };
            if self.active_layer != new_layer {
                self.active_layer = new_layer;
                self.needs_complete_redraw = true;
            }
        }
    }

    /// Answers a finger on the digitizer with the events to write.
    pub fn touch_event(&mut self, touch: TouchEvent) -> (events: Vec<InputEvent>)
        requires
            old(self).wf(),
            old(self)@.on_bar(touch),
        ensures
            final(self).wf(),
            final(self)@ == old(self)@.after_touch(touch),
            events@ == old(self)@.touch_output(touch),
    {
        match touch {
            TouchEvent::Down { slot, x, y } => {
                let layer: usize = self.active_layer;
                let btn: u32 = self.find(x);
                if self.is_hit(layer, btn, x, y) {
                    self.touches.insert(slot, (layer, btn));
                    self.set_active(layer, btn as usize, true)
                } else {
                    Vec::new()
                }
            },
            TouchEvent::Motion { slot, x, y } => {
                match self.touched(slot) {
                    Some((layer, btn)) => {
                        let hit: bool = self.is_hit(layer, btn, x, y);
                        self.set_active(layer, btn as usize, hit)
                    },
                    None => Vec::new(),
                }
            },
            TouchEvent::Up { slot } => {
                match self.touched(slot) {
                    Some((layer, btn)) => self.set_active(layer, btn as usize, false),
                    None => Vec::new(),
                }
            },
            TouchEvent::Other => Vec::new(),
        }
    }

    /// Answers an event with the events to write, given the brightness of the backlight.
    pub fn handle_event(&mut self, event: Event, backlight: u32) -> (events: Vec<InputEvent>)
        requires
            old(self).wf(),
            old(self)@.answerable(event, backlight),
        ensures
            final(self).wf(),
            final(self)@ == old(self)@.after(event, backlight),
            events@ == old(self)@.output(event, backlight),
    {
        match event {
            Event::DeviceAdded { device, name } => {
                self.device_added(device, name.as_str());
                Vec::new()
            },
            Event::Key { key, state } => {
                self.key_event(key, state);
                Vec::new()
            },
            Event::Touch { device, touch } => {
                if self.is_accepted(device, backlight) {
                    self.touch_event(touch)
                } else {
                    Vec::new()
                }
            },
            Event::Other => Vec::new(),
        }
    }

    /// Whether something has to be drawn.
    pub fn needs_redraw(&self) -> (r: bool)
        requires
            self.wf(),
        ensures
            r == self@.redraw_due(),
    {
        assert(self.layers@[self.active_layer as int]@ == self@.layers[self@.active_layer]);
        self.needs_complete_redraw || self.layers[self.active_layer].is_changed()
    }

    /// Whether what has to be drawn fits on the bar.
    pub fn can_draw(&self) -> (r: bool)
        requires
            self.wf(),
        ensures
            r == self@.drawable(),
    {
        assert(self.layers@[self.active_layer as int]@ == self@.layers[self@.active_layer]);
        self.layers[self.active_layer].can_draw(
            self.height,
            self.width,
            self.needs_complete_redraw,
        )
    }

    /// Draws the layer that is shown: all of it if that is needed, and otherwise the buttons that
    /// changed.
    pub fn draw(&mut self) -> (drawing: Drawing)
        requires
            old(self).wf(),
            old(self)@.drawable(),
        ensures
            final(self).wf(),
            final(self)@ == old(self)@.after_draw(),
            drawing.clear == old(self)@.needs_complete_redraw,
            drawing.buttons@ == old(self)@.drawn_buttons(),
            drawing.clips@ == old(self)@.drawn_clips(),
    {
        let ghost before = *self;
        let shown: usize = self.active_layer;
        let complete: bool = self.needs_complete_redraw;
        let (height, width): (u16, u16) = (self.height, self.width);
        assert(before.layers@[shown as int]@ == before@.layers[shown as int]);
        let drawing: Drawing = self.layers[shown].draw(height, width, complete);
        self.needs_complete_redraw = false;
        assert(self@.layers =~= before@.after_draw().layers);
        drawing
    }

    /// The keys that the buttons press, layer by layer.
    pub fn keys(&self) -> (keys: Vec<Key>)
        requires
            self.wf(),
        ensures
            keys@ == actions(self@.layers[0]) + actions(self@.layers[1]),
    {
        let mut keys: Vec<Key> = Vec::new();
        push_actions(&mut keys, &self.layers[0].buttons);
        push_actions(&mut keys, &self.layers[1].buttons);
        assert(self.layers@[0]@ == self@.layers[0] && self.layers@[1]@ == self@.layers[1]);
        keys
    }
}

/// The keys that buttons press.
pub open spec fn actions(buttons: Seq<ButtonView>) -> Seq<Key> {
    buttons.map_values(|b: ButtonView| b.action)
}

/// Appends the keys that buttons press.
fn push_actions(keys: &mut Vec<Key>, buttons: &Vec<Button>)
    ensures
        final(keys)@ == old(keys)@ + actions(views(buttons@)),
{
    let ghost before = keys@;
    let mut i: usize = 0;
    while i < buttons.len()
        invariant
            i <= buttons@.len(),
            keys@ =~= before + actions(views(buttons@)).take(i as int),
        decreases buttons@.len() - i,
    {
        keys.push(buttons[i].action);
        i = i + 1;
    }
    assert(actions(views(buttons@)).take(buttons@.len() as int) =~= actions(views(buttons@)));
}

} // verus!
