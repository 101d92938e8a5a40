//! One button of the bar.

use vstd::prelude::*;

use crate::key::Key;
use crate::uinput::{key_toggle, toggle_key, InputEvent};

verus! {

/// What a button shows.
#[derive(Clone, Copy, Debug)]
pub enum ButtonImage {
    /// A label.
    Text(&'static str),
    /// A vector icon, by its name in the icon theme.
    Svg(&'static str),
}

/// A button and its state.
#[derive(Clone, Copy, Debug)]
pub struct Button {
    pub image: ButtonImage,
    /// Whether the button looks different from when it was last drawn.
    pub changed: bool,
    /// Whether a finger is on the button.
    pub active: bool,
    /// The key that the button presses.
    pub action: Key,
}

/// What a button shows, as characters.
pub enum ImageView {
    Text(Seq<char>),
    Svg(Seq<char>),
}

/// A button, with characters for its image.
pub struct ButtonView {
    pub image: ImageView,
    pub changed: bool,
    pub active: bool,
    pub action: Key,
}

impl View for ButtonImage {
    type V = ImageView;

    open spec fn view(&self) -> ImageView {
        match self {
            ButtonImage::Text(text) => ImageView::Text(text@),
            ButtonImage::Svg(name) => ImageView::Svg(name@),
        }
    }
}

impl View for Button {
    type V = ButtonView;

    open spec fn view(&self) -> ButtonView {
        ButtonView {
            image: self.image@,
            changed: self.changed,
            active: self.active,
            action: self.action,
        }
    }
}

/// The value of a key event: 1 presses the key, 0 releases it.
pub open spec fn key_value(active: bool) -> i32 {
    if active {
        1
    } else {
        0
    }
}

impl ButtonView {
    /// A button that has not been touched.
    pub open spec fn idle(image: ImageView, action: Key) -> ButtonView {
        ButtonView { image, changed: false, active: false, action }
    }

    /// The button once it has been given a state.
    pub open spec fn with_active(self, active: bool) -> ButtonView {
        if self.active == active {
            self
        } else {
            ButtonView { active, changed: true, ..self }
        }
    }

    /// The events to write when the button is given a state: those of its key if the state is new
    /// and none otherwise.
    pub open spec fn toggle_events(self, active: bool) -> Seq<InputEvent> {
        if self.active == active {
            seq![]
        } else {
            key_toggle(self.action, key_value(active))
        }
    }

    /// The button once it has been drawn.
    pub open spec fn drawn(self) -> ButtonView {
        ButtonView { changed: false, ..self }
    }
}

impl Button {
    /// A button with a label.
    pub fn new_text(text: &'static str, action: Key) -> (button: Button)
        ensures
            button@ == ButtonView::idle(ImageView::Text(text@), action),
    {
        Button { action, active: false, changed: false, image: ButtonImage::Text(text) }
    }

    /// A button with an icon of the theme.
    pub fn new_icon(icon_name: &'static str, action: Key) -> (button: Button)
        ensures
            button@ == ButtonView::idle(ImageView::Svg(icon_name@), action),
    {
        Button { action, active: false, changed: false, image: ButtonImage::Svg(icon_name) }
    }

    /// Gives the button a state and returns the events to write for it.
    pub fn set_active(&mut self, active: bool) -> (events: Vec<InputEvent>)
        ensures
            final(self)@ == old(self)@.with_active(active),
            events@ == old(self)@.toggle_events(active),
            final(self).active == active,
            final(self).changed == (old(self).changed || old(self).active != active),
            final(self).action == old(self).action,
            final(self).image == old(self).image,
    {
        if self.active != active {
            self.active = active;
            self.changed = true;
            let value: i32 = if active {
                1
            } else {
                0
            };
            toggle_key(self.action, value)
        } else {
            Vec::new()
        }
    }
}

/// Giving a button the state that it has writes nothing and changes nothing.
pub proof fn law_repeated_state_is_silent(button: ButtonView, active: bool)
    ensures
        button.with_active(active).with_active(active) == button.with_active(active),
        button.with_active(active).toggle_events(active) == Seq::<InputEvent>::empty(),
{
}

/// Pressing and releasing an untouched button presses and releases its key, once each and in this
/// order, and leaves the button as it was but for a redraw.
pub proof fn law_press_then_release(button: ButtonView)
    requires
        !button.active,
    ensures
        button.with_active(true).with_active(false) == (ButtonView { changed: true, ..button }),
        button.toggle_events(true) + button.with_active(true).toggle_events(false) == key_toggle(
            button.action,
            1,
        ) + key_toggle(button.action, 0),
{
}

} // verus!
