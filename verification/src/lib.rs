//! The decisions of a daemon that turns a touch bar into a row of function keys.
//!
//! The bar shows one of two layers of buttons. A finger on a button presses the key that the
//! button stands for, on a virtual keyboard; holding the Fn key shows the other layer. This
//! library holds the state of the bar and answers every input event with the key events to write
//! and every redraw with the list of what to paint and which pixels to copy. It neither reads
//! devices nor paints: the program around it does.

pub mod accuracy;
pub mod behaviour;
pub mod button;
pub mod config;
pub mod coord;
pub mod device;
pub mod double;
pub mod drawing;
pub mod framebuffer;
pub mod geometry;
pub mod history;
pub mod icon;
pub mod key;
pub mod layer;
pub mod layout;
pub mod measure;
pub mod picture;
pub mod rounding;
pub mod shift;
pub mod touch_bar;
pub mod uinput;
