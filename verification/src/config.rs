//! What the user configures.

use vstd::prelude::*;

verus! {

/// The path of the configuration file.
pub const CONFIG_PATH: &'static str = "/etc/tiny-dfr.conf";

/// A layer of buttons.
#[derive(Clone, Copy, Debug, PartialEq, Eq, Structural)]
pub enum LayerType {
    Function,
    Special,
}

/// The appearance of the bar.
#[derive(Debug)]
pub struct UiConfig {
    /// The layer shown while the Fn key is up.
    pub primary_layer: LayerType,
    /// The layer shown while the Fn key is down.
    pub secondary_layer: LayerType,
    /// The name of the icon theme.
    pub icon_theme: String,
}

/// The configuration file.
#[derive(Debug)]
pub struct Config {
    pub ui: UiConfig,
}

impl LayerType {
    /// The place of the layer among the layers of the bar.
    pub open spec fn spec_index(self) -> usize {
        match self {
            LayerType::Function => 0,
            LayerType::Special => 1,
        }
    }

    /// The place of the layer among the layers of the bar.
    pub fn index(self) -> (i: usize)
        ensures
            i == self.spec_index(),
    {
        match self {
            LayerType::Function => 0,
            LayerType::Special => 1,
        }
    }
}

} // verus!
