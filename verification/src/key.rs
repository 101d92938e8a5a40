//! The keys that the buttons of the bar stand for, and their codes.

use input_linux::Key as LinuxKey;
use vstd::prelude::*;

verus! {

/// A key of the classic function row.
#[derive(Clone, Copy, Debug, PartialEq, Eq, Structural)]
pub enum FunctionKey {
    Esc,
    F1,
    F2,
    F3,
    F4,
    F5,
    F6,
    F7,
    F8,
    F9,
    F10,
    F11,
    F12,
}

/// A key that controls the machine: screen, keyboard light, sound and playback.
#[derive(Clone, Copy, Debug, PartialEq, Eq, Structural)]
pub enum SpecialKey {
    BrightnessDown,
    BrightnessUp,
    MicMute,
    Search,
    IllumDown,
    IllumUp,
    PreviousSong,
    PlayPause,
    NextSong,
    Mute,
    VolumeDown,
    VolumeUp,
}

/// A key that a button can press.
#[derive(Clone, Copy, Debug, PartialEq, Eq, Structural)]
pub enum Key {
    Function(FunctionKey),
    Special(SpecialKey),
}

impl FunctionKey {
    /// The code of the key in the kernel's input event interface.
    pub open spec fn code(self) -> u16 {
        match self {
            FunctionKey::Esc => 1,
            FunctionKey::F1 => 59,
            FunctionKey::F2 => 60,
            FunctionKey::F3 => 61,
            FunctionKey::F4 => 62,
            FunctionKey::F5 => 63,
            FunctionKey::F6 => 64,
            FunctionKey::F7 => 65,
            FunctionKey::F8 => 66,
            FunctionKey::F9 => 67,
            FunctionKey::F10 => 68,
            FunctionKey::F11 => 87,
            FunctionKey::F12 => 88,
        }
    }
}

impl SpecialKey {
    /// The code of the key in the kernel's input event interface.
    pub open spec fn code(self) -> u16 {
        match self {
            SpecialKey::BrightnessDown => 224,
            SpecialKey::BrightnessUp => 225,
            SpecialKey::MicMute => 248,
            SpecialKey::Search => 217,
            SpecialKey::IllumDown => 229,
            SpecialKey::IllumUp => 230,
            SpecialKey::PreviousSong => 165,
            SpecialKey::PlayPause => 164,
            SpecialKey::NextSong => 163,
            SpecialKey::Mute => 113,
            SpecialKey::VolumeDown => 114,
            SpecialKey::VolumeUp => 115,
        }
    }
}

/// The code of the Fn key in the kernel's input event interface.
pub open spec fn fn_code() -> u32 {
    464
}

/// `u16::from` of `input_linux::Key`: the code that the enum gives to each key of the function
/// row.
#[verifier::external_body]
fn function_key_code(key: FunctionKey) -> (code: u16)
    ensures
        code == key.code(),
{
    u16::from(match key {
        FunctionKey::Esc => LinuxKey::Esc,
        FunctionKey::F1 => LinuxKey::F1,
        FunctionKey::F2 => LinuxKey::F2,
        FunctionKey::F3 => LinuxKey::F3,
        FunctionKey::F4 => LinuxKey::F4,
        FunctionKey::F5 => LinuxKey::F5,
        FunctionKey::F6 => LinuxKey::F6,
        FunctionKey::F7 => LinuxKey::F7,
        FunctionKey::F8 => LinuxKey::F8,
        FunctionKey::F9 => LinuxKey::F9,
        FunctionKey::F10 => LinuxKey::F10,
        FunctionKey::F11 => LinuxKey::F11,
        FunctionKey::F12 => LinuxKey::F12,
    })
}

/// `u16::from` of `input_linux::Key`: the code that the enum gives to each special key.
#[verifier::external_body]
fn special_key_code(key: SpecialKey) -> (code: u16)
    ensures
        code == key.code(),
{
    u16::from(match key {
        SpecialKey::BrightnessDown => LinuxKey::BrightnessDown,
        SpecialKey::BrightnessUp => LinuxKey::BrightnessUp,
        SpecialKey::MicMute => LinuxKey::MicMute,
        SpecialKey::Search => LinuxKey::Search,
        SpecialKey::IllumDown => LinuxKey::IllumDown,
        SpecialKey::IllumUp => LinuxKey::IllumUp,
        SpecialKey::PreviousSong => LinuxKey::PreviousSong,
        SpecialKey::PlayPause => LinuxKey::PlayPause,
        SpecialKey::NextSong => LinuxKey::NextSong,
        SpecialKey::Mute => LinuxKey::Mute,
        SpecialKey::VolumeDown => LinuxKey::VolumeDown,
        SpecialKey::VolumeUp => LinuxKey::VolumeUp,
    })
}

/// `input_linux::Key::Fn`, cast to the number that keyboards report: 464.
#[verifier::external_body]
fn fn_key_code() -> (code: u32)
    ensures
        code == fn_code(),
{
    LinuxKey::Fn as u32
}

impl Key {
    /// The code of the key in the kernel's input event interface.
    pub open spec fn spec_code(self) -> u16 {
        match self {
            Key::Function(key) => key.code(),
            Key::Special(key) => key.code(),
        }
    }

    /// The code of the key in the kernel's input event interface.
    pub fn code(self) -> (code: u16)
        ensures
            code == self.spec_code(),
    {
        match self {
            Key::Function(key) => function_key_code(key),
            Key::Special(key) => special_key_code(key),
        }
    }
}

/// Whether a key code that a keyboard reports is that of the Fn key.
pub fn is_fn_key(code: u32) -> (r: bool)
    ensures
        r == (code == fn_code()),
{
    code == fn_key_code()
}

/// Different keys have different codes.
pub proof fn law_codes_are_distinct(a: Key, b: Key)
    ensures
        a.spec_code() == b.spec_code() ==> a == b,
{
}

/// No button presses the Fn key.
pub proof fn law_no_button_key_is_fn(key: Key)
    ensures
        key.spec_code() != fn_code(),
{
}

} // verus!
