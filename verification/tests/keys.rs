use tiny_dfr::button::{Button, ButtonImage};
use tiny_dfr::key::{is_fn_key, FunctionKey, Key, SpecialKey};
use tiny_dfr::uinput::{emit, toggle_key, EventKind, InputEvent};

const FUNCTION_KEYS: [(FunctionKey, u16); 13] = [
    (FunctionKey::Esc, 1),
    (FunctionKey::F1, 59),
    (FunctionKey::F2, 60),
    (FunctionKey::F3, 61),
    (FunctionKey::F4, 62),
    (FunctionKey::F5, 63),
    (FunctionKey::F6, 64),
    (FunctionKey::F7, 65),
    (FunctionKey::F8, 66),
    (FunctionKey::F9, 67),
    (FunctionKey::F10, 68),
    (FunctionKey::F11, 87),
    (FunctionKey::F12, 88),
];

const SPECIAL_KEYS: [(SpecialKey, u16); 12] = [
    (SpecialKey::BrightnessDown, 224),
    (SpecialKey::BrightnessUp, 225),
    (SpecialKey::MicMute, 248),
    (SpecialKey::Search, 217),
    (SpecialKey::IllumDown, 229),
    (SpecialKey::IllumUp, 230),
    (SpecialKey::PreviousSong, 165),
    (SpecialKey::PlayPause, 164),
    (SpecialKey::NextSong, 163),
    (SpecialKey::Mute, 113),
    (SpecialKey::VolumeDown, 114),
    (SpecialKey::VolumeUp, 115),
];

fn event(type_: u16, code: u16, value: i32) -> InputEvent {
    InputEvent { tv_sec: 0, tv_usec: 0, type_, code, value }
}

#[test]
fn function_keys_have_the_codes_of_the_kernel() {
    for (key, code) in FUNCTION_KEYS {
        assert_eq!(Key::Function(key).code(), code, "{key:?}");
    }
}

#[test]
fn special_keys_have_the_codes_of_the_kernel() {
    for (key, code) in SPECIAL_KEYS {
        assert_eq!(Key::Special(key).code(), code, "{key:?}");
    }
}

#[test]
fn no_two_keys_share_a_code() {
    let mut codes: Vec<u16> = FUNCTION_KEYS.iter().map(|(k, _)| Key::Function(*k).code()).collect();
    codes.extend(SPECIAL_KEYS.iter().map(|(k, _)| Key::Special(*k).code()));
    codes.sort();
    codes.dedup();
    assert_eq!(codes.len(), 25);
    assert!(!codes.contains(&464));
}

#[test]
fn only_one_code_is_that_of_the_fn_key() {
    assert!(is_fn_key(464));
    assert!(!is_fn_key(463));
    assert!(!is_fn_key(465));
    assert!(!is_fn_key(0));
    assert!(!is_fn_key(464 + 65536));
    assert!(!is_fn_key(u32::MAX));
}

#[test]
fn emitted_events_have_no_time_stamp() {
    assert_eq!(emit(EventKind::Key, 59, 1), event(1, 59, 1));
    assert_eq!(emit(EventKind::Key, 113, -3), event(1, 113, -3));
    assert_eq!(emit(EventKind::Synchronize, 0, 0), event(0, 0, 0));
    assert_eq!(emit(EventKind::Synchronize, 7, 9), event(0, 7, 9));
}

#[test]
fn a_toggled_key_is_followed_by_a_report() {
    assert_eq!(
        toggle_key(Key::Special(SpecialKey::Mute), 1),
        vec![event(1, 113, 1), event(0, 0, 0)]
    );
    assert_eq!(
        toggle_key(Key::Function(FunctionKey::F12), 0),
        vec![event(1, 88, 0), event(0, 0, 0)]
    );
}

#[test]
fn new_buttons_are_idle() {
    let button = Button::new_text("F5", Key::Function(FunctionKey::F5));
    assert!(matches!(button.image, ButtonImage::Text("F5")));
    assert!(!button.active && !button.changed);
    assert_eq!(button.action, Key::Function(FunctionKey::F5));
    let button = Button::new_icon("system-search-symbolic", Key::Special(SpecialKey::Search));
    assert!(matches!(button.image, ButtonImage::Svg("system-search-symbolic")));
    assert!(!button.active && !button.changed);
    assert_eq!(button.action, Key::Special(SpecialKey::Search));
}

#[test]
fn a_button_presses_and_releases_its_key_once() {
    let mut button = Button::new_text("esc", Key::Function(FunctionKey::Esc));
    assert_eq!(button.set_active(false), vec![]);
    assert!(!button.active && !button.changed);
    assert_eq!(button.set_active(true), vec![event(1, 1, 1), event(0, 0, 0)]);
    assert!(button.active && button.changed);
    assert_eq!(button.set_active(true), vec![]);
    assert!(button.active && button.changed);
    button.changed = false;
    assert_eq!(button.set_active(true), vec![]);
    assert!(button.active && !button.changed);
    assert_eq!(button.set_active(false), vec![event(1, 1, 0), event(0, 0, 0)]);
    assert!(!button.active && button.changed);
    assert_eq!(button.set_active(false), vec![]);
    assert!(!button.active && button.changed);
}
