use tiny_dfr::config::LayerType;
use tiny_dfr::coord::Coord;
use tiny_dfr::framebuffer::check_clip;
use tiny_dfr::geometry::{button_hit, button_index, full_clip, ClipRect};
use tiny_dfr::layer::{layer_buttons, FunctionLayer};
use tiny_dfr::touch_bar::{Event, KeyState, TouchBar, TouchEvent};
use tiny_dfr::uinput::InputEvent;

const WIDTH: u16 = 2170;
const HEIGHT: u16 = 60;
const DIGITIZER: u64 = 7;
const FN: u32 = 464;
const LIT: u32 = 1;

fn at(x: f64) -> Coord {
    Coord { bits: x.to_bits() }
}

fn bar_of_width(width: u16) -> TouchBar {
    let layers =
        layer_buttons(width).into_iter().map(|buttons| FunctionLayer { buttons }).collect();
    TouchBar::new(width, HEIGHT, layers, LayerType::Function, LayerType::Special)
}

/// A bar with a digitizer that has been drawn once.
fn bar() -> TouchBar {
    let mut bar = bar_of_width(WIDTH);
    bar.device_added(DIGITIZER, "Some Touch Bar");
    bar.draw();
    bar
}

fn down(slot: u32, x: f64, y: f64) -> Event {
    Event::Touch { device: DIGITIZER, touch: TouchEvent::Down { slot, x: at(x), y: at(y) } }
}

fn motion(slot: u32, x: f64, y: f64) -> Event {
    Event::Touch { device: DIGITIZER, touch: TouchEvent::Motion { slot, x: at(x), y: at(y) } }
}

fn up(slot: u32) -> Event {
    Event::Touch { device: DIGITIZER, touch: TouchEvent::Up { slot } }
}

fn fn_key(state: KeyState) -> Event {
    Event::Key { key: FN, state }
}

/// The middle of a button of thirteen on a bar of the full width.
fn middle(btn: u32) -> f64 {
    btn as f64 * (155.0 + 155.0 / 12.0) + 77.5
}

fn toggle(code: u16, value: i32) -> Vec<InputEvent> {
    vec![
        InputEvent { tv_sec: 0, tv_usec: 0, type_: 1, code, value },
        InputEvent { tv_sec: 0, tv_usec: 0, type_: 0, code: 0, value: 0 },
    ]
}

fn answer(bar: &mut TouchBar, event: Event) -> Vec<InputEvent> {
    assert!(bar.can_answer(&event, LIT));
    bar.handle_event(event, LIT)
}

#[test]
fn a_new_bar_shows_its_primary_layer() {
    let bar = bar_of_width(WIDTH);
    assert_eq!(bar.active_layer, 0);
    assert!(bar.needs_complete_redraw && bar.needs_redraw());
    assert_eq!(bar.digitizer, None);
    assert!(bar.touches.is_empty());
    let layers = layer_buttons(WIDTH).into_iter().map(|buttons| FunctionLayer { buttons });
    let bar =
        TouchBar::new(WIDTH, HEIGHT, layers.collect(), LayerType::Special, LayerType::Function);
    assert_eq!(bar.active_layer, 1);
    assert_eq!((bar.width, bar.height), (WIDTH, HEIGHT));
}

#[test]
fn the_last_touch_bar_is_the_digitizer() {
    let mut bar = bar_of_width(WIDTH);
    let added = |device, name: &str| Event::DeviceAdded { device, name: name.to_string() };
    assert_eq!(answer(&mut bar, added(3, "Keyboard")), vec![]);
    assert_eq!(bar.digitizer, None);
    assert_eq!(answer(&mut bar, added(4, "Apple Touch Bar")), vec![]);
    assert_eq!(bar.digitizer, Some(4));
    answer(&mut bar, added(5, "Mouse"));
    assert_eq!(bar.digitizer, Some(4));
    answer(&mut bar, added(6, "Another Touch Bar"));
    assert_eq!(bar.digitizer, Some(6));
}

#[test]
fn a_touch_presses_and_releases_a_key() {
    let mut bar = bar();
    assert_eq!(answer(&mut bar, down(0, middle(0), 30.0)), toggle(1, 1));
    assert!(bar.needs_redraw());
    assert_eq!(answer(&mut bar, up(0)), toggle(1, 0));
    assert_eq!(answer(&mut bar, up(0)), vec![]);
    assert_eq!(answer(&mut bar, down(0, middle(12), 30.0)), toggle(88, 1));
    assert_eq!(answer(&mut bar, up(0)), toggle(88, 0));
}

#[test]
fn every_button_is_found() {
    let codes = [
        [1, 59, 60, 61, 62, 63, 64, 65, 66, 67, 68, 87, 88],
        [1, 224, 225, 248, 217, 229, 230, 165, 164, 163, 113, 114, 115],
    ];
    let mut bar = bar();
    for state in [KeyState::Released, KeyState::Pressed] {
        answer(&mut bar, fn_key(state));
        for btn in 0..13 {
            let code = codes[bar.active_layer][btn as usize];
            assert_eq!(answer(&mut bar, down(btn, middle(btn), 30.0)), toggle(code, 1));
            assert_eq!(answer(&mut bar, up(btn)), toggle(code, 0));
        }
    }
}

#[test]
fn touches_beside_the_buttons_do_nothing() {
    let mut bar = bar();
    for (x, y) in [(160.0, 30.0), (77.5, 5.0), (77.5, 5.3), (77.5, 54.6), (77.5, 58.0), (-1.0, 30.0)] {
        assert_eq!(answer(&mut bar, down(0, x, y)), vec![], "{x} {y}");
        assert_eq!(answer(&mut bar, motion(0, middle(0), 30.0)), vec![]);
        assert_eq!(answer(&mut bar, up(0)), vec![]);
    }
    assert!(bar.touches.is_empty());
    assert!(!bar.needs_redraw());
}

#[test]
fn touches_of_other_devices_are_ignored() {
    let mut bar = bar();
    let touch = TouchEvent::Down { slot: 0, x: at(middle(3)), y: at(30.0) };
    assert_eq!(answer(&mut bar, Event::Touch { device: 8, touch }), vec![]);
    assert!(bar.touches.is_empty() && !bar.needs_redraw());
    bar.digitizer = None;
    assert_eq!(answer(&mut bar, down(0, middle(3), 30.0)), vec![]);
    assert!(bar.touches.is_empty());
}

#[test]
fn a_dark_bar_ignores_touches() {
    let mut bar = bar();
    assert_eq!(bar.handle_event(down(0, middle(3), 30.0), 0), vec![]);
    assert!(bar.touches.is_empty());
    answer(&mut bar, down(0, middle(3), 30.0));
    assert_eq!(bar.handle_event(motion(0, 0.0, 0.0), 0), vec![]);
    assert_eq!(bar.handle_event(up(0), 0), vec![]);
    assert!(bar.layers[0].buttons[3].active);
    assert_eq!(bar.handle_event(up(0), u32::MAX), toggle(61, 0));
}

#[test]
fn sliding_off_a_button_releases_its_key() {
    let mut bar = bar();
    assert_eq!(answer(&mut bar, down(2, middle(5), 30.0)), toggle(63, 1));
    assert_eq!(answer(&mut bar, motion(2, middle(5) + 10.0, 31.0)), vec![]);
    assert_eq!(answer(&mut bar, motion(2, middle(6), 30.0)), toggle(63, 0));
    assert_eq!(answer(&mut bar, motion(2, middle(7), 30.0)), vec![]);
    assert_eq!(answer(&mut bar, motion(2, middle(5), 30.0)), toggle(63, 1));
    assert_eq!(answer(&mut bar, motion(2, middle(5), 59.0)), toggle(63, 0));
    assert_eq!(answer(&mut bar, up(2)), vec![]);
}

#[test]
fn a_finger_that_left_is_still_remembered() {
    let mut bar = bar();
    answer(&mut bar, down(2, middle(5), 30.0));
    answer(&mut bar, up(2));
    assert_eq!(bar.touches.get(&2), Some(&(0, 5)));
    assert_eq!(answer(&mut bar, motion(2, middle(5), 30.0)), toggle(63, 1));
    assert_eq!(answer(&mut bar, up(2)), toggle(63, 0));
}

#[test]
fn other_touch_events_do_nothing() {
    let mut bar = bar();
    answer(&mut bar, down(0, middle(1), 30.0));
    let other = Event::Touch { device: DIGITIZER, touch: TouchEvent::Other };
    assert_eq!(answer(&mut bar, other), vec![]);
    assert_eq!(answer(&mut bar, Event::Other), vec![]);
    assert!(bar.layers[0].buttons[1].active);
}

#[test]
fn fingers_press_buttons_of_their_own() {
    let mut bar = bar();
    assert_eq!(answer(&mut bar, down(0, middle(1), 30.0)), toggle(59, 1));
    assert_eq!(answer(&mut bar, down(1, middle(2), 30.0)), toggle(60, 1));
    assert_eq!(answer(&mut bar, up(0)), toggle(59, 0));
    assert_eq!(answer(&mut bar, motion(1, middle(1), 30.0)), toggle(60, 0));
    assert_eq!(answer(&mut bar, up(1)), vec![]);
}

#[test]
fn two_fingers_on_one_button_press_it_once() {
    let mut bar = bar();
    assert_eq!(answer(&mut bar, down(0, middle(1), 30.0)), toggle(59, 1));
    assert_eq!(answer(&mut bar, down(1, middle(1), 30.0)), vec![]);
    assert_eq!(answer(&mut bar, up(0)), toggle(59, 0));
    assert_eq!(answer(&mut bar, up(1)), vec![]);
}

#[test]
fn the_fn_key_shows_the_other_layer() {
    let mut bar = bar();
    assert_eq!(answer(&mut bar, fn_key(KeyState::Pressed)), vec![]);
    assert_eq!(bar.active_layer, 1);
    assert!(bar.needs_complete_redraw);
    bar.draw();
    assert_eq!(answer(&mut bar, fn_key(KeyState::Pressed)), vec![]);
    assert!(!bar.needs_complete_redraw);
    assert_eq!(answer(&mut bar, fn_key(KeyState::Released)), vec![]);
    assert_eq!(bar.active_layer, 0);
    assert!(bar.needs_complete_redraw);
}

#[test]
fn other_keys_do_nothing() {
    let mut bar = bar();
    for key in [0, 1, 463, 465, u32::MAX] {
        answer(&mut bar, Event::Key { key, state: KeyState::Pressed });
        assert_eq!(bar.active_layer, 0);
        assert!(!bar.needs_redraw());
    }
}

#[test]
fn a_finger_releases_the_key_that_it_pressed() {
    let mut bar = bar();
    assert_eq!(answer(&mut bar, down(0, middle(10), 30.0)), toggle(68, 1));
    answer(&mut bar, fn_key(KeyState::Pressed));
    bar.draw();
    assert_eq!(answer(&mut bar, motion(0, middle(10), 30.0)), vec![]);
    assert_eq!(answer(&mut bar, up(0)), toggle(68, 0));
    assert!(!bar.needs_redraw());
    assert_eq!(answer(&mut bar, down(0, middle(10), 30.0)), toggle(113, 1));
    assert_eq!(answer(&mut bar, up(0)), toggle(113, 0));
}

#[test]
fn presses_and_releases_balance() {
    let mut bar = bar();
    let mut pressed = [0i32; 512];
    let mut seed = 1u32;
    for step in 0..4000 {
        seed = seed.wrapping_mul(1664525).wrapping_add(1013904223);
        let slot = (seed >> 8) % 3;
        let x = ((seed >> 10) % 2170) as f64;
        let y = ((seed >> 22) % 60) as f64;
        let event = match (seed >> 28) % 8 {
            0 | 1 => down(slot, x, y),
            2 | 3 | 4 => motion(slot, x, y),
            5 => up(slot),
            6 => fn_key(KeyState::Pressed),
            _ => fn_key(KeyState::Released),
        };
        let written = answer(&mut bar, event);
        assert!(written.len() % 2 == 0);
        for pair in written.chunks(2) {
            assert_eq!((pair[0].type_, pair[1].type_, pair[1].code, pair[1].value), (1, 0, 0, 0));
            pressed[pair[0].code as usize] += if pair[0].value == 1 { 1 } else { -1 };
        }
        for layer in 0..2 {
            for button in &bar.layers[layer].buttons {
                let code = button.action.code();
                if code != 1 {
                    assert_eq!(pressed[code as usize], button.active as i32, "{step} {code}");
                }
            }
        }
        if step % 5 == 0 && bar.needs_redraw() {
            bar.draw();
            assert!(!bar.needs_redraw());
        }
    }
}

#[test]
fn drawing_refreshes_what_changed() {
    let mut bar = bar_of_width(WIDTH);
    assert!(bar.can_draw());
    let drawing = bar.draw();
    assert!(drawing.clear);
    assert_eq!(drawing.clips, vec![full_clip(HEIGHT, WIDTH)]);
    assert_eq!(drawing.buttons.len(), 13);
    assert!(!bar.needs_redraw());
    bar.device_added(DIGITIZER, "Some Touch Bar");
    answer(&mut bar, down(0, middle(12), 30.0));
    assert!(bar.needs_redraw() && bar.can_draw());
    let drawing = bar.draw();
    assert!(!drawing.clear);
    assert_eq!(drawing.buttons.len(), 1);
    assert_eq!(drawing.buttons[0].index, 12);
    assert!(drawing.buttons[0].active && drawing.buttons[0].erase);
    assert_eq!(drawing.clips, vec![ClipRect { x1: 1, y1: 2015, x2: 59, y2: 2170 }]);
    assert!(drawing.clips.iter().all(|c| check_clip(*c, 256, 4, 256 * 2170)));
    assert!(!bar.needs_redraw());
}

#[test]
fn a_hidden_button_is_not_drawn() {
    let mut bar = bar();
    answer(&mut bar, down(0, middle(4), 30.0));
    answer(&mut bar, fn_key(KeyState::Pressed));
    let drawing = bar.draw();
    assert!(drawing.buttons.iter().all(|b| !b.active));
    assert!(!bar.needs_redraw());
    assert!(bar.layers[0].buttons[4].changed);
    answer(&mut bar, fn_key(KeyState::Released));
    assert!(bar.draw().buttons[4].active);
}

#[test]
fn the_keyboard_has_the_keys_of_both_layers() {
    let codes: Vec<u16> = bar().keys().iter().map(|k| k.code()).collect();
    assert_eq!(
        codes,
        vec![
            1, 59, 60, 61, 62, 63, 64, 65, 66, 67, 68, 87, 88, 1, 224, 225, 248, 217, 229, 230,
            165, 164, 163, 113, 114, 115
        ]
    );
    assert_eq!(bar_of_width(2008).keys().len(), 24);
}

#[test]
fn touches_on_the_bar_can_be_answered() {
    for width in [1, 616, 2008, 2169, 2170, 65535] {
        let mut bar = bar_of_width(width);
        bar.device_added(DIGITIZER, " Touch Bar");
        for k in 0..=1000 {
            let x = width as f64 * (k as f64 / 1000.0);
            assert!(bar.can_answer(&down(0, x, 30.0), LIT));
        }
        assert!(bar.can_answer(&down(0, f64::NAN, 30.0), LIT));
        assert!(bar.can_answer(&down(0, -5.0, 30.0), LIT));
    }
}

#[test]
fn touches_past_the_last_button_cannot_be_answered() {
    let bar = bar();
    let past = middle(13);
    assert_eq!(button_index(at(past), WIDTH, 13), 13);
    assert!(button_hit(13, 13, WIDTH, HEIGHT, at(past), at(30.0)));
    assert!(!bar.can_answer(&down(0, past, 30.0), LIT));
    assert!(bar.can_answer(&down(0, past, 1.0), LIT));
    assert!(bar.can_answer(&down(0, past, 30.0), 0));
    assert!(bar.can_answer(&motion(0, past, 30.0), LIT));
}

#[test]
fn the_far_edge_of_the_last_button_finds_no_button() {
    let mut bar = bar();
    assert!(button_hit(13, 12, WIDTH, HEIGHT, at(2170.0), at(30.0)));
    assert_eq!(button_index(at(2170.0), WIDTH, 13), 13);
    assert_eq!(answer(&mut bar, down(0, 2170.0, 30.0)), vec![]);
    assert_eq!(answer(&mut bar, down(0, 2169.9, 30.0)), toggle(88, 1));
}
