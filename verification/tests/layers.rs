use tiny_dfr::button::ButtonImage;
use tiny_dfr::geometry::{button_shape, full_clip, ClipRect};
use tiny_dfr::layer::{
    fit_to_width, function_buttons, layer_buttons, special_buttons, FunctionLayer, FULL_WIDTH,
};

fn label(image: ButtonImage) -> &'static str {
    match image {
        ButtonImage::Text(text) => text,
        ButtonImage::Svg(name) => name,
    }
}

fn layer() -> FunctionLayer {
    FunctionLayer { buttons: function_buttons() }
}

#[test]
fn the_function_layer() {
    let buttons = function_buttons();
    let labels: Vec<&str> = buttons.iter().map(|b| label(b.image)).collect();
    assert_eq!(
        labels,
        vec!["esc", "F1", "F2", "F3", "F4", "F5", "F6", "F7", "F8", "F9", "F10", "F11", "F12"]
    );
    let codes: Vec<u16> = buttons.iter().map(|b| b.action.code()).collect();
    assert_eq!(codes, vec![1, 59, 60, 61, 62, 63, 64, 65, 66, 67, 68, 87, 88]);
    assert!(buttons.iter().all(|b| matches!(b.image, ButtonImage::Text(_))));
    assert!(buttons.iter().all(|b| !b.active && !b.changed));
}

#[test]
fn the_special_layer() {
    let buttons = special_buttons();
    let labels: Vec<&str> = buttons.iter().map(|b| label(b.image)).collect();
    assert_eq!(
        labels,
        vec![
            "esc",
            "display-brightness-low-symbolic",
            "display-brightness-high-symbolic",
            "microphone-disabled-symbolic",
            "system-search-symbolic",
            "keyboard-brightness-low-symbolic",
            "keyboard-brightness-high-symbolic",
            "media-seek-backward-symbolic",
            "media-playback-start-symbolic",
            "media-seek-forward-symbolic",
            "audio-volume-muted-symbolic",
            "audio-volume-low-symbolic",
            "audio-volume-high-symbolic",
        ]
    );
    let codes: Vec<u16> = buttons.iter().map(|b| b.action.code()).collect();
    assert_eq!(codes, vec![1, 224, 225, 248, 217, 229, 230, 165, 164, 163, 113, 114, 115]);
    assert!(matches!(buttons[0].image, ButtonImage::Text("esc")));
    assert!(buttons[1..].iter().all(|b| matches!(b.image, ButtonImage::Svg(_))));
    assert!(buttons.iter().all(|b| !b.active && !b.changed));
}

#[test]
fn narrow_bars_have_no_escape_button() {
    let mut buttons = function_buttons();
    fit_to_width(&mut buttons, FULL_WIDTH);
    assert_eq!(buttons.len(), 13);
    fit_to_width(&mut buttons, FULL_WIDTH - 1);
    assert_eq!(buttons.len(), 12);
    assert_eq!(label(buttons[0].image), "F1");
    assert_eq!(FULL_WIDTH, 2170);
}

#[test]
fn both_layers_have_as_many_buttons() {
    for (width, count, first) in [
        (2170, 13, ["esc", "esc"]),
        (2169, 12, ["F1", "display-brightness-low-symbolic"]),
    ] {
        let layers = layer_buttons(width);
        assert_eq!(layers.len(), 2);
        for (buttons, first) in layers.iter().zip(first) {
            assert_eq!(buttons.len(), count);
            assert_eq!(label(buttons[0].image), first);
            let mut codes: Vec<u16> = buttons.iter().map(|b| b.action.code()).collect();
            codes.sort();
            codes.dedup();
            assert_eq!(codes.len(), count);
        }
        assert_eq!(layers[0].last().unwrap().action.code(), 88);
        assert_eq!(layers[1].last().unwrap().action.code(), 115);
    }
}

#[test]
fn a_complete_redraw_draws_every_button() {
    let mut layer = layer();
    layer.buttons[3].set_active(true);
    assert!(layer.can_draw(60, 2170, true));
    let drawing = layer.draw(60, 2170, true);
    assert!(drawing.clear);
    assert_eq!(drawing.clips, vec![full_clip(60, 2170)]);
    assert_eq!(drawing.buttons.len(), 13);
    for (i, button) in drawing.buttons.iter().enumerate() {
        assert_eq!(button.index, i);
        assert!(!button.erase);
        assert_eq!(button.active, i == 3);
        assert_eq!(f64::from_bits(button.shade.bits), if i == 3 { 0.400 } else { 0.200 });
        assert_eq!(f64::from_bits(button.shape.button_width.bits), 155.0);
        let gap = (2170.0 - 13.0 * 155.0) / 12.0;
        assert_eq!(f64::from_bits(button.shape.left_edge.bits), i as f64 * (155.0 + gap));
        assert_eq!(button.shape, button_shape(13, i as u32, 2170, 60));
    }
    assert!(!layer.is_changed());
    assert!(layer.buttons[3].active);
}

#[test]
fn a_partial_redraw_draws_what_changed() {
    let mut layer = layer();
    assert!(!layer.is_changed());
    assert!(layer.draw(60, 2170, false).buttons.is_empty());
    layer.buttons[1].set_active(true);
    layer.buttons[12].set_active(true);
    layer.buttons[12].set_active(false);
    assert!(layer.is_changed());
    let drawing = layer.draw(60, 2170, false);
    assert!(!drawing.clear);
    let drawn: Vec<(usize, bool, bool)> =
        drawing.buttons.iter().map(|b| (b.index, b.erase, b.active)).collect();
    assert_eq!(drawn, vec![(1, true, true), (12, true, false)]);
    assert_eq!(
        drawing.clips,
        vec![
            ClipRect { x1: 1, y1: 167, x2: 59, y2: 322 },
            ClipRect { x1: 1, y1: 2015, x2: 59, y2: 2170 },
        ]
    );
    assert!(!layer.is_changed());
    let again = layer.draw(60, 2170, false);
    assert!(again.buttons.is_empty() && again.clips.is_empty());
}

#[test]
fn flat_bars_cannot_be_drawn() {
    let mut layer = layer();
    assert!(layer.can_draw(47, 2170, true));
    assert!(!layer.can_draw(46, 2170, true));
    assert!(layer.can_draw(46, 2170, false));
    layer.buttons[0].set_active(true);
    assert!(!layer.can_draw(46, 2170, false));
    assert!(layer.can_draw(47, 2170, false));
    assert!(layer.can_draw(u16::MAX, u16::MAX, true));
    assert!(!layer.can_draw(0, 0, true));
}

#[test]
fn drawn_rectangles_lie_on_the_bar() {
    for (height, width) in [(54, 1), (54, 65535), (60, 2008), (61, 1752), (65535, 65535), (77, 12)] {
        let mut layer = layer();
        for button in &mut layer.buttons {
            button.set_active(true);
        }
        assert!(layer.can_draw(height, width, false));
        let drawing = layer.draw(height, width, false);
        assert_eq!(drawing.clips.len(), 13);
        for clip in drawing.clips {
            assert!(clip.x1 < clip.x2 && clip.x2 <= height);
            assert!(clip.y1 <= clip.y2 && clip.y2 <= width);
        }
    }
}

#[test]
fn layers_of_any_length_can_be_drawn() {
    let button = function_buttons()[0];
    for count in [1, 2, 65535, 65536, 70000] {
        let mut layer = FunctionLayer { buttons: vec![button; count] };
        layer.buttons[count - 1].set_active(true);
        for width in [0, 1, 2170, 65535] {
            assert!(layer.can_draw(47, width, false));
            assert!(!layer.can_draw(46, width, false));
        }
        let drawing = layer.draw(54, 65535, false);
        assert_eq!(drawing.clips.len(), 1);
        assert!(drawing.clips[0].y1 <= drawing.clips[0].y2);
        assert!(drawing.clips[0].x2 <= 54);
    }
}
