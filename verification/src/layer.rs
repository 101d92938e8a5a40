//! A layer of buttons: which of them to draw, and the two layers of the bar.

use vstd::prelude::*;

use crate::button::{Button, ButtonView, ImageView};
use crate::coord::Coord;
use crate::geometry::{
    button_clip, button_shade, button_shape, clip_exists, full_clip, pixel_box, spec_button_clip,
    spec_button_shade, spec_button_shape, spec_full_clip, spec_pixel_box, ButtonShape, ClipRect,
};
use crate::key::{FunctionKey, Key, SpecialKey};

verus! {

/// The width below which a bar has no room for the first button of a layer.
pub const FULL_WIDTH: u16 = 2170;

/// Buttons that are shown together.
#[derive(Debug)]
pub struct FunctionLayer {
    pub buttons: Vec<Button>,
}

/// One button to draw.
#[derive(Clone, Copy, Debug, PartialEq, Eq, Structural)]
pub struct ButtonDrawing {
    /// The place of the button in its layer.
    pub index: usize,
    /// Whether to paint over the old button first.
    pub erase: bool,
    /// Whether to draw the button as touched.
    pub active: bool,
    /// The shade of the button.
    pub shade: Coord,
    /// The strokes that make up the button.
    pub shape: ButtonShape,
}

/// What to paint and what to refresh afterwards.
#[derive(Debug)]
pub struct Drawing {
    /// Whether to paint over the whole surface first.
    pub clear: bool,
    /// The buttons to draw, in this order.
    pub buttons: Vec<ButtonDrawing>,
    /// The rectangles that changed.
    pub clips: Vec<ClipRect>,
}

/// The contents of buttons.
pub open spec fn views(buttons: Seq<Button>) -> Seq<ButtonView> {
    buttons.map_values(|b: Button| b@)
}

/// Whether button `i` has to be drawn.
pub open spec fn due(buttons: Seq<ButtonView>, complete_redraw: bool, i: int) -> bool {
    complete_redraw || buttons[i].changed
}

/// The places of the buttons that have to be drawn, in order.
pub open spec fn due_indices(buttons: Seq<ButtonView>, complete_redraw: bool) -> Seq<int> {
    Seq::new(buttons.len(), |i: int| i).filter(|i: int| due(buttons, complete_redraw, i))
}

/// The buttons once all that have to be drawn are drawn.
pub open spec fn all_drawn(buttons: Seq<ButtonView>) -> Seq<ButtonView> {
    buttons.map_values(|b: ButtonView| b.drawn())
}

/// Whether one of the buttons has to be drawn.
pub open spec fn any_changed(buttons: Seq<ButtonView>) -> bool {
    exists|i: int| 0 <= i < buttons.len() && (#[trigger] buttons[i]).changed
}

/// How button `i` is drawn on a bar of the given size.
pub open spec fn spec_button_drawing(
    buttons: Seq<ButtonView>,
    height: u16,
    width: u16,
    complete_redraw: bool,
    i: int,
) -> ButtonDrawing {
    ButtonDrawing {
        index: i as usize,
        erase: !complete_redraw,
        active: buttons[i].active,
        shade: spec_button_shade(buttons[i].active),
        shape: spec_button_shape(buttons.len() as int, i, width, height),
    }
}

/// The buttons that are drawn on a bar of the given size.
pub open spec fn drawn_buttons(
    buttons: Seq<ButtonView>,
    height: u16,
    width: u16,
    complete_redraw: bool,
) -> Seq<ButtonDrawing> {
    due_indices(buttons, complete_redraw).map_values(
        |i: int| spec_button_drawing(buttons, height, width, complete_redraw, i),
    )
}

/// The rectangles of the buttons that are drawn on a bar of the given size.
pub open spec fn drawn_regions(
    buttons: Seq<ButtonView>,
    height: u16,
    width: u16,
    complete_redraw: bool,
) -> Seq<ClipRect> {
    due_indices(buttons, complete_redraw).map_values(
        |i: int|
            spec_button_clip(spec_pixel_box(buttons.len() as int, i, width, height), height),
    )
}

/// The rectangles that change when buttons are drawn on a bar of the given size.
pub open spec fn drawn_clips(
    buttons: Seq<ButtonView>,
    height: u16,
    width: u16,
    complete_redraw: bool,
) -> Seq<ClipRect> {
    if complete_redraw {
        seq![spec_full_clip(height, width)]
    } else {
        drawn_regions(buttons, height, width, complete_redraw)
    }
}

/// Whether the buttons that have to be drawn fit on a bar of this size.
pub open spec fn drawable(
    buttons: Seq<ButtonView>,
    height: u16,
    width: u16,
    complete_redraw: bool,
) -> bool {
    forall|i: int|
        0 <= i < buttons.len() && #[trigger] due(buttons, complete_redraw, i) ==> clip_exists(
            spec_pixel_box(buttons.len() as int, i, width, height),
            height,
        )
}

impl View for FunctionLayer {
    type V = Seq<ButtonView>;

    open spec fn view(&self) -> Seq<ButtonView> {
        views(self.buttons@)
    }
}

/// There is a button, and there are not too many to count.
pub open spec fn layer_wf(buttons: Seq<ButtonView>) -> bool {
    1 <= buttons.len() < u32::MAX
}

impl FunctionLayer {
    /// Whether a button looks different from when it was last drawn.
    pub fn is_changed(&self) -> (r: bool)
        ensures
            r == any_changed(self@),
    {
        let mut i: usize = 0;
        while i < self.buttons.len()
            invariant
                i <= self.buttons@.len(),
                forall|j: int| 0 <= j < i ==> !(#[trigger] self@[j]).changed,
            decreases self.buttons@.len() - i,
        {
            if self.buttons[i].changed {
                assert(self@[i as int].changed);
                return true;
            }
            i = i + 1;
        }
        false
    }

    /// Whether the buttons that have to be drawn fit on a bar of this size.
    pub fn can_draw(&self, height: u16, width: u16, complete_redraw: bool) -> (r: bool)
        requires
            layer_wf(self@),
        ensures
            r == drawable(self@, height, width, complete_redraw),
    {
        let count: u32 = self.buttons.len() as u32;
        let mut i: usize = 0;
        while i < self.buttons.len()
            invariant
                layer_wf(self@),
                count == self@.len(),
                i <= self.buttons@.len(),
                forall|j: int|
                    0 <= j < i && #[trigger] due(self@, complete_redraw, j) ==> clip_exists(
                        spec_pixel_box(count as int, j, width, height),
                        height,
                    ),
            decreases self.buttons@.len() - i,
        {
            if complete_redraw || self.buttons[i].changed {
                assert(due(self@, complete_redraw, i as int));
                if button_clip(pixel_box(count, i as u32, width, height), height).is_none() {
                    return false;
                }
            }
            i = i + 1;
        }
        true
    }

    /// Draws the buttons that changed, or all of them, on a bar of the given size: says what to
    /// paint and which rectangles to refresh, and takes every button as drawn.
    pub fn draw(&mut self, height: u16, width: u16, complete_redraw: bool) -> (drawing: Drawing)
        requires
            layer_wf(old(self)@),
            drawable(old(self)@, height, width, complete_redraw),
        ensures
            final(self)@ == all_drawn(old(self)@),
            drawing.clear == complete_redraw,
            drawing.buttons@ == drawn_buttons(old(self)@, height, width, complete_redraw),
            drawing.clips@ == drawn_clips(old(self)@, height, width, complete_redraw),
    {
        let ghost shown = self@;
        let ghost order = Seq::new(shown.len(), |i: int| i);
        let ghost pred = |i: int| due(shown, complete_redraw, i);
        let mut drawn: Vec<ButtonDrawing> = Vec::new();
        let mut modified_regions: Vec<ClipRect> = Vec::new();
        let count: u32 = self.buttons.len() as u32;
        let mut i: u32 = 0;
        assert(order.take(0) =~= Seq::<int>::empty());
        assert(order.take(0).filter(pred) =~= Seq::<int>::empty()) by {
            reveal(Seq::filter);
        }
        while i < count
            invariant
                i <= count < u32::MAX,
                count == shown.len(),
                self.buttons@.len() == count,
                drawable(shown, height, width, complete_redraw),
                order == Seq::new(shown.len(), |i: int| i),
                pred == (|i: int| due(shown, complete_redraw, i)),
                forall|j: int|
                    0 <= j < count ==> #[trigger] self.buttons@[j]@ == (if j < i {
                        shown[j].drawn()
                    } else {
                        shown[j]
                    }),
                drawn@ == order.take(i as int).filter(pred).map_values(
                    |i: int| spec_button_drawing(shown, height, width, complete_redraw, i),
                ),
                modified_regions@ == order.take(i as int).filter(pred).map_values(
                    |i: int|
                        spec_button_clip(
                            spec_pixel_box(shown.len() as int, i, width, height),
                            height,
                        ),
                ),
            decreases count - i,
        {
            let ghost done = order.take(i as int);
            let place: usize = i as usize;
            proof {
                reveal(Seq::filter);
                assert(order.take(i + 1) =~= done.push(i as int));
                assert(done.push(i as int).drop_last() =~= done);
                assert(self.buttons@[i as int]@ == shown[i as int]);
            }
            if self.buttons[place].changed || complete_redraw {
                assert(due(shown, complete_redraw, i as int));
                drawn.push(
                    ButtonDrawing {
                        index: place,
                        erase: !complete_redraw,
                        active: self.buttons[place].active,
                        shade: button_shade(self.buttons[place].active),
                        shape: button_shape(count, i, width, height),
                    },
                );
                match button_clip(pixel_box(count, i, width, height), height) {
                    Some(clip) => modified_regions.push(clip),
                    None => assert(false),
                }
                self.buttons[place].changed = false;
                assert(order.take(i + 1).filter(pred) =~= done.filter(pred).push(i as int));
            } else {
                assert(!pred(i as int));
                assert(order.take(i + 1).filter(pred) =~= done.filter(pred));
            }
            i = i + 1;
        }
        proof {
            assert(order.take(count as int) =~= order);
            assert(self@ =~= all_drawn(shown));
        }
        let clips: Vec<ClipRect> = if complete_redraw {
            let mut whole: Vec<ClipRect> = Vec::new();
            whole.push(full_clip(height, width));
            whole
        } else {
            modified_regions
        };
        Drawing { clear: complete_redraw, buttons: drawn, clips }
    }
}

/// An untouched button with a label that presses a key of the function row.
pub open spec fn text_view(text: Seq<char>, key: FunctionKey) -> ButtonView {
    ButtonView::idle(ImageView::Text(text), Key::Function(key))
}

/// An untouched button with an icon that presses a special key.
pub open spec fn icon_view(icon_name: Seq<char>, key: SpecialKey) -> ButtonView {
    ButtonView::idle(ImageView::Svg(icon_name), Key::Special(key))
}

/// The buttons of the function layer.
pub open spec fn function_row() -> Seq<ButtonView> {
    seq![
        text_view("esc"@, FunctionKey::Esc),
        text_view("F1"@, FunctionKey::F1),
        text_view("F2"@, FunctionKey::F2),
        text_view("F3"@, FunctionKey::F3),
        text_view("F4"@, FunctionKey::F4),
        text_view("F5"@, FunctionKey::F5),
        text_view("F6"@, FunctionKey::F6),
        text_view("F7"@, FunctionKey::F7),
        text_view("F8"@, FunctionKey::F8),
        text_view("F9"@, FunctionKey::F9),
        text_view("F10"@, FunctionKey::F10),
        text_view("F11"@, FunctionKey::F11),
        text_view("F12"@, FunctionKey::F12),
    ]
}

/// The buttons of the special layer.
pub open spec fn special_row() -> Seq<ButtonView> {
    seq![
        text_view("esc"@, FunctionKey::Esc),
        icon_view("display-brightness-low-symbolic"@, SpecialKey::BrightnessDown),
        icon_view("display-brightness-high-symbolic"@, SpecialKey::BrightnessUp),
        icon_view("microphone-disabled-symbolic"@, SpecialKey::MicMute),
        icon_view("system-search-symbolic"@, SpecialKey::Search),
        icon_view("keyboard-brightness-low-symbolic"@, SpecialKey::IllumDown),
        icon_view("keyboard-brightness-high-symbolic"@, SpecialKey::IllumUp),
        icon_view("media-seek-backward-symbolic"@, SpecialKey::PreviousSong),
        icon_view("media-playback-start-symbolic"@, SpecialKey::PlayPause),
        icon_view("media-seek-forward-symbolic"@, SpecialKey::NextSong),
        icon_view("audio-volume-muted-symbolic"@, SpecialKey::Mute),
        icon_view("audio-volume-low-symbolic"@, SpecialKey::VolumeDown),
        icon_view("audio-volume-high-symbolic"@, SpecialKey::VolumeUp),
    ]
}

/// The buttons that a bar of the given width has room for: all, or all but the first.
pub open spec fn fitting(row: Seq<ButtonView>, width: u16) -> Seq<ButtonView> {
    if width < FULL_WIDTH {
        row.drop_first()
    } else {
        row
    }
}

/// The buttons of the function layer.
pub fn function_buttons() -> (buttons: Vec<Button>)
    ensures
        views(buttons@) == function_row(),
{
    let mut buttons: Vec<Button> = Vec::new();
    buttons.push(Button::new_text("esc", Key::Function(FunctionKey::Esc)));
    buttons.push(Button::new_text("F1", Key::Function(FunctionKey::F1)));
    buttons.push(Button::new_text("F2", Key::Function(FunctionKey::F2)));
    buttons.push(Button::new_text("F3", Key::Function(FunctionKey::F3)));
    buttons.push(Button::new_text("F4", Key::Function(FunctionKey::F4)));
    buttons.push(Button::new_text("F5", Key::Function(FunctionKey::F5)));
    buttons.push(Button::new_text("F6", Key::Function(FunctionKey::F6)));
    buttons.push(Button::new_text("F7", Key::Function(FunctionKey::F7)));
    buttons.push(Button::new_text("F8", Key::Function(FunctionKey::F8)));
    buttons.push(Button::new_text("F9", Key::Function(FunctionKey::F9)));
    buttons.push(Button::new_text("F10", Key::Function(FunctionKey::F10)));
    buttons.push(Button::new_text("F11", Key::Function(FunctionKey::F11)));
    buttons.push(Button::new_text("F12", Key::Function(FunctionKey::F12)));
    assert(views(buttons@) =~= function_row());
    buttons
}

/// The buttons of the special layer.
pub fn special_buttons() -> (buttons: Vec<Button>)
    ensures
        views(buttons@) == special_row(),
{
    let mut buttons: Vec<Button> = Vec::new();
    buttons.push(Button::new_text("esc", Key::Function(FunctionKey::Esc)));
    buttons.push(
        Button::new_icon("display-brightness-low-symbolic", Key::Special(SpecialKey::BrightnessDown)),
    );
    buttons.push(
        Button::new_icon("display-brightness-high-symbolic", Key::Special(SpecialKey::BrightnessUp)),
    );
    buttons.push(
        Button::new_icon("microphone-disabled-symbolic", Key::Special(SpecialKey::MicMute)),
    );
    buttons.push(Button::new_icon("system-search-symbolic", Key::Special(SpecialKey::Search)));
    buttons.push(
        Button::new_icon("keyboard-brightness-low-symbolic", Key::Special(SpecialKey::IllumDown)),
    );
    buttons.push(
        Button::new_icon("keyboard-brightness-high-symbolic", Key::Special(SpecialKey::IllumUp)),
    );
    buttons.push(
        Button::new_icon("media-seek-backward-symbolic", Key::Special(SpecialKey::PreviousSong)),
    );
    buttons.push(
        Button::new_icon("media-playback-start-symbolic", Key::Special(SpecialKey::PlayPause)),
    );
    buttons.push(
        Button::new_icon("media-seek-forward-symbolic", Key::Special(SpecialKey::NextSong)),
    );
    buttons.push(Button::new_icon("audio-volume-muted-symbolic", Key::Special(SpecialKey::Mute)));
    buttons.push(
        Button::new_icon("audio-volume-low-symbolic", Key::Special(SpecialKey::VolumeDown)),
    );
    buttons.push(
        Button::new_icon("audio-volume-high-symbolic", Key::Special(SpecialKey::VolumeUp)),
    );
    assert(views(buttons@) =~= special_row());
    buttons
}

/// Leaves out the first button on a bar that has no room for it.
pub fn fit_to_width(buttons: &mut Vec<Button>, width: u16)
    requires
        width < FULL_WIDTH ==> old(buttons)@.len() > 0,
    ensures
        views(final(buttons)@) == fitting(views(old(buttons)@), width),
        width < 2170 ==> final(buttons)@ == old(buttons)@.drop_first(),
        width >= 2170 ==> final(buttons)@ == old(buttons)@,
{
    let ghost before = buttons@;
    if width < FULL_WIDTH {
        buttons.remove(0);
        assert(views(buttons@) =~= views(before).drop_first());
    }
}

/// The buttons of both layers on a bar of the given width, the function layer first.
pub fn layer_buttons(width: u16) -> (layers: Vec<Vec<Button>>)
    ensures
        layers@.len() == 2,
        views(layers@[0]@) == fitting(function_row(), width),
        views(layers@[1]@) == fitting(special_row(), width),
        forall|i: int|
            0 <= i < layers@[0]@.len() ==> (#[trigger] layers@[0]@[i])@ == function_row()[i + (
            if width < 2170 {
                1int
            } else {
                0int
            })],
        forall|i: int|
            0 <= i < layers@[1]@.len() ==> (#[trigger] layers@[1]@[i])@ == special_row()[i + (
            if width < 2170 {
                1int
            } else {
                0int
            })],
{
    let mut function: Vec<Button> = function_buttons();
    let mut special: Vec<Button> = special_buttons();
    assert(views(function@).len() > 0 && views(special@).len() > 0);
    fit_to_width(&mut function, width);
    fit_to_width(&mut special, width);
    let mut layers: Vec<Vec<Button>> = Vec::new();
    let ghost (first, second) = (views(function@), views(special@));
    proof {
        assert forall|i: int| 0 <= i < function@.len() implies first[i] == (
        #[trigger] function@[i])@ by {}
        assert forall|i: int| 0 <= i < special@.len() implies second[i] == (
        #[trigger] special@[i])@ by {}
    }
    layers.push(function);
    layers.push(special);
    layers
}

/// Both layers have as many buttons as each other: thirteen, or twelve on a bar that has no room
/// for the first.
pub proof fn law_layers_have_equal_lengths(width: u16)
    ensures
        fitting(function_row(), width).len() == fitting(special_row(), width).len(),
        fitting(function_row(), width).len() == if width < FULL_WIDTH {
            12nat
        } else {
            13nat
        },
{
}

/// Every button starts untouched, and no two buttons of a layer press the same key.
pub proof fn law_layers_start_idle_with_distinct_keys(width: u16, i: int, j: int)
    requires
        0 <= i < j < fitting(function_row(), width).len(),
    ensures
        !fitting(function_row(), width)[i].active && !fitting(function_row(), width)[i].changed,
        !fitting(special_row(), width)[i].active && !fitting(special_row(), width)[i].changed,
        !fitting(function_row(), width)[j].active && !fitting(function_row(), width)[j].changed,
        !fitting(special_row(), width)[j].active && !fitting(special_row(), width)[j].changed,
        fitting(function_row(), width)[i].action != fitting(function_row(), width)[j].action,
        fitting(special_row(), width)[i].action != fitting(special_row(), width)[j].action,
{
}

/// Once a layer is drawn, no button is left to draw, and drawing it again paints nothing.
pub proof fn law_drawn_layer_is_settled(buttons: Seq<ButtonView>)
    ensures
        !any_changed(all_drawn(buttons)),
        due_indices(all_drawn(buttons), false) == Seq::<int>::empty(),
        all_drawn(all_drawn(buttons)) == all_drawn(buttons),
{
    let settled = all_drawn(buttons);
    let order = Seq::new(settled.len(), |i: int| i);
    lemma_filter_none(order, |i: int| due(settled, false, i));
}

/// A complete redraw draws every button, from the first to the last.
pub proof fn law_complete_redraw_draws_all(buttons: Seq<ButtonView>)
    ensures
        due_indices(buttons, true) == Seq::new(buttons.len(), |i: int| i),
{
    let order = Seq::new(buttons.len(), |i: int| i);
    lemma_filter_all(order, |i: int| due(buttons, true, i));
}

/// A partial redraw draws a button exactly if it changed.
pub proof fn law_partial_redraw_draws_what_changed(buttons: Seq<ButtonView>, i: int)
    requires
        0 <= i < buttons.len(),
    ensures
        due_indices(buttons, false).contains(i) <==> buttons[i].changed,
{
    broadcast use vstd::seq_lib::group_filter_ensures;

    let order = Seq::new(buttons.len(), |i: int| i);
    let pred = |i: int| due(buttons, false, i);
    assert(order[i] == i);
    if buttons[i].changed {
        assert(pred(order[i]));
        assert(order.filter(pred).contains(order[i]));
    }
    if due_indices(buttons, false).contains(i) {
        let k = due_indices(buttons, false).index_of(i);
        assert(pred(order.filter(pred)[k]));
    }
}

/// A filter that lets everything pass changes nothing.
proof fn lemma_filter_all(s: Seq<int>, pred: spec_fn(int) -> bool)
    requires
        forall|i: int| 0 <= i < s.len() ==> pred(#[trigger] s[i]),
    ensures
        s.filter(pred) == s,
    decreases s.len(),
{
    reveal(Seq::filter);
    if s.len() > 0 {
        lemma_filter_all(s.drop_last(), pred);
        assert(s.drop_last().push(s.last()) =~= s);
    }
}

/// A filter that lets nothing pass leaves nothing.
proof fn lemma_filter_none(s: Seq<int>, pred: spec_fn(int) -> bool)
    requires
        forall|i: int| 0 <= i < s.len() ==> !pred(#[trigger] s[i]),
    ensures
        s.filter(pred) == Seq::<int>::empty(),
    decreases s.len(),
{
    reveal(Seq::filter);
    if s.len() > 0 {
        lemma_filter_none(s.drop_last(), pred);
    }
}

} // verus!
