use sgraffito::app::Tool;
use sgraffito::input::{
    bytes_to_delete, color_for_keysym, edit_action, size_step_for_keysym, stepped_size,
    tool_for_keysym, wants_sampling, EditAction,
};
use xkeysym::Keysym;

fn px(v: f32) -> i32 {
    (v * 256.0).round() as i32
}

fn len(v: f32) -> u32 {
    (v * 256.0).round() as u32
}

#[test]
fn maps_letters_to_tools_both_cases() {
    assert_eq!(tool_for_keysym(Keysym::p.raw()), Some(Tool::Pen));
    assert_eq!(tool_for_keysym(Keysym::P.raw()), Some(Tool::Pen));
    assert_eq!(tool_for_keysym(Keysym::e.raw()), Some(Tool::Eraser));
    assert_eq!(tool_for_keysym(Keysym::t.raw()), Some(Tool::Text));
    assert_eq!(tool_for_keysym(Keysym::x.raw()), None);
    assert_eq!(tool_for_keysym(Keysym::E.raw()), Some(Tool::Eraser));
    assert_eq!(tool_for_keysym(Keysym::T.raw()), Some(Tool::Text));
}

#[test]
fn maps_digits_to_palette_indices() {
    assert_eq!(color_for_keysym(Keysym::_1.raw()), Some(0));
    assert_eq!(color_for_keysym(Keysym::_5.raw()), Some(4));
    assert_eq!(color_for_keysym(Keysym::_6.raw()), None);
    assert_eq!(color_for_keysym(Keysym::_2.raw()), Some(1));
    assert_eq!(color_for_keysym(Keysym::_3.raw()), Some(2));
    assert_eq!(color_for_keysym(Keysym::_4.raw()), Some(3));
    assert_eq!(color_for_keysym(Keysym::_0.raw()), None);
}

#[test]
fn drops_subpixel_jitter_but_keeps_real_motion() {
    let from = [px(10.0), px(10.0)];
    assert!(!wants_sampling(from, [px(10.0), px(10.0)]));
    assert!(!wants_sampling(from, [px(10.5), px(10.0)]));
    assert!(wants_sampling(from, [px(11.0), px(10.0)]));
    assert!(wants_sampling(from, [px(10.0), px(12.0)]));
    assert!(!wants_sampling(from, [px(10.7), px(10.7)]));
    assert!(wants_sampling(from, [px(9.2), px(9.3)]));
    assert!(wants_sampling([i32::MIN, 0], [i32::MAX, 0]));
}

#[test]
fn maps_brackets_to_size_directions() {
    assert_eq!(size_step_for_keysym(Keysym::bracketleft.raw()), Some(-1));
    assert_eq!(size_step_for_keysym(Keysym::bracketright.raw()), Some(1));
    assert_eq!(size_step_for_keysym(Keysym::p.raw()), None);
}

#[test]
fn stepping_a_size_clamps_to_its_bounds() {
    let step = |current: f32, dir: i32, step: f32, min: f32, max: f32| {
        stepped_size(len(current), dir, len(step), len(min), len(max))
    };
    assert_eq!(step(3.0, 1, 1.0, 1.0, 16.0), len(4.0));
    assert_eq!(step(3.0, -1, 1.0, 1.0, 16.0), len(2.0));
    assert_eq!(step(1.0, -1, 1.0, 1.0, 16.0), len(1.0));
    assert_eq!(step(16.0, 1, 1.0, 1.0, 16.0), len(16.0));
    assert_eq!(step(72.0, 1, 2.0, 8.0, 72.0), len(72.0));
}

#[test]
fn a_focused_escape_only_ends_the_text_edit() {
    // Escape ends the text box, focused or not, preedit or not; the session locks on the next one.
    assert_eq!(edit_action(Keysym::Escape.raw(), false), EditAction::EndText);
    assert_eq!(edit_action(Keysym::Escape.raw(), true), EditAction::EndText);
}

#[test]
fn a_preedit_gives_the_input_method_every_key_but_escape() {
    for keysym in [Keysym::BackSpace, Keysym::Return, Keysym::p, Keysym::_1] {
        assert_eq!(edit_action(keysym.raw(), true), EditAction::InputMethod);
    }
    assert_eq!(edit_action(Keysym::BackSpace.raw(), false), EditAction::Backspace);
    assert_eq!(edit_action(Keysym::Return.raw(), false), EditAction::Newline);
    assert_eq!(edit_action(Keysym::p.raw(), false), EditAction::Local);
    assert_eq!(edit_action(Keysym::KP_Enter.raw(), false), EditAction::Newline);
}

#[test]
fn delete_length_excludes_the_preedit() {
    // 6 bytes of committed text and an empty preedit: all six go.
    assert_eq!(bytes_to_delete(6, 0), 6);
    // The same request with a 3-byte preedit: only the committed part is dropped.
    assert_eq!(bytes_to_delete(6, 3), 3);
    // A request shorter than the preedit never deletes committed content.
    assert_eq!(bytes_to_delete(2, 6), 0);
}
