//! Keys, pointer samples and input method requests.
//!
//! Keys are X11 keysym codes, which is how the compositor reports them.

use vstd::prelude::*;

use crate::app::Tool;

verus! {

pub const KEY_ESCAPE: u32 = 0xff1b;
pub const KEY_BACKSPACE: u32 = 0xff08;
pub const KEY_RETURN: u32 = 0xff0d;
pub const KEY_KP_ENTER: u32 = 0xff8d;
pub const KEY_BRACKET_LEFT: u32 = 0x5b;
pub const KEY_BRACKET_RIGHT: u32 = 0x5d;
pub const KEY_P: u32 = 0x50;
pub const KEY_E: u32 = 0x45;
pub const KEY_T: u32 = 0x54;
pub const KEY_LOWER_P: u32 = 0x70;
pub const KEY_LOWER_E: u32 = 0x65;
pub const KEY_LOWER_T: u32 = 0x74;
pub const KEY_1: u32 = 0x31;
pub const KEY_5: u32 = 0x35;

/// What a local key does while a text box is focused.
#[derive(Debug, Clone, Copy, PartialEq, Eq, Structural)]
pub enum EditAction {
    /// Finish the text edit and stay in edit mode; a further `Esc` with no text box focused locks.
    EndText,
    Backspace,
    Newline,
    /// Insert the key's text into the buffer.
    Local,
    /// The input method owns this key while a preedit is active; touch nothing.
    InputMethod,
}

/// What a key does to the focused text box.
pub open spec fn action_of(keysym: u32, preedit_active: bool) -> EditAction {
    if keysym == KEY_ESCAPE {
        EditAction::EndText
    } else if preedit_active {
        EditAction::InputMethod
    } else if keysym == KEY_BACKSPACE {
        EditAction::Backspace
    } else if keysym == KEY_RETURN || keysym == KEY_KP_ENTER {
        EditAction::Newline
    } else {
        EditAction::Local
    }
}

/// Decide a local key while a text box is focused. A non-empty preedit means the input method
/// owns every key except `Esc`, which only ends the edit, so local `Backspace`/`Enter`/printable
/// keys must not change the committed content.
pub fn edit_action(keysym: u32, preedit_active: bool) -> (r: EditAction)
    ensures
        r == action_of(keysym, preedit_active),
{
    if preedit_active && keysym != KEY_ESCAPE {
        return EditAction::InputMethod;
    }
    if keysym == KEY_ESCAPE {
        EditAction::EndText
    } else if keysym == KEY_BACKSPACE {
        EditAction::Backspace
    } else if keysym == KEY_RETURN || keysym == KEY_KP_ENTER {
        EditAction::Newline
    } else {
        EditAction::Local
    }
}

/// The direction a key steps the size in.
pub open spec fn step_of(keysym: u32) -> Option<i32> {
    if keysym == KEY_BRACKET_LEFT {
        Some((-1) as i32)
    } else if keysym == KEY_BRACKET_RIGHT {
        Some(1i32)
    } else {
        None
    }
}

/// `[` narrows and `]` widens the active tool's size; returns the direction as ±1.
pub fn size_step_for_keysym(keysym: u32) -> (r: Option<i32>)
    ensures
        r == step_of(keysym),
{
    if keysym == KEY_BRACKET_LEFT {
        Some(-1)
    } else if keysym == KEY_BRACKET_RIGHT {
        Some(1)
    } else {
        None
    }
}

/// A number, or the nearer of two bounds where it lies outside them.
pub open spec fn clamped(n: int, min: int, max: int) -> int {
    if n < min {
        min
    } else if n > max {
        max
    } else {
        n
    }
}

/// Step a size by `dir` (±1) within `[min, max]`.
pub fn stepped_size(current: u32, dir: i32, step: u32, min: u32, max: u32) -> (r: u32)
    requires
        min <= max,
    ensures
        r == clamped(current + dir * step, min as int, max as int),
{
    proof {
        assert(-0x8000_0000 * 0xffff_ffff <= dir * step <= 0x7fff_ffff * 0xffff_ffff)
            by (nonlinear_arith)
            requires
                -0x8000_0000 <= dir <= 0x7fff_ffff,
                0 <= step <= 0xffff_ffff,
        ;
    }
    let moved: i64 = current as i64 + dir as i64 * step as i64;
    if moved < min as i64 {
        min
    } else if moved > max as i64 {
        max
    } else {
        moved as u32
    }
}

/// Bytes `delete_surrounding_text` asks the committed buffer to drop. Its `before_length` is
/// counted from the start of the preedit when one is present, and the preedit is not in the
/// buffer, so those bytes are not deleted.
pub fn bytes_to_delete(before_length: u32, preedit_bytes: usize) -> (r: usize)
    ensures
        r == (if before_length >= preedit_bytes { before_length - preedit_bytes } else { 0 }),
{
    if before_length as usize >= preedit_bytes {
        before_length as usize - preedit_bytes
    } else {
        0
    }
}

/// The tool a key arms.
pub open spec fn tool_of(keysym: u32) -> Option<Tool> {
    if keysym == KEY_LOWER_P || keysym == KEY_P {
        Some(Tool::Pen)
    } else if keysym == KEY_LOWER_E || keysym == KEY_E {
        Some(Tool::Eraser)
    } else if keysym == KEY_LOWER_T || keysym == KEY_T {
        Some(Tool::Text)
    } else {
        None
    }
}

/// Key mapping while no text box is edited: `P`/`E`/`T` switch tools.
pub fn tool_for_keysym(keysym: u32) -> (r: Option<Tool>)
    ensures
        r == tool_of(keysym),
{
    if keysym == KEY_LOWER_P || keysym == KEY_P {
        Some(Tool::Pen)
    } else if keysym == KEY_LOWER_E || keysym == KEY_E {
        Some(Tool::Eraser)
    } else if keysym == KEY_LOWER_T || keysym == KEY_T {
        Some(Tool::Text)
    } else {
        None
    }
}

/// The palette index a key picks.
pub open spec fn color_of(keysym: u32) -> Option<usize> {
    if KEY_1 <= keysym <= KEY_5 { Some((keysym - KEY_1) as usize) } else { None }
}

/// `1`-`5` pick a colour; returns the palette index.
pub fn color_for_keysym(keysym: u32) -> (r: Option<usize>)
    ensures
        r == color_of(keysym),
{
    if KEY_1 <= keysym && keysym <= KEY_5 {
        Some((keysym - KEY_1) as usize)
    } else {
        None
    }
}

/// The two points are at least one logical pixel apart.
pub open spec fn apart(last: [i32; 2], next: [i32; 2]) -> bool {
    let (dx, dy) = (next[0] - last[0], next[1] - last[1]);
    dx * dx + dy * dy >= 256 * 256
}

/// Sampling filter: jitter closer than 1 logical pixel to the last sample is dropped.
pub fn wants_sampling(last: [i32; 2], next: [i32; 2]) -> (r: bool)
    ensures
        r == apart(last, next),
{
    let (dx, dy): (i128, i128) = (
        next[0] as i128 - last[0] as i128,
        next[1] as i128 - last[1] as i128,
    );
    proof {
        assert(0 <= dx * dx <= 0xffff_ffff * 0xffff_ffff) by (nonlinear_arith)
            requires
                -0xffff_ffff <= dx <= 0xffff_ffff,
        ;
        assert(0 <= dy * dy <= 0xffff_ffff * 0xffff_ffff) by (nonlinear_arith)
            requires
                -0xffff_ffff <= dy <= 0xffff_ffff,
        ;
    }
    dx * dx + dy * dy >= 65536
}

/// With a preedit the input method owns every key but `Esc`; `Esc` ends the edit either way.
pub proof fn a_preedit_owns_every_key_but_escape(keysym: u32)
    ensures
        keysym != KEY_ESCAPE ==> action_of(keysym, true) == EditAction::InputMethod,
        action_of(KEY_ESCAPE, true) == EditAction::EndText,
        action_of(KEY_ESCAPE, false) == EditAction::EndText,
{
}

/// No key means two things while no text box is edited.
pub proof fn shortcuts_do_not_collide(keysym: u32)
    ensures
        tool_of(keysym) is Some ==> color_of(keysym) is None && step_of(keysym) is None && keysym
            != KEY_ESCAPE,
        color_of(keysym) is Some ==> step_of(keysym) is None && keysym != KEY_ESCAPE,
        step_of(keysym) is Some ==> keysym != KEY_ESCAPE,
{
}

/// A stepped size stays within its bounds, and stepping down undoes stepping up away from them.
pub proof fn steps_stay_in_bounds_and_undo(size: int, step: int, min: int, max: int)
    requires
        min <= size <= max,
        0 <= step,
    ensures
        min <= clamped(size + step, min, max) <= max,
        min <= clamped(size - step, min, max) <= max,
        size + step <= max ==> clamped(clamped(size + step, min, max) - step, min, max) == size,
        size - step >= min ==> clamped(clamped(size - step, min, max) + step, min, max) == size,
{
}

} // verus!
