//! What the shortcuts set, what the hint shows of it, and how a session starts.

use vstd::prelude::*;

use crate::app::{Command, Mode, Tool, PALETTE};
use crate::canvas::AnnotationsView;
use crate::document::DocView;
use crate::laws;
use crate::session;
use crate::session::State;

verus! {

/// A session starts locked and without outputs, with the pen, the first colour, a pen of 3 and
/// texts of 18 logical pixels, and the annotations that were loaded.
pub proof fn a_session_starts_locked(doc: DocView)
    ensures
        ({
            let s = State::start(doc);
            &&& s.valid()
            &&& s.mode == Mode::Locked
            &&& s.tool == Tool::Pen
            &&& s.color_idx == 0
            &&& s.pen_width == 3 * 256
            &&& s.text_size == 18 * 256
            &&& s.outputs.len() == 0
            &&& s.doc == doc
            &&& s.deadline is None
            &&& s.requests.len() == 0
            &&& !s.exit
        }),
{
}

/// The five colours.
pub proof fn the_palette_has_these_colours()
    ensures
        PALETTE@.len() == 5,
        PALETTE@[0]@ == "#e01b24"@,
        PALETTE@[1]@ == "#f6d32d"@,
        PALETTE@[2]@ == "#33d17a"@,
        PALETTE@[3]@ == "#3584e4"@,
        PALETTE@[4]@ == "#ffffff"@,
{
}

/// While editing, every output shows the tool, the colour and the size that new content is
/// created with: that of texts with the text tool, that of the pen else. While locked there is no
/// hint.
pub proof fn the_hint_shows_what_is_set(s: State, i: int)
    requires
        s.valid(),
        0 <= i < s.outputs.len(),
    ensures
        s.mode == Mode::Locked ==> s.outputs[i].overlay.hint is None,
        s.mode == Mode::Edit ==> {
            let hint = s.outputs[i].overlay.hint->0;
            &&& s.outputs[i].overlay.hint is Some
            &&& s.tool == Tool::Pen ==> hint.tool == "pen"@ && hint.size == s.pen_width
            &&& s.tool == Tool::Eraser ==> hint.tool == "eraser"@ && hint.size == s.pen_width
            &&& s.tool == Tool::Text ==> hint.tool == "text"@ && hint.size == s.text_size
            &&& hint.color == PALETTE@[s.color_idx as int]@
        },
{
}

/// The tool a key arms, by its letter.
pub open spec fn armed(keysym: u32, tool: Tool) -> Tool {
    if keysym == 0x70 || keysym == 0x50 {
        Tool::Pen
    } else if keysym == 0x65 || keysym == 0x45 {
        Tool::Eraser
    } else if keysym == 0x74 || keysym == 0x54 {
        Tool::Text
    } else {
        tool
    }
}

/// A size a step up or down, no smaller and no larger than its bounds.
pub open spec fn stepped(size: int, keysym: u32, step: int, least: int, most: int) -> int {
    if keysym == 0x5d {
        if size + step <= most { size + step } else { most }
    } else if keysym == 0x5b {
        if size - step >= least { size - step } else { least }
    } else {
        size
    }
}

/// While no text box is edited, `P`, `E` and `T` arm the pen, the eraser and the text tool, `1` to
/// `5` pick a colour, and `[` and `]` step the armed tool's size: the pen by a pixel within 1 to
/// 16, texts by two within 8 to 72. A key sets nothing else, and changes no annotation.
pub proof fn shortcuts_set_what_they_say(
    s: State,
    keysym: u32,
    utf8: Option<Seq<char>>,
    now: u64,
)
    requires
        s.valid(),
        s.mode == Mode::Edit,
        !s.is_editing(),
        keysym != 0xff1b,
    ensures
        ({
            let t = s.key_pressed(keysym, utf8, now);
            &&& t.mode == Mode::Edit
            &&& t.tool == armed(keysym, s.tool)
            &&& t.color_idx == (if 0x31 <= keysym <= 0x35 {
                keysym - 0x31
            } else {
                s.color_idx as int
            })
            &&& s.tool == Tool::Text ==> t.pen_width == s.pen_width && t.text_size == stepped(
                s.text_size as int,
                keysym,
                512,
                2048,
                18432,
            )
            &&& s.tool != Tool::Text ==> t.text_size == s.text_size && t.pen_width == stepped(
                s.pen_width as int,
                keysym,
                256,
                256,
                4096,
            )
            &&& t.doc == s.doc
            &&& t.deadline == s.deadline
            &&& t.outputs.len() == s.outputs.len()
            &&& !t.is_editing()
            &&& t.valid()
        }),
{
    laws::shortcuts_change_no_annotation(s, keysym, utf8, now);
    laws::keys_keep_the_session_valid(s, keysym, utf8, now);
    session::ending_the_edit_keeps_valid(s, now);
    let t = s.key_pressed(keysym, utf8, now);
    let ended = s.edit_ended(now);
    assert forall|i: int| 0 <= i < t.outputs.len() implies !(#[trigger] t.outputs[i]).is_editing() by {
        assert(!s.outputs[i].is_editing());
        assert(!ended.outputs[i].is_editing());
    }
}

/// The key is one of the shortcuts.
pub open spec fn is_shortcut(keysym: u32) -> bool {
    ||| keysym == 0x70 || keysym == 0x50 || keysym == 0x65 || keysym == 0x45
    ||| keysym == 0x74 || keysym == 0x54
    ||| 0x31 <= keysym <= 0x35
    ||| keysym == 0x5b || keysym == 0x5d
}

/// A key that sets something has every output repainted, so that its hint shows it; a key that
/// means nothing changes nothing.
pub proof fn set_shortcuts_are_shown(s: State, keysym: u32, utf8: Option<Seq<char>>, now: u64, i: int)
    requires
        s.valid(),
        s.mode == Mode::Edit,
        !s.is_editing(),
        keysym != 0xff1b,
        0 <= i < s.outputs.len(),
    ensures
        ({
            let t = s.key_pressed(keysym, utf8, now);
            &&& t.tool != s.tool || t.color_idx != s.color_idx || t.pen_width != s.pen_width
                || t.text_size != s.text_size ==> t.outputs[i].dirty && t.dirty
            &&& !is_shortcut(keysym) ==> t == s
        }),
{
}

/// Once `clear` was carried out and written there is no annotation and nothing left to write, and
/// every output is repainted; where the write failed, it is due again a second later.
pub proof fn clear_is_written_at_once(s: State, now: u64, i: int)
    requires
        s.valid(),
        now <= 0xffff_ffff_0000_0000,
        0 <= i < s.outputs.len(),
    ensures
        ({
            let cleared = s.commanded(Some(Command::Clear), now);
            let written = cleared.flushed(true, now).all_marked();
            let failed = cleared.flushed(false, now);
            &&& written.doc == Map::<Seq<char>, AnnotationsView>::empty()
            &&& written.deadline is None
            &&& written.dirty
            &&& written.outputs.len() == s.outputs.len()
            &&& written.outputs[i].dirty
            &&& written.outputs[i].id == s.outputs[i].id
            &&& failed.doc == Map::<Seq<char>, AnnotationsView>::empty()
            &&& failed.deadline == Some((now + 1_000_000_000) as u64)
        }),
{
}

/// Arming another tool ends the text edit just as `Esc` does, and sets the tool; arming the one
/// that is armed changes nothing. Nothing else is set by it.
pub proof fn arming_a_tool_ends_the_edit(s: State, tool: Tool, utf8: Option<Seq<char>>, now: u64)
    requires
        s.valid(),
        s.mode == Mode::Edit,
    ensures
        ({
            let t = s.tool_picked(tool, now);
            &&& t.tool == tool
            &&& s.tool == tool ==> t == s
            &&& s.tool != tool ==> !t.is_editing() && t.dirty
            &&& s.tool != tool && s.is_editing() ==> t.doc == s.key_pressed(0xff1b, utf8, now).doc
                && t.deadline == s.key_pressed(0xff1b, utf8, now).deadline
            &&& !s.is_editing() ==> t.doc == s.doc && t.deadline == s.deadline
            &&& t.mode == s.mode && t.color_idx == s.color_idx
            &&& t.pen_width == s.pen_width && t.text_size == s.text_size
            &&& t.outputs.len() == s.outputs.len()
            &&& t.valid()
        }),
{
    session::ending_the_edit_keeps_valid(s, now);
    if !s.is_editing() {
        laws::lemma_ending_no_edit(s, now);
    }
    let ended = s.edit_ended(now);
    let t = s.tool_picked(tool, now);
    if s.tool != tool {
        session::refreshing_the_hints_keeps_valid(State { tool, ..ended });
        assert forall|i: int| 0 <= i < t.outputs.len() implies !(
        #[trigger] t.outputs[i]).is_editing() by {
            assert(!ended.outputs[i].is_editing());
        }
    }
}

/// Picking a colour sets it where there is one of that number, and nothing else.
pub proof fn picking_a_colour_sets_it(s: State, idx: usize)
    requires
        s.valid(),
    ensures
        ({
            let t = s.color_picked(idx);
            &&& idx < 5 ==> t.color_idx == idx && t.dirty
            &&& idx >= 5 ==> t == s
            &&& t.tool == s.tool && t.mode == s.mode
            &&& t.pen_width == s.pen_width && t.text_size == s.text_size
            &&& t.doc == s.doc && t.deadline == s.deadline && t.requests == s.requests
            &&& t.outputs.len() == s.outputs.len()
            &&& forall|i: int|
                0 <= i < t.outputs.len() ==> (#[trigger] t.outputs[i]).overlay.text
                    == s.outputs[i].overlay.text && t.outputs[i].overlay.stroke
                    == s.outputs[i].overlay.stroke
        }),
{
}

/// A size `dir` steps away, no smaller and no larger than its bounds.
pub open spec fn nudged(size: int, dir: int, step: int, least: int, most: int) -> int {
    if size + dir * step > most {
        most
    } else if size + dir * step < least {
        least
    } else {
        size + dir * step
    }
}

/// Nudging sizes any number of steps up or down sets the armed tool's size, within its bounds,
/// and nothing else: the pen's by a pixel each within 1 to 16, that of texts by two within 8 to 72.
pub proof fn nudging_sets_the_armed_size(s: State, dir: i32)
    requires
        s.valid(),
    ensures
        ({
            let t = s.size_nudged(dir);
            &&& s.tool == Tool::Text ==> t.pen_width == s.pen_width && t.text_size == nudged(
                s.text_size as int,
                dir as int,
                512,
                2048,
                18432,
            )
            &&& s.tool != Tool::Text ==> t.text_size == s.text_size && t.pen_width == nudged(
                s.pen_width as int,
                dir as int,
                256,
                256,
                4096,
            )
            &&& t.tool == s.tool && t.mode == s.mode && t.color_idx == s.color_idx && t.dirty
            &&& t.doc == s.doc && t.deadline == s.deadline && t.requests == s.requests
            &&& t.outputs.len() == s.outputs.len()
            &&& forall|i: int|
                0 <= i < t.outputs.len() ==> (#[trigger] t.outputs[i]).overlay.text
                    == s.outputs[i].overlay.text && t.outputs[i].overlay.stroke
                    == s.outputs[i].overlay.stroke
        }),
{
}

} // verus!
