//! What keys and the input method type into a text box, and what is left of it in the document.

use vstd::prelude::*;

use crate::app::{Command, Mode, PointerKind, TextInputEvent, Tool, PALETTE};
use crate::buffer;
use crate::canvas;
use crate::canvas::TextItemView;
use crate::document;
use crate::events;
use crate::laws;
use crate::overlay::TextOverlayView;
use crate::session;
use crate::session::{RequestView, State};
use crate::text;

verus! {

/// The codes of `Esc`, `Backspace`, `Return` and the keypad's `Enter`.
pub const ESCAPE: u32 = 65307;
pub const BACKSPACE: u32 = 65288;
pub const RETURN: u32 = 65293;
pub const KP_ENTER: u32 = 65421;

/// The key types what it says while a text box is edited.
pub open spec fn is_printable(keysym: u32) -> bool {
    keysym != ESCAPE && keysym != BACKSPACE && keysym != RETURN && keysym != KP_ENTER
}

/// The same text box is edited on the same output, with another text in it, and nothing was
/// written into the document.
pub open spec fn only_retyped(s: State, t: State, typed: Seq<char>) -> bool {
    &&& t.valid()
    &&& t.is_editing()
    &&& t.edit_at() == s.edit_at()
    &&& t.edit().typed == typed
    &&& t.edit().preedit == s.edit().preedit
    &&& t.edit().item == s.edit().item
    &&& t.edit().index == s.edit().index
    &&& t.doc == s.doc
    &&& t.deadline == s.deadline
    &&& t.mode == s.mode
    &&& t.tool == s.tool
    &&& t.outputs.len() == s.outputs.len()
    &&& t.outputs[s.edit_at()].id == s.outputs[s.edit_at()].id
    &&& t.outputs[s.edit_at()].name == s.outputs[s.edit_at()].name
}

proof fn lemma_retyped(s: State, edit: TextOverlayView)
    requires
        s.valid(),
        s.is_editing(),
    ensures
        s.retyped(edit).valid(),
        s.retyped(edit).is_editing(),
        s.retyped(edit).edit_at() == s.edit_at(),
        s.retyped(edit).edit() == edit,
        s.retyped(edit).outputs.len() == s.outputs.len(),
        s.retyped(edit).outputs[s.edit_at()].id == s.outputs[s.edit_at()].id,
        s.retyped(edit).outputs[s.edit_at()].name == s.outputs[s.edit_at()].name,
{
    let k = s.edit_at();
    assert(s.outputs[k].is_editing());
    laws::lemma_retyping_keeps_valid(s, edit);
    let t = s.retyped(edit);
    assert(t.outputs[k].is_editing());
    session::lemma_edit_at(t, k);
}

proof fn lemma_editing_is_edit_mode(s: State)
    requires
        s.valid(),
        s.is_editing(),
    ensures
        s.mode == Mode::Edit,
        0 <= s.edit_at() < s.outputs.len(),
        s.outputs[s.edit_at()].is_editing(),
{
    let k = s.edit_at();
    assert(s.outputs[k].is_editing());
}

/// While a text box is edited and the input method has nothing unfinished in it, a key that types
/// some text puts exactly that text behind what was typed before; a key that types nothing
/// changes nothing.
pub proof fn a_key_types_its_text(s: State, keysym: u32, u: Seq<char>, now: u64)
    requires
        s.valid(),
        s.is_editing(),
        s.edit().preedit.len() == 0,
        is_printable(keysym),
    ensures
        only_retyped(s, s.key_pressed(keysym, Some(u), now), s.edit().typed + u),
        s.key_pressed(keysym, None, now) == s,
{
    lemma_editing_is_edit_mode(s);
    lemma_retyped(s, TextOverlayView { typed: s.edit().typed + u, ..s.edit() });
}

/// `Backspace` takes the last character back, and `Return` and `Enter` start a new line.
pub proof fn editing_keys_do_what_they_say(
    s: State,
    keysym: u32,
    utf8: Option<Seq<char>>,
    now: u64,
)
    requires
        s.valid(),
        s.is_editing(),
        s.edit().preedit.len() == 0,
    ensures
        keysym == BACKSPACE && s.edit().typed.len() > 0 ==> only_retyped(
            s,
            s.key_pressed(keysym, utf8, now),
            s.edit().typed.drop_last(),
        ),
        keysym == BACKSPACE && s.edit().typed.len() == 0 ==> only_retyped(
            s,
            s.key_pressed(keysym, utf8, now),
            s.edit().typed,
        ),
        keysym == RETURN || keysym == KP_ENTER ==> only_retyped(
            s,
            s.key_pressed(keysym, utf8, now),
            s.edit().typed.push('\n'),
        ),
{
    lemma_editing_is_edit_mode(s);
    reveal_strlit("\n");
    let typed = s.edit().typed;
    assert(typed + "\n"@ =~= typed.push('\n'));
    let fewer = buffer::without_last(typed, 1);
    if typed.len() > 0 {
        assert(fewer =~= typed.drop_last());
    } else {
        assert(fewer =~= typed);
    }
    lemma_retyped(s, TextOverlayView { typed: typed + "\n"@, ..s.edit() });
    lemma_retyped(s, TextOverlayView { typed: fewer, ..s.edit() });
}

/// Keys are pressed one after another, each with the text it types.
pub open spec fn keys_pressed(s: State, keys: Seq<(u32, Seq<char>)>, now: u64) -> State
    decreases keys.len(),
{
    if keys.len() == 0 {
        s
    } else {
        keys_pressed(s, keys.drop_last(), now).key_pressed(keys.last().0, Some(keys.last().1), now)
    }
}

/// What the keys say, one after another.
pub open spec fn said(keys: Seq<(u32, Seq<char>)>) -> Seq<char>
    decreases keys.len(),
{
    if keys.len() == 0 { Seq::empty() } else { said(keys.drop_last()) + keys.last().1 }
}

/// Typing key by key puts what the keys say, in their order, behind what was there.
pub proof fn typing_adds_up(s: State, keys: Seq<(u32, Seq<char>)>, now: u64)
    requires
        s.valid(),
        s.is_editing(),
        s.edit().preedit.len() == 0,
        forall|i: int| 0 <= i < keys.len() ==> is_printable((#[trigger] keys[i]).0),
    ensures
        only_retyped(s, keys_pressed(s, keys, now), s.edit().typed + said(keys)),
    decreases keys.len(),
{
    if keys.len() == 0 {
        assert(s.edit().typed + said(keys) =~= s.edit().typed);
    } else {
        let before = keys.drop_last();
        assert forall|i: int| 0 <= i < before.len() implies is_printable((#[trigger] before[i]).0) by {
            assert(is_printable(keys[i].0));
        }
        typing_adds_up(s, before, now);
        let t = keys_pressed(s, before, now);
        let (keysym, u) = keys.last();
        assert(is_printable(keys[keys.len() - 1].0));
        a_key_types_its_text(t, keysym, u, now);
        assert(s.edit().typed + said(before) + u =~= s.edit().typed + said(keys));
    }
}

/// The text box that an edit leaves: as it was when the edit began, with what was typed.
pub open spec fn left_box(edit: TextOverlayView) -> TextItemView {
    TextItemView {
        x: edit.item.x,
        y: edit.item.y,
        color: edit.item.color,
        size: edit.item.size,
        text: edit.typed,
    }
}

/// `Esc` ends the edit and leaves what was typed in the document: in the place of the box that
/// was edited, or as the last box of the output. The strokes and all other outputs stay as they
/// are. What the input method had not finished is not in it.
pub proof fn escape_leaves_what_was_typed(
    s: State,
    utf8: Option<Seq<char>>,
    now: u64,
    other: Seq<char>,
)
    requires
        s.valid(),
        s.is_editing(),
        s.edit().typed.len() > 0,
    ensures
        ({
            let t = s.key_pressed(ESCAPE, utf8, now);
            let bucket = s.outputs[s.edit_at()].bucket();
            let (a, b) = (
                document::annotations_of(s.doc, bucket),
                document::annotations_of(t.doc, bucket),
            );
            let index = s.edit().index;
            &&& index is Some && index->0 < a.texts.len() ==> b.texts == a.texts.update(
                index->0 as int,
                left_box(s.edit()),
            )
            &&& !(index is Some && index->0 < a.texts.len()) ==> b.texts == a.texts.push(
                left_box(s.edit()),
            )
            &&& b.strokes == a.strokes
            &&& other != bucket ==> document::annotations_of(t.doc, other)
                == document::annotations_of(s.doc, other)
            &&& t.mode == Mode::Edit
            &&& t.valid()
            &&& !t.is_editing()
        }),
{
    lemma_editing_is_edit_mode(s);
    laws::finishing_an_edit_keeps_what_was_typed(s, now);
    session::ending_the_edit_keeps_valid(s, now);
    assert(s.key_pressed(ESCAPE, utf8, now) == s.edit_ended(now));
}

/// A click with the text tool edits the first box under it, with its text as what was typed so
/// far; where there is none it begins a box with its corner at the click, in the set colour and
/// size, with nothing in it.
pub proof fn a_click_edits_the_box_under_it(s: State, id: u32, x: i32, y: i32, now: u64)
    requires
        s.valid(),
        s.has(id),
        s.mode == Mode::Edit,
        s.tool == Tool::Text,
        document::annotations_of(
            s.pointed(events::at_pointer(id, x, y, PointerKind::Press(events::LEFT)), now).doc,
            s.output(id).bucket(),
        ).texts.len() <= usize::MAX,
    ensures
        ({
            let t = s.pointed(events::at_pointer(id, x, y, PointerKind::Press(events::LEFT)), now);
            let texts = document::annotations_of(t.doc, s.output(id).bucket()).texts;
            let edit = t.edit();
            &&& t.valid()
            &&& t.mode == Mode::Edit
            &&& t.is_editing()
            &&& t.outputs[t.edit_at()].id == id
            &&& t.outputs[t.edit_at()].bucket() == s.output(id).bucket()
            &&& edit.preedit.len() == 0
            &&& edit.index matches Some(i) ==> i < texts.len() && texts[i as int].bounds().holds(
                x as int,
                y as int,
            ) && (forall|j: int|
                0 <= j < i ==> !(#[trigger] texts[j]).bounds().holds(x as int, y as int))
                && edit.item == texts[i as int] && edit.typed == texts[i as int].text
            &&& edit.index is None ==> {
                &&& forall|j: int|
                    0 <= j < texts.len() ==> !(#[trigger] texts[j]).bounds().holds(
                        x as int,
                        y as int,
                    )
                &&& edit.item == (TextItemView {
                    x,
                    y,
                    color: PALETTE@[s.color_idx as int]@,
                    size: s.text_size,
                    text: Seq::empty(),
                })
                &&& edit.typed.len() == 0
            }
        }),
{
    let event = events::at_pointer(id, x, y, PointerKind::Press(events::LEFT));
    let t = s.pointed(event, now);
    let k = s.at(id);
    assert(s.outputs[k].id == id);
    session::ending_the_edit_keeps_valid(s, now);
    let ended = s.edit_ended(now);
    session::committing_strokes_keeps_valid(ended, now);
    let clean = ended.strokes_committed(now);
    assert(ended.outputs[k].id == id);
    assert(clean.outputs[k].id == id);
    session::lemma_at(clean, k);
    laws::pointer_events_keep_the_session_valid(s, event, now);
    assert(t.outputs[k].is_editing());
    session::lemma_edit_at(t, k);
    let a = document::annotations_of(clean.doc, s.output(id).bucket());
    canvas::lemma_text_at(a, x as int, y as int, 0);
}

/// The whole of placing a text box: a click with the text tool where no box is, keys that say
/// something, and `Esc` leave one new box as the last one of the output, with its corner at the
/// click, in the set colour and size, and with exactly what the keys said as its text.
pub proof fn placing_a_box_leaves_what_the_keys_said(
    s: State,
    id: u32,
    x: i32,
    y: i32,
    keys: Seq<(u32, Seq<char>)>,
    now: u64,
)
    requires
        s.valid(),
        s.has(id),
        s.mode == Mode::Edit,
        s.tool == Tool::Text,
        forall|i: int| 0 <= i < keys.len() ==> is_printable((#[trigger] keys[i]).0),
        said(keys).len() > 0,
        ({
            let t = s.pointed(events::at_pointer(id, x, y, PointerKind::Press(events::LEFT)), now);
            let texts = document::annotations_of(t.doc, s.output(id).bucket()).texts;
            texts.len() <= usize::MAX && forall|j: int|
                0 <= j < texts.len() ==> !(#[trigger] texts[j]).bounds().holds(x as int, y as int)
        }),
    ensures
        ({
            let clicked = s.pointed(
                events::at_pointer(id, x, y, PointerKind::Press(events::LEFT)),
                now,
            );
            let t = keys_pressed(clicked, keys, now).key_pressed(ESCAPE, None, now);
            let (a, b) = (
                document::annotations_of(clicked.doc, s.output(id).bucket()),
                document::annotations_of(t.doc, s.output(id).bucket()),
            );
            &&& b.texts == a.texts.push(
                TextItemView {
                    x,
                    y,
                    color: PALETTE@[s.color_idx as int]@,
                    size: s.text_size,
                    text: said(keys),
                },
            )
            &&& b.strokes == a.strokes
            &&& !t.is_editing()
            &&& t.mode == Mode::Edit
        }),
{
    let clicked = s.pointed(events::at_pointer(id, x, y, PointerKind::Press(events::LEFT)), now);
    a_click_edits_the_box_under_it(s, id, x, y, now);
    if clicked.edit().index is Some {
        let i = clicked.edit().index->0;
        let texts = document::annotations_of(clicked.doc, s.output(id).bucket()).texts;
        assert(!texts[i as int].bounds().holds(x as int, y as int));
    }
    typing_adds_up(clicked, keys, now);
    let typed = keys_pressed(clicked, keys, now);
    assert(clicked.edit().typed + said(keys) =~= said(keys));
    escape_leaves_what_was_typed(typed, None, now, Seq::empty());
}

/// The batch of the input method is empty.
pub open spec fn has_no_batch(s: State) -> bool {
    s.im_preedit is None && s.im_commit.len() == 0 && s.im_delete is None
}

/// A text of the input method, empty where it sent none.
pub open spec fn sent(text: Option<String>) -> Seq<char> {
    match text {
        Some(t) => t@,
        None => Seq::empty(),
    }
}

/// A batch of the input method puts what it commits behind what was typed, shows its preedit, and
/// shows none where it carried none. Nothing happens before the batch is done, and afterwards it
/// is empty again.
pub proof fn a_batch_types_what_it_commits(
    s: State,
    preedit: Option<String>,
    first: Option<String>,
    second: Option<String>,
)
    requires
        s.valid(),
        s.is_editing(),
        has_no_batch(s),
    ensures
        ({
            let shown = s.im_event(TextInputEvent::Preedit(preedit));
            let once = shown.im_event(TextInputEvent::Commit(first));
            let twice = once.im_event(TextInputEvent::Commit(second));
            let t = twice.im_event(TextInputEvent::Done);
            &&& twice.outputs == s.outputs
            &&& twice.doc == s.doc
            &&& t.valid()
            &&& t.is_editing()
            &&& t.edit_at() == s.edit_at()
            &&& t.edit().typed == s.edit().typed + sent(first) + sent(second)
            &&& t.edit().preedit == sent(preedit)
            &&& t.edit().item == s.edit().item
            &&& t.edit().index == s.edit().index
            &&& t.doc == s.doc
            &&& has_no_batch(t)
        }),
{
    let shown = s.im_event(TextInputEvent::Preedit(preedit));
    let once = shown.im_event(TextInputEvent::Commit(first));
    let twice = once.im_event(TextInputEvent::Commit(second));
    assert(twice.outputs == s.outputs);
    laws::input_method_events_keep_the_session_valid(s, TextInputEvent::Preedit(preedit));
    laws::input_method_events_keep_the_session_valid(shown, TextInputEvent::Commit(first));
    laws::input_method_events_keep_the_session_valid(once, TextInputEvent::Commit(second));
    let next = twice.batch_dropped();
    let typed = s.edit().typed;
    assert(twice.im_commit =~= sent(first) + sent(second));
    assert(typed + twice.im_commit =~= typed + sent(first) + sent(second));
    lemma_editing_is_edit_mode(s);
    lemma_same_edit(s, next);
    lemma_retyped(
        next,
        TextOverlayView {
            typed: typed + twice.im_commit,
            preedit: sent(preedit),
            ..s.edit()
        },
    );
}

proof fn lemma_same_edit(s: State, t: State)
    requires
        s.outputs == t.outputs,
        s.is_editing(),
    ensures
        t.is_editing(),
        t.edit_at() == s.edit_at(),
        t.edit() == s.edit(),
{
}

/// Where the input method asks to delete so many bytes before the cursor, those of its preedit
/// aside, what is left is the longest beginning of the text that is shorter by as many.
pub proof fn a_batch_deletes_before_the_cursor(
    s: State,
    preedit: Option<String>,
    before: u32,
    after: u32,
)
    requires
        s.valid(),
        s.is_editing(),
        has_no_batch(s),
    ensures
        ({
            let asked = s.im_event(TextInputEvent::Preedit(preedit)).im_event(
                TextInputEvent::DeleteSurrounding { before, after },
            );
            let t = asked.im_event(TextInputEvent::Done);
            let (typed, left) = (s.edit().typed, t.edit().typed);
            let shown = text::utf8_len(sent(preedit));
            let bytes = if before >= shown { before - shown } else { 0 };
            &&& t.is_editing()
            &&& left.len() <= typed.len()
            &&& left == typed.take(left.len() as int)
            &&& bytes <= text::utf8_len(typed) ==> text::utf8_len(left) + bytes
                <= text::utf8_len(typed)
            &&& bytes >= text::utf8_len(typed) ==> left.len() == 0
            &&& left.len() < typed.len() ==> text::utf8_len(typed.take(left.len() as int + 1))
                + bytes > text::utf8_len(typed)
            &&& t.edit().preedit == sent(preedit)
            &&& t.doc == s.doc
        }),
{
    let shown = s.im_event(TextInputEvent::Preedit(preedit));
    let asked = shown.im_event(TextInputEvent::DeleteSurrounding { before, after });
    laws::input_method_events_keep_the_session_valid(s, TextInputEvent::Preedit(preedit));
    laws::input_method_events_keep_the_session_valid(
        shown,
        TextInputEvent::DeleteSurrounding { before, after },
    );
    let next = asked.batch_dropped();
    lemma_editing_is_edit_mode(s);
    lemma_same_edit(s, next);
    lemma_same_edit(s, asked);
    let typed = s.edit().typed;
    let none = Seq::<char>::empty();
    assert(text::utf8_len(none) == 0) by {
        text::lemma_encode_concat(none, none);
        assert(none + none =~= none);
    }
    let spared = text::utf8_len(sent(preedit));
    let bytes = if before >= spared { before - spared } else { 0 };
    let kept = buffer::without_last_bytes(typed, bytes);
    let room = if bytes <= text::utf8_len(typed) { text::utf8_len(typed) - bytes } else { 0 };
    text::lemma_chars_within(typed, room);
    let n = text::chars_within(typed, room) as int;
    assert(kept == typed.take(n));
    assert(kept + asked.im_commit =~= kept);
    if bytes >= text::utf8_len(typed) && n > 0 {
        buffer::lemma_longer_prefix_is_longer(typed, 0, n);
        assert(typed.take(0) =~= none);
    }
    lemma_retyped(next, TextOverlayView { typed: kept, preedit: sent(preedit), ..s.edit() });
}

/// Without a text box to type into, a batch is dropped, and so it is when the input method comes
/// or goes.
pub proof fn a_batch_without_a_box_is_dropped(s: State, event: TextInputEvent)
    requires
        event is Enter || event is Leave || (event is Done && !s.is_editing()),
    ensures
        s.im_event(event).outputs == s.outputs,
        s.im_event(event).doc == s.doc,
        has_no_batch(s.im_event(event)),
{
}

/// The input method is told of the text box being edited: that it is, where it was not told
/// before, its text, and the byte the cursor stands at, which is the end of the text.
pub open spec fn told_of_the_edit(s: State, t: State) -> bool {
    s.text_input && t.is_editing() ==> {
        &&& t.text_input_enabled
        &&& t.requests.len() > 0
        &&& t.requests.last() == RequestView::UpdateTextInput {
            enable: !s.text_input_enabled,
            text: t.edit().typed,
            cursor: vstd::utf8::encode_utf8(t.edit().typed).len(),
        }
    }
}

/// The input method is told that no text box is edited any more, where it was told of one.
pub open spec fn told_of_no_edit(s: State, t: State) -> bool {
    s.text_input && s.text_input_enabled && !t.is_editing() ==> {
        &&& !t.text_input_enabled
        &&& t.requests.len() > 0
        &&& t.requests.last() == RequestView::DisableTextInput
    }
}

/// The input method is told of every text that a key types, and that the edit is over once `Esc`
/// ended it.
pub proof fn the_input_method_is_told_what_is_typed(
    s: State,
    keysym: u32,
    u: Seq<char>,
    utf8: Option<Seq<char>>,
    now: u64,
)
    requires
        s.valid(),
        s.is_editing(),
        s.edit().preedit.len() == 0,
    ensures
        keysym != ESCAPE ==> told_of_the_edit(s, s.key_pressed(keysym, Some(u), now)),
        told_of_no_edit(s, s.key_pressed(ESCAPE, utf8, now)),
        !s.key_pressed(ESCAPE, utf8, now).is_editing(),
{
    lemma_editing_is_edit_mode(s);
    session::ending_the_edit_keeps_valid(s, now);
    if is_printable(keysym) {
        let edit = TextOverlayView { typed: s.edit().typed + u, ..s.edit() };
        lemma_retyped(s, edit);
        lemma_retyping_tells(s, edit);
    } else if keysym != ESCAPE {
        let fewer = TextOverlayView {
            typed: buffer::without_last(s.edit().typed, 1),
            ..s.edit()
        };
        let more = TextOverlayView { typed: s.edit().typed + "\n"@, ..s.edit() };
        lemma_retyped(s, fewer);
        lemma_retyping_tells(s, fewer);
        lemma_retyped(s, more);
        lemma_retyping_tells(s, more);
    }
}

proof fn lemma_retyping_tells(s: State, edit: TextOverlayView)
    requires
        s.valid(),
        s.is_editing(),
    ensures
        told_of_the_edit(s, s.retyped(edit)),
{
    let k = s.edit_at();
    assert(s.outputs[k].is_editing());
    lemma_retyped(s, edit);
    let r = State {
        outputs: s.outputs.update(k, s.outputs[k].with_text(Some(edit)).marked()),
        dirty: true,
        ..s
    };
    assert(r.outputs[k].is_editing());
    assert(s.retyped(edit) == r.synced());
    lemma_same_edit(r, s.retyped(edit));
}

/// `Esc` takes a box away that was emptied, and a new box that nothing was typed into leaves no
/// trace; every other annotation stays as it is.
pub proof fn escape_leaves_no_empty_box(
    s: State,
    utf8: Option<Seq<char>>,
    now: u64,
    other: Seq<char>,
)
    requires
        s.valid(),
        s.is_editing(),
        s.edit().typed.len() == 0,
    ensures
        ({
            let t = s.key_pressed(ESCAPE, utf8, now);
            let bucket = s.outputs[s.edit_at()].bucket();
            let (a, b) = (
                document::annotations_of(s.doc, bucket),
                document::annotations_of(t.doc, bucket),
            );
            let index = s.edit().index;
            &&& index is Some && index->0 < a.texts.len() ==> b.texts == a.texts.remove(
                index->0 as int,
            )
            &&& !(index is Some && index->0 < a.texts.len()) ==> t.doc == s.doc && t.deadline
                == s.deadline
            &&& b.strokes == a.strokes
            &&& other != bucket ==> document::annotations_of(t.doc, other)
                == document::annotations_of(s.doc, other)
            &&& t.mode == Mode::Edit
            &&& !t.is_editing()
        }),
{
    lemma_editing_is_edit_mode(s);
    laws::empty_boxes_are_dropped(s, other, now);
    session::ending_the_edit_keeps_valid(s, now);
    assert(s.key_pressed(ESCAPE, utf8, now) == s.edit_ended(now));
}

/// A command that locks, and a press of the left button while no stroke is in progress, leave in
/// the document what `Esc` leaves of the text box being edited.
pub proof fn locking_and_clicking_leave_what_escape_leaves(
    s: State,
    id: u32,
    x: i32,
    y: i32,
    utf8: Option<Seq<char>>,
    now: u64,
)
    requires
        s.valid(),
        s.is_editing(),
        forall|i: int|
            0 <= i < s.outputs.len() ==> (#[trigger] s.outputs[i]).overlay.stroke is None,
    ensures
        ({
            let escaped = s.key_pressed(ESCAPE, utf8, now);
            let event = events::at_pointer(id, x, y, PointerKind::Press(events::LEFT));
            &&& s.commanded(Some(Command::Lock), now).doc == escaped.doc
            &&& s.commanded(Some(Command::Toggle), now).doc == escaped.doc
            &&& s.commanded(Some(Command::Lock), now).deadline == escaped.deadline
            &&& s.pointed(event, now).doc == escaped.doc
            &&& s.pointed(event, now).deadline == escaped.deadline
        }),
{
    lemma_editing_is_edit_mode(s);
    let ended = s.edit_ended(now);
    assert forall|i: int| 0 <= i < ended.outputs.len() implies (
    #[trigger] ended.outputs[i]).overlay.stroke is None by {
        assert(s.outputs[i].overlay.stroke is None);
    }
    laws::lemma_nothing_drawn(ended.doc, ended.outputs, ended.outputs.len() as int);
}

/// The input method is told of the box that a click with the text tool begins to edit.
pub proof fn the_input_method_is_told_of_a_new_edit(s: State, id: u32, x: i32, y: i32, now: u64)
    requires
        s.valid(),
        s.has(id),
        s.mode == Mode::Edit,
        s.tool == Tool::Text,
        s.text_input,
    ensures
        ({
            let t = s.pointed(events::at_pointer(id, x, y, PointerKind::Press(events::LEFT)), now);
            &&& t.is_editing()
            &&& t.text_input_enabled
            &&& t.requests.len() > 0
            &&& t.requests.last() == RequestView::UpdateTextInput {
                enable: true,
                text: t.edit().typed,
                cursor: vstd::utf8::encode_utf8(t.edit().typed).len(),
            }
        }),
{
    let event = events::at_pointer(id, x, y, PointerKind::Press(events::LEFT));
    let t = s.pointed(event, now);
    let k = s.at(id);
    assert(s.outputs[k].id == id);
    session::ending_the_edit_keeps_valid(s, now);
    let ended = s.edit_ended(now);
    session::committing_strokes_keeps_valid(ended, now);
    let clean = ended.strokes_committed(now);
    assert(ended.outputs[k].id == id);
    assert(clean.outputs[k].id == id);
    session::lemma_at(clean, k);
    let committed = s.edit_committed(now);
    assert(!committed.is_editing()) by {
        assert forall|i: int| 0 <= i < committed.outputs.len() implies !(
        #[trigger] committed.outputs[i]).is_editing() by {}
    }
    let begun = clean.with_output(
        id,
        clean.output(id).with_text(Some(clean.edit_for(id, x, y))).marked(),
    ).touched();
    assert(begun.outputs[k].is_editing());
    assert(t == begun.synced());
    lemma_same_edit(begun, t);
}

/// The input method is told of the text that its own batch left in the box being edited.
pub proof fn the_input_method_is_told_of_its_batch(s: State)
    requires
        s.valid(),
        s.is_editing(),
    ensures
        s.im_event(TextInputEvent::Done).is_editing(),
        told_of_the_edit(s, s.im_event(TextInputEvent::Done)),
{
    let t = s.im_event(TextInputEvent::Done);
    let next = s.batch_dropped();
    let k = s.edit_at();
    assert(s.outputs[k].is_editing());
    assert(next.outputs[k].is_editing());
    session::lemma_edit_at(next, k);
    assert(next.valid());
    let edit = TextOverlayView {
        typed: t.outputs[k].overlay.text->0.typed,
        preedit: t.outputs[k].overlay.text->0.preedit,
        ..s.edit()
    };
    assert(t == next.retyped(edit));
    lemma_retyped(next, edit);
    lemma_retyping_tells(next, edit);
}

/// Once `Esc` ended an edit its output shows neither the box being edited nor the eraser marker,
/// and is repainted whole; a stroke in progress there goes on, and the other outputs stay as they
/// are.
pub proof fn an_ended_edit_is_repainted(s: State, utf8: Option<Seq<char>>, now: u64, i: int)
    requires
        s.valid(),
        s.is_editing(),
        0 <= i < s.outputs.len(),
    ensures
        ({
            let t = s.key_pressed(ESCAPE, utf8, now);
            let k = s.edit_at();
            &&& t.outputs.len() == s.outputs.len()
            &&& t.outputs[k].overlay.text is None
            &&& t.outputs[k].overlay.eraser is None
            &&& t.outputs[k].overlay.stroke == s.outputs[k].overlay.stroke
            &&& t.outputs[k].overlay.hint == s.outputs[k].overlay.hint
            &&& t.outputs[k].dirty && t.dirty
            &&& i != k ==> t.outputs[i] == s.outputs[i]
            &&& t.tool == s.tool && t.color_idx == s.color_idx
            &&& t.pen_width == s.pen_width && t.text_size == s.text_size
            &&& t.keyboard_focus == s.keyboard_focus
        }),
{
    lemma_editing_is_edit_mode(s);
    let k = s.edit_at();
    if i != k {
        assert(!(s.outputs[i].is_editing() && s.outputs[k].is_editing()));
    }
    assert(s.key_pressed(ESCAPE, utf8, now) == s.edit_ended(now));
}

/// The input method is told of the text box being edited as of a new one.
pub open spec fn told_anew(s: State, t: State) -> bool {
    s.text_input ==> {
        &&& t.text_input_enabled
        &&& t.requests == s.requests.push(
            RequestView::UpdateTextInput {
                enable: true,
                text: s.edit().typed,
                cursor: vstd::utf8::encode_utf8(s.edit().typed).len(),
            },
        )
    }
}

/// Where the keyboard focus comes to a surface while a text box is edited and the edit goes on,
/// and where the input method comes to it, the input method is told of the box as of a new one.
pub proof fn the_input_method_is_told_again_after_the_focus_came(
    s: State,
    id: Option<u32>,
    now: u64,
)
    requires
        s.valid(),
        s.is_editing(),
    ensures
        s.keyboard_focus is None || s.keyboard_focus == id ==> told_anew(s, s.entered(id, now)),
        told_anew(s, s.im_event(TextInputEvent::Enter)),
        s.im_event(TextInputEvent::Enter).outputs == s.outputs,
        s.im_event(TextInputEvent::Enter).doc == s.doc,
{
    let k = s.edit_at();
    assert(s.outputs[k].is_editing());
    let r = State { keyboard_focus: id, text_input_enabled: false, ..s };
    let e = State { text_input_enabled: false, ..s.batch_dropped() };
    assert(r.outputs[k].is_editing());
    assert(e.outputs[k].is_editing());
    session::lemma_edit_at(s, k);
    assert(r.valid() && e.valid());
    session::lemma_edit_at(r, k);
    session::lemma_edit_at(e, k);
}

/// What the input method says of its batch is put by until the batch is done: the last preedit,
/// or that there is none, all that is committed, in order, and the last deletion. Nothing else
/// changes.
pub proof fn a_batch_is_put_by(s: State, said: String, before: u32, after: u32)
    ensures
        s.im_event(TextInputEvent::Preedit(Some(said))) == (State {
            im_preedit: Some(said@),
            ..s
        }),
        s.im_event(TextInputEvent::Preedit(None)) == (State { im_preedit: None, ..s }),
        s.im_event(TextInputEvent::Commit(Some(said))) == (State {
            im_commit: s.im_commit + said@,
            ..s
        }),
        s.im_event(TextInputEvent::Commit(None)) == s,
        s.im_event(TextInputEvent::DeleteSurrounding { before, after }) == (State {
            im_delete: Some((before, after)),
            ..s
        }),
        s.im_event(TextInputEvent::Other) == s,
        !s.im_event(TextInputEvent::Leave).text_input_enabled,
        s.im_event(TextInputEvent::Leave).outputs == s.outputs,
        s.im_event(TextInputEvent::Leave).doc == s.doc,
        s.im_event(TextInputEvent::Leave).requests == s.requests,
{
}

} // verus!
