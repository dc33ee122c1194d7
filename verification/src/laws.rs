//! What holds of every session.

use vstd::prelude::*;

use crate::app::{
    BufferChoice, Command, Mode, PointerEvent, PointerKind, TextInputEvent, Tool, BTN_LEFT,
};
use crate::canvas::{AnnotationsView, StrokeView, TextItemView};
use crate::damage;
use crate::document;
use crate::document::DocView;
use crate::geometry::Rect;
use crate::input;
use crate::overlay::{OverlayView, TextOverlayView};
use crate::session;
use crate::session::{OutputView, State};
use crate::store;

verus! {

proof fn lemma_nothing_typed(doc: DocView, outputs: Seq<OutputView>, n: int)
    requires
        n <= outputs.len(),
        forall|i: int|
            0 <= i < n ==> !(#[trigger] outputs[i]).edit_changes(
                session::all_typed(doc, outputs, i),
            ),
    ensures
        session::all_typed(doc, outputs, n) == doc,
    decreases n,
{
    if n > 0 {
        lemma_nothing_typed(doc, outputs, n - 1);
    }
}

proof fn lemma_one_typed(doc: DocView, outputs: Seq<OutputView>, k: int, n: int)
    requires
        0 <= k < n <= outputs.len(),
        forall|i: int| 0 <= i < n && i != k ==> !(#[trigger] outputs[i]).is_editing(),
    ensures
        session::all_typed(doc, outputs, n) == outputs[k].typed_into(doc),
    decreases n,
{
    if n - 1 == k {
        lemma_nothing_typed(doc, outputs, k);
    } else {
        lemma_one_typed(doc, outputs, k, n - 1);
    }
}

pub proof fn lemma_nothing_drawn(doc: DocView, outputs: Seq<OutputView>, n: int)
    requires
        n <= outputs.len(),
        forall|i: int| 0 <= i < n ==> !(#[trigger] outputs[i]).has_drawn(),
    ensures
        session::all_drawn(doc, outputs, n) == doc,
    decreases n,
{
    if n > 0 {
        lemma_nothing_drawn(doc, outputs, n - 1);
    }
}

proof fn lemma_drawing_keeps_texts(doc: DocView, outputs: Seq<OutputView>, n: int, bucket: Seq<char>)
    requires
        n <= outputs.len(),
    ensures
        document::annotations_of(session::all_drawn(doc, outputs, n), bucket).texts
            == document::annotations_of(doc, bucket).texts,
    decreases n,
{
    if n > 0 {
        lemma_drawing_keeps_texts(doc, outputs, n - 1, bucket);
    }
}

/// Typing into the text box being edited keeps the state valid.
pub proof fn lemma_retyping_keeps_valid(s: State, edit: TextOverlayView)
    requires
        s.valid(),
        s.is_editing(),
    ensures
        s.retyped(edit).valid(),
{
    let i = s.edit_at();
    assert(s.outputs[i].is_editing());
    session::replacing_an_output_keeps_valid(s, i, s.outputs[i].with_text(Some(edit)).marked());
}

/// No key, whatever it types and whenever, makes a session invalid: the settings stay in bounds,
/// every hint stays up to date, and at most one text box is edited.
pub proof fn keys_keep_the_session_valid(s: State, keysym: u32, utf8: Option<Seq<char>>, now: u64)
    requires
        s.valid(),
    ensures
        s.key_pressed(keysym, utf8, now).valid(),
{
    session::ending_the_edit_keeps_valid(s, now);
    if s.mode == Mode::Edit && s.is_editing() {
        assert forall|edit: TextOverlayView| s.retyped(edit).valid() by {
            lemma_retyping_keeps_valid(s, edit);
        }
    } else if s.mode == Mode::Edit {
        session::switching_the_mode_keeps_valid(s, Mode::Locked, now);
        if input::tool_of(keysym) is Some {
            let tool = input::tool_of(keysym)->0;
            session::refreshing_the_hints_keeps_valid(State { tool, ..s.edit_ended(now) });
        }
        if input::color_of(keysym) is Some {
            let color_idx = input::color_of(keysym)->0;
            session::refreshing_the_hints_keeps_valid(State { color_idx, ..s });
        }
        if input::step_of(keysym) is Some {
            let dir = input::step_of(keysym)->0;
            session::refreshing_the_hints_keeps_valid(
                State {
                    text_size: input::clamped(
                        s.text_size + dir * session::TEXT_SIZE_STEP,
                        session::TEXT_SIZE_MIN as int,
                        session::TEXT_SIZE_MAX as int,
                    ) as u32,
                    ..s
                },
            );
            session::refreshing_the_hints_keeps_valid(
                State {
                    pen_width: input::clamped(
                        s.pen_width + dir * session::PEN_WIDTH_STEP,
                        session::PEN_WIDTH_MIN as int,
                        session::PEN_WIDTH_MAX as int,
                    ) as u32,
                    ..s
                },
            );
        }
    }
}

/// No pointer event makes a session invalid.
pub proof fn pointer_events_keep_the_session_valid(s: State, event: PointerEvent, now: u64)
    requires
        s.valid(),
    ensures
        s.pointed(event, now).valid(),
{
    if event.id is Some {
        let id = event.id->0;
        let (x, y) = (event.x, event.y);
        session::ending_the_edit_keeps_valid(s, now);
        session::committing_strokes_keeps_valid(s.edit_ended(now), now);
        let clean = s.edit_ended(now).strokes_committed(now);
        if clean.has(id) {
            let (i, out) = (clean.at(id), clean.output(id));
            let stroke = StrokeView {
                color: clean.color(),
                width: clean.pen_width,
                points: seq![[x, y]],
            };
            if s.mode == Mode::Edit {
                session::replacing_an_output_keeps_valid(
                    clean,
                    i,
                    out.with_stroke(Some(stroke)).marked(),
                );
                session::replacing_an_output_keeps_valid(
                    clean,
                    i,
                    out.with_eraser(Some([x, y])).marked(),
                );
                session::replacing_an_output_keeps_valid(
                    clean,
                    i,
                    out.with_text(Some(clean.edit_for(id, x, y))).marked(),
                );
            }
        }
        if s.has(id) {
            let (i, out) = (s.at(id), s.output(id));
            if s.mode == Mode::Edit {
                if out.overlay.stroke is Some {
                    let longer = StrokeView {
                        points: out.overlay.stroke->0.points.push([x, y]),
                        ..out.overlay.stroke->0
                    };
                    session::replacing_an_output_keeps_valid(
                        s,
                        i,
                        OutputView { transient_dirty: true, ..out.with_stroke(Some(longer)) },
                    );
                }
                session::replacing_an_output_keeps_valid(
                    s,
                    i,
                    OutputView { transient_dirty: true, ..out.with_eraser(Some([x, y])) },
                );
            }
            session::replacing_an_output_keeps_valid(
                s,
                i,
                out.with_stroke(None).with_eraser(None).marked(),
            );
        }
    }
}

/// No word of the input method makes a session invalid.
pub proof fn input_method_events_keep_the_session_valid(s: State, event: TextInputEvent)
    requires
        s.valid(),
    ensures
        s.im_event(event).valid(),
{
    if event is Done && s.is_editing() {
        let next = s.batch_dropped();
        assert(next.outputs[s.edit_at()].is_editing());
        assert forall|edit: TextOverlayView| next.retyped(edit).valid() by {
            lemma_retyping_keeps_valid(next, edit);
        }
    }
}

/// No command makes a session invalid.
pub proof fn commands_keep_the_session_valid(s: State, command: Option<Command>, now: u64)
    requires
        s.valid(),
    ensures
        s.commanded(command, now).valid(),
{
    session::ending_the_edit_keeps_valid(s, now);
    session::switching_the_mode_keeps_valid(s, Mode::Edit, now);
    session::switching_the_mode_keeps_valid(s, Mode::Locked, now);
}

/// While locked, neither a key nor the pointer changes anything but what has to be repainted.
pub proof fn locked_mode_lets_everything_pass(
    s: State,
    keysym: u32,
    utf8: Option<Seq<char>>,
    event: PointerEvent,
    now: u64,
)
    requires
        s.valid(),
        s.mode == Mode::Locked,
    ensures
        s.key_pressed(keysym, utf8, now) == s,
        s.pointed(event, now).doc == s.doc,
        s.pointed(event, now).deadline == s.deadline,
        s.pointed(event, now).mode == s.mode,
        s.pointed(event, now).tool == s.tool,
        s.pointed(event, now).color_idx == s.color_idx,
        s.pointed(event, now).requests == s.requests,
        s.pointed(event, now).outputs.len() == s.outputs.len(),
        forall|i: int|
            0 <= i < s.outputs.len() ==> (#[trigger] s.pointed(event, now).outputs[i]).overlay
                == s.outputs[i].overlay,
{
    if event.id is Some && s.has(event.id->0) {
        let out = s.output(event.id->0);
        assert(out.overlay == OverlayView::idle(None));
        assert(out.with_stroke(None).with_eraser(None).overlay =~= out.overlay);
    }
}

/// Nothing is shown over the annotations while locked; while editing every output shows the
/// hint of the current tool, colour and size.
pub proof fn the_hint_is_shown_exactly_while_editing(s: State, i: int)
    requires
        s.valid(),
        0 <= i < s.outputs.len(),
    ensures
        s.mode == Mode::Locked ==> s.outputs[i].overlay == OverlayView::idle(None),
        s.mode == Mode::Edit ==> s.outputs[i].overlay.hint == s.current_hint()
            && s.outputs[i].overlay.hint is Some,
{
}

/// Moving the pointer never changes the document, and with the pen it draws nothing unless a
/// press began a stroke.
pub proof fn hovering_draws_nothing(s: State, id: u32, x: i32, y: i32)
    ensures
        s.moved(id, x, y).doc == s.doc,
        s.moved(id, x, y).deadline == s.deadline,
        s.tool == Tool::Pen && (s.has(id) ==> s.output(id).overlay.stroke is None) ==> s.moved(
            id,
            x,
            y,
        ) == s,
        s.tool == Tool::Text ==> s.moved(id, x, y) == s,
{
}

/// `Esc` ends the text edit and stays in edit mode; a second `Esc` locks.
pub proof fn escape_ends_the_edit_then_locks(
    s: State,
    utf8: Option<Seq<char>>,
    now: u64,
    later: u64,
)
    requires
        s.valid(),
        s.mode == Mode::Edit,
    ensures
        ({
            let once = s.key_pressed(input::KEY_ESCAPE, utf8, now);
            let twice = once.key_pressed(input::KEY_ESCAPE, utf8, later);
            &&& s.is_editing() ==> once.mode == Mode::Edit && !once.is_editing() && twice.mode
                == Mode::Locked
            &&& !s.is_editing() ==> once.mode == Mode::Locked
        }),
{
    session::ending_the_edit_keeps_valid(s, now);
}

/// While a text box is edited every key is content: none picks a tool, a colour or a size, and
/// none locks.
pub proof fn keys_are_content_while_editing(
    s: State,
    keysym: u32,
    utf8: Option<Seq<char>>,
    now: u64,
)
    requires
        s.valid(),
        s.is_editing(),
    ensures
        ({
            let t = s.key_pressed(keysym, utf8, now);
            &&& t.mode == s.mode
            &&& t.tool == s.tool
            &&& t.color_idx == s.color_idx
            &&& t.pen_width == s.pen_width
            &&& t.text_size == s.text_size
        }),
{
}

/// With an unfinished string of the input method in the text box, no key but `Esc` does
/// anything.
pub proof fn a_preedit_keeps_keys_away(s: State, keysym: u32, utf8: Option<Seq<char>>, now: u64)
    requires
        s.valid(),
        s.is_editing(),
        s.edit().preedit.len() > 0,
        keysym != input::KEY_ESCAPE,
    ensures
        s.key_pressed(keysym, utf8, now) == s,
{
    assert(s.outputs[s.edit_at()].is_editing());
}

/// Tools, colours and sizes are brush settings: picking one never changes what is drawn already,
/// nor does locking while no text box is edited.
pub proof fn shortcuts_change_no_annotation(
    s: State,
    keysym: u32,
    utf8: Option<Seq<char>>,
    now: u64,
)
    requires
        s.valid(),
        !s.is_editing(),
    ensures
        s.key_pressed(keysym, utf8, now).doc == s.doc,
        s.key_pressed(keysym, utf8, now).deadline == s.deadline,
{
    lemma_ending_no_edit(s, now);
}

pub proof fn lemma_ending_no_edit(s: State, now: u64)
    requires
        forall|i: int| 0 <= i < s.outputs.len() ==> !(#[trigger] s.outputs[i]).is_editing(),
    ensures
        s.edit_ended(now).doc == s.doc,
        s.edit_ended(now).deadline == s.deadline,
{
    lemma_nothing_typed(s.doc, s.outputs, s.outputs.len() as int);
}

/// `[` and `]` only change the active tool's size, and that stays in its range: 1 to 16 logical
/// pixels for the pen, 8 to 72 for text.
pub proof fn sizes_stay_in_their_ranges(s: State, dir: i32)
    requires
        s.valid(),
    ensures
        256 <= s.size_nudged(dir).pen_width <= 16 * 256,
        8 * 256 <= s.size_nudged(dir).text_size <= 72 * 256,
        s.tool == Tool::Text ==> s.size_nudged(dir).pen_width == s.pen_width,
        s.tool != Tool::Text ==> s.size_nudged(dir).text_size == s.text_size,
        s.size_nudged(dir).doc == s.doc,
{
}

/// What a finished text edit leaves in the document: the text that was typed, in a box that is
/// otherwise as it was when the edit began. What the input method had not finished is not in it.
pub proof fn finishing_an_edit_keeps_what_was_typed(s: State, now: u64)
    requires
        s.valid(),
        s.is_editing(),
        s.edit().typed.len() > 0,
    ensures
        ({
            let edit = s.edit();
            let bucket = s.outputs[s.edit_at()].bucket();
            s.edit_ended(now).doc == document::with_text(
                s.doc,
                bucket,
                edit.index,
                TextItemView {
                    x: edit.item.x,
                    y: edit.item.y,
                    color: edit.item.color,
                    size: edit.item.size,
                    text: edit.typed,
                },
            )
        }),
{
    lemma_only_edit_types(s, now);
}

proof fn lemma_only_edit_types(s: State, now: u64)
    requires
        s.valid(),
        s.is_editing(),
    ensures
        0 <= s.edit_at() < s.outputs.len(),
        s.outputs[s.edit_at()].is_editing(),
        session::all_typed(s.doc, s.outputs, s.outputs.len() as int)
            == s.outputs[s.edit_at()].typed_into(s.doc),
        s.edit_committed(now).deadline == s.changed(
            s.outputs[s.edit_at()].edit_changes(s.doc),
            now,
        ).deadline,
{
    let k = s.edit_at();
    assert(s.outputs[k].is_editing());
    assert forall|i: int| 0 <= i < s.outputs.len() && i != k implies !(
    #[trigger] s.outputs[i]).is_editing() by {
        assert(!(s.outputs[i].is_editing() && s.outputs[k].is_editing()));
    }
    lemma_one_typed(s.doc, s.outputs, k, s.outputs.len() as int);
    assert forall|i: int| 0 <= i < s.outputs.len() && i != k implies !(
    #[trigger] s.outputs[i]).edit_changes(session::all_typed(s.doc, s.outputs, i)) by {
        assert(!s.outputs[i].is_editing());
    }
    assert forall|i: int| 0 <= i < k implies !(#[trigger] s.outputs[i]).edit_changes(
        session::all_typed(s.doc, s.outputs, i),
    ) by {}
    lemma_nothing_typed(s.doc, s.outputs, k);
}

/// Empty boxes are dropped: a box of the document that was emptied is gone once the edit ends,
/// which is a change like any other, and everything else stays; a new box that nothing was typed
/// into leaves no trace.
pub proof fn empty_boxes_are_dropped(s: State, other: Seq<char>, now: u64)
    requires
        s.valid(),
        s.is_editing(),
        s.edit().typed.len() == 0,
    ensures
        ({
            let bucket = s.outputs[s.edit_at()].bucket();
            let before = document::annotations_of(s.doc, bucket);
            let after = document::annotations_of(s.edit_ended(now).doc, bucket);
            let index = s.edit().index;
            if index is Some && index->0 < before.texts.len() {
                &&& after.texts == before.texts.remove(index->0 as int)
                &&& after.strokes == before.strokes
                &&& other != bucket ==> document::annotations_of(s.edit_ended(now).doc, other)
                    == document::annotations_of(s.doc, other)
                &&& s.edit_ended(now).deadline == store::deadline_after_change(s.deadline, now)
            } else {
                &&& s.edit_ended(now).doc == s.doc
                &&& s.edit_ended(now).deadline == s.deadline
            }
        }),
{
    lemma_only_edit_types(s, now);
}

/// A click anywhere finishes the edit in progress and keeps what was typed.
pub proof fn a_click_keeps_what_was_typed(s: State, id: u32, x: i32, y: i32, now: u64)
    requires
        s.valid(),
        s.is_editing(),
        s.edit().typed.len() > 0,
    ensures
        ({
            let edit = s.edit();
            let bucket = s.outputs[s.edit_at()].bucket();
            let texts = document::annotations_of(s.pressed(id, x, y, now).doc, bucket).texts;
            texts == document::text_put(
                document::annotations_of(s.doc, bucket),
                edit.index,
                TextItemView { text: edit.typed, ..edit.item },
            ).texts
        }),
{
    lemma_only_edit_types(s, now);
    let ended = s.edit_ended(now);
    let bucket = s.outputs[s.edit_at()].bucket();
    lemma_drawing_keeps_texts(ended.doc, ended.outputs, ended.outputs.len() as int, bucket);
}

/// Editing an existing box changes its text and nothing else: its corner, colour and size stay,
/// its place stays, and so does every other annotation of the output.
pub proof fn an_edited_box_keeps_its_place_and_looks(
    s: State,
    id: u32,
    x: i32,
    y: i32,
    typed: Seq<char>,
    i: int,
)
    requires
        s.has(id),
        ({
            let a = document::annotations_of(s.doc, s.output(id).bucket());
            a.text_at(x as int, y as int, 0) == Some(i) && 0 <= i < a.texts.len() <= usize::MAX
        }),
    ensures
        ({
            let a = document::annotations_of(s.doc, s.output(id).bucket());
            let edit = s.edit_for(id, x, y);
            let after = document::text_put(
                a,
                edit.index,
                TextItemView { text: typed, ..edit.item },
            );
            &&& edit.typed == a.texts[i].text
            &&& after.strokes == a.strokes
            &&& after.texts == a.texts.update(i, TextItemView { text: typed, ..a.texts[i] })
        }),
{
}

/// A new text box has the point that was clicked as its top-left corner, and the colour and the
/// text size that are set.
pub proof fn a_new_box_starts_at_the_click(s: State, id: u32, x: i32, y: i32)
    requires
        s.has(id),
        document::annotations_of(s.doc, s.output(id).bucket()).text_at(x as int, y as int, 0)
            is None,
    ensures
        ({
            let edit = s.edit_for(id, x, y);
            &&& edit.index is None
            &&& edit.item.x == x
            &&& edit.item.y == y
            &&& edit.item.color == s.color()
            &&& edit.item.size == s.text_size
            &&& edit.typed.len() == 0
        }),
{
}

/// A release commits the stroke in progress with the samples as they were taken, and ends it.
pub proof fn a_release_commits_the_stroke_as_sampled(s: State, id: u32, now: u64)
    requires
        s.valid(),
        s.has(id),
        s.output(id).has_drawn(),
        !(s.tool == Tool::Eraser && s.output(id).overlay.eraser is Some),
    ensures
        s.released(id, now).doc == document::with_stroke(
            s.doc,
            s.output(id).bucket(),
            s.output(id).overlay.stroke->0,
        ),
        s.released(id, now).outputs[s.at(id)].overlay.stroke is None,
{
}

/// The samples of a stroke that starts at a point and is drawn along a path: every point of the
/// path that is a pixel or more from the sample before it.
pub open spec fn sampled(from: [i32; 2], path: Seq<(i32, i32)>, n: int) -> Seq<[i32; 2]>
    decreases n,
{
    if n <= 0 {
        seq![from]
    } else {
        let before = sampled(from, path, n - 1);
        let next = [path[n - 1].0, path[n - 1].1];
        if input::apart(before.last(), next) { before.push(next) } else { before }
    }
}

/// The pointer moved to the first `n` points of a path, one after another.
pub open spec fn dragged(s: State, id: u32, path: Seq<(i32, i32)>, n: int) -> State
    decreases n,
{
    if n <= 0 {
        s
    } else {
        dragged(s, id, path, n - 1).moved(id, path[n - 1].0, path[n - 1].1)
    }
}

/// A pen gesture that has come so far: the stroke in progress is on the output at `k`, and the
/// document is as it was.
spec fn drawing(
    s: State,
    k: int,
    id: u32,
    stroke: StrokeView,
    doc: DocView,
    bucket: Seq<char>,
) -> bool {
    &&& s.valid()
    &&& s.mode == Mode::Edit
    &&& s.tool == Tool::Pen
    &&& 0 <= k < s.outputs.len()
    &&& s.outputs[k].id == id
    &&& s.outputs[k].bucket() == bucket
    &&& s.outputs[k].overlay.stroke == Some(stroke)
    &&& s.doc == doc
}

proof fn lemma_dragging_samples(
    s: State,
    k: int,
    id: u32,
    stroke: StrokeView,
    bucket: Seq<char>,
    from: [i32; 2],
    path: Seq<(i32, i32)>,
    n: int,
)
    requires
        stroke.points == seq![from],
        drawing(s, k, id, stroke, s.doc, bucket),
        0 <= n <= path.len(),
    ensures
        drawing(
            dragged(s, id, path, n),
            k,
            id,
            StrokeView { points: sampled(from, path, n), ..stroke },
            s.doc,
            bucket,
        ),
        sampled(from, path, n).len() > 0,
    decreases n,
{
    if n > 0 {
        lemma_dragging_samples(s, k, id, stroke, bucket, from, path, n - 1);
        let before = dragged(s, id, path, n - 1);
        let (x, y) = path[n - 1];
        session::lemma_at(before, k);
        pointer_events_keep_the_session_valid(
            before,
            PointerEvent { id: Some(id), x, y, kind: PointerKind::Motion },
            0,
        );
    }
}

/// A press with the pen while nothing else is going on begins a stroke.
proof fn lemma_pressing_begins_a_stroke(s: State, id: u32, x: i32, y: i32, now: u64)
    requires
        s.valid(),
        s.has(id),
        s.mode == Mode::Edit,
        s.tool == Tool::Pen,
        !s.is_editing(),
        forall|i: int| 0 <= i < s.outputs.len() ==> (#[trigger] s.outputs[i]).overlay.stroke is None,
    ensures
        drawing(
            s.pressed(id, x, y, now),
            s.at(id),
            id,
            StrokeView { color: s.color(), width: s.pen_width, points: seq![[x, y]] },
            s.doc,
            s.output(id).bucket(),
        ),
{
    let k = s.at(id);
    assert(s.outputs[k].id == id);
    lemma_ending_no_edit(s, now);
    session::ending_the_edit_keeps_valid(s, now);
    let ended = s.edit_ended(now);
    assert forall|i: int| 0 <= i < ended.outputs.len() implies (#[trigger] ended.outputs[i])
        == s.outputs[i] by {
        assert(!s.outputs[i].is_editing());
    }
    assert(ended.outputs =~= s.outputs);
    lemma_nothing_drawn(ended.doc, ended.outputs, ended.outputs.len() as int);
    session::committing_strokes_keeps_valid(ended, now);
    let clean = ended.strokes_committed(now);
    assert forall|i: int| 0 <= i < clean.outputs.len() implies (#[trigger] clean.outputs[i])
        == s.outputs[i] by {
        assert(ended.outputs[i].overlay.stroke is None);
    }
    assert(clean.outputs =~= s.outputs);
    session::lemma_at(clean, k);
    session::lemma_at(s, k);
    pointer_events_keep_the_session_valid(
        s,
        PointerEvent { id: Some(id), x, y, kind: PointerKind::Press(BTN_LEFT) },
        now,
    );
}

/// A release ends the stroke in progress: it becomes one of the document.
proof fn lemma_releasing_ends_a_stroke(
    s: State,
    k: int,
    id: u32,
    stroke: StrokeView,
    doc: DocView,
    bucket: Seq<char>,
    now: u64,
)
    requires
        drawing(s, k, id, stroke, doc, bucket),
        stroke.points.len() > 0,
    ensures
        s.released(id, now).doc == document::with_stroke(doc, bucket, stroke),
{
    session::lemma_at(s, k);
}

/// The whole of a pen gesture: a press, any motion and a release leave one new stroke of the set
/// colour and width, with the point of the press and the motion's points a pixel or more apart as
/// its samples.
pub proof fn a_drag_becomes_a_stroke(
    s: State,
    id: u32,
    x: i32,
    y: i32,
    path: Seq<(i32, i32)>,
    now: u64,
    later: u64,
)
    requires
        s.valid(),
        s.has(id),
        s.mode == Mode::Edit,
        s.tool == Tool::Pen,
        !s.is_editing(),
        forall|i: int| 0 <= i < s.outputs.len() ==> (#[trigger] s.outputs[i]).overlay.stroke is None,
    ensures
        dragged(s.pressed(id, x, y, now), id, path, path.len() as int).released(id, later).doc
            == document::with_stroke(
            s.doc,
            s.output(id).bucket(),
            (StrokeView {
                color: s.color(),
                width: s.pen_width,
                points: sampled([x, y], path, path.len() as int),
            }),
        ),
{
    let k = s.at(id);
    let bucket = s.output(id).bucket();
    let begun = s.pressed(id, x, y, now);
    let stroke = StrokeView { color: s.color(), width: s.pen_width, points: seq![[x, y]] };
    lemma_pressing_begins_a_stroke(s, id, x, y, now);
    lemma_dragging_samples(begun, k, id, stroke, bucket, [x, y], path, path.len() as int);
    lemma_releasing_ends_a_stroke(
        dragged(begun, id, path, path.len() as int),
        k,
        id,
        StrokeView { points: sampled([x, y], path, path.len() as int), ..stroke },
        s.doc,
        bucket,
        later,
    );
}

/// A release with the eraser removes what the marker is over, and nothing else.
pub proof fn a_release_erases_what_is_under_the_marker(s: State, id: u32, x: i32, y: i32, now: u64)
    requires
        s.valid(),
        s.has(id),
        s.output(id).overlay.stroke is None,
        s.output(id).overlay.eraser == Some([x, y]),
        s.tool == Tool::Eraser,
    ensures
        s.released(id, now).doc == document::with_erased(s.doc, s.output(id).bucket(), x, y),
        s.released(id, now).outputs[s.at(id)].overlay.eraser is None,
{
    let bucket = s.output(id).bucket();
    if s.doc.dom().contains(bucket) && s.doc[bucket].hit(x, y) is None {
        assert(document::with_erased(s.doc, bucket, x, y) =~= s.doc);
    }
}

/// Plugging, unplugging, renaming, resizing and rescaling outputs never changes the document, so
/// annotations of an output that is gone are kept.
pub proof fn outputs_come_and_go_without_loss(
    s: State,
    id: u32,
    name: Seq<char>,
    scale: u32,
    size: Option<(i32, i32)>,
    w: u32,
    h: u32,
)
    ensures
        s.output_gone(id).doc == s.doc,
        s.output_refreshed(id, name, scale, size).doc == s.doc,
        s.scale_adopted(id, scale).doc == s.doc,
        s.surface_closed(id).doc == s.doc,
        s.surface_configured(id, w, h).doc == s.doc,
        s.surface_created(id, name, scale).doc == s.doc,
        s.buffers_fitted(id).doc == s.doc,
{
}

/// Whatever changes the document also sets a deadline at most a second away.
pub proof fn every_change_is_due_within_a_second(
    s: State,
    keysym: u32,
    utf8: Option<Seq<char>>,
    event: PointerEvent,
    mode: Mode,
    focus: Option<u32>,
    now: u64,
)
    requires
        s.valid(),
        now <= store::LATEST,
    ensures
        s.key_pressed(keysym, utf8, now).doc != s.doc ==> in_time(
            s.key_pressed(keysym, utf8, now).deadline,
            now,
        ),
        s.pointed(event, now).doc != s.doc ==> in_time(s.pointed(event, now).deadline, now),
        s.mode_switched(mode, now).doc != s.doc ==> in_time(
            s.mode_switched(mode, now).deadline,
            now,
        ),
        s.entered(focus, now).doc != s.doc ==> in_time(s.entered(focus, now).deadline, now),
        s.left(focus, now).doc != s.doc ==> in_time(s.left(focus, now).deadline, now),
{
    lemma_ending_is_in_time(s, now);
    let ended = s.edit_ended(now);
    if exists|i: int| 0 <= i < ended.outputs.len() && (#[trigger] ended.outputs[i]).has_drawn() {
    } else {
        lemma_nothing_drawn(ended.doc, ended.outputs, ended.outputs.len() as int);
    }
}

/// Whether a deadline that was set is kept, or brought forward.
pub open spec fn not_put_off(before: Option<u64>, after: Option<u64>) -> bool {
    before is Some ==> after is Some && after->0 <= before->0
}

/// A pending write is never put off: no key, no pointer event, no word of the input method, no
/// focus change, no mode switch and no output that comes or goes moves its deadline back.
pub proof fn a_pending_write_is_never_put_off(
    s: State,
    keysym: u32,
    utf8: Option<Seq<char>>,
    pointer: PointerEvent,
    event: TextInputEvent,
    mode: Mode,
    focus: Option<u32>,
    id: u32,
    name: Seq<char>,
    scale: u32,
    size: Option<(i32, i32)>,
    now: u64,
)
    requires
        now <= store::LATEST,
    ensures
        not_put_off(s.deadline, s.key_pressed(keysym, utf8, now).deadline),
        not_put_off(s.deadline, s.pointed(pointer, now).deadline),
        not_put_off(s.deadline, s.im_event(event).deadline),
        not_put_off(s.deadline, s.mode_switched(mode, now).deadline),
        not_put_off(s.deadline, s.entered(focus, now).deadline),
        not_put_off(s.deadline, s.left(focus, now).deadline),
        not_put_off(s.deadline, s.output_refreshed(id, name, scale, size).deadline),
        not_put_off(s.deadline, s.output_gone(id).deadline),
        not_put_off(s.deadline, s.surface_closed(id).deadline),
{
}

/// A deadline at most a second away.
pub open spec fn in_time(deadline: Option<u64>, now: u64) -> bool {
    deadline is Some && deadline->0 <= now + 1_000_000_000
}

proof fn lemma_ending_is_in_time(s: State, now: u64)
    requires
        now <= store::LATEST,
    ensures
        s.edit_ended(now).doc != s.doc ==> in_time(s.edit_ended(now).deadline, now),
{
    if exists|i: int|
        0 <= i < s.outputs.len() && (#[trigger] s.outputs[i]).edit_changes(
            session::all_typed(s.doc, s.outputs, i),
        ) {
    } else {
        lemma_nothing_typed(s.doc, s.outputs, s.outputs.len() as int);
    }
}

/// `clear` leaves no annotation, and no text edit that could bring one back.
pub proof fn clear_erases_everything(s: State, now: u64)
    requires
        s.valid(),
    ensures
        s.commanded(Some(Command::Clear), now).doc == Map::<
            Seq<char>,
            AnnotationsView,
        >::empty(),
        !s.commanded(Some(Command::Clear), now).is_editing(),
        s.commanded(Some(Command::Clear), now).mode == s.mode,
{
    session::ending_the_edit_keeps_valid(s, now);
    let r = s.commanded(Some(Command::Clear), now);
    assert(r.outputs == s.edit_ended(now).outputs);
    assert forall|i: int| 0 <= i < r.outputs.len() implies !(#[trigger] r.outputs[i]).is_editing() by {
        assert(!s.edit_ended(now).outputs[i].is_editing());
    }
}

/// `toggle` changes the mode and a second one changes it back; `edit` and `lock` lead to their
/// mode from either, and repeating one does nothing.
pub proof fn commands_lead_to_their_mode(s: State, now: u64, later: u64)
    ensures
        s.commanded(Some(Command::Toggle), now).mode != s.mode,
        s.commanded(Some(Command::Toggle), now).commanded(Some(Command::Toggle), later).mode
            == s.mode,
        s.commanded(Some(Command::Edit), now).mode == Mode::Edit,
        s.commanded(Some(Command::Lock), now).mode == Mode::Locked,
        s.commanded(Some(Command::Edit), now).commanded(Some(Command::Edit), later)
            == s.commanded(Some(Command::Edit), now),
        s.commanded(Some(Command::Lock), now).commanded(Some(Command::Lock), later)
            == s.commanded(Some(Command::Lock), now),
        s.commanded(None, now) == s,
{
}

/// Once the input method was told, it is enabled exactly while a text box is edited.
pub proof fn the_input_method_follows_the_edit(s: State)
    requires
        s.text_input,
    ensures
        s.synced().text_input_enabled == s.is_editing(),
        s.synced().synced().text_input_enabled == s.is_editing(),
        s.synced().outputs == s.outputs,
        s.synced().doc == s.doc,
{
}

/// A batch of the input method that carries no preedit ends the one that was there; what it
/// commits stands at the end of the text.
pub proof fn a_batch_without_preedit_clears_it(s: State)
    requires
        s.valid(),
        s.is_editing(),
        s.im_preedit is None,
        s.im_delete is None,
    ensures
        s.batch_applied().is_editing(),
        s.batch_applied().edit().preedit.len() == 0,
        s.batch_applied().edit().typed == s.edit().typed + s.im_commit,
        s.batch_applied().doc == s.doc,
{
    let k = s.edit_at();
    assert(s.outputs[k].is_editing());
    input_method_events_keep_the_session_valid(s, TextInputEvent::Done);
    let r = s.batch_applied();
    assert(r.outputs[k].is_editing());
    session::lemma_edit_at(r, k);
}

/// A frame that was just composed is not composed again on the same buffer until something
/// changes, unless a text box is edited.
pub proof fn an_unchanged_output_is_not_redrawn(s: State, id: u32, idx: usize)
    requires
        s.valid(),
        s.has(id),
        !s.output(id).is_editing(),
    ensures
        s.frame_composed(id, idx).frame_kind(id, idx) is Nothing,
{
    let k = s.at(id);
    let r = s.frame_composed(id, idx);
    session::replacing_an_output_keeps_valid(s, k, r.outputs[k]);
    assert(r.outputs[k].id == id);
    session::lemma_at(r, k);
}

/// While a drag is in progress only a box is repainted: moving the pointer makes the next frame
/// of an output that was up to date a boxed one, on the buffer that holds the previous frame.
pub proof fn a_drag_repaints_only_a_box(s: State, id: u32, x: i32, y: i32, idx: usize)
    requires
        s.valid(),
        s.has(id),
        s.frame_kind(id, idx) is Nothing,
    ensures
        s.moved(id, x, y) == s || s.moved(id, x, y).frame_kind(id, idx) is Boxed,
        s.mode == Mode::Edit && s.tool == Tool::Eraser ==> s.moved(id, x, y).frame_kind(id, idx)
            is Boxed,
{
    let k = s.at(id);
    let r = s.moved(id, x, y);
    pointer_events_keep_the_session_valid(
        s,
        PointerEvent { id: Some(id), x, y, kind: PointerKind::Motion },
        0,
    );
    if r != s {
        assert(r.outputs[k].id == id);
        session::lemma_at(r, k);
    }
}

/// Anything else repaints the whole surface: beginning and ending a gesture, picking another
/// tool, a colour or a size, switching the mode, typing, and a surface with another scale or
/// size.
pub proof fn everything_else_repaints_the_whole_surface(
    s: State,
    id: u32,
    x: i32,
    y: i32,
    tool: Tool,
    color: usize,
    dir: i32,
    mode: Mode,
    scale: u32,
    w: u32,
    h: u32,
    now: u64,
    idx: usize,
)
    requires
        s.valid(),
        s.has(id),
    ensures
        s.mode == Mode::Edit ==> s.pressed(id, x, y, now).frame_kind(id, idx) is Whole,
        s.released(id, now).frame_kind(id, idx) is Whole,
        s.tool != tool ==> s.tool_picked(tool, now).frame_kind(id, idx) is Whole,
        color < 5 ==> s.color_picked(color).frame_kind(id, idx) is Whole,
        s.size_nudged(dir).frame_kind(id, idx) is Whole,
        s.mode != mode ==> s.mode_switched(mode, now).frame_kind(id, idx) is Whole,
        s.output(id).is_editing() ==> s.frame_kind(id, idx) is Whole && s.edit_ended(
            now,
        ).frame_kind(id, idx) is Whole,
        s.output(id).scale != scale ==> s.scale_adopted(id, scale).frame_kind(id, idx) is Whole,
        s.surface_configured(id, w, h).frame_kind(id, idx) is Whole,
        s.all_marked().frame_kind(id, idx) is Whole,
{
    lemma_gestures_repaint_everything(s, id, x, y, now, idx);
    lemma_settings_repaint_everything(s, id, tool, color, dir, now, idx);
    lemma_switching_repaints_everything(s, id, mode, now, idx);
    lemma_surfaces_repaint_everything(s, id, scale, w, h, idx);
}

proof fn lemma_gestures_repaint_everything(
    s: State,
    id: u32,
    x: i32,
    y: i32,
    now: u64,
    idx: usize,
)
    requires
        s.valid(),
        s.has(id),
    ensures
        s.mode == Mode::Edit ==> s.pressed(id, x, y, now).frame_kind(id, idx) is Whole,
        s.released(id, now).frame_kind(id, idx) is Whole,
{
    let k = s.at(id);
    assert(s.outputs[k].id == id);
    session::ending_the_edit_keeps_valid(s, now);
    let ended = s.edit_ended(now);
    assert(ended.outputs[k].id == id);
    session::lemma_at(ended, k);
    if s.mode == Mode::Edit {
        session::committing_strokes_keeps_valid(ended, now);
        let clean = ended.strokes_committed(now);
        assert(clean.outputs[k].id == id);
        session::lemma_at(clean, k);
        let r = s.pressed(id, x, y, now);
        pointer_events_keep_the_session_valid(
            s,
            PointerEvent { id: Some(id), x, y, kind: PointerKind::Press(BTN_LEFT) },
            now,
        );
        assert(r.outputs[k].id == id);
        session::lemma_at(r, k);
    }
    lemma_marked_is_whole(s.released(id, now), k, id, idx);
}

proof fn lemma_settings_repaint_everything(
    s: State,
    id: u32,
    tool: Tool,
    color: usize,
    dir: i32,
    now: u64,
    idx: usize,
)
    requires
        s.valid(),
        s.has(id),
    ensures
        s.tool != tool ==> s.tool_picked(tool, now).frame_kind(id, idx) is Whole,
        color < 5 ==> s.color_picked(color).frame_kind(id, idx) is Whole,
        s.size_nudged(dir).frame_kind(id, idx) is Whole,
{
    let k = s.at(id);
    assert(s.outputs[k].id == id);
    session::ending_the_edit_keeps_valid(s, now);
    let ended = s.edit_ended(now);
    assert(ended.outputs[k].id == id);
    session::lemma_at(ended, k);
    lemma_marked_is_whole(s.color_picked(color), k, id, idx);
    lemma_marked_is_whole(s.size_nudged(dir), k, id, idx);
    lemma_marked_is_whole(s.tool_picked(tool, now), k, id, idx);
}

proof fn lemma_switching_repaints_everything(
    s: State,
    id: u32,
    mode: Mode,
    now: u64,
    idx: usize,
)
    requires
        s.valid(),
        s.has(id),
    ensures
        s.mode != mode ==> s.mode_switched(mode, now).frame_kind(id, idx) is Whole,
        s.output(id).is_editing() ==> s.frame_kind(id, idx) is Whole && s.edit_ended(
            now,
        ).frame_kind(id, idx) is Whole,
{
    let k = s.at(id);
    assert(s.outputs[k].id == id);
    session::ending_the_edit_keeps_valid(s, now);
    let ended = s.edit_ended(now);
    assert(ended.outputs[k].id == id);
    session::lemma_at(ended, k);
    lemma_marked_is_whole(s.mode_switched(mode, now), k, id, idx);
}

proof fn lemma_surfaces_repaint_everything(
    s: State,
    id: u32,
    scale: u32,
    w: u32,
    h: u32,
    idx: usize,
)
    requires
        s.valid(),
        s.has(id),
    ensures
        s.output(id).scale != scale ==> s.scale_adopted(id, scale).frame_kind(id, idx) is Whole,
        s.surface_configured(id, w, h).frame_kind(id, idx) is Whole,
        s.all_marked().frame_kind(id, idx) is Whole,
{
    let k = s.at(id);
    assert(s.outputs[k].id == id);
    lemma_marked_is_whole(s.scale_adopted(id, scale), k, id, idx);
    lemma_marked_is_whole(s.surface_configured(id, w, h), k, id, idx);
    lemma_marked_is_whole(s.all_marked(), k, id, idx);
}

proof fn lemma_marked_is_whole(r: State, k: int, id: u32, idx: usize)
    requires
        0 <= k < r.outputs.len(),
        r.outputs[k].id == id,
        forall|i: int| 0 <= i < r.outputs.len() && i != k ==> (#[trigger] r.outputs[i]).id != id,
    ensures
        r.outputs[k].dirty ==> r.frame_kind(id, idx) is Whole,
{
    assert(r.outputs[r.at(id)].id == id);
}

/// A frame that repaints only a box covers the transient elements of the previous frame and of
/// this one, and everything it paints lies inside the box or apart from it.
pub proof fn a_boxed_frame_covers_what_moved(s: State, id: u32, idx: usize, damage: Rect)
    requires
        s.has(id),
        s.frame_kind(id, idx) is Boxed,
        s.boxes(id).least_settled(s.moved_box(id), damage),
        s.output(id).last_transient is Some ==> s.output(id).last_transient->0.in_range(),
        damage::transient_box(s.output(id).overlay) is Some ==> damage::transient_box(
            s.output(id).overlay,
        )->0.in_range(),
    ensures
        s.output(id).last_transient is Some ==> damage.covers(s.output(id).last_transient->0),
        damage::transient_box(s.output(id).overlay) is Some ==> damage.covers(
            damage::transient_box(s.output(id).overlay)->0,
        ),
        s.boxes(id).settled(damage),
        !s.output(id).is_editing(),
{
}

/// The buffers of a surface are its width times its scale wide, which is what relates the boxes
/// a frame is damaged by to the device pixels it draws.
pub proof fn buffers_are_as_wide_as_their_surface(width: u32, scale: u32)
    requires
        width * scale <= u32::MAX,
    ensures
        256 * session::scaled(width, scale) == (256 * width) as u64 * scale,
{
    assert((256 * width) * scale == 256 * (width * scale)) by (nonlinear_arith);
}

/// The buffer that is picked is free, it is the one that holds the previous frame where that is
/// free, a new one is allocated only where none is free and there is at most one, and the frame
/// waits only where there are two and the compositor holds both.
pub proof fn the_previous_buffer_is_preferred(last: Option<usize>, free: Seq<bool>)
    requires
        free.len() <= usize::MAX,
    ensures
        session::choice_of(last, free) matches BufferChoice::Use(i) ==> i < free.len()
            && free[i as int],
        last is Some && last->0 < free.len() && free[last->0 as int] ==> session::choice_of(
            last,
            free,
        ) == BufferChoice::Use(last->0),
        session::choice_of(last, free) is Wait ==> free.len() >= 2 && forall|i: int|
            0 <= i < free.len() ==> !free[i],
        session::choice_of(last, free) is Allocate ==> free.len() < 2 && forall|i: int|
            0 <= i < free.len() ==> !free[i],
{
    lemma_first_free(free, 0);
}

proof fn lemma_first_free(free: Seq<bool>, from: int)
    requires
        0 <= from <= free.len(),
    ensures
        session::first_free(free, from) matches Some(i) ==> from <= i < free.len() && free[i],
        session::first_free(free, from) is None ==> forall|i: int|
            from <= i < free.len() ==> !free[i],
    decreases free.len() - from,
{
    if from < free.len() && !free[from] {
        lemma_first_free(free, from + 1);
    }
}

} // verus!
