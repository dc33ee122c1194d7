//! What the events of a session are for: what a gesture leaves in the document, what keys type,
//! what the input method and the compositor are told.

use vstd::prelude::*;

use crate::app::{KnownOutput, Mode, PointerEvent, PointerKind, Tool, PALETTE};
use crate::canvas;
use crate::canvas::{AnnotationsView, ItemId, StrokeView};
use crate::damage;
use crate::document;
use crate::document::DocView;
use crate::geometry::Rect;
use crate::laws;
use crate::session;
use crate::session::{OutputView, State};

verus! {

/// The code of the left button.
pub const LEFT: u32 = 272;

/// A pointer event on an output.
pub open spec fn at_pointer(id: u32, x: i32, y: i32, kind: PointerKind) -> PointerEvent {
    PointerEvent { id: Some(id), x, y, kind }
}

/// The annotations an output shows.
pub open spec fn shown(s: State, id: u32) -> AnnotationsView {
    document::annotations_of(s.doc, s.output(id).bucket())
}

/// The annotations with the stroke in progress added, where it has a sample.
pub open spec fn with_drawn(a: AnnotationsView, stroke: Option<StrokeView>) -> AnnotationsView {
    if stroke is Some && stroke->0.points.len() > 0 {
        AnnotationsView { strokes: a.strokes.push(stroke->0), texts: a.texts }
    } else {
        a
    }
}

/// The annotations without the item that was hit.
pub open spec fn with_removed(a: AnnotationsView, item: Option<ItemId>) -> AnnotationsView {
    match item {
        Some(ItemId::Stroke(i)) => AnnotationsView {
            strokes: a.strokes.remove(i as int),
            texts: a.texts,
        },
        Some(ItemId::Text(i)) => AnnotationsView {
            strokes: a.strokes,
            texts: a.texts.remove(i as int),
        },
        None => a,
    }
}

/// When the left button comes up on an output, or the pointer leaves it, the stroke in progress
/// there is in the document, with the eraser the item under the marker is not, and neither a
/// stroke nor a marker is in progress there any more. Everything else stays as it is; where
/// neither happened, nothing is due to be written that was not before.
pub proof fn a_left_release_ends_the_gesture(
    s: State,
    id: u32,
    x: i32,
    y: i32,
    now: u64,
    other: Seq<char>,
)
    requires
        s.valid(),
        s.has(id),
    ensures
        ({
            let t = s.pointed(at_pointer(id, x, y, PointerKind::Release(LEFT)), now);
            let out = s.output(id);
            let drawn = with_drawn(shown(s, id), out.overlay.stroke);
            let after = document::annotations_of(t.doc, out.bucket());
            let marker = out.overlay.eraser;
            &&& s.tool == Tool::Eraser && marker is Some ==> after == with_removed(
                drawn,
                drawn.hit((marker->0)[0], (marker->0)[1]),
            )
            &&& !(s.tool == Tool::Eraser && marker is Some) ==> after == drawn
            &&& other != out.bucket() ==> document::annotations_of(t.doc, other)
                == document::annotations_of(s.doc, other)
            &&& t.outputs.len() == s.outputs.len()
            &&& t.has(id)
            &&& t.output(id).overlay.stroke is None
            &&& t.output(id).overlay.eraser is None
            &&& t.output(id).overlay.text == out.overlay.text
            &&& t.output(id).overlay.hint == out.overlay.hint
            &&& t.output(id).dirty && t.dirty
            &&& (forall|i: int|
                0 <= i < s.outputs.len() && (#[trigger] s.outputs[i]).id != id ==> t.outputs[i]
                    == s.outputs[i])
            &&& t.mode == s.mode && t.tool == s.tool && t.color_idx == s.color_idx
            &&& t.pen_width == s.pen_width && t.text_size == s.text_size
            &&& t.requests == s.requests
            &&& drawn == shown(s, id) && (s.tool != Tool::Eraser || marker is None) ==> t.doc
                == s.doc && t.deadline == s.deadline
            &&& drawn == shown(s, id) && s.tool == Tool::Eraser && marker is Some && drawn.hit(
                (marker->0)[0],
                (marker->0)[1],
            ) is None ==> t.doc == s.doc && t.deadline == s.deadline
            &&& s.pointed(at_pointer(id, x, y, PointerKind::Leave), now) == t
        }),
{
    let event = at_pointer(id, x, y, PointerKind::Release(LEFT));
    let t = s.pointed(event, now);
    let k = s.at(id);
    let out = s.output(id);
    assert(s.outputs[k].id == id);
    laws::pointer_events_keep_the_session_valid(s, event, now);
    assert(t.outputs[k].id == id);
    session::lemma_at(t, k);
    assert(document::annotations_of(out.drawn_into(s.doc), out.bucket()) =~= with_drawn(
        shown(s, id),
        out.overlay.stroke,
    ));
    let drawn = with_drawn(shown(s, id), out.overlay.stroke);
    if out.overlay.eraser is Some {
        let at = out.overlay.eraser->0;
        if !out.drawn_into(s.doc).dom().contains(out.bucket()) {
            lemma_nothing_to_hit(at[0], at[1]);
        }
    }
}

proof fn lemma_nothing_to_hit(x: i32, y: i32)
    ensures
        AnnotationsView::none().hit(x, y) is None,
{
}

/// No button but the left one does anything, and neither does an event that is not on an output
/// of ours.
pub proof fn only_the_left_button_counts(
    s: State,
    id: u32,
    x: i32,
    y: i32,
    button: u32,
    kind: PointerKind,
    now: u64,
)
    ensures
        button != LEFT ==> s.pointed(at_pointer(id, x, y, PointerKind::Press(button)), now) == s,
        button != LEFT ==> s.pointed(at_pointer(id, x, y, PointerKind::Release(button)), now) == s,
        s.pointed(at_pointer(id, x, y, PointerKind::Other), now) == s,
        s.pointed(PointerEvent { id: None, x, y, kind }, now) == s,
{
}

/// A press of the left button with the pen begins a stroke of the set colour and width at the
/// point; with the eraser it puts the marker there. Whatever text was edited is edited no more.
pub proof fn a_left_press_begins_the_gesture(s: State, id: u32, x: i32, y: i32, now: u64)
    requires
        s.valid(),
        s.has(id),
        s.mode == Mode::Edit,
        s.tool != Tool::Text,
    ensures
        ({
            let t = s.pointed(at_pointer(id, x, y, PointerKind::Press(LEFT)), now);
            &&& t.has(id)
            &&& s.tool == Tool::Pen ==> t.output(id).overlay.stroke == Some(
                StrokeView {
                    color: PALETTE@[s.color_idx as int]@,
                    width: s.pen_width,
                    points: seq![[x, y]],
                },
            )
            &&& s.tool == Tool::Eraser ==> t.output(id).overlay.eraser == Some([x, y])
            &&& s.tool == Tool::Eraser ==> t.output(id).overlay.stroke is None
            &&& !t.is_editing()
            &&& t.output(id).dirty && t.dirty
            &&& t.mode == s.mode && t.tool == s.tool && t.color_idx == s.color_idx
            &&& t.pen_width == s.pen_width && t.text_size == s.text_size
            &&& forall|i: int|
                0 <= i < t.outputs.len() && (#[trigger] t.outputs[i]).id != id
                    ==> t.outputs[i].overlay.stroke is None
        }),
{
    let event = at_pointer(id, x, y, PointerKind::Press(LEFT));
    let t = s.pointed(event, now);
    let k = s.at(id);
    assert(s.outputs[k].id == id);
    session::ending_the_edit_keeps_valid(s, now);
    let ended = s.edit_ended(now);
    session::committing_strokes_keeps_valid(ended, now);
    let clean = ended.strokes_committed(now);
    assert(ended.outputs[k].id == id);
    assert(clean.outputs[k].id == id);
    session::lemma_at(clean, k);
    laws::pointer_events_keep_the_session_valid(s, event, now);
    assert(t.outputs[k].id == id);
    session::lemma_at(t, k);
    assert forall|i: int| 0 <= i < t.outputs.len() implies !(#[trigger] t.outputs[i]).is_editing() by {
        assert(!clean.outputs[i].is_editing());
    }
}

/// Moving the pointer with the pen lengthens the stroke in progress by the point, where that is a
/// pixel or more from the last sample, and changes nothing else; without a stroke in progress it
/// draws nothing. With the eraser it moves the marker. Whatever moved is redrawn, and nothing but
/// that: what had to be repainted as a whole still has, and what had not still has not.
pub proof fn motion_follows_the_pointer(s: State, id: u32, x: i32, y: i32, now: u64)
    requires
        s.valid(),
        s.has(id),
        s.mode == Mode::Edit,
    ensures
        ({
            let t = s.pointed(at_pointer(id, x, y, PointerKind::Motion), now);
            let stroke = s.output(id).overlay.stroke;
            let eraser = s.output(id).overlay.eraser;
            &&& t.has(id)
            &&& t.doc == s.doc
            &&& t.output(id).overlay.text == s.output(id).overlay.text
            &&& s.tool == Tool::Pen && stroke is None ==> t == s
            &&& s.tool == Tool::Pen && stroke is Some && stroke->0.points.len() > 0 ==> {
                let last = stroke->0.points.last();
                let (dx, dy) = (x - last[0], y - last[1]);
                let points = if dx * dx + dy * dy >= 65536 {
                    stroke->0.points.push([x, y])
                } else {
                    stroke->0.points
                };
                t.output(id).overlay.stroke == Some(
                    StrokeView { color: stroke->0.color, width: stroke->0.width, points },
                )
            }
            &&& s.tool == Tool::Eraser ==> t.output(id).overlay.eraser == Some([x, y])
            &&& s.tool == Tool::Eraser ==> t.output(id).overlay.stroke == stroke
            &&& s.tool != Tool::Eraser ==> t.output(id).overlay.eraser == eraser
            &&& s.tool == Tool::Text ==> t == s
            &&& t != s ==> t.output(id).transient_dirty && t.dirty
            &&& t.output(id).dirty == s.output(id).dirty
            &&& t.deadline == s.deadline && t.requests == s.requests
            &&& t.mode == s.mode && t.tool == s.tool && t.color_idx == s.color_idx
            &&& t.pen_width == s.pen_width && t.text_size == s.text_size
            &&& forall|i: int|
                0 <= i < s.outputs.len() && (#[trigger] s.outputs[i]).id != id ==> t.outputs[i]
                    == s.outputs[i]
        }),
{
    let event = at_pointer(id, x, y, PointerKind::Motion);
    let t = s.pointed(event, now);
    let k = s.at(id);
    assert(s.outputs[k].id == id);
    laws::pointer_events_keep_the_session_valid(s, event, now);
    assert(t.outputs[k].id == id);
    session::lemma_at(t, k);
}

/// The samples of a stroke that starts at a point and is drawn along a path: the start, and every
/// point of the path that is a pixel or more from the sample before it.
pub open spec fn samples(from: [i32; 2], path: Seq<(i32, i32)>) -> Seq<[i32; 2]>
    decreases path.len(),
{
    if path.len() == 0 {
        seq![from]
    } else {
        let before = samples(from, path.drop_last());
        let (last, next) = (before.last(), path.last());
        let (dx, dy) = (next.0 - last[0], next.1 - last[1]);
        if dx * dx + dy * dy >= 65536 { before.push([next.0, next.1]) } else { before }
    }
}

/// The events of a drag: the left button goes down, the pointer moves along a path, and the
/// button comes up.
pub open spec fn drag(id: u32, from: [i32; 2], path: Seq<(i32, i32)>, up: (i32, i32)) -> Seq<
    PointerEvent,
> {
    Seq::new(
        path.len() + 2,
        |i: int|
            if i == 0 {
                at_pointer(id, from[0], from[1], PointerKind::Press(LEFT))
            } else if i <= path.len() {
                at_pointer(id, path[i - 1].0, path[i - 1].1, PointerKind::Motion)
            } else {
                at_pointer(id, up.0, up.1, PointerKind::Release(LEFT))
            },
    )
}

/// A drag with the pen has come so far: the stroke in progress is on the output, and the document
/// is as it was.
#[verifier::opaque]
spec fn is_drawing(
    t: State,
    id: u32,
    stroke: StrokeView,
    doc: DocView,
    name: Seq<char>,
) -> bool {
    &&& t.valid()
    &&& t.has(id)
    &&& t.mode == Mode::Edit
    &&& t.tool == Tool::Pen
    &&& t.output(id).overlay.stroke == Some(stroke)
    &&& t.doc == doc
    &&& t.output(id).name == name
    &&& t.output(id).id == id
}

proof fn lemma_press_starts_drawing(s: State, id: u32, from: [i32; 2], now: u64)
    requires
        s.valid(),
        s.has(id),
        s.mode == Mode::Edit,
        s.tool == Tool::Pen,
    ensures
        ({
            let event = at_pointer(id, from[0], from[1], PointerKind::Press(LEFT));
            is_drawing(
                s.pointed(event, now),
                id,
                StrokeView {
                    color: PALETTE@[s.color_idx as int]@,
                    width: s.pen_width,
                    points: seq![from],
                },
                s.pointed(event, now).doc,
                s.output(id).name,
            )
        }),
{
    reveal(is_drawing);
    let event = at_pointer(id, from[0], from[1], PointerKind::Press(LEFT));
    a_left_press_begins_the_gesture(s, id, from[0], from[1], now);
    laws::pointer_events_keep_the_session_valid(s, event, now);
    assert([from[0], from[1]] =~= from);
    lemma_press_keeps_names(s, id, from[0], from[1], now);
}

proof fn lemma_motion_keeps_drawing(
    s: State,
    id: u32,
    stroke: StrokeView,
    doc: DocView,
    name: Seq<char>,
    x: i32,
    y: i32,
    now: u64,
)
    requires
        is_drawing(s, id, stroke, doc, name),
        stroke.points.len() > 0,
    ensures
        ({
            let last = stroke.points.last();
            let (dx, dy) = (x - last[0], y - last[1]);
            let points = if dx * dx + dy * dy >= 65536 {
                stroke.points.push([x, y])
            } else {
                stroke.points
            };
            is_drawing(
                s.pointed(at_pointer(id, x, y, PointerKind::Motion), now),
                id,
                StrokeView { color: stroke.color, width: stroke.width, points },
                doc,
                name,
            )
        }),
{
    reveal(is_drawing);
    let event = at_pointer(id, x, y, PointerKind::Motion);
    motion_follows_the_pointer(s, id, x, y, now);
    laws::pointer_events_keep_the_session_valid(s, event, now);
    let t = s.pointed(event, now);
    let k = s.at(id);
    assert(s.outputs[k].id == id);
    assert(t.outputs[k].id == id);
    session::lemma_at(t, k);
}

/// The session after the first `n` events, and the document then.
#[verifier::opaque]
spec fn after(s: State, events: Seq<PointerEvent>, n: int, now: u64) -> State {
    s.all_pointed(events, n, now)
}

proof fn lemma_after_press(s: State, id: u32, from: [i32; 2], events: Seq<PointerEvent>, now: u64)
    requires
        s.valid(),
        s.has(id),
        s.mode == Mode::Edit,
        s.tool == Tool::Pen,
        events[0] == at_pointer(id, from[0], from[1], PointerKind::Press(LEFT)),
    ensures
        is_drawing(
            after(s, events, 1, now),
            id,
            StrokeView {
                color: PALETTE@[s.color_idx as int]@,
                width: s.pen_width,
                points: seq![from],
            },
            after(s, events, 1, now).doc,
            s.output(id).name,
        ),
{
    reveal(after);
    assert(s.all_pointed(events, 0, now) == s);
    lemma_press_starts_drawing(s, id, from, now);
}

proof fn lemma_after_motion(
    s: State,
    events: Seq<PointerEvent>,
    n: int,
    id: u32,
    stroke: StrokeView,
    doc: DocView,
    name: Seq<char>,
    x: i32,
    y: i32,
    now: u64,
)
    requires
        n >= 0,
        is_drawing(after(s, events, n, now), id, stroke, doc, name),
        stroke.points.len() > 0,
        events[n] == at_pointer(id, x, y, PointerKind::Motion),
    ensures
        ({
            let last = stroke.points.last();
            let (dx, dy) = (x - last[0], y - last[1]);
            let points = if dx * dx + dy * dy >= 65536 {
                stroke.points.push([x, y])
            } else {
                stroke.points
            };
            is_drawing(
                after(s, events, n + 1, now),
                id,
                StrokeView { color: stroke.color, width: stroke.width, points },
                doc,
                name,
            )
        }),
{
    reveal(after);
    lemma_motion_keeps_drawing(
        s.all_pointed(events, n, now),
        id,
        stroke,
        doc,
        name,
        x,
        y,
        now,
    );
}

proof fn lemma_drag_so_far(
    s: State,
    id: u32,
    from: [i32; 2],
    path: Seq<(i32, i32)>,
    up: (i32, i32),
    now: u64,
    n: int,
)
    requires
        s.valid(),
        s.has(id),
        s.mode == Mode::Edit,
        s.tool == Tool::Pen,
        0 <= n <= path.len(),
    ensures
        samples(from, path.take(n)).len() > 0,
        is_drawing(
            after(s, drag(id, from, path, up), n + 1, now),
            id,
            StrokeView {
                color: PALETTE@[s.color_idx as int]@,
                width: s.pen_width,
                points: samples(from, path.take(n)),
            },
            after(s, drag(id, from, path, up), 1, now).doc,
            s.output(id).name,
        ),
    decreases n,
{
    let events = drag(id, from, path, up);
    let stroke = StrokeView {
        color: PALETTE@[s.color_idx as int]@,
        width: s.pen_width,
        points: samples(from, path.take(n)),
    };
    if n == 0 {
        assert(path.take(0).len() == 0);
        lemma_after_press(s, id, from, events, now);
    } else {
        lemma_drag_so_far(s, id, from, path, up, now, n - 1);
        let (x, y) = path[n - 1];
        let before = StrokeView { points: samples(from, path.take(n - 1)), ..stroke };
        assert(events[n] == at_pointer(id, x, y, PointerKind::Motion));
        assert(path.take(n).drop_last() =~= path.take(n - 1));
        assert(path.take(n).last() == path[n - 1]);
        lemma_after_motion(
            s,
            events,
            n,
            id,
            before,
            after(s, events, 1, now).doc,
            s.output(id).name,
            x,
            y,
            now,
        );
    }
}

proof fn lemma_press_keeps_names(s: State, id: u32, x: i32, y: i32, now: u64)
    requires
        s.valid(),
        s.has(id),
        s.mode == Mode::Edit,
        s.tool == Tool::Pen,
    ensures
        s.pointed(at_pointer(id, x, y, PointerKind::Press(LEFT)), now).output(id).name == s.output(
            id,
        ).name,
        s.pointed(at_pointer(id, x, y, PointerKind::Press(LEFT)), now).output(id).id == id,
{
    let event = at_pointer(id, x, y, PointerKind::Press(LEFT));
    let t = s.pointed(event, now);
    let k = s.at(id);
    assert(s.outputs[k].id == id);
    session::ending_the_edit_keeps_valid(s, now);
    let ended = s.edit_ended(now);
    session::committing_strokes_keeps_valid(ended, now);
    let clean = ended.strokes_committed(now);
    assert(clean.outputs[k].id == id);
    session::lemma_at(clean, k);
    laws::pointer_events_keep_the_session_valid(s, event, now);
    assert(t.outputs[k].id == id);
    session::lemma_at(t, k);
}

/// A drag with the pen leaves one new stroke on its output, behind those that the press left
/// there: of the set colour and width, with the samples of the drag. No stroke is in progress on
/// the output any more, so moving on draws nothing.
pub proof fn a_drag_of_events_becomes_a_stroke(
    s: State,
    id: u32,
    from: [i32; 2],
    path: Seq<(i32, i32)>,
    up: (i32, i32),
    now: u64,
)
    requires
        s.valid(),
        s.has(id),
        s.mode == Mode::Edit,
        s.tool == Tool::Pen,
    ensures
        ({
            let events = drag(id, from, path, up);
            let pressed = s.all_pointed(events, 1, now);
            let t = s.all_pointed(events, events.len() as int, now);
            let bucket = s.output(id).bucket();
            let (a, b) = (
                document::annotations_of(pressed.doc, bucket),
                document::annotations_of(t.doc, bucket),
            );
            &&& b.strokes == a.strokes.push(
                StrokeView {
                    color: PALETTE@[s.color_idx as int]@,
                    width: s.pen_width,
                    points: samples(from, path),
                },
            )
            &&& b.texts == a.texts
            &&& t.has(id)
            &&& t.output(id).overlay.stroke is None
        }),
{
    reveal(is_drawing);
    let events = drag(id, from, path, up);
    let n = path.len() as int;
    lemma_drag_so_far(s, id, from, path, up, now, n);
    assert(path.take(n) =~= path);
    let before = s.all_pointed(events, n + 1, now);
    reveal(after);
    assert(events[n + 1] == at_pointer(id, up.0, up.1, PointerKind::Release(LEFT)));
    a_left_release_ends_the_gesture(before, id, up.0, up.1, now, Seq::empty());
}

/// A press while nothing is in progress changes no annotation.
pub proof fn a_press_alone_changes_no_annotation(s: State, event: PointerEvent, now: u64)
    requires
        s.valid(),
        !s.is_editing(),
        forall|i: int| 0 <= i < s.outputs.len() ==> (#[trigger] s.outputs[i]).overlay.stroke is None,
        event.kind is Press,
    ensures
        s.pointed(event, now).doc == s.doc,
        s.pointed(event, now).deadline == s.deadline,
{
    laws::lemma_ending_no_edit(s, now);
    let ended = s.edit_ended(now);
    assert forall|i: int| 0 <= i < ended.outputs.len() implies !(
    #[trigger] ended.outputs[i]).has_drawn() by {
        assert(s.outputs[i].overlay.stroke is None);
    }
    laws::lemma_nothing_drawn(ended.doc, ended.outputs, ended.outputs.len() as int);
}

/// The second list of strokes starts with the first.
pub open spec fn grows_into(before: Seq<StrokeView>, after: Seq<StrokeView>) -> bool {
    before.len() <= after.len() && after.take(before.len() as int) == before
}

proof fn lemma_growing(a: Seq<StrokeView>, b: Seq<StrokeView>, c: Seq<StrokeView>, x: StrokeView)
    requires
        grows_into(a, b),
        grows_into(b, c),
    ensures
        grows_into(a, c),
        b.contains(x) ==> c.contains(x),
{
    assert(c.take(a.len() as int) =~= c.take(b.len() as int).take(a.len() as int));
    if b.contains(x) {
        let i = choose|i: int| 0 <= i < b.len() && b[i] == x;
        assert(c.take(b.len() as int)[i] == c[i]);
    }
}

proof fn lemma_all_drawn(
    doc: DocView,
    outputs: Seq<OutputView>,
    n: int,
    i: int,
    bucket: Seq<char>,
)
    requires
        0 <= i < outputs.len(),
        0 <= n <= outputs.len(),
    ensures
        grows_into(
            document::annotations_of(doc, bucket).strokes,
            document::annotations_of(session::all_drawn(doc, outputs, n), bucket).strokes,
        ),
        document::annotations_of(session::all_drawn(doc, outputs, n), bucket).texts
            == document::annotations_of(doc, bucket).texts,
        i < n && outputs[i].overlay.stroke is Some && outputs[i].overlay.stroke->0.points.len() > 0
            ==> document::annotations_of(
            session::all_drawn(doc, outputs, n),
            outputs[i].bucket(),
        ).strokes.contains(outputs[i].overlay.stroke->0),
    decreases n,
{
    let now = session::all_drawn(doc, outputs, n);
    if n <= 0 {
        let a = document::annotations_of(doc, bucket).strokes;
        assert(a.take(a.len() as int) =~= a);
    } else {
        lemma_all_drawn(doc, outputs, n - 1, i, bucket);
        let before = session::all_drawn(doc, outputs, n - 1);
        let out = outputs[n - 1];
        lemma_one_more_drawn(before, out, bucket);
        lemma_growing(
            document::annotations_of(doc, bucket).strokes,
            document::annotations_of(before, bucket).strokes,
            document::annotations_of(now, bucket).strokes,
            outputs[i].overlay.stroke->0,
        );
        let own = outputs[i].bucket();
        lemma_one_more_drawn(before, out, own);
        let (x, y) = (
            document::annotations_of(before, own).strokes,
            document::annotations_of(now, own).strokes,
        );
        assert(x.take(x.len() as int) =~= x);
        lemma_growing(x, x, y, outputs[i].overlay.stroke->0);
        if i == n - 1 && out.has_drawn() {
            assert(y.last() == out.overlay.stroke->0);
            assert(y[y.len() - 1] == out.overlay.stroke->0);
        }
    }
}

proof fn lemma_one_more_drawn(doc: DocView, out: OutputView, bucket: Seq<char>)
    ensures
        grows_into(
            document::annotations_of(doc, bucket).strokes,
            document::annotations_of(out.drawn_into(doc), bucket).strokes,
        ),
        document::annotations_of(out.drawn_into(doc), bucket).texts == document::annotations_of(
            doc,
            bucket,
        ).texts,
        out.has_drawn() ==> document::annotations_of(out.drawn_into(doc), out.bucket()).strokes
            == document::annotations_of(doc, out.bucket()).strokes.push(out.overlay.stroke->0),
{
    let (a, b) = (
        document::annotations_of(doc, bucket).strokes,
        document::annotations_of(out.drawn_into(doc), bucket).strokes,
    );
    assert(b.take(a.len() as int) =~= a);
}

/// A press of the left button loses nothing that was drawn: every stroke in progress, on whichever
/// output, is in the document afterwards, and every stroke that was in it still is.
pub proof fn a_press_commits_every_stroke_in_progress(
    s: State,
    id: u32,
    x: i32,
    y: i32,
    now: u64,
    i: int,
    bucket: Seq<char>,
)
    requires
        s.valid(),
        s.mode == Mode::Edit,
        !s.is_editing(),
        0 <= i < s.outputs.len(),
    ensures
        ({
            let t = s.pointed(at_pointer(id, x, y, PointerKind::Press(LEFT)), now);
            let stroke = s.outputs[i].overlay.stroke;
            &&& stroke is Some && stroke->0.points.len() > 0 ==> document::annotations_of(
                t.doc,
                s.outputs[i].bucket(),
            ).strokes.contains(stroke->0)
            &&& grows_into(
                document::annotations_of(s.doc, bucket).strokes,
                document::annotations_of(t.doc, bucket).strokes,
            )
            &&& document::annotations_of(t.doc, bucket).texts == document::annotations_of(
                s.doc,
                bucket,
            ).texts
        }),
{
    laws::lemma_ending_no_edit(s, now);
    let ended = s.edit_ended(now);
    assert(!s.outputs[i].is_editing());
    assert(ended.outputs[i] == s.outputs[i]);
    lemma_all_drawn(ended.doc, ended.outputs, ended.outputs.len() as int, i, bucket);
}

/// Where the keyboard focus goes from one surface to another, or away, the text edit ends just as
/// `Esc` would end it; where it comes back to the surface that had it, or comes to one while none
/// had it, the edit goes on.
pub proof fn losing_the_focus_ends_the_edit(s: State, id: Option<u32>, now: u64)
    requires
        s.valid(),
        s.is_editing(),
    ensures
        ({
            let (t, l) = (s.entered(id, now), s.left(id, now));
            let ended = s.key_pressed(65307, None, now);
            &&& t.keyboard_focus == id
            &&& s.keyboard_focus is Some && s.keyboard_focus != id ==> !t.is_editing() && t.doc
                == ended.doc && t.deadline == ended.deadline
            &&& !(s.keyboard_focus is Some && s.keyboard_focus != id) ==> t.outputs == s.outputs
                && t.doc == s.doc && t.is_editing()
            &&& s.keyboard_focus == id ==> l.keyboard_focus is None && !l.is_editing() && l.doc
                == ended.doc && l.deadline == ended.deadline
            &&& s.keyboard_focus != id ==> l == s
        }),
{
    let k = s.edit_at();
    assert(s.outputs[k].is_editing());
    session::ending_the_edit_keeps_valid(s, now);
    let ended = s.edit_ended(now);
    assert(s.key_pressed(65307, None, now) == ended);
    let t = s.entered(id, now);
    if s.keyboard_focus is Some && s.keyboard_focus != id {
        assert(t.outputs == ended.outputs);
        assert forall|i: int| 0 <= i < t.outputs.len() implies !(
        #[trigger] t.outputs[i]).is_editing() by {
            assert(!ended.outputs[i].is_editing());
        }
    } else {
        assert(t.outputs == s.outputs);
        assert(t.outputs[k].is_editing());
    }
    if s.keyboard_focus == id {
        let l = s.left(id, now);
        assert(l.outputs == ended.outputs);
        assert forall|i: int| 0 <= i < l.outputs.len() implies !(
        #[trigger] l.outputs[i]).is_editing() by {
            assert(!ended.outputs[i].is_editing());
        }
    }
}

/// Once a frame was composed, the output remembers the buffer that holds it and the box of what
/// was in progress on it, and has nothing to repaint.
pub proof fn a_composed_frame_is_remembered(s: State, id: u32, idx: usize, c: Rect)
    requires
        s.valid(),
        s.has(id),
    ensures
        ({
            let t = s.frame_composed(id, idx);
            let (out, o) = (t.output(id), s.output(id).overlay);
            &&& t.has(id)
            &&& out.last_buffer == Some(idx)
            &&& !out.dirty && !out.transient_dirty
            &&& out.overlay == o
            &&& out.last_transient is None <==> (o.eraser is None && (o.stroke is None
                || o.stroke->0.points.len() == 0))
            &&& out.last_transient is Some && o.eraser is Some ==> damage::holds_marker(
                out.last_transient->0,
                o.eraser->0,
            )
            &&& out.last_transient is Some && o.stroke is Some ==> forall|i: int|
                0 <= i < o.stroke->0.points.len() ==> canvas::surrounds(
                    out.last_transient->0,
                    #[trigger] o.stroke->0.points[i],
                    o.stroke->0.width,
                )
            &&& t.doc == s.doc
        }),
{
    let k = s.at(id);
    assert(s.outputs[k].id == id);
    let t = s.frame_composed(id, idx);
    session::replacing_an_output_keeps_valid(s, k, t.outputs[k]);
    assert(t.outputs[k].id == id);
    session::lemma_at(t, k);
    damage::the_transient_box_is_the_least_around_what_moves(s.output(id).overlay, c);
}

/// Once the known outputs were taken in, every one of them has a surface, and those that had one
/// are as they were.
pub proof fn every_known_output_gets_a_surface(
    s: State,
    known: Seq<KnownOutput>,
    n: int,
    i: int,
)
    requires
        0 <= n <= known.len(),
    ensures
        0 <= i < n ==> s.all_surfaced(known, n).has(known[i].id),
        s.outputs.len() <= s.all_surfaced(known, n).outputs.len(),
        forall|j: int|
            0 <= j < s.outputs.len() ==> (#[trigger] s.all_surfaced(known, n).outputs[j])
                == s.outputs[j],
        s.all_surfaced(known, n).doc == s.doc,
    decreases n,
{
    if n > 0 {
        every_known_output_gets_a_surface(s, known, n - 1, i);
        let before = s.all_surfaced(known, n - 1);
        let t = s.all_surfaced(known, n);
        let k = known[n - 1];
        if 0 <= i < n - 1 {
            let m = before.at(known[i].id);
            assert(before.outputs[m].id == known[i].id);
            assert(t.outputs[m] == before.outputs[m]);
        }
        if !before.has(k.id) {
            assert(t.outputs[before.outputs.len() as int].id == k.id);
        }
    }
}

/// Committing the strokes in progress leaves every one of them in the document of its output,
/// behind what was there, changes no text box, and leaves none in progress. Where there was none
/// to commit, the document stays as it is.
pub proof fn committing_leaves_every_stroke(s: State, now: u64, i: int, bucket: Seq<char>)
    requires
        0 <= i < s.outputs.len(),
    ensures
        ({
            let t = s.strokes_committed(now);
            let stroke = s.outputs[i].overlay.stroke;
            let (a, b) = (
                document::annotations_of(s.doc, bucket),
                document::annotations_of(t.doc, bucket),
            );
            &&& stroke is Some && stroke->0.points.len() > 0 ==> document::annotations_of(
                t.doc,
                s.outputs[i].bucket(),
            ).strokes.contains(stroke->0)
            &&& grows_into(a.strokes, b.strokes)
            &&& b.texts == a.texts
            &&& t.outputs.len() == s.outputs.len()
            &&& t.outputs[i].overlay.stroke is None
            &&& t.outputs[i].overlay.eraser == s.outputs[i].overlay.eraser
            &&& t.outputs[i].overlay.text == s.outputs[i].overlay.text
            &&& (forall|j: int|
                0 <= j < s.outputs.len() ==> (#[trigger] s.outputs[j]).overlay.stroke is None)
                ==> t.doc == s.doc && t.deadline == s.deadline
        }),
{
    lemma_all_drawn(s.doc, s.outputs, s.outputs.len() as int, i, bucket);
    if forall|j: int| 0 <= j < s.outputs.len() ==> (#[trigger] s.outputs[j]).overlay.stroke is None {
        laws::lemma_nothing_drawn(s.doc, s.outputs, s.outputs.len() as int);
    }
}

/// The box that a frame is damaged by holds each stroke, each text box, the text box being edited
/// and the hint of its output whole, or does not reach it.
pub proof fn a_boxed_frame_accounts_for_all_that_is_shown(
    s: State,
    id: u32,
    damage: Rect,
    i: int,
    j: int,
)
    requires
        s.valid(),
        s.has(id),
        s.boxes(id).settled(damage),
    ensures
        ({
            let out = s.output(id);
            let stroke = shown(s, id).strokes[i].bounds();
            let text = shown(s, id).texts[j].paint_bounds();
            let hint = damage::hint_box((256 * out.width) as u64, 1);
            &&& 0 <= i < shown(s, id).strokes.len() && stroke is Some ==> damage.covers(stroke->0)
                || !stroke->0.overlaps(damage)
            &&& 0 <= j < shown(s, id).texts.len() ==> damage.covers(text) || !text.overlaps(damage)
            &&& out.overlay.text matches Some(edit) ==> damage.covers(edit.item.paint_bounds())
                || !edit.item.paint_bounds().overlaps(damage)
            &&& s.mode == Mode::Edit ==> damage.covers(hint) || !hint.overlaps(damage)
        }),
{
    let k = s.at(id);
    assert(s.outputs[k].id == id);
    if 0 <= i < shown(s, id).strokes.len() {
        assert(damage::covers_if_reached(damage, s.boxes(id).strokes[i]));
    }
    if 0 <= j < shown(s, id).texts.len() {
        assert(damage::covers_if_reached(damage, Some(s.boxes(id).texts[j])));
    }
}

/// A frame repaints only a box where it is drawn into the buffer of the previous frame, nothing
/// but transient elements moved since, and no text box is edited; it is left out where not even
/// they moved; and otherwise it repaints everything.
pub proof fn a_box_needs_the_previous_frame(s: State, id: u32, idx: usize)
    requires
        s.has(id),
    ensures
        ({
            let out = s.output(id);
            let kind = s.frame_kind(id, idx);
            let fresh = !out.dirty && out.last_buffer == Some(idx) && out.overlay.text is None;
            &&& kind is Whole <==> !fresh
            &&& kind is Boxed <==> fresh && out.transient_dirty
            &&& kind is Nothing <==> fresh && !out.transient_dirty
        }),
{
}

} // verus!
