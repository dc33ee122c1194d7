//! What the compositor is asked for: surfaces of the right mode, scale and size, and hints that
//! show what is set.

use vstd::prelude::*;

use crate::app::{Command, KnownOutput, Mode, OutputInfo, PointerEvent, TextInputEvent};
use crate::session;
use crate::session::{RequestView, State};
use crate::text;

verus! {

/// After a switch to another mode the session is in that mode, and the last requests are one new
/// surface for every output, in their order: of the mode the session is in now, and of the scale
/// the output reports. The surfaces are drawn anew once they have a size, with nothing in progress
/// on them.
pub proof fn switching_asks_for_surfaces_of_the_new_mode(
    s: State,
    command: Command,
    now: u64,
    i: int,
)
    requires
        s.valid(),
        0 <= i < s.outputs.len(),
        s.commanded(Some(command), now).mode != s.mode,
    ensures
        ({
            let t = s.commanded(Some(command), now);
            let n = s.outputs.len();
            &&& t.outputs.len() == n
            &&& t.requests.len() >= s.requests.len() + n
            &&& t.requests.take(s.requests.len() as int) == s.requests
            &&& t.requests[t.requests.len() - n + i] == (RequestView::CreateSurface {
                id: s.outputs[i].id,
                mode: t.mode,
                scale: s.outputs[i].reported,
            })
            &&& t.outputs[i].id == s.outputs[i].id
            &&& t.outputs[i].name == s.outputs[i].name
            &&& t.outputs[i].dirty && t.dirty
            &&& t.outputs[i].last_buffer is None
            &&& t.outputs[i].last_transient is None
            &&& t.outputs[i].scale == s.outputs[i].reported
            &&& t.outputs[i].reported == s.outputs[i].reported
            &&& t.outputs[i].configured == s.outputs[i].configured
            &&& t.outputs[i].width == 0 && t.outputs[i].height == 0
            &&& !t.outputs[i].can_draw()
            &&& t.outputs[i].buffer_size == (0u32, 0u32)
            &&& t.outputs[i].overlay.stroke is None
            &&& t.outputs[i].overlay.eraser is None
            &&& t.outputs[i].overlay.text is None
        }),
{
    let t = s.commanded(Some(command), now);
    assert(t.requests.take(s.requests.len() as int) =~= s.requests);
}

/// `Esc` without a text box being edited leads to the locked mode as the command does.
pub proof fn escape_locks_as_the_command_does(s: State, utf8: Option<Seq<char>>, now: u64)
    requires
        s.mode == Mode::Edit,
        !s.is_editing(),
    ensures
        s.key_pressed(65307, utf8, now) == s.commanded(Some(Command::Lock), now),
        s.key_pressed(65307, utf8, now).mode == Mode::Locked,
{
}

/// The request is a new surface for an output.
pub open spec fn is_surface_for(request: RequestView, id: u32) -> bool {
    request is CreateSurface && request->CreateSurface_id == id
}

/// The last new surface that was asked for each output is of the mode the session is in.
pub open spec fn surfaces_have_the_mode(s: State) -> bool {
    forall|i: int, r: int|
        #![trigger s.outputs[i], s.requests[r]]
        0 <= i < s.outputs.len() && 0 <= r < s.requests.len() && is_surface_for(
            s.requests[r],
            s.outputs[i].id,
        ) && (forall|q: int|
            r < q < s.requests.len() ==> !is_surface_for(#[trigger] s.requests[q], s.outputs[i].id))
            ==> s.requests[r]->CreateSurface_mode == s.mode
}

/// The session has the outputs it had, or fewer, and asked for nothing but what brings surfaces of
/// the mode it is still in.
spec fn asks_alike(s: State, t: State) -> bool {
    &&& t.mode == s.mode
    &&& s.requests.len() <= t.requests.len()
    &&& forall|r: int| 0 <= r < s.requests.len() ==> t.requests[r] == s.requests[r]
    &&& forall|r: int|
        s.requests.len() <= r < t.requests.len() && (#[trigger] t.requests[r]) is CreateSurface
            ==> t.requests[r]->CreateSurface_mode == t.mode
    &&& forall|i: int|
        0 <= i < t.outputs.len() ==> (exists|j: int|
            0 <= j < s.outputs.len() && (#[trigger] s.outputs[j]).id == (
            #[trigger] t.outputs[i]).id) || (t.requests.len() > s.requests.len() && is_surface_for(
            t.requests.last(),
            t.outputs[i].id,
        ))
}

proof fn lemma_asking_alike(s: State, t: State)
    requires
        surfaces_have_the_mode(s),
        asks_alike(s, t),
    ensures
        surfaces_have_the_mode(t),
{
    assert forall|i: int, r: int|
        #![trigger t.outputs[i], t.requests[r]]
        0 <= i < t.outputs.len() && 0 <= r < t.requests.len() && is_surface_for(
            t.requests[r],
            t.outputs[i].id,
        ) && (forall|q: int|
            r < q < t.requests.len() ==> !is_surface_for(#[trigger] t.requests[q], t.outputs[i].id))
        implies t.requests[r]->CreateSurface_mode == t.mode by {
        if r < s.requests.len() {
            if exists|j: int| 0 <= j < s.outputs.len() && (#[trigger] s.outputs[j]).id == (
            t.outputs[i]).id {
                let j = choose|j: int|
                    0 <= j < s.outputs.len() && (#[trigger] s.outputs[j]).id == t.outputs[i].id;
                assert(t.requests[r] == s.requests[r]);
                assert forall|q: int| r < q < s.requests.len() implies !is_surface_for(
                    #[trigger] s.requests[q],
                    s.outputs[j].id,
                ) by {
                    assert(t.requests[q] == s.requests[q]);
                }
                assert(is_surface_for(s.requests[r], s.outputs[j].id));
            } else {
                let last = t.requests.len() - 1;
                assert(is_surface_for(t.requests[last], t.outputs[i].id));
            }
        }
    }
}

proof fn lemma_switching_has_the_mode(s: State, mode: Mode, now: u64)
    requires
        surfaces_have_the_mode(s),
    ensures
        surfaces_have_the_mode(s.mode_switched(mode, now)),
{
    let t = s.mode_switched(mode, now);
    if s.mode != mode {
        let n = t.outputs.len() as int;
        let first = t.requests.len() - n;
        assert forall|i: int, r: int|
            #![trigger t.outputs[i], t.requests[r]]
            0 <= i < t.outputs.len() && 0 <= r < t.requests.len() && is_surface_for(
                t.requests[r],
                t.outputs[i].id,
            ) && (forall|q: int|
                r < q < t.requests.len() ==> !is_surface_for(
                    #[trigger] t.requests[q],
                    t.outputs[i].id,
                )) implies t.requests[r]->CreateSurface_mode == t.mode by {
            assert(t.requests[first + i] == RequestView::CreateSurface {
                id: t.outputs[i].id,
                mode,
                scale: t.outputs[i].reported,
            });
            assert(is_surface_for(t.requests[first + i], t.outputs[i].id));
            assert(r >= first + i);
        }
    }
}

proof fn lemma_editing_asks_alike(s: State, now: u64)
    ensures
        asks_alike(s, s.edit_ended(now)),
        asks_alike(s, s.edit_ended(now).strokes_committed(now)),
{
    let t = s.edit_ended(now);
    assert forall|i: int| 0 <= i < t.outputs.len() implies (exists|j: int|
        0 <= j < s.outputs.len() && (#[trigger] s.outputs[j]).id == (#[trigger] t.outputs[i]).id) by {
        assert(s.outputs[i].id == t.outputs[i].id);
    }
    let c = t.strokes_committed(now);
    assert forall|i: int| 0 <= i < c.outputs.len() implies (exists|j: int|
        0 <= j < s.outputs.len() && (#[trigger] s.outputs[j]).id == (#[trigger] c.outputs[i]).id) by {
        assert(s.outputs[i].id == c.outputs[i].id);
    }
}

/// Whatever the user does, the last new surface that was asked for each output is of the mode the
/// session is in.
pub proof fn keys_and_commands_keep_surfaces_in_the_mode(
    s: State,
    keysym: u32,
    utf8: Option<Seq<char>>,
    command: Option<Command>,
    now: u64,
)
    requires
        s.valid(),
        surfaces_have_the_mode(s),
    ensures
        surfaces_have_the_mode(s.key_pressed(keysym, utf8, now)),
        surfaces_have_the_mode(s.commanded(command, now)),
{
    lemma_switching_has_the_mode(s, Mode::Edit, now);
    lemma_switching_has_the_mode(s, Mode::Locked, now);
    lemma_editing_asks_alike(s, now);
    lemma_asking_alike(s, s.edit_ended(now));
    let ended = s.edit_ended(now);
    let cleared = s.commanded(Some(Command::Clear), now);
    lemma_asking_alike(ended, cleared);
    let t = s.key_pressed(keysym, utf8, now);
    if t.mode == s.mode {
        if s.mode == Mode::Edit && !s.is_editing() && keysym == 65307 {
        } else {
            assert forall|i: int| 0 <= i < t.outputs.len() implies (exists|j: int|
                0 <= j < s.outputs.len() && (#[trigger] s.outputs[j]).id == (
                #[trigger] t.outputs[i]).id) by {
                assert(s.outputs[i].id == t.outputs[i].id);
            }
            lemma_asking_alike(s, t);
        }
    }
}

/// Outputs that come, go, are renamed, resized, rescaled or closed keep that so.
pub proof fn outputs_keep_surfaces_in_the_mode(
    s: State,
    id: u32,
    name: Seq<char>,
    scale: u32,
    size: Option<(i32, i32)>,
    w: u32,
    h: u32,
)
    requires
        s.valid(),
        surfaces_have_the_mode(s),
    ensures
        surfaces_have_the_mode(s.surface_closed(id)),
        surfaces_have_the_mode(s.output_gone(id)),
        surfaces_have_the_mode(s.output_refreshed(id, name, scale, size)),
        surfaces_have_the_mode(s.scale_adopted(id, scale)),
        surfaces_have_the_mode(s.surface_configured(id, w, h)),
{
    lemma_ids_asked(s, s.surface_closed(id));
    lemma_ids_asked(s, s.scale_adopted(id, scale));
    lemma_ids_asked(s, s.surface_configured(id, w, h));
    let gone = s.output_gone(id);
    assert forall|i: int| 0 <= i < gone.outputs.len() implies (exists|j: int|
        0 <= j < s.outputs.len() && (#[trigger] s.outputs[j]).id == (
        #[trigger] gone.outputs[i]).id) by {
        if s.has(id) {
            assert(s.outputs[if i < s.at(id) { i } else { i + 1 }].id == gone.outputs[i].id);
        } else {
            assert(s.outputs[i].id == gone.outputs[i].id);
        }
    }
    lemma_asking_alike(s, gone);
    lemma_refreshing_has_the_mode(s, id, name, scale, size);
}

proof fn lemma_refreshing_has_the_mode(
    s: State,
    id: u32,
    name: Seq<char>,
    scale: u32,
    size: Option<(i32, i32)>,
)
    requires
        s.valid(),
        surfaces_have_the_mode(s),
    ensures
        surfaces_have_the_mode(s.output_refreshed(id, name, scale, size)),
{
    let there = if s.has(id) { s } else { s.surface_created(id, name, scale) };
    if !s.has(id) {
        assert forall|i: int| 0 <= i < there.outputs.len() implies (exists|j: int|
            0 <= j < s.outputs.len() && (#[trigger] s.outputs[j]).id == (
            #[trigger] there.outputs[i]).id) || is_surface_for(
            there.requests.last(),
            there.outputs[i].id,
        ) by {
            if i < s.outputs.len() {
                assert(s.outputs[i].id == there.outputs[i].id);
            }
        }
        lemma_asking_alike(s, there);
        session::creating_a_surface_keeps_valid(s, id, name, scale);
    }
    session::lemma_surface_is_there(s, id, name, scale);
    let scaled = there.scale_adopted(id, scale);
    lemma_ids_asked(there, scaled);
    session::lemma_scale_keeps_outputs(there, id, scale);
    lemma_ids_asked(scaled, scaled.info_adopted(id, name, scale, size));
}

/// The input method, the focus and the pointer keep that so.
pub proof fn input_keeps_surfaces_in_the_mode(
    s: State,
    event: PointerEvent,
    word: TextInputEvent,
    focus: Option<u32>,
    now: u64,
)
    requires
        s.valid(),
        surfaces_have_the_mode(s),
    ensures
        surfaces_have_the_mode(s.im_event(word)),
        surfaces_have_the_mode(s.entered(focus, now)),
        surfaces_have_the_mode(s.left(focus, now)),
        surfaces_have_the_mode(s.pointed(event, now)),
{
    lemma_ids_asked(s, s.im_event(word));
    lemma_ids_asked(s, s.entered(focus, now));
    lemma_ids_asked(s, s.left(focus, now));
    lemma_pointer_has_the_mode(s, event, now);
}

proof fn lemma_pointer_has_the_mode(s: State, event: PointerEvent, now: u64)
    requires
        s.valid(),
        surfaces_have_the_mode(s),
    ensures
        surfaces_have_the_mode(s.pointed(event, now)),
{
    let t = s.pointed(event, now);
    if event.id is Some {
        session::ending_the_edit_keeps_valid(s, now);
        session::committing_strokes_keeps_valid(s.edit_ended(now), now);
        lemma_ids_asked(s, t);
    }
}

proof fn lemma_ids_asked(s: State, t: State)
    requires
        surfaces_have_the_mode(s),
        t.mode == s.mode,
        t.outputs.len() == s.outputs.len(),
        forall|i: int| 0 <= i < s.outputs.len() ==> (#[trigger] t.outputs[i]).id == s.outputs[i].id,
        s.requests.len() <= t.requests.len(),
        forall|r: int| 0 <= r < s.requests.len() ==> t.requests[r] == s.requests[r],
        forall|r: int|
            s.requests.len() <= r < t.requests.len() && (#[trigger] t.requests[r]) is CreateSurface
                ==> t.requests[r]->CreateSurface_mode == t.mode,
    ensures
        surfaces_have_the_mode(t),
{
    assert forall|i: int| 0 <= i < t.outputs.len() implies (exists|j: int|
        0 <= j < s.outputs.len() && (#[trigger] s.outputs[j]).id == (#[trigger] t.outputs[i]).id) by {
        assert(s.outputs[i].id == t.outputs[i].id);
    }
    lemma_asking_alike(s, t);
}

/// The other outputs are as they were.
pub open spec fn others_stay(s: State, t: State, id: u32) -> bool {
    forall|i: int|
        0 <= i < s.outputs.len() && (#[trigger] s.outputs[i]).id != id ==> i < t.outputs.len()
            && t.outputs[i] == s.outputs[i]
}

/// An output that shows up, or reports another name, scale or size, is there afterwards, under
/// that name, with that scale, and with that size where it reports one. The annotations it shows
/// are those under its name.
pub proof fn an_output_is_as_it_reports(
    s: State,
    id: u32,
    name: Seq<char>,
    scale: u32,
    size: Option<(i32, i32)>,
)
    requires
        s.valid(),
    ensures
        ({
            let t = s.output_refreshed(id, name, scale, size);
            let out = t.output(id);
            &&& t.has(id)
            &&& out.id == id
            &&& out.name == name
            &&& name.len() > 0 ==> out.bucket() == name
            &&& out.reported == scale
            &&& out.scale == scale
            &&& size is Some && (size->0).0 > 0 && (size->0).1 > 0 ==> out.width == (size->0).0
                && out.height == (size->0).1
            &&& !(size is Some && (size->0).0 > 0 && (size->0).1 > 0) && s.has(id) ==> out.width
                == s.output(id).width && out.height == s.output(id).height
            &&& s.has(id) ==> out.overlay == s.output(id).overlay
            &&& !s.has(id) ==> !out.configured && out.overlay.stroke is None
                && out.overlay.eraser is None && out.overlay.text is None && out.dirty
            &&& others_stay(s, t, id)
            &&& t.doc == s.doc && t.deadline == s.deadline
            &&& t.mode == s.mode && t.tool == s.tool
        }),
{
    let there = if s.has(id) { s } else { s.surface_created(id, name, scale) };
    session::lemma_surface_is_there(s, id, name, scale);
    if !s.has(id) {
        session::creating_a_surface_keeps_valid(s, id, name, scale);
        session::lemma_at(there, s.outputs.len() as int);
    }
    let k = there.at(id);
    assert(there.outputs[k].id == id);
    let scaled = there.scale_adopted(id, scale);
    assert(scaled.outputs[k].id == id);
    lemma_replaced(there, scaled, k);
    let t = s.output_refreshed(id, name, scale, size);
    assert(t.outputs[k].id == id);
    lemma_replaced(scaled, t, k);
}

/// Where one output was replaced by another with its id, it is found at the same place.
proof fn lemma_replaced(s: State, t: State, k: int)
    requires
        forall|i: int, j: int|
            0 <= i < j < s.outputs.len() ==> (#[trigger] s.outputs[i]).id != (
            #[trigger] s.outputs[j]).id,
        0 <= k < s.outputs.len(),
        t.outputs.len() == s.outputs.len(),
        t.outputs[k].id == s.outputs[k].id,
        forall|i: int| 0 <= i < s.outputs.len() && i != k ==> t.outputs[i] == s.outputs[i],
    ensures
        t.has(s.outputs[k].id),
        t.at(s.outputs[k].id) == k,
        forall|i: int, j: int|
            0 <= i < j < t.outputs.len() ==> (#[trigger] t.outputs[i]).id != (
            #[trigger] t.outputs[j]).id,
        others_stay(s, t, s.outputs[k].id),
{
    let id = s.outputs[k].id;
    assert(t.outputs[k].id == id);
    assert forall|i: int, j: int| 0 <= i < j < t.outputs.len() implies (#[trigger] t.outputs[i]).id
        != (#[trigger] t.outputs[j]).id by {
        assert(s.outputs[i].id != s.outputs[j].id);
    }
    let m = t.at(id);
    assert(t.outputs[m].id == id);
    assert(m == k);
}

/// A new scale is told to the compositor, the buffers of the old one are dropped, and the output
/// is repainted whole.
pub proof fn a_new_scale_is_told(s: State, id: u32, scale: u32)
    requires
        s.valid(),
        s.has(id),
        s.output(id).scale != scale,
    ensures
        ({
            let t = s.scale_adopted(id, scale);
            &&& t.requests == s.requests.push(RequestView::SetBufferScale { id, scale }).push(
                RequestView::DropBuffers { id },
            )
            &&& t.has(id)
            &&& t.output(id).scale == scale
            &&& t.output(id).last_buffer is None
            &&& t.output(id).dirty && t.dirty
            &&& t.output(id).overlay == s.output(id).overlay
            &&& others_stay(s, t, id)
        }),
{
    let k = s.at(id);
    assert(s.outputs[k].id == id);
    lemma_replaced(s, s.scale_adopted(id, scale), k);
}

/// A surface that was configured has the size it was given, where it was given one, and is drawn
/// whole. Buffers of another size are dropped.
pub proof fn a_configured_surface_has_its_size(s: State, id: u32, w: u32, h: u32)
    requires
        s.valid(),
        s.has(id),
    ensures
        ({
            let t = s.surface_configured(id, w, h);
            let (before, out) = (s.output(id), t.output(id));
            &&& t.has(id)
            &&& out.configured
            &&& out.dirty && t.dirty
            &&& w > 0 && h > 0 ==> out.width == w && out.height == h
            &&& w == 0 || h == 0 ==> out.width == before.width && out.height == before.height
            &&& out.width != before.width || out.height != before.height ==> out.last_buffer
                is None && t.requests == s.requests.push(RequestView::DropBuffers { id })
            &&& out.overlay == before.overlay && out.scale == before.scale && out.name
                == before.name
            &&& others_stay(s, t, id)
            &&& t.doc == s.doc
        }),
{
    let k = s.at(id);
    assert(s.outputs[k].id == id);
    lemma_replaced(s, s.surface_configured(id, w, h), k);
}

/// An output that is gone is there no more, its surface is removed, and the others are as they
/// were.
pub proof fn a_gone_output_is_removed(s: State, id: u32, other: u32)
    requires
        s.valid(),
        s.has(id),
    ensures
        ({
            let t = s.output_gone(id);
            &&& !t.has(id)
            &&& t.outputs.len() == s.outputs.len() - 1
            &&& other != id && s.has(other) ==> t.has(other) && t.output(other) == s.output(other)
            &&& t.requests == s.requests.push(RequestView::RemoveSurface { id })
            &&& t.doc == s.doc
        }),
{
    let t = s.output_gone(id);
    let k = s.at(id);
    assert(s.outputs[k].id == id);
    session::removing_an_output_keeps_valid(s, id);
    assert forall|i: int| 0 <= i < t.outputs.len() implies (#[trigger] t.outputs[i]).id != id by {
        let j = if i < k { i } else { i + 1 };
        assert(t.outputs[i] == s.outputs[j]);
        assert(s.outputs[j].id != s.outputs[k].id);
    }
    if other != id && s.has(other) {
        let j = s.at(other);
        assert(s.outputs[j].id == other);
        let i = if j < k { j } else { j - 1 };
        assert(t.outputs[i] == s.outputs[j]);
        session::lemma_at(t, i);
    }
}

/// A surface that the compositor closed is replaced: a new one is asked for, of the mode the
/// session is in and of the scale the output reports. The output keeps its name.
pub proof fn a_closed_surface_is_replaced(s: State, id: u32)
    requires
        s.valid(),
        s.has(id),
    ensures
        ({
            let t = s.surface_closed(id);
            &&& t.requests == s.requests.push(
                RequestView::CreateSurface { id, mode: s.mode, scale: s.output(id).reported },
            )
            &&& t.has(id)
            &&& t.output(id).name == s.output(id).name
            &&& t.output(id).reported == s.output(id).reported
            &&& t.output(id).scale == s.output(id).reported
            &&& !t.output(id).configured
            &&& t.output(id).dirty
            &&& t.output(id).overlay.stroke is None
            &&& t.output(id).overlay.text is None
            &&& others_stay(s, t, id)
            &&& t.doc == s.doc
        }),
{
    let k = s.at(id);
    assert(s.outputs[k].id == id);
    lemma_replaced(s, s.surface_closed(id), k);
}

/// The buffers a frame is drawn into are as many device pixels as the surface has logical ones
/// times its scale, and the buffers of another size are dropped before.
pub proof fn buffers_fit_their_surface(s: State, id: u32)
    requires
        s.valid(),
        s.has(id),
        s.output(id).configured,
        s.output(id).width > 0,
        s.output(id).height > 0,
        s.output(id).width * s.output(id).scale <= u32::MAX,
        s.output(id).height * s.output(id).scale <= u32::MAX,
    ensures
        ({
            let out = s.output(id);
            let t = s.buffers_fitted(id);
            &&& out.can_draw()
            &&& out.device_size().0 == out.width * out.scale
            &&& out.device_size().1 == out.height * out.scale
            &&& t.has(id)
            &&& t.output(id).buffer_size.0 == out.width * out.scale
            &&& t.output(id).buffer_size.1 == out.height * out.scale
            &&& out.buffer_size != t.output(id).buffer_size ==> t.output(id).last_buffer is None
                && t.requests == s.requests.push(RequestView::DropBuffers { id })
            &&& others_stay(s, t, id)
        }),
{
    let k = s.at(id);
    assert(s.outputs[k].id == id);
    lemma_replaced(s, s.buffers_fitted(id), k);
}

/// An output's factor is its scale, but never below 1, and its name stands for it as it is.
pub proof fn outputs_report_sane_values(info: OutputInfo, id: u32)
    ensures
        session::reported_scale(Some(info)) == (if info.scale_factor >= 1 {
            info.scale_factor as int
        } else {
            1
        }),
        session::reported_scale(None) == 1,
        session::reported_size(Some(info)) == info.logical_size,
        info.name is Some ==> session::reported_name(Some(info)) == info.name->0@,
        info.name is None ==> session::reported_name(Some(info)).len() == 0,
        session::bucket_of(id, Seq::empty()) == "output-"@ + text::decimal(id as nat),
{
}

/// An output that is known and had no surface gets one under the name it reports and with the
/// scale it reports, in the mode the session is in.
pub proof fn a_known_output_is_taken_in_as_it_reports(
    s: State,
    known: Seq<KnownOutput>,
    n: int,
    i: int,
)
    requires
        s.valid(),
        0 <= i < n <= known.len(),
        !s.has(known[i].id),
        forall|j: int| 0 <= j < i ==> (#[trigger] known[j]).id != known[i].id,
    ensures
        ({
            let t = s.all_surfaced(known, n);
            let (out, info) = (t.output(known[i].id), known[i].info);
            &&& t.valid()
            &&& t.mode == s.mode
            &&& t.has(known[i].id)
            &&& info is Some && info->0.name is Some ==> out.name == info->0.name->0@
            &&& info is Some && info->0.scale_factor >= 1 ==> out.scale == info->0.scale_factor
                && out.reported == info->0.scale_factor
            &&& t.requests.contains(
                RequestView::CreateSurface {
                    id: known[i].id,
                    mode: s.mode,
                    scale: out.reported,
                },
            )
        }),
    decreases n,
{
    let before = s.all_surfaced(known, n - 1);
    let t = s.all_surfaced(known, n);
    let (id, k) = (known[i].id, known[n - 1]);
    lemma_taking_in_keeps_valid(s, known, n - 1);
    lemma_taking_in_keeps_valid(s, known, n);
    if i < n - 1 {
        a_known_output_is_taken_in_as_it_reports(s, known, n - 1, i);
        let m = before.at(id);
        assert(before.outputs[m].id == id);
        assert(t.outputs[m] == before.outputs[m]);
        session::lemma_at(before, m);
        session::lemma_at(t, m);
        let asked = RequestView::CreateSurface {
            id,
            mode: s.mode,
            scale: before.output(id).reported,
        };
        let r = choose|r: int| 0 <= r < before.requests.len() && before.requests[r] == asked;
        assert(t.requests[r] == asked);
    } else {
        lemma_not_taken_in(s, known, n - 1, id);
        let m = before.outputs.len() as int;
        assert(t.outputs[m].id == id);
        session::lemma_at(t, m);
        assert(t.requests[t.requests.len() - 1] is CreateSurface);
    }
}

proof fn lemma_taking_in_keeps_valid(s: State, known: Seq<KnownOutput>, n: int)
    requires
        s.valid(),
        n <= known.len(),
    ensures
        s.all_surfaced(known, n).valid(),
        s.all_surfaced(known, n).mode == s.mode,
    decreases n,
{
    if n > 0 {
        lemma_taking_in_keeps_valid(s, known, n - 1);
        let before = s.all_surfaced(known, n - 1);
        let k = known[n - 1];
        if !before.has(k.id) {
            session::creating_a_surface_keeps_valid(
                before,
                k.id,
                session::reported_name(k.info),
                session::reported_scale(k.info),
            );
        }
    }
}

proof fn lemma_not_taken_in(s: State, known: Seq<KnownOutput>, n: int, id: u32)
    requires
        n <= known.len(),
        !s.has(id),
        forall|j: int| 0 <= j < n ==> (#[trigger] known[j]).id != id,
    ensures
        !s.all_surfaced(known, n).has(id),
    decreases n,
{
    if n > 0 {
        lemma_not_taken_in(s, known, n - 1, id);
        let before = s.all_surfaced(known, n - 1);
        let t = s.all_surfaced(known, n);
        assert forall|i: int| 0 <= i < t.outputs.len() implies (#[trigger] t.outputs[i]).id != id by {
            if i < before.outputs.len() {
                assert(t.outputs[i] == before.outputs[i]);
            } else {
                assert(known[n - 1].id != id);
            }
        }
    }
}

/// A side of a surface's buffers is as many device pixels as the surface has logical ones times
/// its scale, or the largest number where that is none.
pub proof fn buffer_sides_stop_at_the_largest_number(n: u32, scale: u32)
    ensures
        session::scaled(n, scale) <= n * scale,
        session::scaled(n, scale) < n * scale ==> session::scaled(n, scale) == 0xffff_ffff,
{
}

} // verus!
