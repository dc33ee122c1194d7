//! The editing session in the mathematical model: what a state is, and what every event makes
//! of it.

use vstd::prelude::*;

use crate::app::{
    BufferChoice, Command, KnownOutput, Mode, OutputInfo, PointerEvent, PointerKind,
    TextInputEvent, Tool, BTN_LEFT, MAX_BUFFERS, PALETTE,
};
use crate::buffer;
use crate::canvas::{StrokeView, TextItemView};
use crate::damage;
use crate::damage::DrawnBoxes;
use crate::document;
use crate::document::DocView;
use crate::geometry::Rect;
use crate::input;
use crate::input::EditAction;
use crate::overlay::{HintView, OverlayView, TextOverlayView};
use crate::store;
use crate::text;

verus! {

/// The stroke width a session starts with: 3 logical pixels.
pub const PEN_WIDTH: u32 = 768;

/// The range `[` and `]` adjust the stroke width within, and by how much: 1 to 16 logical pixels
/// in steps of 1.
pub const PEN_WIDTH_MIN: u32 = 256;
pub const PEN_WIDTH_MAX: u32 = 4096;
pub const PEN_WIDTH_STEP: u32 = 256;

/// The text size a session starts with: 18 logical pixels.
pub const TEXT_SIZE: u32 = 4608;

/// The range `[` and `]` adjust the text size within, and by how much: 8 to 72 logical pixels in
/// steps of 2.
pub const TEXT_SIZE_MIN: u32 = 2048;
pub const TEXT_SIZE_MAX: u32 = 18432;
pub const TEXT_SIZE_STEP: u32 = 512;

/// Something the compositor or the input method has to be told.
pub enum RequestView {
    CreateSurface { id: u32, mode: Mode, scale: u32 },
    RemoveSurface { id: u32 },
    SetBufferScale { id: u32, scale: u32 },
    DropBuffers { id: u32 },
    UpdateTextInput { enable: bool, text: Seq<char>, cursor: nat },
    DisableTextInput,
}

/// An output and the surface on it.
#[verifier::ext_equal]
pub struct OutputView {
    pub id: u32,
    pub name: Seq<char>,
    pub width: u32,
    pub height: u32,
    pub scale: u32,
    /// The scale the output reports; a surface is created with it.
    pub reported: u32,
    pub configured: bool,
    pub dirty: bool,
    pub transient_dirty: bool,
    pub last_transient: Option<Rect>,
    pub last_buffer: Option<usize>,
    pub buffer_size: (u32, u32),
    pub overlay: OverlayView,
}

/// The numeral of an output's id stands in for a name that has not arrived.
pub open spec fn bucket_of(id: u32, name: Seq<char>) -> Seq<char> {
    if name.len() == 0 { "output-"@ + text::decimal(id as nat) } else { name }
}

/// A factor that is never below 1.
pub open spec fn at_least_one(factor: i32) -> u32 {
    if factor > 1 { factor as u32 } else { 1 }
}

/// The name an output reports, empty until it does.
pub open spec fn reported_name(info: Option<OutputInfo>) -> Seq<char> {
    if info is Some && info->0.name is Some { info->0.name->0@ } else { Seq::empty() }
}

/// The scale an output reports.
pub open spec fn reported_scale(info: Option<OutputInfo>) -> u32 {
    if info is Some { at_least_one(info->0.scale_factor) } else { 1 }
}

/// The logical size an output reports.
pub open spec fn reported_size(info: Option<OutputInfo>) -> Option<(i32, i32)> {
    if info is Some { info->0.logical_size } else { None }
}

/// A product, or the largest value where it is larger.
pub open spec fn scaled(n: u32, scale: u32) -> u32 {
    if n * scale <= u32::MAX { (n * scale) as u32 } else { u32::MAX }
}

impl OutputView {
    /// Key used for annotations.
    pub open spec fn bucket(self) -> Seq<char> {
        bucket_of(self.id, self.name)
    }

    /// An output with a new surface that waits to be configured.
    pub open spec fn fresh(id: u32, name: Seq<char>, reported: u32, hint: Option<HintView>) -> OutputView {
        OutputView {
            id,
            name,
            width: 0,
            height: 0,
            scale: reported,
            reported,
            configured: false,
            dirty: true,
            transient_dirty: false,
            last_transient: None,
            last_buffer: None,
            buffer_size: (0, 0),
            overlay: OverlayView::idle(hint),
        }
    }

    /// The output with a new surface on another layer.
    pub open spec fn remapped(self, hint: Option<HintView>) -> OutputView {
        OutputView {
            configured: self.configured,
            ..OutputView::fresh(self.id, self.name, self.reported, hint)
        }
    }

    /// The output to be repainted whole.
    pub open spec fn marked(self) -> OutputView {
        OutputView { dirty: true, ..self }
    }

    pub open spec fn with_hint(self, hint: Option<HintView>) -> OutputView {
        OutputView { dirty: true, overlay: OverlayView { hint, ..self.overlay }, ..self }
    }

    pub open spec fn with_stroke(self, stroke: Option<StrokeView>) -> OutputView {
        OutputView { overlay: OverlayView { stroke, ..self.overlay }, ..self }
    }

    pub open spec fn with_eraser(self, eraser: Option<[i32; 2]>) -> OutputView {
        OutputView { overlay: OverlayView { eraser, ..self.overlay }, ..self }
    }

    pub open spec fn with_text(self, text: Option<TextOverlayView>) -> OutputView {
        OutputView { overlay: OverlayView { text, ..self.overlay }, ..self }
    }

    pub open spec fn is_editing(self) -> bool {
        self.overlay.text is Some
    }

    /// The text edit ended: the caret disappears and the box may be committed, so the output is
    /// repainted whole.
    pub open spec fn edit_ended(self) -> OutputView {
        if self.is_editing() { self.with_text(None).with_eraser(None).marked() } else { self }
    }

    /// The stroke in progress was committed.
    pub open spec fn stroke_ended(self) -> OutputView {
        if self.overlay.stroke is Some { self.with_stroke(None).marked() } else { self }
    }

    /// Whether ending the text edit writes the box into the document.
    pub open spec fn has_typed(self) -> bool {
        self.is_editing() && self.overlay.text->0.typed.len() > 0
    }

    /// Whether ending the text edit drops a box of the document: one that was emptied.
    pub open spec fn has_emptied(self, doc: DocView) -> bool {
        &&& self.is_editing()
        &&& self.overlay.text->0.typed.len() == 0
        &&& self.overlay.text->0.index is Some
        &&& self.overlay.text->0.index->0 < document::annotations_of(doc, self.bucket()).texts.len()
    }

    /// Whether ending the text edit changes the document.
    pub open spec fn edit_changes(self, doc: DocView) -> bool {
        self.has_typed() || self.has_emptied(doc)
    }

    /// Whether committing the stroke in progress changes the document.
    pub open spec fn has_drawn(self) -> bool {
        self.overlay.stroke is Some && self.overlay.stroke->0.points.len() > 0
    }

    /// What ending the text edit makes of the document: the box is written back, and an empty
    /// one is dropped.
    pub open spec fn typed_into(self, doc: DocView) -> DocView {
        if self.has_typed() {
            let t = self.overlay.text->0;
            document::with_text(
                doc,
                self.bucket(),
                t.index,
                TextItemView { text: t.typed, ..t.item },
            )
        } else if self.has_emptied(doc) {
            document::without_text(doc, self.bucket(), self.overlay.text->0.index->0)
        } else {
            doc
        }
    }

    /// What the stroke in progress adds to the document.
    pub open spec fn drawn_into(self, doc: DocView) -> DocView {
        if self.has_drawn() {
            document::with_stroke(doc, self.bucket(), self.overlay.stroke->0)
        } else {
            doc
        }
    }

    /// The device size of the surface's buffers.
    pub open spec fn device_size(self) -> (u32, u32) {
        (scaled(self.width, self.scale), scaled(self.height, self.scale))
    }

    /// The surface has a size and may be drawn on.
    pub open spec fn can_draw(self) -> bool {
        self.configured && self.width > 0 && self.height > 0
    }

    /// The buffers of another size are gone, and with them the frame they held.
    pub open spec fn without_buffers(self) -> OutputView {
        OutputView { last_buffer: None, last_transient: None, ..self }
    }
}

/// The session.
#[verifier::ext_equal]
pub struct State {
    pub doc: DocView,
    /// When the document has to be written.
    pub deadline: Option<u64>,
    pub mode: Mode,
    pub tool: Tool,
    pub color_idx: usize,
    pub pen_width: u32,
    pub text_size: u32,
    pub outputs: Seq<OutputView>,
    pub keyboard_focus: Option<u32>,
    /// Some output has to be redrawn.
    pub dirty: bool,
    pub exit: bool,
    /// There is an input method to talk to.
    pub text_input: bool,
    pub text_input_enabled: bool,
    pub im_commit: Seq<char>,
    pub im_preedit: Option<Seq<char>>,
    pub im_delete: Option<(u32, u32)>,
    pub buffer_format: Option<(u32, bool)>,
    /// What the compositor and the input method have not been told yet.
    pub requests: Seq<RequestView>,
}

/// The word the hint shows for a tool.
pub open spec fn label(tool: Tool) -> Seq<char> {
    match tool {
        Tool::Pen => "pen"@,
        Tool::Eraser => "eraser"@,
        Tool::Text => "text"@,
    }
}

/// The document with the text edits of the first `n` outputs committed.
pub open spec fn all_typed(doc: DocView, outputs: Seq<OutputView>, n: int) -> DocView
    decreases n,
{
    if n <= 0 { doc } else { outputs[n - 1].typed_into(all_typed(doc, outputs, n - 1)) }
}

/// The document with the strokes in progress of the first `n` outputs committed.
pub open spec fn all_drawn(doc: DocView, outputs: Seq<OutputView>, n: int) -> DocView
    decreases n,
{
    if n <= 0 { doc } else { outputs[n - 1].drawn_into(all_drawn(doc, outputs, n - 1)) }
}

impl State {
    /// A session at its start, with the annotations that were loaded.
    pub open spec fn start(doc: DocView) -> State {
        State {
            doc,
            deadline: None,
            mode: Mode::Locked,
            tool: Tool::Pen,
            color_idx: 0,
            pen_width: PEN_WIDTH,
            text_size: TEXT_SIZE,
            outputs: Seq::empty(),
            keyboard_focus: None,
            dirty: false,
            exit: false,
            text_input: false,
            text_input_enabled: false,
            im_commit: Seq::empty(),
            im_preedit: None,
            im_delete: None,
            buffer_format: None,
            requests: Seq::empty(),
        }
    }

    /// The size the active tool creates content with.
    pub open spec fn active_size(self) -> u32 {
        match self.tool {
            Tool::Text => self.text_size,
            _ => self.pen_width,
        }
    }

    /// The colour new content has.
    pub open spec fn color(self) -> Seq<char> {
        PALETTE@[self.color_idx as int]@
    }

    /// The edit-mode hint of the current mode, tool, colour and size.
    pub open spec fn current_hint(self) -> Option<HintView> {
        match self.mode {
            Mode::Locked => None,
            Mode::Edit => Some(
                HintView { tool: label(self.tool), color: self.color(), size: self.active_size() },
            ),
        }
    }

    /// Settings in bounds, every output once, every output's hint up to date, at most one text
    /// box edited, and nothing in progress while locked.
    pub open spec fn valid(self) -> bool {
        &&& self.color_idx < 5
        &&& PEN_WIDTH_MIN <= self.pen_width <= PEN_WIDTH_MAX
        &&& TEXT_SIZE_MIN <= self.text_size <= TEXT_SIZE_MAX
        &&& forall|i: int, j: int|
            0 <= i < j < self.outputs.len() ==> (#[trigger] self.outputs[i]).id != (
            #[trigger] self.outputs[j]).id
        &&& forall|i: int|
            0 <= i < self.outputs.len() ==> (#[trigger] self.outputs[i]).overlay.hint
                == self.current_hint()
        &&& forall|i: int, j: int|
            0 <= i < j < self.outputs.len() ==> !((#[trigger] self.outputs[i]).is_editing() && (
            #[trigger] self.outputs[j]).is_editing())
        &&& self.mode == Mode::Locked ==> forall|i: int|
            0 <= i < self.outputs.len() ==> (#[trigger] self.outputs[i]).overlay
                == OverlayView::idle(None)
    }

    pub open spec fn has(self, id: u32) -> bool {
        exists|i: int| 0 <= i < self.outputs.len() && (#[trigger] self.outputs[i]).id == id
    }

    /// Where an output is.
    pub open spec fn at(self, id: u32) -> int {
        choose|i: int| 0 <= i < self.outputs.len() && (#[trigger] self.outputs[i]).id == id
    }

    /// An output that is there.
    pub open spec fn output(self, id: u32) -> OutputView {
        self.outputs[self.at(id)]
    }

    /// The state with another output in the place of the one with this id.
    pub open spec fn with_output(self, id: u32, out: OutputView) -> State {
        State { outputs: self.outputs.update(self.at(id), out), ..self }
    }

    pub open spec fn is_editing(self) -> bool {
        exists|i: int| 0 <= i < self.outputs.len() && (#[trigger] self.outputs[i]).is_editing()
    }

    /// Where the text box being edited is.
    pub open spec fn edit_at(self) -> int {
        choose|i: int| 0 <= i < self.outputs.len() && (#[trigger] self.outputs[i]).is_editing()
    }

    /// The text box being edited.
    pub open spec fn edit(self) -> TextOverlayView {
        self.outputs[self.edit_at()].overlay.text->0
    }

    /// Some output has to be redrawn.
    pub open spec fn touched(self) -> State {
        State { dirty: true, ..self }
    }

    pub open spec fn asking(self, request: RequestView) -> State {
        State { requests: self.requests.push(request), ..self }
    }

    /// Every output has to be repainted whole.
    pub open spec fn all_marked(self) -> State {
        State {
            outputs: Seq::new(self.outputs.len(), |i: int| self.outputs[i].marked()),
            dirty: true,
            ..self
        }
    }

    /// Every output shows the current hint.
    pub open spec fn hint_refreshed(self) -> State {
        State {
            outputs: Seq::new(
                self.outputs.len(),
                |i: int| self.outputs[i].with_hint(self.current_hint()),
            ),
            dirty: true,
            ..self
        }
    }

    /// The input method knows of the text box being edited, or that there is none.
    pub open spec fn synced(self) -> State {
        if !self.text_input {
            self
        } else if self.is_editing() {
            State {
                text_input_enabled: true,
                requests: self.requests.push(
                    RequestView::UpdateTextInput {
                        enable: !self.text_input_enabled,
                        text: self.edit().typed,
                        cursor: text::utf8_len(self.edit().typed),
                    },
                ),
                ..self
            }
        } else if self.text_input_enabled {
            State {
                text_input_enabled: false,
                requests: self.requests.push(RequestView::DisableTextInput),
                ..self
            }
        } else {
            self
        }
    }

    /// The document changed, if `changed`, and has to be written in time.
    pub open spec fn changed(self, changed: bool, now: u64) -> State {
        if changed {
            State { deadline: store::deadline_after_change(self.deadline, now), ..self }
        } else {
            self
        }
    }

    /// What was typed is in the document, an emptied box is not, and no text box is edited any
    /// more.
    pub open spec fn edit_committed(self, now: u64) -> State {
        State {
            doc: all_typed(self.doc, self.outputs, self.outputs.len() as int),
            outputs: Seq::new(self.outputs.len(), |i: int| self.outputs[i].edit_ended()),
            dirty: true,
            ..self.changed(
                exists|i: int|
                    0 <= i < self.outputs.len() && (#[trigger] self.outputs[i]).edit_changes(
                        all_typed(self.doc, self.outputs, i),
                    ),
                now,
            )
        }
    }

    /// The text edit is finished.
    pub open spec fn edit_ended(self, now: u64) -> State {
        self.edit_committed(now).synced()
    }

    /// Every stroke in progress is in the document.
    pub open spec fn strokes_committed(self, now: u64) -> State {
        State {
            doc: all_drawn(self.doc, self.outputs, self.outputs.len() as int),
            outputs: Seq::new(self.outputs.len(), |i: int| self.outputs[i].stroke_ended()),
            ..self.changed(
                exists|i: int|
                    0 <= i < self.outputs.len() && (#[trigger] self.outputs[i]).has_drawn(),
                now,
            )
        }
    }

    /// The text box an edit at a point is of: the one under the point, or a new one whose
    /// top-left corner is the point.
    pub open spec fn edit_for(self, id: u32, x: i32, y: i32) -> TextOverlayView {
        let a = document::annotations_of(self.doc, self.output(id).bucket());
        match a.text_at(x as int, y as int, 0) {
            Some(i) => TextOverlayView {
                item: a.texts[i],
                typed: a.texts[i].text,
                index: Some(i as usize),
                preedit: Seq::empty(),
            },
            None => TextOverlayView {
                item: TextItemView {
                    x,
                    y,
                    color: self.color(),
                    size: self.text_size,
                    text: Seq::empty(),
                },
                typed: Seq::empty(),
                index: None,
                preedit: Seq::empty(),
            },
        }
    }

    /// A text box at a point of an output is edited.
    pub open spec fn edit_begun(self, id: u32, x: i32, y: i32) -> State {
        if self.has(id) {
            self.with_output(
                id,
                self.output(id).with_text(Some(self.edit_for(id, x, y))).marked(),
            ).touched().synced()
        } else {
            self
        }
    }

    /// The mode is another one, and every surface is on the layer of that mode.
    pub open spec fn mode_switched(self, mode: Mode, now: u64) -> State {
        if self.mode == mode {
            self
        } else {
            let ended = if mode == Mode::Locked { self.edit_ended(now) } else { self };
            let moved = State { mode, ..ended };
            State {
                outputs: Seq::new(
                    moved.outputs.len(),
                    |i: int| moved.outputs[i].remapped(moved.current_hint()),
                ),
                requests: moved.requests + Seq::new(
                    moved.outputs.len(),
                    |i: int|
                        RequestView::CreateSurface {
                            id: moved.outputs[i].id,
                            mode,
                            scale: moved.outputs[i].reported,
                        },
                ),
                dirty: true,
                ..moved
            }
        }
    }

    pub open spec fn tool_picked(self, tool: Tool, now: u64) -> State {
        if self.tool == tool {
            self
        } else {
            (State { tool, ..self.edit_ended(now) }).hint_refreshed()
        }
    }

    pub open spec fn color_picked(self, idx: usize) -> State {
        if idx < 5 { (State { color_idx: idx, ..self }).hint_refreshed() } else { self }
    }

    /// The active tool's size is a step larger or smaller, within its range.
    pub open spec fn size_nudged(self, dir: i32) -> State {
        let next = match self.tool {
            Tool::Text => State {
                text_size: input::clamped(
                    self.text_size + dir * TEXT_SIZE_STEP,
                    TEXT_SIZE_MIN as int,
                    TEXT_SIZE_MAX as int,
                ) as u32,
                ..self
            },
            _ => State {
                pen_width: input::clamped(
                    self.pen_width + dir * PEN_WIDTH_STEP,
                    PEN_WIDTH_MIN as int,
                    PEN_WIDTH_MAX as int,
                ) as u32,
                ..self
            },
        };
        next.hint_refreshed()
    }

    /// The text box being edited holds another text; typed content and the caret are not
    /// localisable to a transient box, so its output is repainted whole.
    pub open spec fn retyped(self, edit: TextOverlayView) -> State {
        let i = self.edit_at();
        (State { outputs: self.outputs.update(i, self.outputs[i].with_text(Some(edit)).marked()), ..self })
            .touched().synced()
    }

    /// A key was pressed.
    pub open spec fn key_pressed(self, keysym: u32, utf8: Option<Seq<char>>, now: u64) -> State {
        if self.mode != Mode::Edit {
            self
        } else if self.is_editing() {
            let edit = self.edit();
            match input::action_of(keysym, edit.preedit.len() > 0) {
                EditAction::EndText => self.edit_ended(now),
                EditAction::Backspace => self.retyped(
                    TextOverlayView { typed: buffer::without_last(edit.typed, 1), ..edit },
                ),
                EditAction::Newline => self.retyped(
                    TextOverlayView { typed: edit.typed + "\n"@, ..edit },
                ),
                EditAction::Local => match utf8 {
                    Some(s) => self.retyped(TextOverlayView { typed: edit.typed + s, ..edit }),
                    None => self,
                },
                EditAction::InputMethod => self,
            }
        } else if keysym == input::KEY_ESCAPE {
            self.mode_switched(Mode::Locked, now)
        } else if input::tool_of(keysym) is Some {
            self.tool_picked(input::tool_of(keysym)->0, now)
        } else if input::color_of(keysym) is Some {
            self.color_picked(input::color_of(keysym)->0)
        } else if input::step_of(keysym) is Some {
            self.size_nudged(input::step_of(keysym)->0)
        } else {
            self
        }
    }

    /// The left button went down.
    pub open spec fn pressed(self, id: u32, x: i32, y: i32, now: u64) -> State {
        if self.mode != Mode::Edit {
            self
        } else {
            let clean = self.edit_ended(now).strokes_committed(now);
            if !clean.has(id) {
                clean.touched()
            } else {
                match self.tool {
                    Tool::Pen => clean.with_output(
                        id,
                        clean.output(id).with_stroke(
                            Some(
                                StrokeView {
                                    color: clean.color(),
                                    width: clean.pen_width,
                                    points: seq![[x, y]],
                                },
                            ),
                        ).marked(),
                    ).touched(),
                    Tool::Eraser => clean.with_output(
                        id,
                        clean.output(id).with_eraser(Some([x, y])).marked(),
                    ).touched(),
                    Tool::Text => clean.edit_begun(id, x, y),
                }
            }
        }
    }

    /// The pointer moved.
    pub open spec fn moved(self, id: u32, x: i32, y: i32) -> State {
        if self.mode != Mode::Edit || !self.has(id) {
            self
        } else {
            let out = self.output(id);
            match self.tool {
                Tool::Pen => match out.overlay.stroke {
                    None => self,
                    Some(s) => if s.points.len() > 0 && !input::apart(s.points.last(), [x, y]) {
                        self
                    } else {
                        let longer = StrokeView { points: s.points.push([x, y]), ..s };
                        self.with_output(
                            id,
                            OutputView { transient_dirty: true, ..out.with_stroke(Some(longer)) },
                        ).touched()
                    },
                },
                Tool::Eraser => self.with_output(
                    id,
                    OutputView { transient_dirty: true, ..out.with_eraser(Some([x, y])) },
                ).touched(),
                Tool::Text => self,
            }
        }
    }

    /// Whether the eraser marker of an output is over something that can be erased.
    pub open spec fn erases(self, doc: DocView, out: OutputView) -> bool {
        &&& self.tool == Tool::Eraser
        &&& out.overlay.eraser is Some
        &&& doc.dom().contains(out.bucket())
        &&& doc[out.bucket()].hit((out.overlay.eraser->0)[0], (out.overlay.eraser->0)[1]) is Some
    }

    /// The left button came up, or the pointer left the surface.
    pub open spec fn released(self, id: u32, now: u64) -> State {
        if !self.has(id) {
            self.touched()
        } else {
            let out = self.output(id);
            let drawn = out.drawn_into(self.doc);
            let erases = self.erases(drawn, out);
            let next = self.changed(out.has_drawn() || erases, now);
            (State {
                doc: if erases {
                    document::with_erased(
                        drawn,
                        out.bucket(),
                        (out.overlay.eraser->0)[0],
                        (out.overlay.eraser->0)[1],
                    )
                } else {
                    drawn
                },
                ..next
            }).with_output(id, out.with_stroke(None).with_eraser(None).marked()).touched()
        }
    }

    /// The keyboard focus came to a surface, or to none of ours.
    pub open spec fn entered(self, id: Option<u32>, now: u64) -> State {
        let left = if self.keyboard_focus is Some && self.keyboard_focus != id {
            self.edit_ended(now)
        } else {
            self
        };
        (State { keyboard_focus: id, text_input_enabled: false, ..left }).synced()
    }

    /// The keyboard focus left a surface.
    pub open spec fn left(self, id: Option<u32>, now: u64) -> State {
        if id == self.keyboard_focus {
            (State { keyboard_focus: None, ..self.edit_ended(now) }).synced()
        } else {
            self
        }
    }

    /// The input method's batch, with nothing in it.
    pub open spec fn batch_dropped(self) -> State {
        State { im_preedit: None, im_commit: Seq::empty(), im_delete: None, ..self }
    }

    /// The input method's batch, applied to the text box being edited. A batch that carried no
    /// preedit resets it to empty.
    pub open spec fn batch_applied(self) -> State {
        let next = self.batch_dropped();
        if !self.is_editing() {
            next
        } else {
            let preedit = match self.im_preedit {
                Some(p) => p,
                None => Seq::empty(),
            };
            let edit = self.edit();
            let kept = match self.im_delete {
                Some(lengths) => {
                    let before = lengths.0 - text::utf8_len(preedit);
                    buffer::without_last_bytes(edit.typed, if before >= 0 { before } else { 0 })
                },
                None => edit.typed,
            };
            next.retyped(TextOverlayView { typed: kept + self.im_commit, preedit, ..edit })
        }
    }

    /// The input method said something.
    pub open spec fn im_event(self, event: TextInputEvent) -> State {
        match event {
            TextInputEvent::Enter => (State {
                text_input_enabled: false,
                ..self.batch_dropped()
            }).synced(),
            TextInputEvent::Leave => State { text_input_enabled: false, ..self.batch_dropped() },
            TextInputEvent::Preedit(Some(s)) => State { im_preedit: Some(s@), ..self },
            TextInputEvent::Preedit(None) => State { im_preedit: None, ..self },
            TextInputEvent::Commit(Some(s)) => State { im_commit: self.im_commit + s@, ..self },
            TextInputEvent::Commit(None) => self,
            TextInputEvent::DeleteSurrounding { before, after } => State {
                im_delete: Some((before, after)),
                ..self
            },
            TextInputEvent::Done => self.batch_applied(),
            TextInputEvent::Other => self,
        }
    }

    /// The pointer did something.
    pub open spec fn pointed(self, event: PointerEvent, now: u64) -> State {
        match event.id {
            None => self,
            Some(id) => match event.kind {
                PointerKind::Motion => self.moved(id, event.x, event.y),
                PointerKind::Press(button) => if button == BTN_LEFT {
                    self.pressed(id, event.x, event.y, now)
                } else {
                    self
                },
                PointerKind::Release(button) => if button == BTN_LEFT {
                    self.released(id, now)
                } else {
                    self
                },
                PointerKind::Leave => self.released(id, now),
                PointerKind::Other => self,
            },
        }
    }

    /// The first `n` pointer events, in order.
    pub open spec fn all_pointed(self, events: Seq<PointerEvent>, n: int, now: u64) -> State
        decreases n,
    {
        if n <= 0 { self } else { self.all_pointed(events, n - 1, now).pointed(events[n - 1], now) }
    }

    /// An output has a new surface.
    pub open spec fn surface_created(self, id: u32, name: Seq<char>, reported: u32) -> State {
        let out = OutputView::fresh(id, name, reported, self.current_hint());
        (State { outputs: self.outputs.push(out), ..self }).asking(
            RequestView::CreateSurface { id, mode: self.mode, scale: reported },
        )
    }

    /// Every one of the first `n` known outputs has a surface.
    pub open spec fn all_surfaced(self, known: Seq<KnownOutput>, n: int) -> State
        decreases n,
    {
        if n <= 0 {
            self
        } else {
            let before = self.all_surfaced(known, n - 1);
            let k = known[n - 1];
            if before.has(k.id) {
                before
            } else {
                before.surface_created(k.id, reported_name(k.info), reported_scale(k.info))
            }
        }
    }

    /// An output's scale: the buffers, which were allocated for the old one, are dropped. Stored
    /// coordinates stay logical, so nothing moves.
    pub open spec fn scale_adopted(self, id: u32, scale: u32) -> State {
        if !self.has(id) || self.output(id).scale == scale {
            self
        } else {
            let out = self.output(id);
            self.with_output(
                id,
                OutputView { scale, dirty: true, ..out.without_buffers() },
            ).asking(RequestView::SetBufferScale { id, scale }).asking(
                RequestView::DropBuffers { id },
            ).touched()
        }
    }

    /// An output is known by this name, scale and logical size now.
    pub open spec fn info_adopted(
        self,
        id: u32,
        name: Seq<char>,
        reported: u32,
        size: Option<(i32, i32)>,
    ) -> State {
        let out = OutputView { name, reported, ..self.output(id) };
        let resized = match size {
            Some(wh) => wh.0 > 0 && wh.1 > 0 && !(out.width == wh.0 && out.height == wh.1),
            None => false,
        };
        if resized {
            let wh = size->0;
            self.with_output(
                id,
                OutputView {
                    width: wh.0 as u32,
                    height: wh.1 as u32,
                    dirty: true,
                    ..out.without_buffers()
                },
            ).asking(RequestView::DropBuffers { id }).touched()
        } else {
            self.with_output(id, out)
        }
    }

    /// An output showed up, or reported another name, scale or logical size.
    pub open spec fn output_refreshed(
        self,
        id: u32,
        name: Seq<char>,
        reported: u32,
        size: Option<(i32, i32)>,
    ) -> State {
        let there = if self.has(id) { self } else { self.surface_created(id, name, reported) };
        there.scale_adopted(id, reported).info_adopted(id, name, reported, size)
    }

    /// An output is gone. What was drawn on it stays in the document.
    pub open spec fn output_gone(self, id: u32) -> State {
        if self.has(id) {
            (State { outputs: self.outputs.remove(self.at(id)), ..self }).asking(
                RequestView::RemoveSurface { id },
            )
        } else {
            self
        }
    }

    /// The compositor closed a surface: the output gets a new one.
    pub open spec fn surface_closed(self, id: u32) -> State {
        if self.has(id) {
            let out = self.output(id);
            self.with_output(
                id,
                OutputView::fresh(id, out.name, out.reported, self.current_hint()),
            ).asking(RequestView::CreateSurface { id, mode: self.mode, scale: out.reported })
        } else {
            self
        }
    }

    /// The compositor gave a surface its size.
    pub open spec fn surface_configured(self, id: u32, w: u32, h: u32) -> State {
        if !self.has(id) {
            self
        } else {
            let out = self.output(id);
            if w > 0 && h > 0 && !(out.width == w && out.height == h) {
                self.with_output(
                    id,
                    OutputView {
                        width: w,
                        height: h,
                        configured: true,
                        dirty: true,
                        ..out.without_buffers()
                    },
                ).asking(RequestView::DropBuffers { id }).touched()
            } else {
                self.with_output(id, OutputView { configured: true, dirty: true, ..out }).touched()
            }
        }
    }

    /// The other mode.
    pub open spec fn other_mode(self) -> Mode {
        match self.mode {
            Mode::Locked => Mode::Edit,
            Mode::Edit => Mode::Locked,
        }
    }

    /// A command line came in; `None` where it asks for nothing that is known.
    pub open spec fn commanded(self, command: Option<Command>, now: u64) -> State {
        match command {
            None => self,
            Some(Command::Toggle) => self.mode_switched(self.other_mode(), now),
            Some(Command::Edit) => self.mode_switched(Mode::Edit, now),
            Some(Command::Lock) => self.mode_switched(Mode::Locked, now),
            Some(Command::Clear) => State { doc: Map::empty(), ..self.edit_ended(now) },
        }
    }

    /// The document was written, or that failed.
    pub open spec fn flushed(self, written: bool, now: u64) -> State {
        State { deadline: store::deadline_after_flush(written, now), ..self }
    }

    /// The buffers that a frame of an output is drawn into have the surface's device size.
    pub open spec fn buffers_fitted(self, id: u32) -> State {
        if !self.has(id) || !self.output(id).can_draw() || self.output(id).buffer_size
            == self.output(id).device_size() {
            self
        } else {
            let out = self.output(id);
            self.with_output(
                id,
                OutputView { buffer_size: out.device_size(), ..out.without_buffers() },
            ).asking(RequestView::DropBuffers { id })
        }
    }

    /// What a frame of an output on some buffer repaints: nothing, everything, or a box. A box
    /// is only valid on the buffer that holds the previous frame; an open text edit forces a
    /// whole frame, because its caret is not a transient box.
    pub open spec fn frame_kind(self, id: u32, idx: usize) -> FrameKind {
        let out = self.output(id);
        if out.dirty || out.last_buffer != Some(idx) || out.is_editing() {
            FrameKind::Whole
        } else if out.transient_dirty {
            FrameKind::Boxed
        } else {
            FrameKind::Nothing
        }
    }

    /// What moved since the previous frame: the transient elements as they were and as they are.
    pub open spec fn moved_box(self, id: u32) -> Rect {
        let out = self.output(id);
        match (out.last_transient, damage::transient_box(out.overlay)) {
            (Some(a), Some(b)) => a.joined(b),
            (Some(a), None) => a,
            (None, Some(b)) => b,
            (None, None) => Rect { x: 0, y: 0, w: 0, h: 0 },
        }
    }

    /// The boxes of what an output shows.
    pub open spec fn boxes(self, id: u32) -> DrawnBoxes {
        let out = self.output(id);
        damage::drawn_boxes(
            document::annotations_of(self.doc, out.bucket()),
            out.overlay,
            (256 * out.width) as u64,
        )
    }

    /// A frame of an output was composed on some buffer.
    pub open spec fn frame_composed(self, id: u32, idx: usize) -> State {
        let out = self.output(id);
        self.with_output(
            id,
            OutputView {
                dirty: false,
                transient_dirty: false,
                last_transient: damage::transient_box(out.overlay),
                last_buffer: Some(idx),
                ..out
            },
        )
    }
}

/// The first free buffer at or after `from`.
pub open spec fn first_free(free: Seq<bool>, from: int) -> Option<int>
    decreases free.len() - from,
{
    if from < 0 || from >= free.len() {
        None
    } else if free[from] {
        Some(from)
    } else {
        first_free(free, from + 1)
    }
}

/// The buffer a frame is drawn into: the one that holds the previous frame where it is free,
/// else the first free one, else a new one while there are few.
pub open spec fn choice_of(last: Option<usize>, free: Seq<bool>) -> BufferChoice {
    if last is Some && last->0 < free.len() && free[last->0 as int] {
        BufferChoice::Use(last->0)
    } else if first_free(free, 0) is Some {
        BufferChoice::Use(first_free(free, 0)->0 as usize)
    } else if free.len() < MAX_BUFFERS {
        BufferChoice::Allocate
    } else {
        BufferChoice::Wait
    }
}

/// What a frame repaints.
pub enum FrameKind {
    Nothing,
    Whole,
    Boxed,
}

impl State {
    /// Valid, except that the hints may be those of other settings.
    pub open spec fn valid_but_hints(self) -> bool {
        &&& self.color_idx < 5
        &&& PEN_WIDTH_MIN <= self.pen_width <= PEN_WIDTH_MAX
        &&& TEXT_SIZE_MIN <= self.text_size <= TEXT_SIZE_MAX
        &&& forall|i: int, j: int|
            0 <= i < j < self.outputs.len() ==> (#[trigger] self.outputs[i]).id != (
            #[trigger] self.outputs[j]).id
        &&& forall|i: int, j: int|
            0 <= i < j < self.outputs.len() ==> !((#[trigger] self.outputs[i]).is_editing() && (
            #[trigger] self.outputs[j]).is_editing())
        &&& self.mode == Mode::Locked ==> forall|i: int|
            0 <= i < self.outputs.len() ==> (#[trigger] self.outputs[i]).overlay
                == OverlayView::idle(None)
    }
}

/// An output is where it is found, and nowhere else.
pub proof fn lemma_at(s: State, i: int)
    requires
        s.valid_but_hints(),
        0 <= i < s.outputs.len(),
    ensures
        s.has(s.outputs[i].id),
        s.at(s.outputs[i].id) == i,
{
    let id = s.outputs[i].id;
    let j = s.at(id);
    assert(s.outputs[j].id == id);
}

/// The text box being edited is where it is found, and nowhere else.
pub proof fn lemma_edit_at(s: State, i: int)
    requires
        s.valid_but_hints(),
        0 <= i < s.outputs.len(),
        s.outputs[i].is_editing(),
    ensures
        s.is_editing(),
        s.edit_at() == i,
{
    let j = s.edit_at();
    assert(s.outputs[j].is_editing());
}

/// Refreshing the hints makes a state valid whose hints were out of date.
pub proof fn refreshing_the_hints_keeps_valid(s: State)
    requires
        s.valid_but_hints(),
    ensures
        s.hint_refreshed().valid(),
{
    let r = s.hint_refreshed();
    assert forall|i: int, j: int| 0 <= i < j < r.outputs.len() implies !((
    #[trigger] r.outputs[i]).is_editing() && (#[trigger] r.outputs[j]).is_editing()) by {
        assert(s.outputs[i].is_editing() == r.outputs[i].is_editing());
        assert(s.outputs[j].is_editing() == r.outputs[j].is_editing());
    }
    assert forall|i: int, j: int| 0 <= i < j < r.outputs.len() implies (#[trigger] r.outputs[i]).id
        != (#[trigger] r.outputs[j]).id by {
        assert(s.outputs[i].id != s.outputs[j].id);
    }
    if r.mode == Mode::Locked {
        assert forall|i: int| 0 <= i < r.outputs.len() implies (#[trigger] r.outputs[i]).overlay
            == OverlayView::idle(None) by {
            assert(s.outputs[i].overlay == OverlayView::idle(None));
        }
    }
}

/// Ending the text edit keeps the state valid, and then nothing is edited.
pub proof fn ending_the_edit_keeps_valid(s: State, now: u64)
    requires
        s.valid(),
    ensures
        s.edit_committed(now).valid(),
        s.edit_ended(now).valid(),
        !s.edit_committed(now).is_editing(),
        !s.edit_ended(now).is_editing(),
{
    let r = s.edit_committed(now);
    assert(r.current_hint() == s.current_hint());
    assert forall|i: int| 0 <= i < r.outputs.len() implies !(#[trigger] r.outputs[i]).is_editing()
        && r.outputs[i].overlay.hint == s.outputs[i].overlay.hint && r.outputs[i].id
        == s.outputs[i].id by {}
    assert forall|i: int, j: int| 0 <= i < j < r.outputs.len() implies (#[trigger] r.outputs[i]).id
        != (#[trigger] r.outputs[j]).id by {
        assert(s.outputs[i].id != s.outputs[j].id);
    }
    if r.mode == Mode::Locked {
        assert forall|i: int| 0 <= i < r.outputs.len() implies (#[trigger] r.outputs[i]).overlay
            == OverlayView::idle(None) by {
            assert(s.outputs[i].overlay == OverlayView::idle(None));
        }
    }
}

/// Committing the strokes in progress keeps the state valid.
pub proof fn committing_strokes_keeps_valid(s: State, now: u64)
    requires
        s.valid(),
    ensures
        s.strokes_committed(now).valid(),
        s.strokes_committed(now).is_editing() == s.is_editing(),
{
    let r = s.strokes_committed(now);
    assert(r.current_hint() == s.current_hint());
    assert forall|i: int| 0 <= i < r.outputs.len() implies (#[trigger] r.outputs[i]).is_editing()
        == s.outputs[i].is_editing() && r.outputs[i].overlay.hint == s.outputs[i].overlay.hint
        && r.outputs[i].id == s.outputs[i].id by {}
    assert forall|i: int, j: int| 0 <= i < j < r.outputs.len() implies (#[trigger] r.outputs[i]).id
        != (#[trigger] r.outputs[j]).id && !(r.outputs[i].is_editing()
        && r.outputs[j].is_editing()) by {
        assert(s.outputs[i].id != s.outputs[j].id);
    }
    if r.mode == Mode::Locked {
        assert forall|i: int| 0 <= i < r.outputs.len() implies (#[trigger] r.outputs[i]).overlay
            == OverlayView::idle(None) by {
            assert(s.outputs[i].overlay == OverlayView::idle(None));
        }
    }
    if s.is_editing() {
        assert(r.outputs[s.edit_at()].is_editing());
    }
    if r.is_editing() {
        assert(s.outputs[r.edit_at()].is_editing());
    }
}

/// Putting another output in the place of one keeps the state valid where the new one has the
/// same id, an up-to-date hint, nothing in progress while locked, and where no second text box
/// is edited.
pub proof fn replacing_an_output_keeps_valid(s: State, i: int, out: OutputView)
    requires
        s.valid(),
        0 <= i < s.outputs.len(),
        out.id == s.outputs[i].id,
        out.overlay.hint == s.current_hint(),
        s.mode == Mode::Locked ==> out.overlay == OverlayView::idle(None),
        out.is_editing() ==> s.outputs[i].is_editing() || !s.is_editing(),
    ensures
        (State { outputs: s.outputs.update(i, out), ..s }).valid(),
{
    let r = State { outputs: s.outputs.update(i, out), ..s };
    assert(r.current_hint() == s.current_hint());
    assert forall|a: int, b: int| 0 <= a < b < r.outputs.len() implies (#[trigger] r.outputs[a]).id
        != (#[trigger] r.outputs[b]).id && !(r.outputs[a].is_editing()
        && r.outputs[b].is_editing()) by {
        assert(s.outputs[a].id != s.outputs[b].id);
        assert(!(s.outputs[a].is_editing() && s.outputs[b].is_editing()));
        if out.is_editing() && !s.outputs[i].is_editing() {
            assert(!s.outputs[a].is_editing());
            assert(!s.outputs[b].is_editing());
        }
    }
}

/// Marking every output keeps the state valid.
pub proof fn marking_all_keeps_valid(s: State)
    requires
        s.valid(),
    ensures
        s.all_marked().valid(),
{
    let r = s.all_marked();
    assert forall|i: int| 0 <= i < r.outputs.len() implies (#[trigger] r.outputs[i]).overlay
        == s.outputs[i].overlay && r.outputs[i].id == s.outputs[i].id by {}
    assert forall|i: int, j: int| 0 <= i < j < r.outputs.len() implies (#[trigger] r.outputs[i]).id
        != (#[trigger] r.outputs[j]).id && !(r.outputs[i].is_editing()
        && r.outputs[j].is_editing()) by {
        assert(s.outputs[i].id != s.outputs[j].id);
        assert(!(s.outputs[i].is_editing() && s.outputs[j].is_editing()));
    }
}

/// Switching the mode keeps the state valid.
pub proof fn switching_the_mode_keeps_valid(s: State, mode: Mode, now: u64)
    requires
        s.valid(),
    ensures
        s.mode_switched(mode, now).valid(),
{
    if s.mode != mode {
        ending_the_edit_keeps_valid(s, now);
        let ended = if mode == Mode::Locked { s.edit_ended(now) } else { s };
        let moved = State { mode, ..ended };
        let r = s.mode_switched(mode, now);
        assert(r.current_hint() == moved.current_hint());
        assert forall|i: int| 0 <= i < r.outputs.len() implies (#[trigger] r.outputs[i]).overlay
            == OverlayView::idle(r.current_hint()) && r.outputs[i].id == ended.outputs[i].id by {}
        assert forall|i: int, j: int| 0 <= i < j < r.outputs.len() implies (
        #[trigger] r.outputs[i]).id != (#[trigger] r.outputs[j]).id by {
            assert(ended.outputs[i].id != ended.outputs[j].id);
        }
    }
}

/// Creating a surface for an output that has none keeps the state valid.
pub proof fn creating_a_surface_keeps_valid(s: State, id: u32, name: Seq<char>, reported: u32)
    requires
        s.valid(),
        !s.has(id),
    ensures
        s.surface_created(id, name, reported).valid(),
{
    let r = s.surface_created(id, name, reported);
    assert(r.current_hint() == s.current_hint());
    assert forall|i: int, j: int| 0 <= i < j < r.outputs.len() implies (#[trigger] r.outputs[i]).id
        != (#[trigger] r.outputs[j]).id && !(r.outputs[i].is_editing()
        && r.outputs[j].is_editing()) by {
        assert(r.outputs[i] == s.outputs[i]);
        if j < s.outputs.len() {
            assert(s.outputs[i].id != s.outputs[j].id);
        }
    }
}

/// An output that was surfaced where it was missing is there.
pub proof fn lemma_surface_is_there(s: State, id: u32, name: Seq<char>, reported: u32)
    ensures
        (if s.has(id) { s } else { s.surface_created(id, name, reported) }).has(id),
{
    if !s.has(id) {
        let r = s.surface_created(id, name, reported);
        assert(r.outputs[s.outputs.len() as int].id == id);
    }
}

/// Adopting a scale takes no output away.
pub proof fn lemma_scale_keeps_outputs(s: State, id: u32, scale: u32)
    requires
        s.valid(),
        s.has(id),
    ensures
        s.scale_adopted(id, scale).has(id),
{
    assert(s.scale_adopted(id, scale).outputs[s.at(id)].id == id);
}

/// Removing an output keeps the state valid.
pub proof fn removing_an_output_keeps_valid(s: State, id: u32)
    requires
        s.valid(),
    ensures
        s.output_gone(id).valid(),
{
    if s.has(id) {
        let k = s.at(id);
        let r = s.output_gone(id);
        assert(r.current_hint() == s.current_hint());
        assert forall|i: int| 0 <= i < r.outputs.len() implies (#[trigger] r.outputs[i])
            == s.outputs[if i < k { i } else { i + 1 }] by {}
        assert forall|i: int, j: int| 0 <= i < j < r.outputs.len() implies (
        #[trigger] r.outputs[i]).id != (#[trigger] r.outputs[j]).id && !(r.outputs[i].is_editing()
            && r.outputs[j].is_editing()) by {
            let (a, b) = (if i < k { i } else { i + 1 }, if j < k { j } else { j + 1 });
            assert(s.outputs[a].id != s.outputs[b].id);
        }
    }
}

} // verus!
