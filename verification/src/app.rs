//! The editing session: modes, tools, text edits, pointer and keyboard input, outputs and frames.
//!
//! The session decides; it talks to nobody. What the compositor and the input method have to be
//! told piles up as [`Request`]s, and what only they can say comes in as arguments.

use vstd::prelude::*;

use crate::buffer;
use crate::buffer::TextBuffer;
use crate::canvas::{OutputAnnotations, Stroke, StrokeView, TextItem};
use crate::damage::{damage_box, transient_bounds};
use crate::document;
use crate::document::Doc;
use crate::geometry::Rect;
use crate::input::{
    bytes_to_delete, color_for_keysym, edit_action, size_step_for_keysym, stepped_size,
    tool_for_keysym, wants_sampling, EditAction, KEY_ESCAPE,
};
use crate::ipc;
use crate::overlay::{Hint, Overlay, TextOverlay, TextOverlayView};
use crate::region::{buffer_format, DamageRegion, ABGR8888, ARGB8888};
use crate::session;
use crate::session::{OutputView, RequestView, State};
use crate::store;
use crate::store::Store;
use crate::text::{byte_len, joined, numeral};

pub use crate::ipc::Command;
pub use crate::session::{
    PEN_WIDTH, PEN_WIDTH_MAX, PEN_WIDTH_MIN, PEN_WIDTH_STEP, TEXT_SIZE, TEXT_SIZE_MAX,
    TEXT_SIZE_MIN, TEXT_SIZE_STEP,
};

verus! {

/// Built-in palette (`#rrggbb`).
pub const PALETTE: [&'static str; 5] = ["#e01b24", "#f6d32d", "#33d17a", "#3584e4", "#ffffff"];

/// The code of the left pointer button.
pub const BTN_LEFT: u32 = 0x110;

/// Max shm buffers kept per output: the compositor may still hold the previous one.
pub const MAX_BUFFERS: usize = 2;

#[derive(Debug, Clone, Copy, PartialEq, Eq, Structural)]
pub enum Mode {
    Locked,
    Edit,
}

/// The layer a surface is put on.
#[derive(Debug, Clone, Copy, PartialEq, Eq, Structural)]
pub enum SurfaceLayer {
    Background,
    Overlay,
}

/// Who gets the keyboard.
#[derive(Debug, Clone, Copy, PartialEq, Eq, Structural)]
pub enum KeyboardUse {
    Nothing,
    Exclusive,
}

impl Mode {
    /// Above the wallpaper and below ordinary windows while locked, on top of them while editing.
    pub fn layer(self) -> (r: SurfaceLayer)
        ensures
            r == SurfaceLayer::Background <==> self == Mode::Locked,
    {
        match self {
            Mode::Locked => SurfaceLayer::Background,
            Mode::Edit => SurfaceLayer::Overlay,
        }
    }

    /// The keyboard passes by while locked and is grabbed while editing.
    pub fn keyboard(self) -> (r: KeyboardUse)
        ensures
            r == KeyboardUse::Nothing <==> self == Mode::Locked,
    {
        match self {
            Mode::Locked => KeyboardUse::Nothing,
            Mode::Edit => KeyboardUse::Exclusive,
        }
    }

    /// Whether the pointer passes straight through the surface.
    pub fn click_through(self) -> (r: bool)
        ensures
            r == (self == Mode::Locked),
    {
        match self {
            Mode::Locked => true,
            Mode::Edit => false,
        }
    }
}

#[derive(Debug, Clone, Copy, PartialEq, Eq, Structural)]
pub enum Tool {
    Pen,
    Eraser,
    Text,
}

/// The word the edit-mode hint shows for the active tool.
pub fn tool_label(tool: Tool) -> (r: &'static str)
    ensures
        r@ == session::label(tool),
{
    match tool {
        Tool::Pen => "pen",
        Tool::Eraser => "eraser",
        Tool::Text => "text",
    }
}

/// Something the compositor or the input method has to be told.
#[derive(Debug, PartialEq, Eq)]
pub enum Request {
    /// Map a new surface on an output, in place of the one it had with its buffers.
    CreateSurface { id: u32, mode: Mode, scale: u32 },
    /// The output is gone, and its surface with it.
    RemoveSurface { id: u32 },
    SetBufferScale { id: u32, scale: u32 },
    /// The buffers of an output have the wrong size.
    DropBuffers { id: u32 },
    /// The text around the cursor, which is a byte offset; `enable` where the input method was
    /// not told of the text box yet.
    UpdateTextInput { enable: bool, text: String, cursor: usize },
    DisableTextInput,
}

impl View for Request {
    type V = RequestView;

    open spec fn view(&self) -> RequestView {
        match *self {
            Request::CreateSurface { id, mode, scale } => RequestView::CreateSurface {
                id,
                mode,
                scale,
            },
            Request::RemoveSurface { id } => RequestView::RemoveSurface { id },
            Request::SetBufferScale { id, scale } => RequestView::SetBufferScale { id, scale },
            Request::DropBuffers { id } => RequestView::DropBuffers { id },
            Request::UpdateTextInput { enable, text, cursor } => RequestView::UpdateTextInput {
                enable,
                text: text@,
                cursor: cursor as nat,
            },
            Request::DisableTextInput => RequestView::DisableTextInput,
        }
    }
}

/// What is left to do for a command.
#[derive(Debug, PartialEq, Eq)]
pub enum CommandStep {
    /// Answer with this line.
    Reply(String),
    /// Write the document, and take the answer from what that gives.
    Save,
}

/// Which buffer a frame is drawn into.
#[derive(Debug, Clone, Copy, PartialEq, Eq, Structural)]
pub enum BufferChoice {
    Use(usize),
    /// A new one.
    Allocate,
    /// None for now: the compositor holds them all.
    Wait,
}

/// A frame to draw.
#[derive(Debug, Clone, Copy, PartialEq, Eq)]
pub struct Frame {
    /// The size in device pixels.
    pub width: u32,
    pub height: u32,
    pub scale: u32,
    /// The only part that may be painted, or `None` for everything.
    pub damage: Option<Rect>,
    /// The same in device pixels.
    pub region: DamageRegion,
}

/// What an output reports of itself.
#[derive(Debug, PartialEq, Eq)]
pub struct OutputInfo {
    pub name: Option<String>,
    pub scale_factor: i32,
    pub logical_size: Option<(i32, i32)>,
}

/// An output the compositor announced, and what is known of it.
#[derive(Debug, PartialEq, Eq)]
pub struct KnownOutput {
    pub id: u32,
    pub info: Option<OutputInfo>,
}

/// What the input method says.
#[derive(Debug, PartialEq, Eq)]
pub enum TextInputEvent {
    Enter,
    Leave,
    Preedit(Option<String>),
    Commit(Option<String>),
    /// Lengths in bytes around the cursor.
    DeleteSurrounding { before: u32, after: u32 },
    Done,
    Other,
}

/// What the pointer did.
#[derive(Debug, Clone, Copy, PartialEq, Eq, Structural)]
pub enum PointerKind {
    Motion,
    Press(u32),
    Release(u32),
    Leave,
    Other,
}

/// What the pointer did, and where: on which output, if on one of ours, and at which point.
#[derive(Debug, Clone, Copy, PartialEq, Eq, Structural)]
pub struct PointerEvent {
    pub id: Option<u32>,
    pub x: i32,
    pub y: i32,
    pub kind: PointerKind,
}

/// An output and the surface on it.
#[derive(Debug)]
pub struct Output {
    pub id: u32,
    /// The output's name; it may only arrive after the surface was created.
    pub name: String,
    pub width: u32,
    pub height: u32,
    pub scale: u32,
    /// The scale the output reports; a surface is created with it.
    pub reported: u32,
    pub configured: bool,
    pub dirty: bool,
    /// Only the transient overlay moved, so the next frame can damage just its box.
    pub transient_dirty: bool,
    /// Transient overlay box as drawn in the previous frame; it has to be erased next time.
    pub last_transient: Option<Rect>,
    /// Buffer index that holds the previous frame. A bounding-box damage is only valid on it.
    pub last_buffer: Option<usize>,
    pub buffer_size: (u32, u32),
    pub overlay: Overlay,
}

impl View for Output {
    type V = OutputView;

    open spec fn view(&self) -> OutputView {
        OutputView {
            id: self.id,
            name: self.name@,
            width: self.width,
            height: self.height,
            scale: self.scale,
            reported: self.reported,
            configured: self.configured,
            dirty: self.dirty,
            transient_dirty: self.transient_dirty,
            last_transient: self.last_transient,
            last_buffer: self.last_buffer,
            buffer_size: self.buffer_size,
            overlay: self.overlay@,
        }
    }
}

impl Output {
    pub open spec fn wf(self) -> bool {
        &&& self.overlay.wf()
        &&& self.last_transient is Some ==> self.last_transient->0.in_range()
    }

    /// Key used for annotations; falls back to `output-<id>` until the name arrives.
    pub fn bucket(&self) -> (r: String)
        ensures
            r@ == self@.bucket(),
    {
        if self.name.as_str().unicode_len() == 0 {
            joined("output-", numeral(self.id).as_str())
        } else {
            self.name.clone()
        }
    }
}

/// The outputs, in the mathematical model.
spec fn views(outputs: Seq<Output>) -> Seq<OutputView> {
    outputs.map_values(|o: Output| o@)
}

/// The editing session.
#[derive(Debug)]
pub struct App {
    doc: Doc,
    store: Store,
    mode: Mode,
    tool: Tool,
    color_idx: usize,
    /// Width new strokes are created with.
    pen_width: u32,
    /// Size new text boxes are created with.
    text_size: u32,
    outputs: Vec<Output>,
    keyboard_focus: Option<u32>,
    dirty: bool,
    exit: bool,
    text_input: bool,
    text_input_enabled: bool,
    im_commit: String,
    im_preedit: Option<String>,
    im_delete: Option<(u32, u32)>,
    /// Shm format of every buffer and whether frames need the R/B swap. Decided once from the
    /// compositor's advertised list, because all buffers of an output have to agree.
    buffer_format: Option<(u32, bool)>,
    requests: Vec<Request>,
}

impl View for App {
    type V = State;

    closed spec fn view(&self) -> State {
        State {
            doc: self.doc@,
            deadline: self.store.deadline,
            mode: self.mode,
            tool: self.tool,
            color_idx: self.color_idx,
            pen_width: self.pen_width,
            text_size: self.text_size,
            outputs: views(self.outputs@),
            keyboard_focus: self.keyboard_focus,
            dirty: self.dirty,
            exit: self.exit,
            text_input: self.text_input,
            text_input_enabled: self.text_input_enabled,
            im_commit: self.im_commit@,
            im_preedit: match self.im_preedit {
                Some(s) => Some(s@),
                None => None,
            },
            im_delete: self.im_delete,
            buffer_format: self.buffer_format,
            requests: self.requests@.map_values(|r: Request| r@),
        }
    }
}

impl App {
    /// The annotation path the session was started with.
    pub closed spec fn path(self) -> Seq<char> {
        self.store.path@
    }

    spec fn parts_wf(self) -> bool {
        &&& self.doc.wf()
        &&& forall|i: int| 0 <= i < self.outputs@.len() ==> (#[trigger] self.outputs@[i]).wf()
    }

    /// The state is valid, and so are the document and the outputs that make it up.
    pub closed spec fn wf(self) -> bool {
        self.parts_wf() && self@.valid()
    }

    /// The state the session is in.
    spec fn has_come_to(self, state: State) -> bool {
        self@ == state
    }

    /// A session is valid in the model.
    pub proof fn lemma_wf(self)
        requires
            self.wf(),
        ensures
            self@.valid(),
    {
    }

    /// A locked session with the annotations that were loaded from `path`.
    pub fn new(path: String, doc: Doc) -> (r: App)
        requires
            doc.wf(),
        ensures
            r.wf(),
            r@ == State::start(doc@),
            r.path() == path@,
    {
        let r = App {
            doc,
            store: Store::new(path),
            mode: Mode::Locked,
            tool: Tool::Pen,
            color_idx: 0,
            pen_width: PEN_WIDTH,
            text_size: TEXT_SIZE,
            outputs: Vec::new(),
            keyboard_focus: None,
            dirty: false,
            exit: false,
            text_input: false,
            text_input_enabled: false,
            im_commit: String::new(),
            im_preedit: None,
            im_delete: None,
            buffer_format: None,
            requests: Vec::new(),
        };
        proof {
            assert(r@ =~= State::start(r.doc@));
        }
        r
    }

    pub fn mode(&self) -> (r: Mode)
        ensures
            r == self@.mode,
    {
        self.mode
    }

    pub fn request_exit(&mut self)
        requires
            old(self).wf(),
        ensures
            final(self).wf(),
            final(self).path() == old(self).path(),
            final(self)@ == (State { exit: true, ..old(self)@ }),
    {
        self.exit = true;
    }

    pub fn exiting(&self) -> (r: bool)
        ensures
            r == self@.exit,
    {
        self.exit
    }

    /// Where the output with this id is.
    fn index_of(&self, id: u32) -> (r: Option<usize>)
        requires
            self.wf(),
        ensures
            r is Some <==> self@.has(id),
            r matches Some(i) ==> i < self.outputs@.len() && i == self@.at(id)
                && self.outputs@[i as int].id == id,
    {
        let mut i: usize = 0;
        while i < self.outputs.len()
            invariant
                self.wf(),
                i <= self.outputs@.len(),
                forall|j: int| 0 <= j < i ==> (#[trigger] self.outputs@[j]).id != id,
            decreases self.outputs@.len() - i,
        {
            if self.outputs[i].id == id {
                proof {
                    assert(self@.outputs[i as int] == self.outputs@[i as int]@);
                    session::lemma_at(self@, i as int);
                }
                return Some(i);
            }
            i = i + 1;
        }
        proof {
            assert forall|j: int| 0 <= j < self@.outputs.len() implies (
            #[trigger] self@.outputs[j]).id != id by {
                assert(self.outputs@[j].id != id);
            }
        }
        None
    }

    /// Where the text box being edited is.
    fn edit_index(&self) -> (r: Option<usize>)
        requires
            self.wf(),
        ensures
            r is Some <==> self@.is_editing(),
            r matches Some(i) ==> i < self.outputs@.len() && i == self@.edit_at()
                && self.outputs@[i as int].overlay.text is Some,
    {
        let mut i: usize = 0;
        while i < self.outputs.len()
            invariant
                self.wf(),
                i <= self.outputs@.len(),
                forall|j: int| 0 <= j < i ==> (#[trigger] self.outputs@[j]).overlay.text is None,
            decreases self.outputs@.len() - i,
        {
            if self.outputs[i].overlay.text.is_some() {
                proof {
                    assert(self@.outputs[i as int] == self.outputs@[i as int]@);
                    session::lemma_edit_at(self@, i as int);
                }
                return Some(i);
            }
            i = i + 1;
        }
        proof {
            assert forall|j: int| 0 <= j < self@.outputs.len() implies !(
            #[trigger] self@.outputs[j]).is_editing() by {
                assert(self.outputs@[j].overlay.text is None);
            }
        }
        None
    }

    /// The size the active tool creates content with.
    fn active_size(&self) -> (r: u32)
        ensures
            r == self@.active_size(),
    {
        match self.tool {
            Tool::Text => self.text_size,
            Tool::Pen => self.pen_width,
            Tool::Eraser => self.pen_width,
        }
    }

    /// The edit-mode hint of the current mode, tool, colour and size.
    fn current_hint(&self) -> (r: Option<Hint>)
        requires
            self.color_idx < 5,
        ensures
            r is Some <==> self@.current_hint() is Some,
            r is Some ==> r->0@ == self@.current_hint()->0,
    {
        match self.mode {
            Mode::Locked => None,
            Mode::Edit => Some(
                Hint {
                    tool: tool_label(self.tool),
                    color: PALETTE[self.color_idx],
                    size: self.active_size(),
                },
            ),
        }
    }

    /// Push the current hint into every output's transient overlay. Called when the mode, the
    /// tool, the colour or the size changes.
    fn refresh_hint(&mut self)
        requires
            old(self).parts_wf(),
            old(self)@.valid_but_hints(),
        ensures
            final(self).wf(),
            final(self).path() == old(self).path(),
            final(self)@ == old(self)@.hint_refreshed(),
    {
        let hint: Option<Hint> = self.current_hint();
        let ghost start = *self;
        let mut i: usize = 0;
        while i < self.outputs.len()
            invariant
                i <= self.outputs@.len(),
                self.outputs@.len() == start.outputs@.len(),
                start.parts_wf(),
                self.parts_wf(),
                *self == (App { outputs: self.outputs, ..start }),
                hint is Some <==> start@.current_hint() is Some,
                hint is Some ==> hint->0@ == start@.current_hint()->0,
                forall|j: int|
                    0 <= j < i ==> (#[trigger] self.outputs@[j])@ == start.outputs@[j]@.with_hint(
                        start@.current_hint(),
                    ),
                forall|j: int|
                    i <= j < self.outputs@.len() ==> #[trigger] self.outputs@[j]
                        == start.outputs@[j],
            decreases self.outputs@.len() - i,
        {
            self.outputs[i].overlay.hint = hint;
            self.outputs[i].dirty = true;
            i = i + 1;
        }
        self.dirty = true;
        proof {
            assert(self@ =~= start@.hint_refreshed());
            session::refreshing_the_hints_keeps_valid(start@);
        }
    }

    /// `[` and `]` step the active tool's size, clamped to its range. The hint shows the value,
    /// so it is repainted (a whole-surface frame, like a tool or colour change).
    pub fn nudge_size(&mut self, dir: i32)
        requires
            old(self).wf(),
        ensures
            final(self).wf(),
            final(self).path() == old(self).path(),
            final(self)@ == old(self)@.size_nudged(dir),
    {
        match self.tool {
            Tool::Text => {
                self.text_size = stepped_size(
                    self.text_size,
                    dir,
                    TEXT_SIZE_STEP,
                    TEXT_SIZE_MIN,
                    TEXT_SIZE_MAX,
                );
            },
            _ => {
                self.pen_width = stepped_size(
                    self.pen_width,
                    dir,
                    PEN_WIDTH_STEP,
                    PEN_WIDTH_MIN,
                    PEN_WIDTH_MAX,
                );
            },
        }
        self.refresh_hint();
    }

    pub fn set_color(&mut self, idx: usize)
        requires
            old(self).wf(),
        ensures
            final(self).wf(),
            final(self).path() == old(self).path(),
            final(self)@ == old(self)@.color_picked(idx),
    {
        if idx < PALETTE.len() {
            self.color_idx = idx;
            self.refresh_hint();
        }
    }

    fn mark_all_dirty(&mut self)
        requires
            old(self).wf(),
        ensures
            final(self).wf(),
            final(self).path() == old(self).path(),
            final(self)@ == old(self)@.all_marked(),
    {
        let ghost start = *self;
        self.dirty = true;
        let ghost begun = *self;
        let mut i: usize = 0;
        while i < self.outputs.len()
            invariant
                i <= self.outputs@.len(),
                self.outputs@.len() == begun.outputs@.len(),
                begun.parts_wf(),
                self.parts_wf(),
                *self == (App { outputs: self.outputs, ..begun }),
                forall|j: int|
                    0 <= j < i ==> (#[trigger] self.outputs@[j])@ == begun.outputs@[j]@.marked(),
                forall|j: int|
                    i <= j < self.outputs@.len() ==> #[trigger] self.outputs@[j]
                        == begun.outputs@[j],
            decreases self.outputs@.len() - i,
        {
            self.outputs[i].dirty = true;
            i = i + 1;
        }
        proof {
            assert(self@ =~= start@.all_marked());
            session::marking_all_keeps_valid(start@);
        }
    }

    /// Report the text box to the input method: enable and surrounding text when focused,
    /// disable otherwise.
    fn sync_text_input(&mut self)
        requires
            old(self).wf(),
        ensures
            final(self).wf(),
            final(self).path() == old(self).path(),
            final(self)@ == old(self)@.synced(),
    {
        if !self.text_input {
            return;
        }
        let ghost start = *self;
        match self.edit_index() {
            Some(i) => {
                let mut text: String = String::new();
                let mut cursor: usize = 0;
                if let Some(edit) = &self.outputs[i].overlay.text {
                    proof {
                        assert(self.outputs@[i as int].wf());
                    }
                    text = edit.buffer.text.clone();
                    cursor = edit.buffer.cursor_bytes();
                }
                let enable: bool = !self.text_input_enabled;
                self.text_input_enabled = true;
                self.requests.push(Request::UpdateTextInput { enable, text, cursor });
                proof {
                    assert(start@.outputs[i as int] == start.outputs@[i as int]@);
                    assert(self@.requests =~= start@.synced().requests);
                    assert(self@ =~= start@.synced());
                }
            },
            None => {
                if self.text_input_enabled {
                    self.requests.push(Request::DisableTextInput);
                    self.text_input_enabled = false;
                    proof {
                        assert(self@.requests =~= start@.synced().requests);
                        assert(self@ =~= start@.synced());
                    }
                }
            },
        }
    }

    /// Write the text box being edited back into the document (empty boxes are dropped).
    pub fn end_text_edit(&mut self, now: u64)
        requires
            old(self).wf(),
            now <= store::LATEST,
        ensures
            final(self).wf(),
            final(self).path() == old(self).path(),
            final(self)@ == old(self)@.edit_ended(now),
    {
        let ghost start = *self;
        let mut changed: bool = false;
        let mut i: usize = 0;
        while i < self.outputs.len()
            invariant
                i <= self.outputs@.len(),
                self.outputs@.len() == start.outputs@.len(),
                start.parts_wf(),
                self.parts_wf(),
                *self == (App { outputs: self.outputs, doc: self.doc, ..start }),
                self.doc@ == session::all_typed(start@.doc, start@.outputs, i as int),
                changed == exists|j: int|
                    0 <= j < i && (#[trigger] start@.outputs[j]).edit_changes(
                        session::all_typed(start@.doc, start@.outputs, j),
                    ),
                forall|j: int|
                    0 <= j < i ==> (#[trigger] self.outputs@[j])@ == start.outputs@[j]@.edit_ended(),
                forall|j: int|
                    i <= j < self.outputs@.len() ==> #[trigger] self.outputs@[j]
                        == start.outputs@[j],
            decreases self.outputs@.len() - i,
        {
            let ghost before = self.outputs@[i as int];
            proof {
                assert(before.wf());
                assert(start@.outputs[i as int] == before@);
            }
            if let Some(edit) = self.outputs[i].overlay.text.take() {
                self.outputs[i].overlay.eraser = None;
                // The caret disappears and the box may be committed: repaint this output whole.
                self.outputs[i].dirty = true;
                if edit.buffer.text.as_str().unicode_len() > 0 {
                    let bucket: String = self.outputs[i].bucket();
                    let item = TextItem {
                        x: edit.item.x,
                        y: edit.item.y,
                        color: edit.item.color,
                        size: edit.item.size,
                        text: edit.buffer.text,
                    };
                    self.doc.put_text(bucket.as_str(), edit.index, item);
                    changed = true;
                    proof {
                        assert(start@.outputs[i as int].has_typed());
                    }
                } else if let Some(index) = edit.index {
                    let bucket: String = self.outputs[i].bucket();
                    if self.doc.remove_text(bucket.as_str(), index) {
                        changed = true;
                        proof {
                            assert(start@.outputs[i as int].has_emptied(
                                session::all_typed(start@.doc, start@.outputs, i as int),
                            ));
                        }
                    }
                }
            }
            i = i + 1;
        }
        if changed {
            self.store.mark_dirty(now);
        }
        self.dirty = true;
        proof {
            assert(self@ =~= start@.edit_committed(now));
            session::ending_the_edit_keeps_valid(start@, now);
        }
        self.sync_text_input();
    }

    /// Commit every stroke still in progress.
    pub fn commit_transient_strokes(&mut self, now: u64)
        requires
            old(self).wf(),
            now <= store::LATEST,
        ensures
            final(self).wf(),
            final(self).path() == old(self).path(),
            final(self)@ == old(self)@.strokes_committed(now),
    {
        let ghost start = *self;
        let mut changed: bool = false;
        let mut i: usize = 0;
        while i < self.outputs.len()
            invariant
                i <= self.outputs@.len(),
                self.outputs@.len() == start.outputs@.len(),
                start.parts_wf(),
                self.parts_wf(),
                *self == (App { outputs: self.outputs, doc: self.doc, ..start }),
                self.doc@ == session::all_drawn(start@.doc, start@.outputs, i as int),
                changed == exists|j: int|
                    0 <= j < i && (#[trigger] start@.outputs[j]).has_drawn(),
                forall|j: int|
                    0 <= j < i ==> (#[trigger] self.outputs@[j])@
                        == start.outputs@[j]@.stroke_ended(),
                forall|j: int|
                    i <= j < self.outputs@.len() ==> #[trigger] self.outputs@[j]
                        == start.outputs@[j],
            decreases self.outputs@.len() - i,
        {
            let ghost before = self.outputs@[i as int];
            proof {
                assert(before.wf());
                assert(start@.outputs[i as int] == before@);
            }
            if let Some(stroke) = self.outputs[i].overlay.stroke.take() {
                self.outputs[i].dirty = true;
                if stroke.points.len() > 0 {
                    let bucket: String = self.outputs[i].bucket();
                    self.doc.add_stroke(bucket.as_str(), stroke);
                    changed = true;
                    proof {
                        assert(start@.outputs[i as int].has_drawn());
                    }
                }
            }
            i = i + 1;
        }
        if changed {
            self.store.mark_dirty(now);
        }
        proof {
            assert(self@ =~= start@.strokes_committed(now));
            session::committing_strokes_keeps_valid(start@, now);
        }
    }

    pub fn set_tool(&mut self, tool: Tool, now: u64)
        requires
            old(self).wf(),
            now <= store::LATEST,
        ensures
            final(self).wf(),
            final(self).path() == old(self).path(),
            final(self)@ == old(self)@.tool_picked(tool, now),
    {
        if self.tool != tool {
            self.end_text_edit(now);
            self.tool = tool;
            self.refresh_hint();
        }
    }

    /// Switch mode: destroy and recreate every surface on the new layer.
    ///
    /// The layer could be changed in place, but entering edit mode needs a fresh map so the
    /// compositor hands over the keyboard focus; recreating is the most portable trigger.
    pub fn set_mode(&mut self, mode: Mode, now: u64)
        requires
            old(self).wf(),
            now <= store::LATEST,
        ensures
            final(self).wf(),
            final(self).path() == old(self).path(),
            final(self)@ == old(self)@.mode_switched(mode, now),
    {
        if self.mode == mode {
            return;
        }
        let ghost start = *self;
        if mode == Mode::Locked {
            self.end_text_edit(now);
        }
        self.mode = mode;
        let hint: Option<Hint> = self.current_hint();
        let ghost moved = *self;
        let mut i: usize = 0;
        while i < self.outputs.len()
            invariant
                i <= self.outputs@.len(),
                self.outputs@.len() == moved.outputs@.len(),
                moved.mode == mode,
                moved.parts_wf(),
                self.parts_wf(),
                *self == (App { outputs: self.outputs, requests: self.requests, ..moved }),
                hint is Some <==> moved@.current_hint() is Some,
                hint is Some ==> hint->0@ == moved@.current_hint()->0,
                self@.requests =~= moved@.requests + Seq::new(
                    i as nat,
                    |j: int|
                        RequestView::CreateSurface {
                            id: moved@.outputs[j].id,
                            mode,
                            scale: moved@.outputs[j].reported,
                        },
                ),
                forall|j: int|
                    0 <= j < i ==> (#[trigger] self.outputs@[j])@ == moved.outputs@[j]@.remapped(
                        moved@.current_hint(),
                    ),
                forall|j: int|
                    i <= j < self.outputs@.len() ==> #[trigger] self.outputs@[j]
                        == moved.outputs@[j],
            decreases self.outputs@.len() - i,
        {
            let ghost before = self.outputs@[i as int];
            let id: u32 = self.outputs[i].id;
            let scale: u32 = self.outputs[i].reported;
            let configured: bool = self.outputs[i].configured;
            let name: String = self.outputs[i].name.clone();
            let mut out: Output = fresh_output(id, name, scale, hint);
            out.configured = configured;
            self.outputs[i] = out;
            let ghost asked = self@.requests;
            self.requests.push(Request::CreateSurface { id, mode, scale });
            proof {
                assert(self@.requests =~= asked.push(RequestView::CreateSurface { id, mode, scale }));
                assert(moved@.outputs[i as int] == moved.outputs@[i as int]@);
                assert(self.outputs@[i as int]@ =~= before@.remapped(moved@.current_hint()));
            }
            i = i + 1;
        }
        self.dirty = true;
        proof {
            assert(self@ =~= start@.mode_switched(mode, now));
            session::switching_the_mode_keeps_valid(start@, mode, now);
        }
    }

    /// The text box under a point of an output, and where it is in the document.
    fn text_under(&self, bucket: &str, x: i32, y: i32) -> (r: Option<(usize, TextItem)>)
        requires
            self.wf(),
        ensures
            ({
                let a = document::annotations_of(self@.doc, bucket@);
                let at = a.text_at(x as int, y as int, 0);
                &&& r is Some <==> at is Some
                &&& r matches Some(found) ==> found.0 == at->0 && found.1@ == a.texts[at->0]
            }),
    {
        match self.doc.get(bucket) {
            Some(ann) => match ann.text_at(x, y) {
                Some(i) => Some((i, ann.texts[i].clone())),
                None => None,
            },
            None => None,
        }
    }

    /// Edit the text box under a point of an output, or a new one there.
    fn begin_text_edit(&mut self, id: u32, x: i32, y: i32)
        requires
            old(self).wf(),
            old(self)@.mode == Mode::Edit,
            !old(self)@.is_editing(),
        ensures
            final(self).wf(),
            final(self).path() == old(self).path(),
            final(self)@ == old(self)@.edit_begun(id, x, y),
    {
        let i: usize = match self.index_of(id) {
            Some(i) => i,
            None => {
                return;
            },
        };
        let ghost start = *self;
        let bucket: String = self.outputs[i].bucket();
        let edit: TextOverlay = match self.text_under(bucket.as_str(), x, y) {
            Some((index, item)) => TextOverlay {
                buffer: TextBuffer::new(item.text.as_str()),
                item,
                index: Some(index),
                preedit: String::new(),
            },
            None => TextOverlay {
                item: TextItem {
                    x,
                    y,
                    color: PALETTE[self.color_idx].to_string(),
                    size: self.text_size,
                    text: String::new(),
                },
                buffer: TextBuffer::new(""),
                index: None,
                preedit: String::new(),
            },
        };
        proof {
            reveal_strlit("");
            assert(start.outputs@[i as int]@ == start@.outputs[i as int]);
            assert(edit@ =~= start@.edit_for(id, x, y));
        }
        self.put_edit(i, edit);
    }

    /// Put a text box to edit on an output, then resync the input method and the screen.
    fn put_edit(&mut self, i: usize, edit: TextOverlay)
        requires
            old(self).wf(),
            old(self)@.mode == Mode::Edit,
            !old(self)@.is_editing(),
            i < old(self)@.outputs.len(),
            edit.buffer.wf(),
        ensures
            final(self).wf(),
            final(self).path() == old(self).path(),
            final(self)@ == (State {
                outputs: old(self)@.outputs.update(
                    i as int,
                    old(self)@.outputs[i as int].with_text(Some(edit@)).marked(),
                ),
                ..old(self)@
            }).touched().synced(),
    {
        let ghost start = *self;
        let ghost shown = edit@;
        self.outputs[i].overlay.text = Some(edit);
        self.outputs[i].dirty = true;
        self.dirty = true;
        proof {
            let out = start@.outputs[i as int].with_text(Some(shown)).marked();
            assert(start.outputs@[i as int]@ == start@.outputs[i as int]);
            assert(self@.outputs =~= start@.outputs.update(i as int, out));
            session::replacing_an_output_keeps_valid(start@, i as int, out);
            assert forall|j: int| 0 <= j < self.outputs@.len() implies (
            #[trigger] self.outputs@[j]).wf() by {
                assert(start.outputs@[j].wf());
            }
            assert(self@ =~= (State {
                outputs: start@.outputs.update(i as int, out),
                ..start@
            }).touched());
        }
        self.sync_text_input();
    }

    /// Take the text box being edited off its output, for it to be put back changed.
    fn take_edit(&mut self, i: usize) -> (r: TextOverlay)
        requires
            old(self).wf(),
            old(self)@.is_editing(),
            i == old(self)@.edit_at(),
        ensures
            final(self).wf(),
            final(self).path() == old(self).path(),
            final(self)@ == (State {
                outputs: old(self)@.outputs.update(
                    i as int,
                    old(self)@.outputs[i as int].with_text(None),
                ),
                ..old(self)@
            }),
            !final(self)@.is_editing(),
            old(self)@.mode == Mode::Edit,
            r@ == old(self)@.edit(),
            r.buffer.wf(),
    {
        let ghost start = *self;
        proof {
            assert(start.outputs@[i as int]@ == start@.outputs[i as int]);
            assert(start@.outputs[i as int].is_editing());
            assert(start.outputs@[i as int].wf());
        }
        let taken: Option<TextOverlay> = self.outputs[i].overlay.text.take();
        proof {
            let out = start@.outputs[i as int].with_text(None);
            assert(self@.outputs =~= start@.outputs.update(i as int, out));
            session::replacing_an_output_keeps_valid(start@, i as int, out);
            assert forall|j: int| 0 <= j < self.outputs@.len() implies (
            #[trigger] self.outputs@[j]).wf() by {
                assert(start.outputs@[j].wf());
            }
            assert(self@ =~= (State { outputs: start@.outputs.update(i as int, out), ..start@ }));
            assert forall|j: int| 0 <= j < self@.outputs.len() implies !(
            #[trigger] self@.outputs[j]).is_editing() by {
                if j != i {
                    assert(!(start@.outputs[i as int].is_editing()
                        && start@.outputs[j].is_editing()));
                }
            }
        }
        taken.unwrap()
    }

    /// Type into the text box being edited.
    fn type_text(&mut self, s: &str)
        requires
            old(self).wf(),
            old(self)@.is_editing(),
        ensures
            final(self).wf(),
            final(self).path() == old(self).path(),
            final(self)@ == old(self)@.retyped(
                (TextOverlayView { typed: old(self)@.edit().typed + s@, ..old(self)@.edit() }),
            ),
    {
        if let Some(i) = self.edit_index() {
            let ghost start = self@;
            let mut edit: TextOverlay = self.take_edit(i);
            edit.buffer.insert(s);
            proof {
                lemma_put_back(start, i as int, edit@);
            }
            self.put_edit(i, edit);
        }
    }

    /// Take the last character of the text box being edited back.
    fn type_backspace(&mut self)
        requires
            old(self).wf(),
            old(self)@.is_editing(),
        ensures
            final(self).wf(),
            final(self).path() == old(self).path(),
            final(self)@ == old(self)@.retyped(
                (TextOverlayView {
                    typed: buffer::without_last(old(self)@.edit().typed, 1),
                    ..old(self)@.edit()
                }),
            ),
    {
        if let Some(i) = self.edit_index() {
            let ghost start = self@;
            let mut edit: TextOverlay = self.take_edit(i);
            edit.buffer.backspace();
            proof {
                lemma_put_back(start, i as int, edit@);
            }
            self.put_edit(i, edit);
        }
    }

    /// Whether the input method has an unfinished string in the text box being edited.
    fn preedit_is_empty(&self) -> (r: bool)
        requires
            self.wf(),
        ensures
            self@.is_editing() ==> r == (self@.edit().preedit.len() == 0),
            !self@.is_editing() ==> r,
    {
        match self.edit_index() {
            Some(i) => {
                proof {
                    assert(self.outputs@[i as int]@ == self@.outputs[i as int]);
                }
                match &self.outputs[i].overlay.text {
                    Some(edit) => edit.preedit.as_str().unicode_len() == 0,
                    None => true,
                }
            },
            None => true,
        }
    }

    /// A key went down; `utf8` is the text it types, if it types any.
    pub fn press_key(&mut self, keysym: u32, utf8: Option<&str>, now: u64)
        requires
            old(self).wf(),
            now <= store::LATEST,
        ensures
            final(self).wf(),
            final(self).path() == old(self).path(),
            utf8 is Some ==> final(self)@ == old(self)@.key_pressed(keysym, Some(utf8->0@), now),
            utf8 is None ==> final(self)@ == old(self)@.key_pressed(keysym, None, now),
    {
        if self.mode != Mode::Edit {
            return;
        }
        // While a text box is edited, printable characters are content, not shortcuts.
        if self.edit_index().is_some() {
            match edit_action(keysym, !self.preedit_is_empty()) {
                EditAction::EndText => self.end_text_edit(now),
                EditAction::Backspace => self.type_backspace(),
                EditAction::Newline => self.type_text("\n"),
                EditAction::Local => {
                    if let Some(text) = utf8 {
                        self.type_text(text);
                    }
                },
                EditAction::InputMethod => {},
            }
            return;
        }
        if keysym == KEY_ESCAPE {
            self.set_mode(Mode::Locked, now);
        } else if let Some(tool) = tool_for_keysym(keysym) {
            self.set_tool(tool, now);
        } else if let Some(idx) = color_for_keysym(keysym) {
            self.set_color(idx);
        } else if let Some(dir) = size_step_for_keysym(keysym) {
            self.nudge_size(dir);
        }
    }

    /// The keyboard focus came to an output's surface, or to none of ours.
    pub fn enter(&mut self, id: Option<u32>, now: u64)
        requires
            old(self).wf(),
            now <= store::LATEST,
        ensures
            final(self).wf(),
            final(self).path() == old(self).path(),
            final(self)@ == old(self)@.entered(id, now),
    {
        if self.keyboard_focus.is_some() && self.keyboard_focus != id {
            self.end_text_edit(now);
        }
        self.keyboard_focus = id;
        // Focus changed, so the text input has to be enabled again.
        self.text_input_enabled = false;
        self.sync_text_input();
    }

    /// The keyboard focus left an output's surface.
    pub fn leave(&mut self, id: Option<u32>, now: u64)
        requires
            old(self).wf(),
            now <= store::LATEST,
        ensures
            final(self).wf(),
            final(self).path() == old(self).path(),
            final(self)@ == old(self)@.left(id, now),
    {
        if id == self.keyboard_focus {
            self.end_text_edit(now);
            self.keyboard_focus = None;
            self.sync_text_input();
        }
    }

    /// There is an input method to talk to.
    pub fn text_input_bound(&mut self)
        requires
            old(self).wf(),
        ensures
            final(self).wf(),
            final(self).path() == old(self).path(),
            final(self)@ == (State { text_input: true, ..old(self)@ }),
    {
        self.text_input = true;
    }

    /// One input method batch: preedit / commit / delete followed by done; applied together on
    /// done.
    pub fn text_input_event(&mut self, event: TextInputEvent)
        requires
            old(self).wf(),
        ensures
            final(self).wf(),
            final(self).path() == old(self).path(),
            final(self)@ == old(self)@.im_event(event),
    {
        match event {
            TextInputEvent::Enter => {
                self.drop_batch();
                self.text_input_enabled = false;
                self.sync_text_input();
            },
            TextInputEvent::Leave => {
                self.drop_batch();
                self.text_input_enabled = false;
            },
            TextInputEvent::Preedit(text) => {
                self.im_preedit = text;
            },
            TextInputEvent::Commit(Some(text)) => {
                self.im_commit.append(text.as_str());
            },
            TextInputEvent::Commit(None) => {},
            TextInputEvent::DeleteSurrounding { before, after } => {
                self.im_delete = Some((before, after));
            },
            TextInputEvent::Done => self.apply_text_input_batch(),
            TextInputEvent::Other => {},
        }
    }

    fn drop_batch(&mut self)
        requires
            old(self).wf(),
        ensures
            final(self).wf(),
            final(self).path() == old(self).path(),
            final(self)@ == old(self)@.batch_dropped(),
    {
        self.im_preedit = None;
        self.im_commit = String::new();
        self.im_delete = None;
    }

    fn apply_text_input_batch(&mut self)
        requires
            old(self).wf(),
        ensures
            final(self).wf(),
            final(self).path() == old(self).path(),
            final(self)@ == old(self)@.batch_applied(),
    {
        let ghost start = self@;
        // The preedit is double-buffered: a batch that carried no preedit resets it to empty, so
        // the last one does not stay rendered after its candidate was committed.
        let preedit: String = match self.im_preedit.take() {
            Some(text) => text,
            None => String::new(),
        };
        let commit: String = self.im_commit.clone();
        let delete: Option<(u32, u32)> = self.im_delete;
        self.drop_batch();
        let i: usize = match self.edit_index() {
            Some(i) => i,
            None => {
                proof {
                    lemma_same_outputs_edit_alike(start, self@);
                }
                return;
            },
        };
        proof {
            lemma_same_outputs_edit_alike(start, self@);
        }
        let ghost dropped = self@;
        let mut edit: TextOverlay = self.take_edit(i);
        if let Some((before, _after)) = delete {
            // The cursor is always at the end, so there is never anything after it to delete.
            let bytes: usize = bytes_to_delete(before, byte_len(preedit.as_str()));
            edit.buffer.delete_before_bytes(bytes);
        }
        if commit.as_str().unicode_len() > 0 {
            edit.buffer.insert(commit.as_str());
        } else {
            proof {
                assert(edit.buffer@ + commit@ =~= edit.buffer@);
            }
        }
        edit.preedit = preedit;
        proof {
            lemma_put_back(dropped, i as int, edit@);
        }
        self.put_edit(i, edit);
    }

    /// The left button went down on an output.
    pub fn pointer_press(&mut self, id: u32, x: i32, y: i32, now: u64)
        requires
            old(self).wf(),
            now <= store::LATEST,
        ensures
            final(self).wf(),
            final(self).path() == old(self).path(),
            final(self)@ == old(self)@.pressed(id, x, y, now),
    {
        if self.mode != Mode::Edit {
            return;
        }
        // A click anywhere finishes the text edit and any previous stroke first, so typed
        // content is kept and a new gesture starts from a clean transient state.
        proof {
            session::ending_the_edit_keeps_valid(self@, now);
            session::committing_strokes_keeps_valid(self@.edit_ended(now), now);
        }
        self.end_text_edit(now);
        self.commit_transient_strokes(now);
        let i: usize = match self.index_of(id) {
            Some(i) => i,
            None => {
                self.dirty = true;
                return;
            },
        };
        let ghost clean = *self;
        proof {
            assert(clean.outputs@[i as int]@ == clean@.outputs[i as int]);
        }
        match self.tool {
            Tool::Pen => {
                let stroke = Stroke {
                    color: PALETTE[self.color_idx].to_string(),
                    width: self.pen_width,
                    points: vec![[x, y]],
                };
                let ghost drawn = stroke@;
                self.outputs[i].overlay.stroke = Some(stroke);
                self.outputs[i].dirty = true;
                self.dirty = true;
                proof {
                    assert(drawn.points =~= seq![[x, y]]);
                    let out = clean@.outputs[i as int].with_stroke(Some(drawn)).marked();
                    assert(self@.outputs =~= clean@.outputs.update(i as int, out));
                    session::replacing_an_output_keeps_valid(clean@, i as int, out);
                    lemma_parts_kept(clean, *self, i as int);
                    assert(self@ =~= clean@.with_output(id, out).touched());
                }
            },
            Tool::Eraser => {
                self.outputs[i].overlay.eraser = Some([x, y]);
                self.outputs[i].dirty = true;
                self.dirty = true;
                proof {
                    let out = clean@.outputs[i as int].with_eraser(Some([x, y])).marked();
                    assert(self@.outputs =~= clean@.outputs.update(i as int, out));
                    session::replacing_an_output_keeps_valid(clean@, i as int, out);
                    lemma_parts_kept(clean, *self, i as int);
                    assert(self@ =~= clean@.with_output(id, out).touched());
                }
            },
            Tool::Text => self.begin_text_edit(id, x, y),
        }
    }

    /// The pointer moved on an output.
    pub fn pointer_motion(&mut self, id: u32, x: i32, y: i32)
        requires
            old(self).wf(),
        ensures
            final(self).wf(),
            final(self).path() == old(self).path(),
            final(self)@ == old(self)@.moved(id, x, y),
    {
        if self.mode != Mode::Edit {
            return;
        }
        let i: usize = match self.index_of(id) {
            Some(i) => i,
            None => {
                return;
            },
        };
        let ghost start = *self;
        proof {
            assert(start.outputs@[i as int]@ == start@.outputs[i as int]);
        }
        match self.tool {
            // Only a press starts a stroke: hovering with no button held must not draw.
            Tool::Pen => {
                let wanted: bool = match &self.outputs[i].overlay.stroke {
                    None => false,
                    Some(stroke) => {
                        let n: usize = stroke.points.len();
                        n == 0 || wants_sampling(stroke.points[n - 1], [x, y])
                    },
                };
                if !wanted {
                    return;
                }
                if let Some(mut stroke) = self.outputs[i].overlay.stroke.take() {
                    stroke.points.push([x, y]);
                    self.outputs[i].overlay.stroke = Some(stroke);
                }
                // Only the transient overlay moved, so the next frame can damage just its box.
                self.outputs[i].transient_dirty = true;
                self.dirty = true;
                proof {
                    let s = start@.outputs[i as int].overlay.stroke->0;
                    let longer = StrokeView { points: s.points.push([x, y]), ..s };
                    let out = OutputView {
                        transient_dirty: true,
                        ..start@.outputs[i as int].with_stroke(Some(longer))
                    };
                    assert(self.outputs@[i as int]@ =~= out);
                    assert(self@.outputs =~= start@.outputs.update(i as int, out));
                    session::replacing_an_output_keeps_valid(start@, i as int, out);
                    lemma_parts_kept(start, *self, i as int);
                    assert(self@ =~= start@.with_output(id, out).touched());
                }
            },
            Tool::Eraser => {
                self.outputs[i].overlay.eraser = Some([x, y]);
                self.outputs[i].transient_dirty = true;
                self.dirty = true;
                proof {
                    let out = OutputView {
                        transient_dirty: true,
                        ..start@.outputs[i as int].with_eraser(Some([x, y]))
                    };
                    assert(self@.outputs =~= start@.outputs.update(i as int, out));
                    session::replacing_an_output_keeps_valid(start@, i as int, out);
                    lemma_parts_kept(start, *self, i as int);
                    assert(self@ =~= start@.with_output(id, out).touched());
                }
            },
            Tool::Text => {},
        }
    }

    /// The left button came up, or the pointer left the output.
    pub fn pointer_release(&mut self, id: u32, now: u64)
        requires
            old(self).wf(),
            now <= store::LATEST,
        ensures
            final(self).wf(),
            final(self).path() == old(self).path(),
            final(self)@ == old(self)@.released(id, now),
    {
        let i: usize = match self.index_of(id) {
            Some(i) => i,
            None => {
                self.dirty = true;
                return;
            },
        };
        let ghost start = *self;
        let ghost before = self@.outputs[i as int];
        proof {
            assert(start.outputs@[i as int]@ == before);
        }
        let bucket: String = self.outputs[i].bucket();
        let stroke: Option<Stroke> = self.outputs[i].overlay.stroke.take();
        let eraser: Option<[i32; 2]> = self.outputs[i].overlay.eraser.take();
        // The committed stroke, the erased element or the vanished marker: repaint whole.
        self.outputs[i].dirty = true;
        let mut committed: bool = false;
        if let Some(stroke) = stroke {
            if stroke.points.len() > 0 {
                self.doc.add_stroke(bucket.as_str(), stroke);
                committed = true;
            }
        }
        proof {
            assert(self.doc@ == before.drawn_into(start@.doc));
            assert(committed == before.has_drawn());
        }
        if self.tool == Tool::Eraser {
            if let Some(p) = eraser {
                let ghost drawn = self.doc@;
                let erased: bool = self.doc.erase(bucket.as_str(), p[0], p[1]);
                committed = committed || erased;
                proof {
                    if !erased {
                        assert(self.doc@ =~= drawn);
                    }
                }
            }
        }
        if committed {
            self.store.mark_dirty(now);
        }
        self.dirty = true;
        proof {
            let out = before.with_stroke(None).with_eraser(None).marked();
            assert(self.outputs@[i as int]@ =~= out);
            assert(self@.outputs =~= start@.outputs.update(i as int, out));
            session::replacing_an_output_keeps_valid(start@, i as int, out);
            assert forall|j: int| 0 <= j < self.outputs@.len() implies (
            #[trigger] self.outputs@[j]).wf() by {
                assert(start.outputs@[j].wf());
            }
            assert(self@ =~= start@.released(id, now));
        }
    }

    /// What the pointer did.
    fn pointer_event(&mut self, event: PointerEvent, now: u64)
        requires
            old(self).wf(),
            now <= store::LATEST,
        ensures
            final(self).wf(),
            final(self).path() == old(self).path(),
            final(self)@ == old(self)@.pointed(event, now),
    {
        if let Some(id) = event.id {
            match event.kind {
                PointerKind::Motion => self.pointer_motion(id, event.x, event.y),
                PointerKind::Press(button) => {
                    if button == BTN_LEFT {
                        self.pointer_press(id, event.x, event.y, now);
                    }
                },
                PointerKind::Release(button) => {
                    if button == BTN_LEFT {
                        self.pointer_release(id, now);
                    }
                },
                // The release may never come back to this surface (multi-output drag), so finish
                // here.
                PointerKind::Leave => self.pointer_release(id, now),
                PointerKind::Other => {},
            }
        }
    }

    /// The pointer events of one frame, in order.
    pub fn pointer_frame(&mut self, events: &[PointerEvent], now: u64)
        requires
            old(self).wf(),
            now <= store::LATEST,
        ensures
            final(self).wf(),
            final(self).path() == old(self).path(),
            final(self)@ == old(self)@.all_pointed(events@, events@.len() as int, now),
    {
        self.each_pointer_event(events, now);
    }

    /// Take the pointer events one after another.
    #[verifier::rlimit(50)]
    fn each_pointer_event(&mut self, events: &[PointerEvent], now: u64)
        requires
            old(self).wf(),
            now <= store::LATEST,
        ensures
            final(self).wf(),
            final(self).path() == old(self).path(),
            final(self).has_come_to(old(self)@.all_pointed(events@, events@.len() as int, now)),
    {
        let ghost start = *self;
        let mut n: usize = 0;
        while n < events.len()
            invariant
                n <= events@.len(),
                self.wf(),
                self.path() == start.path(),
                now <= store::LATEST,
                self.has_come_to(start@.all_pointed(events@, n as int, now)),
            decreases events@.len() - n,
        {
            self.pointer_event(events[n], now);
            n = n + 1;
        }
    }

    /// Create the layer surface of an output that has none yet.
    fn create_surface(&mut self, id: u32, name: String, reported: u32)
        requires
            old(self).wf(),
            !old(self)@.has(id),
        ensures
            final(self).wf(),
            final(self).path() == old(self).path(),
            final(self)@ == old(self)@.surface_created(id, name@, reported),
    {
        let ghost start = *self;
        let ghost named = name@;
        let hint: Option<Hint> = self.current_hint();
        self.outputs.push(fresh_output(id, name, reported, hint));
        let mode: Mode = self.mode;
        self.requests.push(Request::CreateSurface { id, mode, scale: reported });
        proof {
            let after = start@.surface_created(id, named, reported);
            assert(self@.outputs =~= after.outputs);
            assert(self@.requests =~= after.requests);
            assert(self@ =~= after);
            session::creating_a_surface_keeps_valid(start@, id, named, reported);
            assert forall|j: int| 0 <= j < self.outputs@.len() implies (
            #[trigger] self.outputs@[j]).wf() by {
                if j < start.outputs@.len() {
                    assert(start.outputs@[j].wf());
                }
            }
        }
    }

    /// Create layer surfaces for outputs that do not have one yet (startup).
    pub fn sync_outputs(&mut self, known: &[KnownOutput])
        requires
            old(self).wf(),
        ensures
            final(self).wf(),
            final(self).path() == old(self).path(),
            final(self)@ == old(self)@.all_surfaced(known@, known@.len() as int),
    {
        let ghost start = *self;
        let mut n: usize = 0;
        while n < known.len()
            invariant
                n <= known@.len(),
                self.wf(),
                self.path() == start.path(),
                self@ == start@.all_surfaced(known@, n as int),
            decreases known@.len() - n,
        {
            let id: u32 = known[n].id;
            if self.index_of(id).is_none() {
                self.create_surface(id, output_name(&known[n].info), output_scale(&known[n].info));
            }
            n = n + 1;
        }
    }

    /// An output showed up, or its name, scale or logical size changed.
    pub fn refresh_output(&mut self, id: u32, info: &Option<OutputInfo>)
        requires
            old(self).wf(),
        ensures
            final(self).wf(),
            final(self).path() == old(self).path(),
            final(self)@ == old(self)@.output_refreshed(
                id,
                session::reported_name(*info),
                session::reported_scale(*info),
                session::reported_size(*info),
            ),
    {
        let scale: u32 = output_scale(info);
        if self.index_of(id).is_none() {
            self.create_surface(id, output_name(info), scale);
        }
        proof {
            session::lemma_surface_is_there(
                old(self)@,
                id,
                session::reported_name(*info),
                scale,
            );
        }
        let ghost there = self@;
        self.adopt_scale(id, scale);
        proof {
            session::lemma_scale_keeps_outputs(there, id, scale);
        }
        self.adopt_info(id, info, scale);
    }

    fn adopt_info(&mut self, id: u32, info: &Option<OutputInfo>, scale: u32)
        requires
            old(self).wf(),
            old(self)@.has(id),
        ensures
            final(self).wf(),
            final(self).path() == old(self).path(),
            final(self)@ == old(self)@.info_adopted(
                id,
                session::reported_name(*info),
                scale,
                session::reported_size(*info),
            ),
    {
        let i: usize = match self.index_of(id) {
            Some(i) => i,
            None => {
                return;
            },
        };
        let ghost start = *self;
        proof {
            assert(start.outputs@[i as int]@ == start@.outputs[i as int]);
        }
        let name: String = output_name(info);
        let size: Option<(i32, i32)> = match info {
            Some(info) => info.logical_size,
            None => None,
        };
        self.outputs[i].name = name;
        self.outputs[i].reported = scale;
        let mut resized: bool = false;
        if let Some((w, h)) = size {
            if w > 0 && h > 0 && !(self.outputs[i].width == w as u32 && self.outputs[i].height
                == h as u32) {
                self.outputs[i].width = w as u32;
                self.outputs[i].height = h as u32;
                self.outputs[i].last_buffer = None;
                self.outputs[i].last_transient = None;
                self.outputs[i].dirty = true;
                resized = true;
            }
        }
        if resized {
            self.dirty = true;
            self.requests.push(Request::DropBuffers { id });
        }
        proof {
            let after = start@.info_adopted(
                id,
                session::reported_name(*info),
                scale,
                session::reported_size(*info),
            );
            let out = after.outputs[i as int];
            assert(self.outputs@[i as int]@ =~= out);
            assert(self@.outputs =~= start@.outputs.update(i as int, out));
            assert(self@.requests =~= after.requests);
            session::replacing_an_output_keeps_valid(start@, i as int, out);
            lemma_parts_kept(start, *self, i as int);
            assert(self@ =~= after);
        }
    }

    /// Adopt an output's scale: tell the compositor the buffer scale and drop the buffers, which
    /// were allocated for the old one. Stored coordinates stay logical, so nothing moves.
    fn adopt_scale(&mut self, id: u32, scale: u32)
        requires
            old(self).wf(),
        ensures
            final(self).wf(),
            final(self).path() == old(self).path(),
            final(self)@ == old(self)@.scale_adopted(id, scale),
    {
        let i: usize = match self.index_of(id) {
            Some(i) => i,
            None => {
                return;
            },
        };
        let ghost start = *self;
        proof {
            assert(start.outputs@[i as int]@ == start@.outputs[i as int]);
        }
        if self.outputs[i].scale == scale {
            return;
        }
        self.outputs[i].scale = scale;
        self.outputs[i].last_buffer = None;
        self.outputs[i].last_transient = None;
        self.outputs[i].dirty = true;
        self.dirty = true;
        self.requests.push(Request::SetBufferScale { id, scale });
        self.requests.push(Request::DropBuffers { id });
        proof {
            let out = OutputView {
                scale,
                dirty: true,
                ..start@.outputs[i as int].without_buffers()
            };
            assert(self.outputs@[i as int]@ =~= out);
            assert(self@.outputs =~= start@.outputs.update(i as int, out));
            session::replacing_an_output_keeps_valid(start@, i as int, out);
            lemma_parts_kept(start, *self, i as int);
            assert(self@.requests =~= start@.requests.push(
                RequestView::SetBufferScale { id, scale },
            ).push(RequestView::DropBuffers { id }));
            assert(self@ =~= start@.scale_adopted(id, scale));
        }
    }

    /// The compositor prefers another buffer scale for the surface of an output, if it is one of
    /// ours. Every stored coordinate stays logical.
    pub fn scale_factor_changed(&mut self, id: Option<u32>, new_factor: i32)
        requires
            old(self).wf(),
        ensures
            final(self).wf(),
            final(self).path() == old(self).path(),
            final(self)@ == (match id {
                Some(id) => old(self)@.scale_adopted(id, session::at_least_one(new_factor)),
                None => old(self)@,
            }).all_marked(),
    {
        if let Some(id) = id {
            self.adopt_scale(id, if new_factor > 1 { new_factor as u32 } else { 1 });
        }
        self.mark_all_dirty();
    }

    /// An output is gone; its annotations are kept.
    pub fn output_destroyed(&mut self, id: u32)
        requires
            old(self).wf(),
        ensures
            final(self).wf(),
            final(self).path() == old(self).path(),
            final(self)@ == old(self)@.output_gone(id),
    {
        if let Some(i) = self.index_of(id) {
            let ghost start = *self;
            self.outputs.remove(i);
            self.requests.push(Request::RemoveSurface { id });
            proof {
                let after = start@.output_gone(id);
                assert(self@.outputs =~= after.outputs);
                assert(self@.requests =~= after.requests);
                assert(self@ =~= after);
                session::removing_an_output_keeps_valid(start@, id);
                assert forall|j: int| 0 <= j < self.outputs@.len() implies (
                #[trigger] self.outputs@[j]).wf() by {
                    assert(start.outputs@[if j < i { j } else { j + 1 }].wf());
                }
            }
        }
    }

    /// The compositor closed the layer surface of an output; it gets a new one.
    pub fn closed(&mut self, id: u32)
        requires
            old(self).wf(),
        ensures
            final(self).wf(),
            final(self).path() == old(self).path(),
            final(self)@ == old(self)@.surface_closed(id),
    {
        if let Some(i) = self.index_of(id) {
            let ghost start = *self;
            proof {
                assert(start.outputs@[i as int]@ == start@.outputs[i as int]);
            }
            let hint: Option<Hint> = self.current_hint();
            let name: String = self.outputs[i].name.clone();
            let scale: u32 = self.outputs[i].reported;
            let mode: Mode = self.mode;
            self.outputs[i] = fresh_output(id, name, scale, hint);
            self.requests.push(Request::CreateSurface { id, mode, scale });
            proof {
                let after = start@.surface_closed(id);
                let out = after.outputs[i as int];
                assert(self@.outputs =~= start@.outputs.update(i as int, out));
                assert(self@.requests =~= after.requests);
                session::replacing_an_output_keeps_valid(start@, i as int, out);
                lemma_parts_kept(start, *self, i as int);
                assert(self@ =~= after);
            }
        }
    }

    /// The compositor configured the layer surface of an output.
    pub fn configure(&mut self, id: u32, w: u32, h: u32)
        requires
            old(self).wf(),
        ensures
            final(self).wf(),
            final(self).path() == old(self).path(),
            final(self)@ == old(self)@.surface_configured(id, w, h),
    {
        if let Some(i) = self.index_of(id) {
            let ghost start = *self;
            proof {
                assert(start.outputs@[i as int]@ == start@.outputs[i as int]);
            }
            if w > 0 && h > 0 && !(self.outputs[i].width == w && self.outputs[i].height == h) {
                self.outputs[i].width = w;
                self.outputs[i].height = h;
                self.outputs[i].last_buffer = None;
                self.outputs[i].last_transient = None;
                self.requests.push(Request::DropBuffers { id });
            }
            self.outputs[i].configured = true;
            self.outputs[i].dirty = true;
            self.dirty = true;
            proof {
                let after = start@.surface_configured(id, w, h);
                let out = after.outputs[i as int];
                assert(self.outputs@[i as int]@ =~= out);
                assert(self@.outputs =~= start@.outputs.update(i as int, out));
                assert(self@.requests =~= after.requests);
                session::replacing_an_output_keeps_valid(start@, i as int, out);
                lemma_parts_kept(start, *self, i as int);
                assert(self@ =~= after);
            }
        }
    }

    /// Handle one command from the socket: the response line, or that the document has to be
    /// written first and what that gave handed to [`App::command_saved`].
    pub fn command(&mut self, cmd: &str, now: u64) -> (r: CommandStep)
        requires
            old(self).wf(),
            now <= store::LATEST,
        ensures
            final(self).wf(),
            final(self).path() == old(self).path(),
            final(self)@ == old(self)@.commanded(ipc::command_of(cmd@), now),
            ipc::command_of(cmd@) is None ==> (r matches CommandStep::Reply(s) && s@ == "error: "@
                + ipc::complaint_of(cmd@)),
            ipc::command_of(cmd@) == Some(Command::Clear) ==> r is Save,
            ipc::command_of(cmd@) is Some && ipc::command_of(cmd@) != Some(Command::Clear) ==> (
            r matches CommandStep::Reply(s) && s@ == "ok"@),
    {
        match Command::parse(cmd) {
            Err(e) => CommandStep::Reply(joined("error: ", e.as_str())),
            Ok(Command::Toggle) => {
                let next: Mode = match self.mode {
                    Mode::Locked => Mode::Edit,
                    Mode::Edit => Mode::Locked,
                };
                self.set_mode(next, now);
                CommandStep::Reply("ok".to_string())
            },
            Ok(Command::Edit) => {
                self.set_mode(Mode::Edit, now);
                CommandStep::Reply("ok".to_string())
            },
            Ok(Command::Lock) => {
                self.set_mode(Mode::Locked, now);
                CommandStep::Reply("ok".to_string())
            },
            Ok(Command::Clear) => {
                self.end_text_edit(now);
                self.doc.clear();
                CommandStep::Save
            },
        }
    }

    /// The response line to a command that had the document written, by what writing it gave.
    pub fn command_saved(&mut self, saved: Result<(), String>, now: u64) -> (r: String)
        requires
            old(self).wf(),
            now <= store::LATEST,
        ensures
            final(self).wf(),
            final(self).path() == old(self).path(),
            saved is Ok ==> r@ == "ok"@ && final(self)@ == old(self)@.flushed(
                true,
                now,
            ).all_marked(),
            saved is Err ==> r@ == "error: "@ + saved->Err_0@ && final(self)@
                == old(self)@.flushed(false, now),
    {
        match self.store.flush(saved, now) {
            Ok(()) => {
                self.mark_all_dirty();
                "ok".to_string()
            },
            Err(e) => joined("error: ", e.as_str()),
        }
    }

    /// Whether the document has waited long enough to be written.
    pub fn save_due(&self, now: u64) -> (r: bool)
        ensures
            r == store::is_due(self@.deadline, now),
    {
        self.store.due(now)
    }

    /// Called once per event loop iteration, with what writing the document gave where it was
    /// due. Returns whether the outputs have to be drawn.
    pub fn tick(&mut self, saved: Option<Result<(), String>>, now: u64) -> (r: bool)
        requires
            old(self).wf(),
            now <= store::LATEST,
        ensures
            final(self).wf(),
            final(self).path() == old(self).path(),
            r == old(self)@.dirty,
            final(self)@ == (State {
                dirty: false,
                ..match saved {
                    Some(s) => old(self)@.flushed(s is Ok, now),
                    None => old(self)@,
                }
            }),
    {
        if let Some(saved) = saved {
            let _ = self.store.flush(saved, now);
        }
        let redraw: bool = self.dirty;
        self.dirty = false;
        redraw
    }

    /// Take note of what writing the document on exit gave.
    pub fn shutdown(&mut self, saved: Result<(), String>, now: u64) -> (r: Result<(), String>)
        requires
            old(self).wf(),
            now <= store::LATEST,
        ensures
            final(self).wf(),
            final(self).path() == old(self).path(),
            r == saved,
            final(self)@ == old(self)@.flushed(saved is Ok, now),
    {
        self.store.flush(saved, now)
    }

    /// The buffer format, decided on first use: the compositor's advertised list only arrives
    /// with the first dispatch, and every buffer an output holds has to be in that format.
    pub fn shm_format(&mut self, formats: &[u32]) -> (r: (u32, bool))
        requires
            old(self).wf(),
        ensures
            final(self).wf(),
            final(self).path() == old(self).path(),
            final(self)@ == (State { buffer_format: Some(r), ..old(self)@ }),
            old(self)@.buffer_format is Some ==> r == old(self)@.buffer_format->0,
            old(self)@.buffer_format is None ==> r == (if formats@.contains(ABGR8888) {
                (ABGR8888, false)
            } else {
                (ARGB8888, true)
            }),
    {
        match self.buffer_format {
            Some(f) => f,
            None => {
                let f: (u32, bool) = buffer_format(formats);
                self.buffer_format = Some(f);
                f
            },
        }
    }

    /// Get the buffers of an output ready for a frame: the device size they have to have, or
    /// `None` where there is nothing to draw on.
    pub fn prepare_output(&mut self, id: u32) -> (r: Option<(u32, u32)>)
        requires
            old(self).wf(),
        ensures
            final(self).wf(),
            final(self).path() == old(self).path(),
            final(self)@ == old(self)@.buffers_fitted(id),
            r is Some <==> old(self)@.has(id) && old(self)@.output(id).can_draw(),
            r is Some ==> r->0 == old(self)@.output(id).device_size(),
    {
        let i: usize = match self.index_of(id) {
            Some(i) => i,
            None => {
                return None;
            },
        };
        let ghost start = *self;
        proof {
            assert(start.outputs@[i as int]@ == start@.outputs[i as int]);
        }
        if !self.outputs[i].configured || self.outputs[i].width == 0 || self.outputs[i].height
            == 0 {
            return None;
        }
        let scale: u32 = self.outputs[i].scale;
        let w: u32 = scaled_length(self.outputs[i].width, scale);
        let h: u32 = scaled_length(self.outputs[i].height, scale);
        let held: (u32, u32) = self.outputs[i].buffer_size;
        if !(held.0 == w && held.1 == h) {
            self.outputs[i].buffer_size = (w, h);
            self.outputs[i].last_buffer = None;
            self.outputs[i].last_transient = None;
            self.requests.push(Request::DropBuffers { id });
            proof {
                let after = start@.buffers_fitted(id);
                let out = after.outputs[i as int];
                assert(self.outputs@[i as int]@ =~= out);
                assert(self@.outputs =~= start@.outputs.update(i as int, out));
                assert(self@.requests =~= after.requests);
                session::replacing_an_output_keeps_valid(start@, i as int, out);
                lemma_parts_kept(start, *self, i as int);
                assert(self@ =~= after);
            }
        }
        Some((w, h))
    }

    /// Pick the buffer to draw a frame of an output into. `free` says of every buffer the output
    /// has whether the compositor has released it.
    pub fn choose_buffer(&mut self, id: u32, free: &[bool]) -> (r: BufferChoice)
        requires
            old(self).wf(),
            old(self)@.has(id),
        ensures
            final(self).wf(),
            final(self).path() == old(self).path(),
            r == session::choice_of(old(self)@.output(id).last_buffer, free@),
            final(self)@ == (if r is Wait {
                old(self)@.with_output(id, old(self)@.output(id).marked()).touched()
            } else {
                old(self)@
            }),
    {
        let i: usize = match self.index_of(id) {
            Some(i) => i,
            None => {
                return BufferChoice::Wait;
            },
        };
        let ghost start = *self;
        proof {
            assert(start.outputs@[i as int]@ == start@.outputs[i as int]);
        }
        let choice: BufferChoice = pick_buffer(self.outputs[i].last_buffer, free);
        if choice != BufferChoice::Wait {
            return choice;
        }
        // All buffers are in flight: stay dirty and retry once the compositor releases one.
        self.outputs[i].dirty = true;
        self.dirty = true;
        proof {
            let out = start@.outputs[i as int].marked();
            assert(self.outputs@[i as int]@ =~= out);
            assert(self@.outputs =~= start@.outputs.update(i as int, out));
            session::replacing_an_output_keeps_valid(start@, i as int, out);
            lemma_parts_kept(start, *self, i as int);
            assert(self@ =~= start@.with_output(id, out).touched());
        }
        BufferChoice::Wait
    }

    /// Decide what a frame of an output on a buffer has to touch. Painting a box is only valid
    /// on the buffer that holds the previous frame: on any other buffer the pixels outside the
    /// box are older. An open text edit also forces a whole frame: its caret is not a transient
    /// box. `None` where nothing changed for this output.
    pub fn compose_frame(&mut self, id: u32, idx: usize) -> (r: Option<Frame>)
        requires
            old(self).wf(),
            old(self)@.has(id),
        ensures
            final(self).wf(),
            final(self).path() == old(self).path(),
            r is None <==> old(self)@.frame_kind(id, idx) is Nothing,
            r is None ==> final(self)@ == old(self)@,
            r is Some ==> final(self)@ == old(self)@.frame_composed(id, idx),
            r matches Some(f) ==> {
                let out = old(self)@.output(id);
                let (w, h) = out.device_size();
                &&& f.width == w
                &&& f.height == h
                &&& f.scale == out.scale
                &&& f.damage is None <==> old(self)@.frame_kind(id, idx) is Whole
                &&& f.damage is None ==> f.region == DamageRegion::All
                &&& f.damage is Some ==> f.damage->0.in_range() && old(self)@.boxes(
                    id,
                ).least_settled(old(self)@.moved_box(id), f.damage->0) && f.region
                    == DamageRegion::of(f.damage->0, out.scale, w, h)
            },
    {
        let i: usize = match self.index_of(id) {
            Some(i) => i,
            None => {
                return None;
            },
        };
        let ghost start = *self;
        proof {
            assert(start.outputs@[i as int]@ == start@.outputs[i as int]);
            assert(start.outputs@[i as int].wf());
        }
        let scale: u32 = self.outputs[i].scale;
        let width: u32 = scaled_length(self.outputs[i].width, scale);
        let height: u32 = scaled_length(self.outputs[i].height, scale);
        let transient: Option<Rect> = transient_bounds(&self.outputs[i].overlay);
        let on_last: bool = match self.outputs[i].last_buffer {
            Some(last) => last == idx,
            None => false,
        };
        let damage: Option<Rect> = if self.outputs[i].dirty || !on_last
            || self.outputs[i].overlay.text.is_some() {
            None
        } else if self.outputs[i].transient_dirty {
            let moved: Rect = match (self.outputs[i].last_transient, transient) {
                (Some(a), Some(b)) => a.union(b),
                (Some(a), None) => a,
                (None, Some(b)) => b,
                (None, None) => Rect { x: 0, y: 0, w: 0, h: 0 },
            };
            // The box has to contain everything that will be drawn, because nothing may be
            // painted outside it: those bytes still hold the previous frame, already swapped.
            Some(self.damage_of(i, moved))
        } else {
            // Nothing changed for this output; another output is why the session redraws.
            return None;
        };
        let region: DamageRegion = match damage {
            None => DamageRegion::All,
            Some(d) => DamageRegion::from_logical(d, scale, width, height),
        };
        self.outputs[i].dirty = false;
        self.outputs[i].transient_dirty = false;
        self.outputs[i].last_transient = transient;
        self.outputs[i].last_buffer = Some(idx);
        proof {
            let after = start@.frame_composed(id, idx);
            let out = after.outputs[i as int];
            assert(self.outputs@[i as int]@ =~= out);
            assert(self@.outputs =~= start@.outputs.update(i as int, out));
            session::replacing_an_output_keeps_valid(start@, i as int, out);
            lemma_parts_kept(start, *self, i as int);
            assert(self@ =~= after);
        }
        Some(Frame { width, height, scale, damage, region })
    }

    /// The damage box of an output that covers what moved.
    fn damage_of(&self, i: usize, moved: Rect) -> (r: Rect)
        requires
            self.wf(),
            i < self.outputs@.len(),
            moved.in_range(),
        ensures
            r.in_range(),
            self@.boxes(self.outputs@[i as int].id).least_settled(moved, r),
    {
        proof {
            assert(self.outputs@[i as int]@ == self@.outputs[i as int]);
            session::lemma_at(self@, i as int);
        }
        let bucket: String = self.outputs[i].bucket();
        let out: &Output = &self.outputs[i];
        let width: u64 = 256 * out.width as u64;
        match self.doc.get(bucket.as_str()) {
            Some(ann) => damage_box(ann, &out.overlay, moved, width),
            None => damage_box(&OutputAnnotations::default(), &out.overlay, moved, width),
        }
    }

    /// The annotations an output shows, if it has any.
    pub fn annotations(&self, id: u32) -> (r: Option<&OutputAnnotations>)
        requires
            self.wf(),
        ensures
            r is Some <==> self@.has(id) && self@.doc.dom().contains(self@.output(id).bucket()),
            r is Some ==> r->0@ == self@.doc[self@.output(id).bucket()],
    {
        match self.index_of(id) {
            Some(i) => {
                proof {
                    assert(self.outputs@[i as int]@ == self@.outputs[i as int]);
                }
                self.doc.get(self.outputs[i].bucket().as_str())
            },
            None => None,
        }
    }

    /// An output.
    pub fn output(&self, id: u32) -> (r: Option<&Output>)
        requires
            self.wf(),
        ensures
            r is Some <==> self@.has(id),
            r is Some ==> r->0@ == self@.output(id),
    {
        match self.index_of(id) {
            Some(i) => {
                proof {
                    assert(self.outputs@[i as int]@ == self@.outputs[i as int]);
                }
                Some(&self.outputs[i])
            },
            None => None,
        }
    }

    /// The ids of the outputs.
    pub fn output_ids(&self) -> (r: Vec<u32>)
        ensures
            r@ == self@.outputs.map_values(|o: OutputView| o.id),
    {
        let mut ids: Vec<u32> = Vec::new();
        let mut i: usize = 0;
        while i < self.outputs.len()
            invariant
                i <= self.outputs@.len(),
                ids@.len() == i,
                forall|j: int| 0 <= j < i ==> ids@[j] == self.outputs@[j].id,
            decreases self.outputs@.len() - i,
        {
            ids.push(self.outputs[i].id);
            i = i + 1;
        }
        proof {
            assert(ids@ =~= self@.outputs.map_values(|o: OutputView| o.id));
        }
        ids
    }

    /// The annotations of all outputs.
    pub fn doc(&self) -> (r: &Doc)
        requires
            self.wf(),
        ensures
            r.wf(),
            r@ == self@.doc,
    {
        &self.doc
    }

    /// Where the annotations are kept.
    pub fn annotation_path(&self) -> (r: &str)
        ensures
            r@ == self.path(),
    {
        self.store.path.as_str()
    }

    /// Hand over what the compositor and the input method have to be told.
    pub fn take_requests(&mut self) -> (r: Vec<Request>)
        requires
            old(self).wf(),
        ensures
            final(self).wf(),
            final(self).path() == old(self).path(),
            r@.map_values(|q: Request| q@) == old(self)@.requests,
            final(self)@ == (State { requests: Seq::empty(), ..old(self)@ }),
    {
        let mut requests: Vec<Request> = Vec::new();
        std::mem::swap(&mut requests, &mut self.requests);
        proof {
            assert(self@.requests =~= Seq::<RequestView>::empty());
        }
        requests
    }
}

/// The buffer to draw a frame into: a free one, preferring the one that holds the previous
/// frame, or a new one up to [`MAX_BUFFERS`].
pub fn pick_buffer(last: Option<usize>, free: &[bool]) -> (r: BufferChoice)
    ensures
        r == session::choice_of(last, free@),
{
    if let Some(last) = last {
        if last < free.len() && free[last] {
            return BufferChoice::Use(last);
        }
    }
    let mut n: usize = 0;
    while n < free.len()
        invariant
            n <= free@.len(),
            last is Some ==> !(last->0 < free@.len() && free@[last->0 as int]),
            session::first_free(free@, 0) == session::first_free(free@, n as int),
        decreases free@.len() - n,
    {
        if free[n] {
            return BufferChoice::Use(n);
        }
        n = n + 1;
    }
    if free.len() < MAX_BUFFERS {
        BufferChoice::Allocate
    } else {
        BufferChoice::Wait
    }
}

/// A length in device pixels, as far as a buffer can be that long.
fn scaled_length(n: u32, scale: u32) -> (r: u32)
    ensures
        r == session::scaled(n, scale),
{
    proof {
        assert(0 <= n * scale <= 0xffff_ffff * 0xffff_ffff) by (nonlinear_arith)
            requires
                0 <= n <= 0xffff_ffff,
                0 <= scale <= 0xffff_ffff,
        ;
    }
    let product: u64 = n as u64 * scale as u64;
    if product <= u32::MAX as u64 {
        product as u32
    } else {
        u32::MAX
    }
}

/// The output's scale factor, never below 1.
pub fn output_scale(info: &Option<OutputInfo>) -> (r: u32)
    ensures
        r == session::reported_scale(*info),
{
    match info {
        Some(info) => if info.scale_factor > 1 {
            info.scale_factor as u32
        } else {
            1
        },
        None => 1,
    }
}

/// The output's name, empty until it arrives.
fn output_name(info: &Option<OutputInfo>) -> (r: String)
    ensures
        r@ == session::reported_name(*info),
{
    match info {
        Some(info) => match &info.name {
            Some(name) => name.clone(),
            None => String::new(),
        },
        None => String::new(),
    }
}

/// An output with a new surface. The first commit carries no buffer; configure tells the size.
fn fresh_output(id: u32, name: String, reported: u32, hint: Option<Hint>) -> (r: Output)
    ensures
        r.wf(),
        hint is Some ==> r@ == OutputView::fresh(id, name@, reported, Some(hint->0@)),
        hint is None ==> r@ == OutputView::fresh(id, name@, reported, None),
{
    Output {
        id,
        name,
        width: 0,
        height: 0,
        scale: reported,
        reported,
        configured: false,
        dirty: true,
        transient_dirty: false,
        last_transient: None,
        last_buffer: None,
        buffer_size: (0, 0),
        overlay: Overlay { stroke: None, eraser: None, text: None, hint },
    }
}

/// A text box taken off and put back changed is the text box changed in place.
proof fn lemma_put_back(s: State, i: int, edit: TextOverlayView)
    requires
        s.valid(),
        s.is_editing(),
        i == s.edit_at(),
    ensures
        ({
            let taken = State { outputs: s.outputs.update(i, s.outputs[i].with_text(None)), ..s };
            (State {
                outputs: taken.outputs.update(
                    i,
                    taken.outputs[i].with_text(Some(edit)).marked(),
                ),
                ..taken
            }).touched().synced() == s.retyped(edit)
        }),
{
    assert(s.outputs[i].is_editing());
    let taken = State { outputs: s.outputs.update(i, s.outputs[i].with_text(None)), ..s };
    assert(taken.outputs.update(i, taken.outputs[i].with_text(Some(edit)).marked())
        =~= s.outputs.update(i, s.outputs[i].with_text(Some(edit)).marked()));
}

/// The parts stay valid where one output was replaced by a valid one.
proof fn lemma_parts_kept(before: App, after: App, i: int)
    requires
        before.parts_wf(),
        after.doc == before.doc,
        after.outputs@.len() == before.outputs@.len(),
        0 <= i < after.outputs@.len(),
        after.outputs@[i].wf(),
        forall|j: int|
            0 <= j < after.outputs@.len() && j != i ==> after.outputs@[j] == before.outputs@[j],
    ensures
        after.parts_wf(),
{
    assert forall|j: int| 0 <= j < after.outputs@.len() implies (#[trigger] after.outputs@[j]).wf() by {
        assert(before.outputs@[j].wf());
    }
}

/// What is edited depends on the outputs alone.
proof fn lemma_same_outputs_edit_alike(a: State, b: State)
    requires
        a.outputs == b.outputs,
    ensures
        a.is_editing() == b.is_editing(),
        a.edit_at() == b.edit_at(),
{
}

} // verus!
