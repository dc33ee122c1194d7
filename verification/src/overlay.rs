//! What is drawn only while editing.

use vstd::prelude::*;

use crate::buffer::TextBuffer;
use crate::canvas::{Stroke, StrokeView, TextItem, TextItemView};

verus! {

/// What the edit-mode hint shows: the active tool's label, the active colour and the size the
/// active tool draws with.
#[derive(Debug, Clone, Copy, PartialEq, Eq)]
pub struct Hint {
    pub tool: &'static str,
    /// `#rrggbb`
    pub color: &'static str,
    pub size: u32,
}

/// What a hint is, in the mathematical model.
#[verifier::ext_equal]
pub struct HintView {
    pub tool: Seq<char>,
    pub color: Seq<char>,
    pub size: u32,
}

impl View for Hint {
    type V = HintView;

    open spec fn view(&self) -> HintView {
        HintView { tool: self.tool@, color: self.color@, size: self.size }
    }
}

/// A text box being edited.
#[derive(Debug)]
pub struct TextOverlay {
    pub item: TextItem,
    pub buffer: TextBuffer,
    /// Index into the document when an existing box is edited; `None` for a new one.
    pub index: Option<usize>,
    /// Input method preedit string; never persisted.
    pub preedit: String,
}

/// What a text box being edited is, in the mathematical model.
#[verifier::ext_equal]
pub struct TextOverlayView {
    pub item: TextItemView,
    pub typed: Seq<char>,
    pub index: Option<usize>,
    pub preedit: Seq<char>,
}

impl View for TextOverlay {
    type V = TextOverlayView;

    open spec fn view(&self) -> TextOverlayView {
        TextOverlayView {
            item: self.item@,
            typed: self.buffer@,
            index: self.index,
            preedit: self.preedit@,
        }
    }
}

/// Transient edit-time state: rendered only in edit mode, never persisted.
#[derive(Debug)]
pub struct Overlay {
    /// Stroke still being drawn, not yet committed.
    pub stroke: Option<Stroke>,
    /// Eraser cursor position.
    pub eraser: Option<[i32; 2]>,
    /// Text box being edited, preedit included.
    pub text: Option<TextOverlay>,
    /// Edit-mode affordance: the active tool and colour. Never part of the document, so it
    /// cannot be persisted, erased or exported.
    pub hint: Option<Hint>,
}

/// What the transient state is, in the mathematical model.
#[verifier::ext_equal]
pub struct OverlayView {
    pub stroke: Option<StrokeView>,
    pub eraser: Option<[i32; 2]>,
    pub text: Option<TextOverlayView>,
    pub hint: Option<HintView>,
}

impl View for Overlay {
    type V = OverlayView;

    open spec fn view(&self) -> OverlayView {
        OverlayView {
            stroke: match self.stroke {
                Some(s) => Some(s@),
                None => None,
            },
            eraser: self.eraser,
            text: match self.text {
                Some(t) => Some(t@),
                None => None,
            },
            hint: match self.hint {
                Some(h) => Some(h@),
                None => None,
            },
        }
    }
}

impl OverlayView {
    /// Nothing in progress, with a hint or without.
    pub open spec fn idle(hint: Option<HintView>) -> OverlayView {
        OverlayView { stroke: None, eraser: None, text: None, hint }
    }
}

impl Overlay {
    /// The cursor of the text box being edited stands at the end of its text.
    pub open spec fn wf(self) -> bool {
        self.text is Some ==> self.text->0.buffer.wf()
    }
}

impl Default for Overlay {
    fn default() -> (r: Overlay)
        ensures
            r.wf(),
            r@ == OverlayView::idle(None),
    {
        Overlay { stroke: None, eraser: None, text: None, hint: None }
    }
}

} // verus!
