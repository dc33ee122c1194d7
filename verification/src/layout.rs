//! Laid-out text and stroke boxes that a frame can reuse from the frames before it.

use vstd::prelude::*;

use crate::canvas::{Stroke, StrokeView, TextItem, TextItemView};
use crate::geometry::Rect;
use crate::text::same_text;

verus! {

/// A laid-out text box, with the text and size it was laid out for.
pub struct TextCacheEntry<L> {
    pub text: String,
    pub size: u32,
    pub paint_bounds: Rect,
    pub layout: L,
}

impl<L> TextCacheEntry<L> {
    /// Whether the layout is that of a text box.
    pub open spec fn is_for(self, t: TextItemView) -> bool {
        self.text@ == t.text && self.size == t.size
    }
}

/// Layouts by the place of their text box, and boxes by the place of their stroke, at one scale.
pub struct TextLayoutCache<L> {
    pub scale: u32,
    pub entries: Vec<Option<TextCacheEntry<L>>>,
    pub stroke_bounds: Vec<Option<Rect>>,
}

/// What the cache is, in the mathematical model.
#[verifier::ext_equal]
pub struct CacheView<L> {
    pub scale: u32,
    pub entries: Seq<Option<TextCacheEntry<L>>>,
    pub stroke_bounds: Seq<Option<Rect>>,
}

impl<L> View for TextLayoutCache<L> {
    type V = CacheView<L>;

    open spec fn view(&self) -> CacheView<L> {
        CacheView {
            scale: self.scale,
            entries: self.entries@,
            stroke_bounds: self.stroke_bounds@,
        }
    }
}

/// The first `n` places, with nothing in those that are new.
pub open spec fn resized<T>(places: Seq<Option<T>>, n: nat) -> Seq<Option<T>> {
    Seq::new(n, |i: int| if i < places.len() { places[i] } else { None })
}

impl<L> CacheView<L> {
    /// Every box lies in range.
    pub open spec fn wf(self) -> bool {
        &&& forall|i: int|
            0 <= i < self.entries.len() && self.entries[i] is Some ==> (
            #[trigger] self.entries[i])->0.paint_bounds.in_range()
        &&& forall|i: int|
            0 <= i < self.stroke_bounds.len() && self.stroke_bounds[i] is Some ==> (
            #[trigger] self.stroke_bounds[i])->0.in_range()
    }

    /// The cache of no scale, which holds nothing.
    pub open spec fn cold() -> CacheView<L> {
        CacheView { scale: 0, entries: Seq::empty(), stroke_bounds: Seq::empty() }
    }

    /// The entry at a place, if there is one.
    pub open spec fn entry(self, index: int) -> Option<TextCacheEntry<L>> {
        if 0 <= index < self.entries.len() { self.entries[index] } else { None }
    }

    /// Whether the entry at a place is that of a text box.
    pub open spec fn has_text(self, index: int, item: TextItemView) -> bool {
        self.entry(index) is Some && self.entry(index)->0.is_for(item)
    }

    /// The box that a stroke is accounted with: the one that is held for its place, or its own.
    pub open spec fn stroke_box(self, index: int, stroke: StrokeView) -> Option<Rect> {
        if 0 <= index < self.stroke_bounds.len() && self.stroke_bounds[index] is Some {
            self.stroke_bounds[index]
        } else {
            stroke.bounds()
        }
    }

    /// The box that a text box is accounted with: the measured one where the entry at its place
    /// is for it, or the estimate.
    pub open spec fn text_box(self, index: int, item: TextItemView) -> Rect {
        if self.has_text(index, item) {
            self.entry(index)->0.paint_bounds
        } else {
            item.paint_bounds()
        }
    }

    /// The cache for so many strokes and text boxes at a scale: emptied where the scale is
    /// another, and with as many places as there are items.
    pub open spec fn synced(self, stroke_len: nat, text_len: nat, scale: u32) -> CacheView<L> {
        let base = if self.scale == scale { self } else { CacheView::cold() };
        CacheView {
            scale,
            entries: resized(base.entries, text_len),
            stroke_bounds: resized(base.stroke_bounds, stroke_len),
        }
    }

    /// The cache after the box of a stroke was asked for.
    pub open spec fn with_stroke_box(self, index: int, stroke: StrokeView) -> CacheView<L> {
        if 0 <= index < self.stroke_bounds.len() {
            CacheView {
                stroke_bounds: self.stroke_bounds.update(index, self.stroke_box(index, stroke)),
                ..self
            }
        } else {
            self
        }
    }

    /// The cache with an entry put at a place.
    pub open spec fn with_entry(self, index: nat, entry: TextCacheEntry<L>) -> CacheView<L> {
        let len = if index < self.entries.len() { self.entries.len() } else { index + 1 };
        CacheView { entries: resized(self.entries, len).update(index as int, Some(entry)), ..self }
    }
}

fn resize<T>(places: &mut Vec<Option<T>>, n: usize)
    ensures
        final(places)@ == resized(old(places)@, n as nat),
{
    let ghost start = places@;
    if n < places.len() {
        places.truncate(n);
    }
    while places.len() < n
        invariant
            places.len() <= n,
            places.len() < n ==> start.len() <= places.len(),
            places@ =~= resized(start, places@.len()),
        decreases n - places.len(),
    {
        places.push(None);
    }
}

impl<L> TextLayoutCache<L> {
    /// A cache that holds nothing.
    pub fn new() -> (r: TextLayoutCache<L>)
        ensures
            r@ == CacheView::<L>::cold(),
            r@.wf(),
    {
        TextLayoutCache { scale: 0, entries: Vec::new(), stroke_bounds: Vec::new() }
    }

    /// Forget everything.
    pub fn invalidate(&mut self)
        ensures
            final(self)@ == CacheView::<L>::cold(),
            final(self)@.wf(),
    {
        self.scale = 0;
        self.entries.clear();
        self.stroke_bounds.clear();
    }

    /// Make room for so many strokes and text boxes; forget everything where the scale changed.
    pub fn sync(&mut self, stroke_len: usize, text_len: usize, scale: u32)
        requires
            old(self)@.wf(),
        ensures
            final(self)@ == old(self)@.synced(stroke_len as nat, text_len as nat, scale),
            final(self)@.wf(),
    {
        if self.scale != scale {
            self.invalidate();
            self.scale = scale;
        }
        resize(&mut self.entries, text_len);
        resize(&mut self.stroke_bounds, stroke_len);
    }

    /// The box of the stroke at a place, from the cache or else computed and kept.
    pub fn stroke_bounds(&mut self, index: usize, stroke: &Stroke) -> (r: Option<Rect>)
        requires
            old(self)@.wf(),
        ensures
            r == old(self)@.stroke_box(index as int, stroke@),
            r is Some ==> r->0.in_range(),
            final(self)@ == old(self)@.with_stroke_box(index as int, stroke@),
            final(self)@.wf(),
    {
        let ghost start = self@;
        if index < self.stroke_bounds.len() {
            if let Some(bounds) = self.stroke_bounds[index] {
                proof {
                    assert(start.stroke_bounds[index as int] == Some(bounds));
                    assert(self@ =~= start.with_stroke_box(index as int, stroke@));
                }
                return Some(bounds);
            }
        }
        let bounds: Option<Rect> = stroke.bounds();
        if index < self.stroke_bounds.len() {
            self.stroke_bounds[index] = bounds;
        }
        proof {
            assert(self@ =~= start.with_stroke_box(index as int, stroke@));
        }
        bounds
    }

    /// Whether the layout at a place is that of the text box.
    pub fn matches(&self, index: usize, item: &TextItem) -> (r: bool)
        ensures
            r == self@.has_text(index as int, item@),
    {
        if index < self.entries.len() {
            if let Some(entry) = &self.entries[index] {
                return same_text(entry.text.as_str(), item.text.as_str()) && entry.size
                    == item.size;
            }
        }
        false
    }

    /// The measured box of the layout at a place.
    pub fn bounds(&self, index: usize) -> (r: Option<Rect>)
        requires
            self@.wf(),
        ensures
            r is Some <==> self@.entry(index as int) is Some,
            r is Some ==> r->0 == self@.entry(index as int)->0.paint_bounds && r->0.in_range(),
    {
        if index < self.entries.len() {
            if let Some(entry) = &self.entries[index] {
                proof {
                    assert(self@.entries[index as int] is Some);
                }
                return Some(entry.paint_bounds);
            }
        }
        None
    }

    /// The measured box of the layout at a place, where it is that of the text box.
    pub fn text_bounds(&self, index: usize, item: &TextItem) -> (r: Option<Rect>)
        requires
            self@.wf(),
        ensures
            r is Some <==> self@.has_text(index as int, item@),
            r is Some ==> r->0 == self@.text_box(index as int, item@) && r->0.in_range(),
    {
        if self.matches(index, item) {
            self.bounds(index)
        } else {
            None
        }
    }

    /// Keep a layout of the text box at a place.
    pub fn insert(&mut self, index: usize, item: &TextItem, layout: L, paint_bounds: Rect)
        requires
            old(self)@.wf(),
            paint_bounds.in_range(),
            index < usize::MAX,
        ensures
            final(self)@.wf(),
            exists|entry: TextCacheEntry<L>|
                #![auto]
                entry.is_for(item@) && entry.paint_bounds == paint_bounds && entry.layout == layout
                    && final(self)@ == old(self)@.with_entry(index as nat, entry),
    {
        let ghost start = self@;
        if index >= self.entries.len() {
            resize(&mut self.entries, index + 1);
        } else {
            proof {
                assert(resized(start.entries, start.entries.len()) =~= start.entries);
            }
        }
        let entry: TextCacheEntry<L> = TextCacheEntry {
            text: item.text.clone(),
            size: item.size,
            paint_bounds,
            layout,
        };
        let ghost kept = entry;
        self.entries[index] = Some(entry);
        proof {
            assert(self@ =~= start.with_entry(index as nat, kept));
            assert(kept.is_for(item@));
        }
    }

    /// The layout at a place.
    pub fn get_mut(&mut self, index: usize) -> (r: Option<&mut L>)
        ensures
            r is Some <==> old(self)@.entry(index as int) is Some,
            r is Some ==> *r->0 == old(self)@.entry(index as int)->0.layout && final(self)@
                == old(self)@.with_entry(
                index as nat,
                (TextCacheEntry {
                    layout: *final(r->0),
                    ..old(self)@.entry(index as int)->0
                }),
            ),
            r is None ==> final(self)@ == old(self)@,
    {
        proof {
            assert(resized(self@.entries, self@.entries.len()) =~= self@.entries);
        }
        if index < self.entries.len() {
            match &mut self.entries[index] {
                Some(entry) => Some(&mut entry.layout),
                None => None,
            }
        } else {
            None
        }
    }
}

/// A box that was asked for is remembered, and remembering it changes no other answer.
pub proof fn asking_for_a_box_changes_no_answer<L>(
    cache: CacheView<L>,
    index: int,
    stroke: StrokeView,
    other: int,
    other_stroke: StrokeView,
)
    requires
        other == index ==> other_stroke == stroke,
    ensures
        cache.with_stroke_box(index, stroke).stroke_box(other, other_stroke) == cache.stroke_box(
            other,
            other_stroke,
        ),
{
}

/// A layout that was kept is found again for the same text and size, and is not found for
/// another text or size.
pub proof fn a_kept_layout_is_found_for_its_text_only<L>(
    cache: CacheView<L>,
    index: nat,
    entry: TextCacheEntry<L>,
    item: TextItemView,
)
    ensures
        cache.with_entry(index, entry).has_text(index as int, item) == (entry.text@ == item.text
            && entry.size == item.size),
        entry.is_for(item) ==> cache.with_entry(index, entry).text_box(index as int, item)
            == entry.paint_bounds,
{
}

/// A change of scale empties the cache.
pub proof fn a_new_scale_starts_cold<L>(
    cache: CacheView<L>,
    strokes: nat,
    texts: nat,
    scale: u32,
    i: int,
    s: StrokeView,
    t: TextItemView,
)
    requires
        cache.scale != scale,
    ensures
        cache.synced(strokes, texts, scale).stroke_box(i, s) == s.bounds(),
        !cache.synced(strokes, texts, scale).has_text(i, t),
{
}

/// At the same scale the cache keeps what it holds for the places that are left, and holds nothing
/// for those that are new.
pub proof fn the_same_scale_keeps_what_is_held<L>(
    cache: CacheView<L>,
    strokes: nat,
    texts: nat,
    i: int,
    s: StrokeView,
    t: TextItemView,
)
    ensures
        ({
            let now = cache.synced(strokes, texts, cache.scale);
            &&& 0 <= i < strokes ==> now.stroke_box(i, s) == cache.stroke_box(i, s)
            &&& i >= strokes ==> now.stroke_box(i, s) == s.bounds()
            &&& 0 <= i < texts ==> now.has_text(i, t) == cache.has_text(i, t) && now.text_box(i, t)
                == cache.text_box(i, t)
            &&& i >= texts ==> !now.has_text(i, t)
            &&& now.scale == cache.scale
        }),
{
}

} // verus!
