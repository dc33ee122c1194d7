//! Annotation data model and hit testing.

use vstd::prelude::*;

use crate::distance;
use crate::distance::{polyline_within, Ratio};
use crate::geometry;
use crate::geometry::{FIFTH, HALF, PARTS, RECT_PX};
use crate::text;
use crate::text::text_extent;

pub use crate::buffer::TextBuffer;
pub use crate::document::{Bucket, Doc};
pub use crate::geometry::{Rect, PX};
pub use crate::overlay::{Hint, Overlay, TextOverlay};

verus! {

/// Eraser hit radius: 8 logical pixels.
pub const ERASER_THRESHOLD: u32 = 2048;

/// The square of the eraser hit radius.
pub const ERASER_LIMIT: u32 = 4194304;

#[derive(Debug, PartialEq, Eq)]
pub struct Stroke {
    /// `#rrggbb`
    pub color: String,
    pub width: u32,
    pub points: Vec<[i32; 2]>,
}

/// What a stroke is, in the mathematical model.
#[verifier::ext_equal]
pub struct StrokeView {
    pub color: Seq<char>,
    pub width: u32,
    pub points: Seq<[i32; 2]>,
}

impl View for Stroke {
    type V = StrokeView;

    open spec fn view(&self) -> StrokeView {
        StrokeView { color: self.color@, width: self.width, points: self.points@ }
    }
}

#[derive(Debug, PartialEq, Eq)]
pub struct TextItem {
    pub x: i32,
    pub y: i32,
    /// `#rrggbb`
    pub color: String,
    pub size: u32,
    pub text: String,
}

/// What a text box is, in the mathematical model.
#[verifier::ext_equal]
pub struct TextItemView {
    pub x: i32,
    pub y: i32,
    pub color: Seq<char>,
    pub size: u32,
    pub text: Seq<char>,
}

impl View for TextItem {
    type V = TextItemView;

    open spec fn view(&self) -> TextItemView {
        TextItemView {
            x: self.x,
            y: self.y,
            color: self.color@,
            size: self.size,
            text: self.text@,
        }
    }
}

/// An item the eraser hit.
#[derive(Debug, Clone, Copy, PartialEq, Eq, Structural)]
pub enum ItemId {
    Stroke(usize),
    Text(usize),
}

/// Annotations belonging to a single output.
#[derive(Debug, PartialEq, Eq)]
pub struct OutputAnnotations {
    pub strokes: Vec<Stroke>,
    pub texts: Vec<TextItem>,
}

/// What the annotations of an output are, in the mathematical model.
#[verifier::ext_equal]
pub struct AnnotationsView {
    pub strokes: Seq<StrokeView>,
    pub texts: Seq<TextItemView>,
}

impl View for OutputAnnotations {
    type V = AnnotationsView;

    open spec fn view(&self) -> AnnotationsView {
        AnnotationsView {
            strokes: self.strokes@.map_values(|s: Stroke| s@),
            texts: self.texts@.map_values(|t: TextItem| t@),
        }
    }
}

impl AnnotationsView {
    pub open spec fn none() -> AnnotationsView {
        AnnotationsView { strokes: Seq::empty(), texts: Seq::empty() }
    }

    /// The first text box at or after `from` whose box holds the point.
    pub open spec fn text_at(self, x: int, y: int, from: int) -> Option<int>
        decreases self.texts.len() - from,
    {
        if from < 0 || from >= self.texts.len() {
            None
        } else if self.texts[from].bounds().holds(x, y) {
            Some(from)
        } else {
            self.text_at(x, y, from + 1)
        }
    }

    /// Whether the eraser reaches a stroke from the point.
    pub open spec fn reaches(self, x: i32, y: i32, stroke: int) -> bool {
        let d = distance::polyline_distance(self.strokes[stroke].points, [x, y]);
        d is Some && d->0.at_most(ERASER_LIMIT as int)
    }

    /// Whether the point is nearer to one stroke than to another.
    pub open spec fn nearer(self, x: i32, y: i32, stroke: int, other: int) -> bool {
        distance::polyline_distance(self.strokes[stroke].points, [x, y])->0.below(
            distance::polyline_distance(self.strokes[other].points, [x, y])->0,
        )
    }

    /// The nearest of the first `n` strokes the eraser reaches; of equally near ones the first.
    pub open spec fn nearest_stroke(self, x: i32, y: i32, n: int) -> Option<int>
        decreases n,
    {
        if n <= 0 {
            None
        } else {
            let best = self.nearest_stroke(x, y, n - 1);
            if self.reaches(x, y, n - 1) && (best is None || self.nearer(x, y, n - 1, best->0)) {
                Some(n - 1)
            } else {
                best
            }
        }
    }

    /// What the eraser hits at a point: a text box before any stroke, the first such text box,
    /// the nearest such stroke.
    pub open spec fn hit(self, x: i32, y: i32) -> Option<ItemId> {
        match self.text_at(x as int, y as int, 0) {
            Some(i) => Some(ItemId::Text(i as usize)),
            None => match self.nearest_stroke(x, y, self.strokes.len() as int) {
                Some(i) => Some(ItemId::Stroke(i as usize)),
                None => None,
            },
        }
    }

    /// The annotations without an item.
    pub open spec fn without(self, item: ItemId) -> AnnotationsView {
        match item {
            ItemId::Stroke(i) => AnnotationsView { strokes: self.strokes.remove(i as int), ..self },
            ItemId::Text(i) => AnnotationsView { texts: self.texts.remove(i as int), ..self },
        }
    }

    /// The annotations after the eraser touched a point.
    pub open spec fn erased(self, x: i32, y: i32) -> AnnotationsView {
        match self.hit(x, y) {
            Some(item) => self.without(item),
            None => self,
        }
    }
}

impl Default for OutputAnnotations {
    /// No annotations.
    fn default() -> (r: OutputAnnotations)
        ensures
            r@ == AnnotationsView::none(),
    {
        let r = OutputAnnotations { strokes: Vec::new(), texts: Vec::new() };
        proof {
            assert(r@ =~= AnnotationsView::none());
        }
        r
    }
}

impl Clone for OutputAnnotations {
    fn clone(&self) -> (r: OutputAnnotations)
        ensures
            r@ == self@,
    {
        let r = OutputAnnotations { strokes: self.strokes.clone(), texts: self.texts.clone() };
        proof {
            assert(r@ =~= self@);
        }
        r
    }
}

impl OutputAnnotations {
    /// The first text box whose box holds the point.
    pub fn text_at(&self, x: i32, y: i32) -> (r: Option<usize>)
        ensures
            r is Some <==> self@.text_at(x as int, y as int, 0) is Some,
            r is Some ==> r->0 == self@.text_at(x as int, y as int, 0)->0 && r->0
                < self.texts.len(),
    {
        let mut i: usize = 0;
        while i < self.texts.len()
            invariant
                i <= self.texts.len(),
                self@.text_at(x as int, y as int, 0) == self@.text_at(x as int, y as int, i as int),
            decreases self.texts.len() - i,
        {
            if self.texts[i].bounds().contains(x, y) {
                return Some(i);
            }
            i = i + 1;
        }
        None
    }

    /// Eraser hit test: text boxes win over strokes, nearest one of each kind.
    pub fn hit(&self, x: i32, y: i32) -> (r: Option<ItemId>)
        ensures
            r == self@.hit(x, y),
            r matches Some(ItemId::Text(i)) ==> i < self.texts.len(),
            r matches Some(ItemId::Stroke(i)) ==> i < self.strokes.len(),
    {
        if let Some(i) = self.text_at(x, y) {
            return Some(ItemId::Text(i));
        }
        let p: [i32; 2] = [x, y];
        let mut best: Option<usize> = None;
        let mut best_distance = Ratio { num: 0, den: 1 };
        let mut n: usize = 0;
        while n < self.strokes.len()
            invariant
                p == [x, y],
                n <= self.strokes.len(),
                best is Some <==> self@.nearest_stroke(x, y, n as int) is Some,
                best matches Some(i) ==> {
                    &&& i == self@.nearest_stroke(x, y, n as int)->0
                    &&& i < n
                    &&& self@.reaches(x, y, i as int)
                    &&& best_distance.den > 0
                    &&& best_distance@.equals(
                        distance::polyline_distance(self@.strokes[i as int].points, p)->0,
                    )
                },
            decreases self.strokes.len() - n,
        {
            let d: Option<Ratio> = polyline_within(&self.strokes[n].points, p, ERASER_LIMIT);
            let ghost exact = distance::polyline_distance(self@.strokes[n as int].points, p);
            proof {
                assert(self@.strokes[n as int].points == self.strokes@[n as int].points@);
            }
            if let Some(d) = d {
                let closer: bool = match best {
                    Some(i) => {
                        proof {
                            let other = distance::polyline_distance(self@.strokes[i as int].points, p)->0;
                            distance::lemma_polyline_distance_valid(self@.strokes[i as int].points, p);
                            distance::lemma_polyline_distance_valid(self@.strokes[n as int].points, p);
                            distance::lemma_equal_fractions_compare_alike(
                                d@,
                                exact->0,
                                best_distance@,
                                other,
                            );
                        }
                        d.less(best_distance)
                    },
                    None => true,
                };
                if closer {
                    best = Some(n);
                    best_distance = d;
                }
            }
            n = n + 1;
        }
        match best {
            Some(i) => Some(ItemId::Stroke(i)),
            None => None,
        }
    }

    /// Delete the hit item; returns whether anything was removed.
    pub fn erase(&mut self, x: i32, y: i32) -> (r: bool)
        ensures
            r == (old(self)@.hit(x, y) is Some),
            final(self)@ == old(self)@.erased(x, y),
    {
        let ghost before = self@;
        match self.hit(x, y) {
            Some(ItemId::Stroke(i)) => {
                self.strokes.remove(i);
                proof {
                    assert(self@ =~= before.without(ItemId::Stroke(i)));
                }
                true
            },
            Some(ItemId::Text(i)) => {
                self.texts.remove(i);
                proof {
                    assert(self@ =~= before.without(ItemId::Text(i)));
                }
                true
            },
            None => false,
        }
    }
}

impl StrokeView {
    /// The smallest coordinate along an axis among the first `n` samples.
    pub open spec fn low(self, axis: int, n: int) -> int
        decreases n,
    {
        if n <= 1 {
            self.points[0][axis] as int
        } else {
            geometry::min(self.low(axis, n - 1), self.points[n - 1][axis] as int)
        }
    }

    /// The largest coordinate along an axis among the first `n` samples.
    pub open spec fn high(self, axis: int, n: int) -> int
        decreases n,
    {
        if n <= 1 {
            self.points[0][axis] as int
        } else {
            geometry::max(self.high(axis, n - 1), self.points[n - 1][axis] as int)
        }
    }

    /// The box around the samples, grown by half the width and one pixel for the
    /// anti-aliasing edge.
    pub open spec fn bounds(self) -> Option<Rect> {
        let n = self.points.len() as int;
        if n == 0 {
            None
        } else {
            let (x0, y0) = (self.low(0, n), self.low(1, n));
            let core = Rect {
                x: (PARTS * x0) as i128,
                y: (PARTS * y0) as i128,
                w: (PARTS * (self.high(0, n) - x0)) as i128,
                h: (PARTS * (self.high(1, n) - y0)) as i128,
            };
            Some(core.outset(HALF * self.width + RECT_PX))
        }
    }
}

impl Stroke {
    /// Axis-aligned box of the drawn geometry, stroke width and the anti-aliasing edge
    /// included. `None` when there is no sample to draw.
    pub fn bounds(&self) -> (r: Option<Rect>)
        ensures
            r == self@.bounds(),
            r is Some ==> r->0.in_range(),
    {
        if self.points.len() == 0 {
            return None;
        }
        let first: [i32; 2] = self.points[0];
        let (mut x0, mut y0, mut x1, mut y1): (i32, i32, i32, i32) = (
            first[0],
            first[1],
            first[0],
            first[1],
        );
        let mut n: usize = 1;
        while n < self.points.len()
            invariant
                1 <= n <= self.points.len(),
                x0 == self@.low(0, n as int),
                y0 == self@.low(1, n as int),
                x1 == self@.high(0, n as int),
                y1 == self@.high(1, n as int),
            decreases self.points.len() - n,
        {
            let p: [i32; 2] = self.points[n];
            if p[0] < x0 {
                x0 = p[0];
            }
            if p[1] < y0 {
                y0 = p[1];
            }
            if p[0] > x1 {
                x1 = p[0];
            }
            if p[1] > y1 {
                y1 = p[1];
            }
            n = n + 1;
        }
        let core = Rect {
            x: PARTS * x0 as i128,
            y: PARTS * y0 as i128,
            w: PARTS * (x1 as i128 - x0 as i128),
            h: PARTS * (y1 as i128 - y0 as i128),
        };
        Some(core.grown(HALF * self.width as i128 + RECT_PX))
    }
}

impl TextItemView {
    /// Number of lines, at least 1.
    pub open spec fn line_count(self) -> int {
        geometry::max(1, text::lines_of(self.text).len() as int)
    }

    /// Characters in the longest line, at least 1.
    pub open spec fn char_count(self) -> int {
        geometry::max(1, text::longest(text::lines_of(self.text)) as int)
    }

    /// The box the eraser goes by: 0.6 em wide per character and 1.2 em high per line.
    pub open spec fn bounds(self) -> Rect {
        Rect {
            x: (PARTS * self.x) as i128,
            y: (PARTS * self.y) as i128,
            w: (FIFTH * (3 * (self.size * self.char_count()))) as i128,
            h: (FIFTH * (6 * (self.size * self.line_count()))) as i128,
        }
    }

    /// The box the renderer stays within: 1 em wide per character and 1.2 em high per line,
    /// with half an em of margin.
    pub open spec fn paint_bounds(self) -> Rect {
        let core = Rect {
            x: (PARTS * self.x) as i128,
            y: (PARTS * self.y) as i128,
            w: (PARTS * (self.size * self.char_count())) as i128,
            h: (FIFTH * (6 * (self.size * self.line_count()))) as i128,
        };
        core.outset(HALF * self.size)
    }
}

impl Clone for Stroke {
    fn clone(&self) -> (r: Stroke)
        ensures
            r@ == self@,
    {
        let mut points: Vec<[i32; 2]> = Vec::new();
        let mut n: usize = 0;
        while n < self.points.len()
            invariant
                n <= self.points.len(),
                points@ == self.points@.take(n as int),
            decreases self.points.len() - n,
        {
            points.push(self.points[n]);
            n = n + 1;
        }
        Stroke { color: self.color.clone(), width: self.width, points }
    }
}

impl Clone for TextItem {
    fn clone(&self) -> (r: TextItem)
        ensures
            r@ == self@,
    {
        TextItem {
            x: self.x,
            y: self.y,
            color: self.color.clone(),
            size: self.size,
            text: self.text.clone(),
        }
    }
}

proof fn lemma_extent_fits(size: u32, count: usize)
    ensures
        0 <= size * count <= 0xffff_ffff * 0xffff_ffff_ffff_ffff,
{
    assert(0 <= size * count <= 0xffff_ffff * 0xffff_ffff_ffff_ffff) by (nonlinear_arith)
        requires
            0 <= size <= 0xffff_ffff,
            0 <= count <= 0xffff_ffff_ffff_ffff,
    ;
}

impl TextItem {
    /// The eraser's box, estimated from the font size: 0.6 em per character wide, 1.2 em per
    /// line high.
    pub fn bounds(&self) -> (r: Rect)
        ensures
            r == self@.bounds(),
            r.in_range(),
    {
        let (lines, chars): (usize, usize) = text_extent(&self.text);
        proof {
            lemma_extent_fits(self.size, lines);
            lemma_extent_fits(self.size, chars);
        }
        let wide: i128 = self.size as i128 * chars as i128;
        let high: i128 = self.size as i128 * lines as i128;
        Rect {
            x: PARTS * self.x as i128,
            y: PARTS * self.y as i128,
            w: FIFTH * (3 * wide),
            h: FIFTH * (6 * high),
        }
    }

    /// Conservative box of everything the renderer can paint for this item. `bounds()` is
    /// tuned for the eraser and is too narrow for wide glyphs such as CJK, but a damaged
    /// frame may never paint outside the box it declared, so this one errs wide.
    pub fn paint_bounds(&self) -> (r: Rect)
        ensures
            r == self@.paint_bounds(),
            r.in_range(),
    {
        let (lines, chars): (usize, usize) = text_extent(&self.text);
        proof {
            lemma_extent_fits(self.size, lines);
            lemma_extent_fits(self.size, chars);
        }
        let wide: i128 = self.size as i128 * chars as i128;
        let high: i128 = self.size as i128 * lines as i128;
        let core = Rect {
            x: PARTS * self.x as i128,
            y: PARTS * self.y as i128,
            w: PARTS * wide,
            h: FIFTH * (6 * high),
        };
        core.grown(HALF * self.size as i128)
    }
}

/// The box the renderer paints a text box within covers the box the eraser goes by.
pub proof fn painting_covers_the_eraser_box(t: TextItemView)
    requires
        PARTS * (t.size * t.char_count()) < geometry::REACH,
        PARTS * (t.size * t.line_count()) < geometry::REACH,
    ensures
        t.paint_bounds().covers(t.bounds()),
{
    let (w, h) = (t.size * t.char_count(), t.size * t.line_count());
    assert(w >= 0 && h >= 0) by (nonlinear_arith)
        requires
            w == t.size * t.char_count(),
            h == t.size * t.line_count(),
            t.char_count() >= 1,
            t.line_count() >= 1,
            t.size >= 0,
    ;
}

/// The text box that is found is the first one that holds the point.
pub proof fn lemma_text_at(a: AnnotationsView, x: int, y: int, from: int)
    requires
        0 <= from <= a.texts.len(),
    ensures
        a.text_at(x, y, from) matches Some(i) ==> from <= i < a.texts.len()
            && a.texts[i].bounds().holds(x, y) && forall|j: int|
            from <= j < i ==> !(#[trigger] a.texts[j]).bounds().holds(x, y),
        a.text_at(x, y, from) is None ==> forall|j: int|
            from <= j < a.texts.len() ==> !(#[trigger] a.texts[j]).bounds().holds(x, y),
    decreases a.texts.len() - from,
{
    if from < a.texts.len() && !a.texts[from].bounds().holds(x, y) {
        lemma_text_at(a, x, y, from + 1);
    }
}

proof fn lemma_nearest_stroke(a: AnnotationsView, x: i32, y: i32, n: int)
    requires
        0 <= n <= a.strokes.len(),
    ensures
        a.nearest_stroke(x, y, n) matches Some(i) ==> {
            &&& 0 <= i < n
            &&& a.reaches(x, y, i)
            &&& forall|j: int| 0 <= j < n && #[trigger] a.reaches(x, y, j) ==> !a.nearer(x, y, j, i)
            &&& forall|j: int| 0 <= j < i && #[trigger] a.reaches(x, y, j) ==> a.nearer(x, y, i, j)
        },
        a.nearest_stroke(x, y, n) is None ==> forall|j: int|
            0 <= j < n ==> !#[trigger] a.reaches(x, y, j),
    decreases n,
{
    if n > 0 {
        lemma_nearest_stroke(a, x, y, n - 1);
        let best = a.nearest_stroke(x, y, n - 1);
        distance::lemma_polyline_distance_valid(a.strokes[n - 1].points, [x, y]);
        let last = distance::polyline_distance(a.strokes[n - 1].points, [x, y]);
        if a.reaches(x, y, n - 1) && best is Some && a.nearer(x, y, n - 1, best->0) {
            distance::lemma_polyline_distance_valid(a.strokes[best->0].points, [x, y]);
            let b = distance::polyline_distance(a.strokes[best->0].points, [x, y])->0;
            assert forall|j: int| 0 <= j < n - 1 && #[trigger] a.reaches(x, y, j) implies a.nearer(
                x,
                y,
                n - 1,
                j,
            ) && !a.nearer(x, y, j, n - 1) by {
                distance::lemma_polyline_distance_valid(a.strokes[j].points, [x, y]);
                let d = distance::polyline_distance(a.strokes[j].points, [x, y])->0;
                distance::lemma_below_is_an_order(last->0, b, d);
            }
        }
        if last is Some {
            distance::lemma_below_is_an_order(last->0, last->0, last->0);
        }
    }
}

/// Where the eraser hits a stroke, no text box holds the point, the stroke is within reach, and
/// no stroke within reach is nearer; of equally near ones it is the first.
pub proof fn a_hit_stroke_is_the_nearest(a: OutputAnnotations, x: i32, y: i32, i: usize)
    requires
        a@.hit(x, y) == Some(ItemId::Stroke(i)),
    ensures
        i < a.strokes.len(),
        forall|j: int|
            0 <= j < a@.texts.len() ==> !(#[trigger] a@.texts[j]).bounds().holds(x as int, y as int),
        a@.reaches(x, y, i as int),
        forall|j: int|
            0 <= j < a@.strokes.len() && #[trigger] a@.reaches(x, y, j) ==> !a@.nearer(
                x,
                y,
                j,
                i as int,
            ),
        forall|j: int|
            0 <= j < i && #[trigger] a@.reaches(x, y, j) ==> a@.nearer(x, y, i as int, j),
{
    lemma_text_at(a@, x as int, y as int, 0);
    lemma_nearest_stroke(a@, x, y, a@.strokes.len() as int);
}

/// Text boxes win over strokes: a point in a text box hits the first such box, whatever strokes
/// are near.
pub proof fn text_boxes_win_over_strokes(a: OutputAnnotations, x: i32, y: i32, i: int)
    requires
        0 <= i < a.texts.len(),
        a@.texts[i].bounds().holds(x as int, y as int),
    ensures
        a@.hit(x, y) matches Some(ItemId::Text(j)) && j <= i && a@.texts[j as int].bounds().holds(
            x as int,
            y as int,
        ),
{
    lemma_text_at(a@, x as int, y as int, 0);
}

/// The eraser hits nothing exactly where no text box holds the point and no stroke is in reach.
pub proof fn a_miss_means_nothing_is_near(a: OutputAnnotations, x: i32, y: i32)
    ensures
        a@.hit(x, y) is None <==> (forall|j: int|
            0 <= j < a@.texts.len() ==> !(#[trigger] a@.texts[j]).bounds().holds(x as int, y as int))
            && (forall|j: int| 0 <= j < a@.strokes.len() ==> !#[trigger] a@.reaches(x, y, j)),
{
    lemma_text_at(a@, x as int, y as int, 0);
    lemma_nearest_stroke(a@, x, y, a@.strokes.len() as int);
}

/// Erasing takes at most one item away and keeps the order of the others; where nothing is hit,
/// nothing changes.
pub proof fn erasing_removes_only_the_hit_item(a: OutputAnnotations, x: i32, y: i32)
    ensures
        a@.hit(x, y) is None ==> a@.erased(x, y) == a@,
        a@.hit(x, y) matches Some(ItemId::Stroke(i)) ==> i < a.strokes.len() && a@.erased(x, y)
            == (AnnotationsView { strokes: a@.strokes.remove(i as int), texts: a@.texts }),
        a@.hit(x, y) matches Some(ItemId::Text(i)) ==> i < a.texts.len() && a@.erased(x, y) == (
        AnnotationsView { strokes: a@.strokes, texts: a@.texts.remove(i as int) }),
{
    lemma_text_at(a@, x as int, y as int, 0);
    lemma_nearest_stroke(a@, x, y, a@.strokes.len() as int);
}

/// There is nothing to erase where there are no annotations, wherever the eraser is.
pub proof fn nothing_is_erased_from_nothing(x: i32, y: i32)
    ensures
        AnnotationsView::none().hit(x, y) is None,
        AnnotationsView::none().erased(x, y) == AnnotationsView::none(),
{
}

/// The rectangle surrounds a sample of a stroke with half the stroke's width and a pixel on every
/// side.
pub open spec fn surrounds(r: Rect, p: [i32; 2], width: u32) -> bool {
    let reach = 2520 * width + 1_290_240;
    &&& r.x <= 5040 * p[0] - reach
    &&& r.y <= 5040 * p[1] - reach
    &&& 5040 * p[0] + reach <= r.x + r.w
    &&& 5040 * p[1] + reach <= r.y + r.h
}

proof fn lemma_low_and_high(s: StrokeView, axis: int, n: int, j: int)
    requires
        0 <= axis < 2,
        1 <= n <= s.points.len(),
        0 <= j < n,
    ensures
        i32::MIN <= s.low(axis, n) <= s.points[j][axis] <= s.high(axis, n) <= i32::MAX,
        exists|i: int| 0 <= i < n && #[trigger] s.points[i][axis] == s.low(axis, n),
        exists|i: int| 0 <= i < n && #[trigger] s.points[i][axis] == s.high(axis, n),
    decreases n,
{
    if n == 1 {
        assert(s.points[0][axis] == s.low(axis, n));
        assert(s.points[0][axis] == s.high(axis, n));
    } else {
        let k = if j < n - 1 { j } else { 0 };
        lemma_low_and_high(s, axis, n - 1, k);
        let a = choose|i: int| 0 <= i < n - 1 && #[trigger] s.points[i][axis] == s.low(axis, n - 1);
        let b = choose|i: int|
            0 <= i < n - 1 && #[trigger] s.points[i][axis] == s.high(axis, n - 1);
        let last = s.points[n - 1][axis];
        assert(s.points[a][axis] == s.low(axis, n - 1));
        assert(s.points[b][axis] == s.high(axis, n - 1));
        assert(last == s.low(axis, n) || s.points[a][axis] == s.low(axis, n));
        assert(last == s.high(axis, n) || s.points[b][axis] == s.high(axis, n));
    }
}

/// A stroke's box surrounds every one of its samples, and no smaller box does. A stroke has a box
/// exactly where it has a sample.
pub proof fn a_stroke_box_is_the_least_around_its_samples(s: StrokeView, c: Rect)
    ensures
        s.bounds() is Some <==> s.points.len() > 0,
        s.bounds() matches Some(b) ==> forall|i: int|
            0 <= i < s.points.len() ==> surrounds(b, #[trigger] s.points[i], s.width),
        s.bounds() matches Some(b) ==> (forall|i: int|
            0 <= i < s.points.len() ==> surrounds(c, #[trigger] s.points[i], s.width)) ==> (c.x
            <= b.x && c.y <= b.y && b.x + b.w <= c.x + c.w && b.y + b.h <= c.y + c.h),
{
    let n = s.points.len() as int;
    if n > 0 {
        let b = s.bounds()->0;
        lemma_low_and_high(s, 0, n, 0);
        lemma_low_and_high(s, 1, n, 0);
        assert forall|i: int| 0 <= i < n implies surrounds(b, #[trigger] s.points[i], s.width) by {
            lemma_low_and_high(s, 0, n, i);
            lemma_low_and_high(s, 1, n, i);
        }
        if forall|i: int| 0 <= i < n ==> surrounds(c, #[trigger] s.points[i], s.width) {
            let left = choose|i: int| 0 <= i < n && #[trigger] s.points[i][0] == s.low(0, n);
            let top = choose|i: int| 0 <= i < n && #[trigger] s.points[i][1] == s.low(1, n);
            let right = choose|i: int| 0 <= i < n && #[trigger] s.points[i][0] == s.high(0, n);
            let bottom = choose|i: int| 0 <= i < n && #[trigger] s.points[i][1] == s.high(1, n);
            assert(surrounds(c, s.points[left], s.width));
            assert(surrounds(c, s.points[top], s.width));
            assert(surrounds(c, s.points[right], s.width));
            assert(surrounds(c, s.points[bottom], s.width));
        }
    }
}

/// Where the eraser hits a stroke, some point of that stroke is within 8 pixels of it, which is
/// 2048 units, and no farther than any point of any stroke; it is nearer than every point of the
/// strokes before.
pub proof fn no_stroke_is_nearer_than_the_hit_one(
    a: OutputAnnotations,
    eraser: [i32; 2],
    i: usize,
    j: int,
    h: int,
    k: int,
    m: int,
)
    requires
        a@.hit(eraser[0], eraser[1]) == Some(ItemId::Stroke(i)),
        0 <= j < a@.strokes.len(),
        distance::has_segment(a@.strokes[j].points, h),
        0 <= k <= m,
        m > 0,
    ensures
        i < a@.strokes.len(),
        exists|g: int, e: int, n: int|
            #![trigger distance::offset_squared(
                eraser,
                a@.strokes[i as int].points[g],
                distance::segment_end(a@.strokes[i as int].points, g),
                e,
                n,
            )]
            {
                let (hit, other) = (a@.strokes[i as int].points, a@.strokes[j].points);
                let near = distance::offset_squared(
                    eraser,
                    hit[g],
                    distance::segment_end(hit, g),
                    e,
                    n,
                );
                let far = distance::offset_squared(
                    eraser,
                    other[h],
                    distance::segment_end(other, h),
                    k,
                    m,
                );
                &&& distance::has_segment(hit, g)
                &&& 0 <= e <= n
                &&& n > 0
                &&& near <= 4_194_304 * (n * n)
                &&& near * (m * m) <= far * (n * n)
                &&& j < i ==> near * (m * m) < far * (n * n)
            },
{
    let (x, y) = (eraser[0], eraser[1]);
    let p = [x, y];
    assert(p =~= eraser);
    a_hit_stroke_is_the_nearest(a, x, y, i);
    let (hit, other) = (a@.strokes[i as int].points, a@.strokes[j].points);
    assert(a@.reaches(x, y, i as int));
    assert(hit.len() > 0);
    distance::the_polyline_distance_is_the_least(hit, p, 0, 0, 1);
    distance::the_polyline_distance_is_the_least(other, p, h, k, m);
    let d = distance::polyline_distance(hit, p)->0;
    let e = distance::polyline_distance(other, p)->0;
    let (g, t, n) = choose|g: int, t: int, n: int|
        distance::has_segment(hit, g) && #[trigger] distance::is_the_distance(
            d,
            p,
            hit[g],
            distance::segment_end(hit, g),
            t,
            n,
        );
    if a@.reaches(x, y, j) {
        assert(!a@.nearer(x, y, j, i as int));
        assert(j < i ==> a@.nearer(x, y, i as int, j));
    } else {
        distance::lemma_limits_order(d, e, ERASER_LIMIT as int);
        distance::lemma_below_is_an_order(d, e, e);
        assert(d.below(e));
    }
    distance::lemma_as_near(
        d,
        e,
        p,
        hit[g],
        distance::segment_end(hit, g),
        t,
        n,
        other[h],
        distance::segment_end(other, h),
        k,
        m,
    );
    distance::lemma_within(
        d,
        ERASER_LIMIT as int,
        p,
        hit[g],
        distance::segment_end(hit, g),
        t,
        n,
    );
    let near = distance::offset_squared(p, hit[g], distance::segment_end(hit, g), t, n);
    assert(near <= 4_194_304 * (n * n));
    assert(distance::as_near(
        p,
        hit[g],
        distance::segment_end(hit, g),
        t,
        n,
        other[h],
        distance::segment_end(other, h),
        k,
        m,
    ));
}

/// A stroke with a point within 8 pixels of the eraser is enough for the eraser to hit something,
/// and without a text box under it the eraser hits a stroke.
pub proof fn a_stroke_within_reach_is_hit(
    a: OutputAnnotations,
    x: i32,
    y: i32,
    j: int,
    h: int,
    k: int,
    m: int,
)
    requires
        0 <= j < a@.strokes.len(),
        distance::has_segment(a@.strokes[j].points, h),
        0 <= k <= m,
        m > 0,
        distance::offset_squared(
            [x, y],
            a@.strokes[j].points[h],
            distance::segment_end(a@.strokes[j].points, h),
            k,
            m,
        ) <= 4_194_304 * (m * m),
    ensures
        a@.hit(x, y) is Some,
        (forall|t: int|
            0 <= t < a@.texts.len() ==> !(#[trigger] a@.texts[t]).bounds().holds(
                x as int,
                y as int,
            )) ==> a@.hit(x, y)->0 is Stroke,
{
    let points = a@.strokes[j].points;
    distance::the_polyline_distance_is_the_least(points, [x, y], h, k, m);
    distance::lemma_within(
        distance::polyline_distance(points, [x, y])->0,
        ERASER_LIMIT as int,
        [x, y],
        points[h],
        distance::segment_end(points, h),
        k,
        m,
    );
    assert(a@.reaches(x, y, j));
    a_miss_means_nothing_is_near(a, x, y);
    lemma_text_at(a@, x as int, y as int, 0);
}

proof fn lemma_view_extent_fits(t: TextItemView)
    requires
        t.text.len() <= usize::MAX,
    ensures
        t.bounds().x == 5040 * t.x,
        t.bounds().y == 5040 * t.y,
        t.bounds().w == 3024 * (t.size * t.char_count()),
        t.bounds().h == 6048 * (t.size * t.line_count()),
{
    text::lemma_lines_fit(t.text);
    lemma_extent_fits(t.size, t.char_count() as usize);
    lemma_extent_fits(t.size, t.line_count() as usize);
}

/// A text box that the eraser hits lies under it: the point is no further right of the box's
/// corner than 0.6 em for each character of its longest line, no further down than 1.2 em for
/// each line, and neither left of the corner nor above it. No text box before it does.
pub proof fn a_hit_text_box_lies_under_the_eraser(a: OutputAnnotations, x: i32, y: i32, i: usize)
    requires
        a@.hit(x, y) == Some(ItemId::Text(i)),
        forall|j: int| 0 <= j < a@.texts.len() ==> (#[trigger] a@.texts[j]).text.len() <= usize::MAX,
    ensures
        i < a@.texts.len(),
        ({
            let t = a@.texts[i as int];
            &&& 0 <= x - t.x
            &&& 0 <= y - t.y
            &&& 5 * (x - t.x) <= 3 * (t.size * t.char_count())
            &&& 5 * (y - t.y) <= 6 * (t.size * t.line_count())
        }),
        forall|j: int|
            0 <= j < i ==> !(#[trigger] a@.texts[j]).bounds().holds(x as int, y as int),
{
    lemma_text_at(a@, x as int, y as int, 0);
    assert(a@.texts.len() == a.texts.len());
    assert(a@.texts[i as int].text.len() <= usize::MAX);
    lemma_view_extent_fits(a@.texts[i as int]);
}

/// A point inside a text box's extent is in the box, so the eraser hits a text box there.
pub proof fn a_text_box_under_the_eraser_is_hit(a: OutputAnnotations, x: i32, y: i32, i: int)
    requires
        0 <= i < a@.texts.len(),
        a@.texts[i].text.len() <= usize::MAX,
        ({
            let t = a@.texts[i];
            &&& 0 <= x - t.x
            &&& 0 <= y - t.y
            &&& 5 * (x - t.x) <= 3 * (t.size * t.char_count())
            &&& 5 * (y - t.y) <= 6 * (t.size * t.line_count())
        }),
    ensures
        a@.hit(x, y) is Some,
        a@.hit(x, y)->0 is Text,
        a@.hit(x, y)->0->Text_0 <= i,
{
    lemma_view_extent_fits(a@.texts[i]);
    text_boxes_win_over_strokes(a, x, y, i);
}

/// A text box is painted within half an em of the box that starts at its corner and is an em wide
/// for each character of its longest line and 1.2 em high for each line, and it is erased within
/// 0.6 em for each of those characters. An empty text, and an empty longest line, count as one.
pub proof fn a_text_box_has_room_for_its_lines(t: TextItemView, i: int)
    requires
        PARTS * (t.size * t.char_count()) < geometry::REACH,
        PARTS * (t.size * t.line_count()) < geometry::REACH,
    ensures
        ({
            let (n, m) = (t.char_count(), t.line_count());
            let lines = text::lines_of(t.text);
            let (p, b) = (t.paint_bounds(), t.bounds());
            &&& n >= 1 && m >= 1
            &&& 0 <= i < lines.len() ==> lines[i].len() <= n
            &&& n > 1 ==> exists|j: int| 0 <= j < lines.len() && (#[trigger] lines[j]).len() == n
            &&& lines.len() > 0 ==> m == lines.len()
            &&& lines.len() == 0 ==> m == 1
            &&& p.x == 5040 * t.x - 2520 * t.size
            &&& p.y == 5040 * t.y - 2520 * t.size
            &&& p.x + p.w == 5040 * t.x + 5040 * (t.size * n) + 2520 * t.size
            &&& p.y + p.h == 5040 * t.y + 6048 * (t.size * m) + 2520 * t.size
            &&& b.x == 5040 * t.x && b.y == 5040 * t.y
            &&& b.w == 3024 * (t.size * n)
            &&& b.h == 6048 * (t.size * m)
        }),
{
    text::the_longest_line_is_one_of_them(text::lines_of(t.text));
    let (w, h) = (t.size * t.char_count(), t.size * t.line_count());
    assert(w >= 0 && h >= 0) by (nonlinear_arith)
        requires
            w == t.size * t.char_count(),
            h == t.size * t.line_count(),
            t.char_count() >= 1,
            t.line_count() >= 1,
            t.size >= 0,
    ;
}

} // verus!
