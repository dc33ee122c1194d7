//! What part of a frame has to be repainted.

use vstd::prelude::*;

use crate::canvas;
use crate::canvas::{AnnotationsView, OutputAnnotations};
use crate::geometry::{Rect, HALF, PARTS, REACH};
use crate::layout::{CacheView, TextLayoutCache};
use crate::overlay::{Overlay, OverlayView};

verus! {

/// Radius of the eraser marker circle: 8 logical pixels.
pub const ERASER_MARKER_RADIUS: i128 = 2048;

/// How far the eraser marker's line and its anti-aliasing edge reach past the circle.
pub const ERASER_MARKER_EDGE: i128 = 512;

/// Top edge of the hint capsule: 16 logical pixels.
pub const HINT_TOP: i128 = 4096;

/// Height of the hint capsule: 34 logical pixels.
pub const HINT_HEIGHT: i128 = 8704;

/// Width of a hairline: 1 logical pixel.
pub const HINT_HAIRLINE: i128 = 256;

/// The strip around the capsule with its edge: where it starts, and its height: 15 and 36 logical
/// pixels.
pub const HINT_STRIP_TOP: i128 = 3840;
pub const HINT_STRIP_HEIGHT: i128 = 9216;

/// Widest capsule the damage accounting reserves room for: 720 logical pixels. It keeps the
/// reserved box a centred strip instead of the full width of the output: a full-width strip
/// joined with a grown drawing box covers nearly the whole surface and the fast path disappears.
pub const HINT_RESERVE: u64 = 184_320;

/// Everything the hint paints, in device pixels, on a surface that is `width` wide in 1/256 of
/// them: a strip of the reserved width, or of the whole width where that is less, centred. At
/// scale 1 these are logical pixels.
pub open spec fn hint_box(width: u64, scale: u32) -> Rect {
    let most = HINT_RESERVE * scale;
    let reserved = if width < most { width as int } else { most };
    Rect {
        x: (HALF * (width - reserved)) as i128,
        y: (PARTS * (HINT_STRIP_TOP * scale)) as i128,
        w: (PARTS * reserved) as i128,
        h: (PARTS * (HINT_STRIP_HEIGHT * scale)) as i128,
    }
}

/// Everything the hint paints, in device pixels. The capsule is centred and its width depends on
/// the font, so the damage accounting reserves a centred box of the widest capsule that will be
/// built.
pub fn hint_bounds(width: u64, scale: u32) -> (r: Rect)
    ensures
        r == hint_box(width, scale),
        r.in_range(),
        -HINT_BOUND <= r.x <= HINT_BOUND,
        -HINT_BOUND <= r.y <= HINT_BOUND,
        -HINT_BOUND <= r.right() <= HINT_BOUND,
        -HINT_BOUND <= r.bottom() <= HINT_BOUND,
{
    proof {
        let reserve = HINT_RESERVE;
        assert(0 <= reserve * scale <= 184_320 * 0xffff_ffff) by (nonlinear_arith)
            requires
                reserve == 184_320,
                0 <= scale <= 0xffff_ffff,
        ;
    }
    let most: i128 = HINT_RESERVE as i128 * scale as i128;
    let reserved: i128 = if (width as i128) < most { width as i128 } else { most };
    Rect {
        x: HALF * (width as i128 - reserved),
        y: PARTS * (HINT_STRIP_TOP * scale as i128),
        w: PARTS * reserved,
        h: PARTS * (HINT_STRIP_HEIGHT * scale as i128),
    }
}

/// No edge of the hint's box lies further from the origin.
pub const HINT_BOUND: i128 = 0x1_0000_0000_0000_0000_0000;

/// The box around the stroke in progress and the eraser marker.
pub open spec fn transient_box(o: OverlayView) -> Option<Rect> {
    let stroke = match o.stroke {
        Some(s) => s.bounds(),
        None => None,
    };
    let eraser = match o.eraser {
        Some(p) => {
            let point = Rect {
                x: (PARTS * p[0]) as i128,
                y: (PARTS * p[1]) as i128,
                w: 0,
                h: 0,
            };
            Some(point.outset(PARTS * (ERASER_MARKER_RADIUS + ERASER_MARKER_EDGE)))
        },
        None => None,
    };
    match (stroke, eraser) {
        (Some(a), Some(b)) => Some(a.joined(b)),
        (Some(a), None) => Some(a),
        (None, b) => b,
    }
}

/// Bounding box of the transient overlay elements of a frame: the in-progress stroke and the
/// eraser marker. `None` when the overlay draws neither.
pub fn transient_bounds(overlay: &Overlay) -> (r: Option<Rect>)
    ensures
        r == transient_box(overlay@),
        r is Some ==> r->0.in_range(),
{
    let stroke: Option<Rect> = match &overlay.stroke {
        Some(s) => s.bounds(),
        None => None,
    };
    let eraser: Option<Rect> = match overlay.eraser {
        Some(p) => {
            let (x, y): (i32, i32) = (p[0], p[1]);
            let point = Rect { x: PARTS * x as i128, y: PARTS * y as i128, w: 0, h: 0 };
            let b: Rect = point.grown(PARTS * (ERASER_MARKER_RADIUS + ERASER_MARKER_EDGE));
            proof {
                assert(PARTS * (ERASER_MARKER_RADIUS + ERASER_MARKER_EDGE) == 12_902_400);
                assert(b.in_range());
            }
            Some(b)
        },
        None => None,
    };
    match (stroke, eraser) {
        (Some(a), Some(b)) => Some(a.union(b)),
        (Some(a), None) => Some(a),
        (None, b) => b,
    }
}

/// The boxes of everything a frame may paint besides the transient elements: the strokes and
/// the text boxes of the document, the text box being edited, and the hint.
#[verifier::ext_equal]
pub struct DrawnBoxes {
    pub strokes: Seq<Option<Rect>>,
    pub texts: Seq<Rect>,
    pub edit: Option<Rect>,
    pub hint: Option<Rect>,
}

/// Where an element reaches into the box, the box covers the element.
pub open spec fn covers_if_reached(damage: Rect, element: Option<Rect>) -> bool {
    element is Some && element->0.overlaps(damage) ==> damage.covers(element->0)
}

impl DrawnBoxes {
    /// Nothing that reaches into the box sticks out of it.
    pub open spec fn settled(self, damage: Rect) -> bool {
        &&& forall|i: int|
            0 <= i < self.strokes.len() ==> covers_if_reached(damage, #[trigger] self.strokes[i])
        &&& forall|i: int|
            0 <= i < self.texts.len() ==> covers_if_reached(damage, Some(#[trigger] self.texts[i]))
        &&& covers_if_reached(damage, self.edit)
        &&& covers_if_reached(damage, self.hint)
    }

    /// The box is the smallest one that covers `from` and that nothing sticks out of.
    pub open spec fn least_settled(self, from: Rect, damage: Rect) -> bool {
        &&& damage.covers(from)
        &&& self.settled(damage)
        &&& forall|c: Rect| c.covers(from) && #[trigger] self.settled(c) ==> c.covers(damage)
    }
}

/// The boxes a frame is accounted with: the strokes' and text boxes' own, as estimated.
pub open spec fn drawn_boxes(a: AnnotationsView, o: OverlayView, width: u64) -> DrawnBoxes {
    DrawnBoxes {
        strokes: Seq::new(a.strokes.len(), |i: int| a.strokes[i].bounds()),
        texts: Seq::new(a.texts.len(), |i: int| a.texts[i].paint_bounds()),
        edit: match o.text {
            Some(t) => Some(t.item.paint_bounds()),
            None => None,
        },
        hint: if o.hint is Some { Some(hint_box(width, 1)) } else { None },
    }
}

/// The boxes a frame is accounted with where earlier frames left measured ones.
pub open spec fn cached_boxes<L>(
    a: AnnotationsView,
    o: OverlayView,
    width: u64,
    cache: CacheView<L>,
) -> DrawnBoxes {
    DrawnBoxes {
        strokes: Seq::new(a.strokes.len(), |i: int| cache.stroke_box(i, a.strokes[i])),
        texts: Seq::new(a.texts.len(), |i: int| cache.text_box(i, a.texts[i])),
        ..drawn_boxes(a, o, width)
    }
}

/// The damage joined with an element that reaches into it.
fn take_in(damage: Rect, element: Rect) -> (r: Rect)
    requires
        damage.in_range(),
        element.in_range(),
    ensures
        r.in_range(),
        r.covers(damage),
        r == damage ==> covers_if_reached(damage, Some(element)),
        forall|c: Rect|
            c.covers(damage) && #[trigger] covers_if_reached(c, Some(element)) ==> c.covers(r),
{
    if element.intersects(damage) {
        damage.union(element)
    } else {
        damage
    }
}

/// Damage box for a bounding-box frame: `from` grown until it contains every element the
/// renderer will paint inside it. Painting outside the box is not allowed, because those bytes
/// still hold the previous frame's pixels; the renderer culls the elements left outside, which
/// is why they may keep those pixels. `width` is that of the surface.
pub fn damage_box(ann: &OutputAnnotations, overlay: &Overlay, from: Rect, width: u64) -> (r: Rect)
    requires
        from.in_range(),
    ensures
        r.in_range(),
        drawn_boxes(ann@, overlay@, width).least_settled(from, r),
{
    let mut cache: TextLayoutCache<()> = TextLayoutCache::new();
    proof {
        a_cold_cache_changes_nothing(ann@, overlay@, width, cache@.synced(
            ann@.strokes.len(),
            ann@.texts.len(),
            1,
        ));
    }
    damage_box_with_cache(ann, overlay, from, width, 1, &mut cache)
}

/// The damage box, accounted with the measured boxes that earlier frames left in the cache.
pub fn damage_box_with_cache<L>(
    ann: &OutputAnnotations,
    overlay: &Overlay,
    from: Rect,
    width: u64,
    scale: u32,
    cache: &mut TextLayoutCache<L>,
) -> (r: Rect)
    requires
        from.in_range(),
        old(cache)@.wf(),
    ensures
        r.in_range(),
        cached_boxes(
            ann@,
            overlay@,
            width,
            old(cache)@.synced(ann@.strokes.len(), ann@.texts.len(), scale),
        ).least_settled(from, r),
        final(cache)@.wf(),
        final(cache)@ == (CacheView {
            stroke_bounds: cached_boxes(
                ann@,
                overlay@,
                width,
                old(cache)@.synced(ann@.strokes.len(), ann@.texts.len(), scale),
            ).strokes,
            ..old(cache)@.synced(ann@.strokes.len(), ann@.texts.len(), scale)
        }),
{
    cache.sync(ann.strokes.len(), ann.texts.len(), scale);
    let ghost start = cache@;
    let ghost boxes = cached_boxes(ann@, overlay@, width, start);
    let mut damage = from;
    loop
        invariant
            cache@.wf(),
            cache@.scale == scale,
            cache@.entries == start.entries,
            cache@.stroke_bounds.len() == ann@.strokes.len(),
            boxes == cached_boxes(ann@, overlay@, width, start),
            forall|j: int|
                0 <= j < ann@.strokes.len() ==> #[trigger] cache@.stroke_box(j, ann@.strokes[j])
                    == boxes.strokes[j],
            damage.in_range(),
            damage.covers(from),
            forall|c: Rect| c.covers(from) && #[trigger] boxes.settled(c) ==> c.covers(damage),
        ensures
            damage.in_range(),
            boxes.least_settled(from, damage),
            cache@.wf(),
            cache@.scale == scale,
            cache@.entries == start.entries,
            cache@.stroke_bounds =~= boxes.strokes,
        decreases 4 * REACH + damage.x + damage.y - damage.right() - damage.bottom(),
    {
        let mut grown = damage;
        let mut i: usize = 0;
        while i < ann.strokes.len()
            invariant
                i <= ann.strokes.len(),
                cache@.wf(),
                cache@.scale == scale,
                cache@.entries == start.entries,
                cache@.stroke_bounds.len() == ann@.strokes.len(),
                boxes == cached_boxes(ann@, overlay@, width, start),
                forall|j: int|
                    0 <= j < ann@.strokes.len() ==> #[trigger] cache@.stroke_box(
                        j,
                        ann@.strokes[j],
                    ) == boxes.strokes[j],
                forall|j: int|
                    0 <= j < i ==> #[trigger] cache@.stroke_bounds[j] == boxes.strokes[j],
                damage.in_range(),
                grown.in_range(),
                grown.covers(damage),
                forall|c: Rect| c.covers(from) && #[trigger] boxes.settled(c) ==> c.covers(grown),
                grown == damage ==> forall|j: int|
                    0 <= j < i ==> covers_if_reached(damage, #[trigger] boxes.strokes[j]),
            decreases ann.strokes.len() - i,
        {
            let ghost before = grown;
            proof {
                assert(ann@.strokes[i as int] == ann.strokes@[i as int]@);
                assert(cache@.stroke_box(i as int, ann@.strokes[i as int])
                    == boxes.strokes[i as int]);
            }
            let ghost asked = cache@;
            let bounds: Option<Rect> = cache.stroke_bounds(i, &ann.strokes[i]);
            proof {
                assert forall|j: int| 0 <= j < ann@.strokes.len() implies #[trigger] cache@.stroke_box(
                    j,
                    ann@.strokes[j],
                ) == boxes.strokes[j] by {
                    assert(asked.stroke_box(j, ann@.strokes[j]) == boxes.strokes[j]);
                }
            }
            if let Some(b) = bounds {
                grown = take_in(grown, b);
                proof {
                    assert(boxes.strokes[i as int] == Some(b));
                    assert forall|c: Rect| c.covers(from) && #[trigger] boxes.settled(c) implies c.covers(
                    grown) by {
                        assert(covers_if_reached(c, boxes.strokes[i as int]));
                    }
                }
            }
            proof {
                assert(grown == damage ==> before == damage);
            }
            i = i + 1;
        }
        let mut k: usize = 0;
        while k < ann.texts.len()
            invariant
                k <= ann.texts.len(),
                cache@.wf(),
                cache@.entries == start.entries,
                boxes == cached_boxes(ann@, overlay@, width, start),
                damage.in_range(),
                grown.in_range(),
                grown.covers(damage),
                forall|c: Rect| c.covers(from) && #[trigger] boxes.settled(c) ==> c.covers(grown),
                grown == damage ==> forall|j: int|
                    0 <= j < ann@.strokes.len() ==> covers_if_reached(
                        damage,
                        #[trigger] boxes.strokes[j],
                    ),
                grown == damage ==> forall|j: int|
                    0 <= j < k ==> covers_if_reached(damage, Some(#[trigger] boxes.texts[j])),
            decreases ann.texts.len() - k,
        {
            let ghost before = grown;
            proof {
                assert(ann@.texts[k as int] == ann.texts@[k as int]@);
            }
            let b: Rect = match cache.text_bounds(k, &ann.texts[k]) {
                Some(b) => b,
                None => ann.texts[k].paint_bounds(),
            };
            grown = take_in(grown, b);
            proof {
                assert(boxes.texts[k as int] == b);
                assert forall|c: Rect| c.covers(from) && #[trigger] boxes.settled(c) implies c.covers(
                grown) by {
                    assert(covers_if_reached(c, Some(boxes.texts[k as int])));
                }
                assert(grown == damage ==> before == damage);
            }
            k = k + 1;
        }
        if let Some(t) = &overlay.text {
            let b: Rect = t.item.paint_bounds();
            let ghost before = grown;
            grown = take_in(grown, b);
            proof {
                assert(boxes.edit == Some(b));
                assert(grown == damage ==> before == damage);
                assert forall|c: Rect| c.covers(from) && #[trigger] boxes.settled(c) implies c.covers(
                grown) by {
                    assert(covers_if_reached(c, boxes.edit));
                }
            }
        }
        // The hint is only repainted when the box grows into it, so the growth has to cover
        // everything the hint paints. Reserving its box unconditionally would join a top strip
        // with a drawing box far below it and swallow nearly the whole surface; the hint itself
        // only changes on a tool, colour or mode switch, and those force a whole-surface frame.
        if overlay.hint.is_some() {
            let b: Rect = hint_bounds(width, 1);
            let ghost before = grown;
            grown = take_in(grown, b);
            proof {
                assert(boxes.hint == Some(b));
                assert(grown == damage ==> before == damage);
                assert forall|c: Rect| c.covers(from) && #[trigger] boxes.settled(c) implies c.covers(
                grown) by {
                    assert(covers_if_reached(c, boxes.hint));
                }
            }
        }
        if grown == damage {
            break;
        }
        damage = grown;
    }
    damage
}

/// Where a cache holds nothing, the boxes are the estimated ones.
pub proof fn a_cold_cache_changes_nothing<L>(
    a: AnnotationsView,
    o: OverlayView,
    width: u64,
    cache: CacheView<L>,
)
    requires
        forall|i: int|
            0 <= i < cache.entries.len() ==> (#[trigger] cache.entries[i]) is None,
        forall|i: int|
            0 <= i < cache.stroke_bounds.len() ==> (#[trigger] cache.stroke_bounds[i]) is None,
    ensures
        cached_boxes(a, o, width, cache) == drawn_boxes(a, o, width),
{
    assert(cached_boxes(a, o, width, cache) =~= drawn_boxes(a, o, width));
}

/// There is only one damage box: two boxes that are both the least settled one are the same.
pub proof fn the_damage_box_is_unique(boxes: DrawnBoxes, from: Rect, a: Rect, b: Rect)
    requires
        a.in_range(),
        b.in_range(),
        boxes.least_settled(from, a),
        boxes.least_settled(from, b),
    ensures
        a == b,
{
    assert(a.covers(b) && b.covers(a));
}

/// A box that nothing reaches into is its own damage box: neither a far stroke nor a far hint
/// widens a drag.
pub proof fn what_is_not_reached_does_not_widen(boxes: DrawnBoxes, from: Rect)
    requires
        forall|i: int|
            0 <= i < boxes.strokes.len() && boxes.strokes[i] is Some ==> !(
            #[trigger] boxes.strokes[i])->0.overlaps(from),
        forall|i: int| 0 <= i < boxes.texts.len() ==> !(#[trigger] boxes.texts[i]).overlaps(from),
        boxes.edit is Some ==> !boxes.edit->0.overlaps(from),
        boxes.hint is Some ==> !boxes.hint->0.overlaps(from),
    ensures
        boxes.least_settled(from, from),
{
}

/// In a frame that repaints only its damage box, an element is either drawn whole inside the
/// box or does not touch it at all.
pub proof fn elements_are_inside_or_apart(boxes: DrawnBoxes, from: Rect, damage: Rect, i: int)
    requires
        boxes.least_settled(from, damage),
    ensures
        0 <= i < boxes.strokes.len() && boxes.strokes[i] is Some ==> damage.covers(
            boxes.strokes[i]->0,
        ) || !boxes.strokes[i]->0.overlaps(damage),
        0 <= i < boxes.texts.len() ==> damage.covers(boxes.texts[i]) || !boxes.texts[i].overlaps(
            damage,
        ),
        boxes.edit is Some ==> damage.covers(boxes.edit->0) || !boxes.edit->0.overlaps(damage),
        boxes.hint is Some ==> damage.covers(boxes.hint->0) || !boxes.hint->0.overlaps(damage),
{
    if 0 <= i < boxes.strokes.len() {
        assert(covers_if_reached(damage, boxes.strokes[i]));
    }
    if 0 <= i < boxes.texts.len() {
        assert(covers_if_reached(damage, Some(boxes.texts[i])));
    }
}

/// The rectangle holds the eraser marker at a point: the circle of 8 pixels, half of its line of
/// 2 pixels, and a pixel for the anti-aliasing edge.
pub open spec fn holds_marker(r: Rect, p: [i32; 2]) -> bool {
    let reach = 10 * 1_290_240;
    &&& r.x <= 5040 * p[0] - reach
    &&& r.y <= 5040 * p[1] - reach
    &&& 5040 * p[0] + reach <= r.x + r.w
    &&& 5040 * p[1] + reach <= r.y + r.h
}

/// The box of what is in progress covers the stroke in progress and the eraser marker, and it is
/// the smallest one that does. There is none exactly where neither is there to draw.
pub proof fn the_transient_box_is_the_least_around_what_moves(o: OverlayView, c: Rect)
    ensures
        transient_box(o) is None <==> (o.eraser is None && (o.stroke is None
            || o.stroke->0.points.len() == 0)),
        transient_box(o) matches Some(b) ==> {
            &&& o.stroke is Some && o.stroke->0.points.len() > 0 ==> forall|i: int|
                0 <= i < o.stroke->0.points.len() ==> canvas::surrounds(
                    b,
                    #[trigger] o.stroke->0.points[i],
                    o.stroke->0.width,
                )
            &&& o.eraser is Some ==> holds_marker(b, o.eraser->0)
            &&& (o.eraser is Some ==> holds_marker(c, o.eraser->0)) && (o.stroke is Some ==> forall|
                i: int,
            |
                0 <= i < o.stroke->0.points.len() ==> canvas::surrounds(
                    c,
                    #[trigger] o.stroke->0.points[i],
                    o.stroke->0.width,
                )) ==> c.x <= b.x && c.y <= b.y && b.x + b.w <= c.x + c.w && b.y + b.h <= c.y + c.h
        },
{
    if o.stroke is Some {
        let s = o.stroke->0;
        canvas::a_stroke_box_is_the_least_around_its_samples(s, c);
        if s.points.len() > 0 {
            let b = s.bounds()->0;
            let joined = transient_box(o)->0;
            lemma_stroke_box_is_small(s);
            assert forall|i: int| 0 <= i < s.points.len() implies canvas::surrounds(
                joined,
                #[trigger] s.points[i],
                s.width,
            ) by {
                assert(canvas::surrounds(b, s.points[i], s.width));
            }
        }
    }
}

proof fn lemma_stroke_box_is_small(s: canvas::StrokeView)
    requires
        s.points.len() > 0,
    ensures
        s.bounds()->0.in_range(),
        s.bounds()->0.w >= 0,
        s.bounds()->0.h >= 0,
{
    let far = Rect {
        x: (-0x1_0000_0000_0000_0000) as i128,
        y: (-0x1_0000_0000_0000_0000) as i128,
        w: 0x2_0000_0000_0000_0000,
        h: 0x2_0000_0000_0000_0000,
    };
    canvas::a_stroke_box_is_the_least_around_its_samples(s, far);
    let b = s.bounds()->0;
    assert(canvas::surrounds(b, s.points[0], s.width));
    assert forall|i: int| 0 <= i < s.points.len() implies canvas::surrounds(
        far,
        #[trigger] s.points[i],
        s.width,
    ) by {}
}

} // verus!
