//! Frame composition: what a frame draws, in which order, and what it leaves alone.
//!
//! A frame is drawn from back to front: the strokes and the text boxes of the document, the
//! stroke in progress, the text box being edited, the hint, and the eraser marker.

use vstd::prelude::*;

use crate::canvas::{AnnotationsView, OutputAnnotations};
use crate::damage;
use crate::geometry;
use crate::geometry::{Rect, REACH};
use crate::overlay::{Overlay, OverlayView};

pub use crate::damage::{
    damage_box, damage_box_with_cache, hint_bounds, transient_bounds, ERASER_MARKER_RADIUS,
};
pub use crate::layout::{CacheView, TextCacheEntry, TextLayoutCache};
pub use crate::paint::{
    blend, blend_within, eraser_marker, parse_hex, rounded_rect_path, smoothed_path, stroke_shape,
};
pub use crate::region::{buffer_format, DamageRegion};

verus! {

/// Whether a box takes part in a frame: in a whole frame everything does, in a frame that
/// repaints a box only what reaches into it.
pub open spec fn reached(bounds: Option<Rect>, damage: Option<Rect>) -> bool {
    damage is Some ==> bounds is Some && bounds->0.overlaps(damage->0)
}

fn reaches(bounds: Option<Rect>, damage: Option<Rect>) -> (r: bool)
    requires
        bounds is Some ==> bounds->0.in_range(),
        damage is Some ==> damage->0.in_range(),
    ensures
        r == reached(bounds, damage),
{
    match damage {
        None => true,
        Some(d) => match bounds {
            Some(b) => b.intersects(d),
            None => false,
        },
    }
}

/// The places below `n` that are picked, in order.
pub open spec fn picked(n: int, pick: spec_fn(int) -> bool) -> Seq<usize>
    decreases n,
{
    if n <= 0 {
        Seq::empty()
    } else if pick(n - 1) {
        picked(n - 1, pick).push((n - 1) as usize)
    } else {
        picked(n - 1, pick)
    }
}

/// The strokes a frame draws: those outside the damaged box hold the right pixels already.
pub open spec fn drawn_strokes<L>(
    a: AnnotationsView,
    damage: Option<Rect>,
    cache: CacheView<L>,
) -> Seq<usize> {
    picked(
        a.strokes.len() as int,
        |i: int| reached(cache.stroke_box(i, a.strokes[i]), damage),
    )
}

/// The cache after the strokes of a frame were picked: a frame that repaints a box asked for the
/// box of every stroke.
pub open spec fn boxes_kept<L>(
    a: AnnotationsView,
    damage: Option<Rect>,
    cache: CacheView<L>,
) -> CacheView<L> {
    if damage is Some {
        CacheView {
            stroke_bounds: Seq::new(
                a.strokes.len(),
                |i: int| cache.stroke_box(i, a.strokes[i]),
            ),
            ..cache
        }
    } else {
        cache
    }
}

/// Whether a text box has to be laid out for a frame: it is not skipped, no layout of it is
/// held, and its estimated box takes part.
pub open spec fn is_missing<L>(
    a: AnnotationsView,
    damage: Option<Rect>,
    cache: CacheView<L>,
    skip: Option<usize>,
    i: int,
) -> bool {
    &&& !(skip is Some && skip->0 == i)
    &&& !cache.has_text(i, a.texts[i])
    &&& reached(Some(a.texts[i].paint_bounds()), damage)
}

/// Whether a frame draws a text box: it is not skipped, its layout is held, and the measured
/// box takes part.
pub open spec fn is_drawn<L>(
    a: AnnotationsView,
    damage: Option<Rect>,
    cache: CacheView<L>,
    skip: Option<usize>,
    i: int,
) -> bool {
    &&& !(skip is Some && skip->0 == i)
    &&& cache.has_text(i, a.texts[i])
    &&& reached(Some(cache.entry(i)->0.paint_bounds), damage)
}

/// Which strokes a frame draws, by their places. A stroke without a sample to draw has no box:
/// it takes part in whole frames only, where it draws nothing.
fn strokes_to_draw<L>(
    ann: &OutputAnnotations,
    damage: Option<Rect>,
    scale: u32,
    cache: &mut TextLayoutCache<L>,
) -> (r: Vec<usize>)
    requires
        old(cache)@.wf(),
        damage is Some ==> damage->0.in_range(),
    ensures
        r@ == drawn_strokes(
            ann@,
            damage,
            old(cache)@.synced(ann@.strokes.len(), ann@.texts.len(), scale),
        ),
        final(cache)@.wf(),
        final(cache)@ == boxes_kept(
            ann@,
            damage,
            old(cache)@.synced(ann@.strokes.len(), ann@.texts.len(), scale),
        ),
{
    cache.sync(ann.strokes.len(), ann.texts.len(), scale);
    let ghost start = cache@;
    let ghost pick = |i: int| reached(start.stroke_box(i, ann@.strokes[i]), damage);
    let mut places: Vec<usize> = Vec::new();
    let mut i: usize = 0;
    while i < ann.strokes.len()
        invariant
            i <= ann.strokes@.len(),
            cache@.wf(),
            cache@.scale == start.scale,
            cache@.entries == start.entries,
            cache@.stroke_bounds.len() == ann@.strokes.len(),
            start.stroke_bounds.len() == ann@.strokes.len(),
            damage is Some ==> damage->0.in_range(),
            damage is None ==> cache@ == start,
            damage is Some ==> forall|j: int|
                0 <= j < i ==> #[trigger] cache@.stroke_bounds[j] == start.stroke_box(
                    j,
                    ann@.strokes[j],
                ),
            forall|j: int|
                i <= j < ann@.strokes.len() ==> #[trigger] cache@.stroke_bounds[j]
                    == start.stroke_bounds[j],
            pick == (|i: int| reached(start.stroke_box(i, ann@.strokes[i]), damage)),
            places@ == picked(i as int, pick),
        decreases ann.strokes@.len() - i,
    {
        proof {
            assert(ann@.strokes[i as int] == ann.strokes@[i as int]@);
            assert(cache@.stroke_bounds[i as int] == start.stroke_bounds[i as int]);
        }
        let taking_part: bool = match damage {
            None => true,
            Some(_) => reaches(cache.stroke_bounds(i, &ann.strokes[i]), damage),
        };
        if taking_part {
            places.push(i);
        }
        i = i + 1;
    }
    proof {
        if damage is Some {
            assert(cache@.stroke_bounds =~= Seq::new(
                ann@.strokes.len(),
                |i: int| start.stroke_box(i, ann@.strokes[i]),
            ));
        }
    }
    places
}

/// Which text boxes have to be laid out before a frame can be drawn, by their places. What the
/// cache holds of another scale or of items that are gone is dropped.
pub fn texts_to_lay_out<L>(
    ann: &OutputAnnotations,
    damage: Option<Rect>,
    scale: u32,
    cache: &mut TextLayoutCache<L>,
    skip: Option<usize>,
) -> (r: Vec<usize>)
    requires
        old(cache)@.wf(),
        damage is Some ==> damage->0.in_range(),
    ensures
        final(cache)@.wf(),
        final(cache)@ == old(cache)@.synced(ann@.strokes.len(), ann@.texts.len(), scale),
        r@ == picked(
            ann@.texts.len() as int,
            |i: int| is_missing(ann@, damage, final(cache)@, skip, i),
        ),
{
    cache.sync(ann.strokes.len(), ann.texts.len(), scale);
    let ghost pick = |i: int| is_missing(ann@, damage, cache@, skip, i);
    let mut places: Vec<usize> = Vec::new();
    let mut i: usize = 0;
    while i < ann.texts.len()
        invariant
            i <= ann.texts@.len(),
            damage is Some ==> damage->0.in_range(),
            pick == (|i: int| is_missing(ann@, damage, cache@, skip, i)),
            places@ == picked(i as int, pick),
        decreases ann.texts@.len() - i,
    {
        proof {
            assert(ann@.texts[i as int] == ann.texts@[i as int]@);
        }
        let skipped: bool = match skip {
            Some(s) => s == i,
            None => false,
        };
        if !skipped && !cache.matches(i, &ann.texts[i]) && reaches(
            Some(ann.texts[i].paint_bounds()),
            damage,
        ) {
            places.push(i);
        }
        i = i + 1;
    }
    places
}

/// Which text boxes a frame draws, by their places, once the layouts it needs are held.
fn texts_to_draw<L>(
    ann: &OutputAnnotations,
    damage: Option<Rect>,
    cache: &TextLayoutCache<L>,
    skip: Option<usize>,
) -> (r: Vec<usize>)
    requires
        cache@.wf(),
        damage is Some ==> damage->0.in_range(),
    ensures
        r@ == picked(
            ann@.texts.len() as int,
            |i: int| is_drawn(ann@, damage, cache@, skip, i),
        ),
{
    let ghost pick = |i: int| is_drawn(ann@, damage, cache@, skip, i);
    let mut places: Vec<usize> = Vec::new();
    let mut i: usize = 0;
    while i < ann.texts.len()
        invariant
            i <= ann.texts@.len(),
            cache@.wf(),
            damage is Some ==> damage->0.in_range(),
            pick == (|i: int| is_drawn(ann@, damage, cache@, skip, i)),
            places@ == picked(i as int, pick),
        decreases ann.texts@.len() - i,
    {
        proof {
            assert(ann@.texts[i as int] == ann.texts@[i as int]@);
        }
        let skipped: bool = match skip {
            Some(s) => s == i,
            None => false,
        };
        if !skipped && cache.matches(i, &ann.texts[i]) && reaches(cache.bounds(i), damage) {
            places.push(i);
        }
        i = i + 1;
    }
    places
}

/// A box of device pixels shares some area with a logical one.
pub open spec fn overlaps_on_device(b: Rect, logical: Rect, scale: u32) -> bool {
    &&& b.x < logical.right() * scale
    &&& logical.x * scale < b.right()
    &&& b.y < logical.bottom() * scale
    &&& logical.y * scale < b.bottom()
}

/// Whether a frame draws the hint, on a surface that is `device` pixels wide.
pub open spec fn draws_hint(
    o: OverlayView,
    damage: Option<Rect>,
    device: u32,
    scale: u32,
) -> bool {
    o.hint is Some && (damage is Some ==> overlaps_on_device(
        damage::hint_box((256 * device) as u64, scale),
        damage->0,
        scale,
    ))
}

fn below_scaled(a: i128, v: i128, scale: u32) -> (r: bool)
    requires
        -2 * damage::HINT_BOUND <= a <= 2 * damage::HINT_BOUND,
        -REACH <= v <= REACH,
    ensures
        r == (a < v * scale),
{
    let most: i128 = 2 * damage::HINT_BOUND;
    let s: i128 = scale as i128;
    if scale == 0 {
        proof {
            assert(v * 0 == 0) by (nonlinear_arith);
        }
        a < 0
    } else if v > most {
        proof {
            assert(v <= v * s) by (nonlinear_arith)
                requires
                    0 <= v,
                    1 <= s,
            ;
        }
        true
    } else if v < -most {
        proof {
            assert(v * s <= v) by (nonlinear_arith)
                requires
                    v <= 0,
                    1 <= s,
            ;
        }
        false
    } else {
        proof {
            assert(-most * 0xffff_ffff <= v * s <= most * 0xffff_ffff) by (nonlinear_arith)
                requires
                    -most <= v <= most,
                    0 <= s <= 0xffff_ffff,
            ;
        }
        a < v * s
    }
}

fn intersects_on_device(b: Rect, logical: Rect, scale: u32) -> (r: bool)
    requires
        -damage::HINT_BOUND <= b.x <= damage::HINT_BOUND,
        -damage::HINT_BOUND <= b.y <= damage::HINT_BOUND,
        -damage::HINT_BOUND <= b.right() <= damage::HINT_BOUND,
        -damage::HINT_BOUND <= b.bottom() <= damage::HINT_BOUND,
        logical.in_range(),
    ensures
        r == overlaps_on_device(b, logical, scale),
{
    below_scaled(b.x, logical.x + logical.w, scale) && !below_scaled(
        b.x + b.w - 1,
        logical.x,
        scale,
    ) && below_scaled(b.y, logical.y + logical.h, scale) && !below_scaled(
        b.y + b.h - 1,
        logical.y,
        scale,
    )
}

/// Whether a frame draws the hint. The hint is static content: only a tool, colour, size or mode
/// change repaints it, and those force a whole-surface frame. A frame that does not reach it must
/// leave it alone: those bytes are outside the damage region and still hold the previous frame.
fn hint_to_draw(overlay: &Overlay, damage: Option<Rect>, device: u32, scale: u32) -> (r: bool)
    requires
        damage is Some ==> damage->0.in_range(),
    ensures
        r == draws_hint(overlay@, damage, device, scale),
{
    overlay.hint.is_some() && match damage {
        None => true,
        Some(d) => intersects_on_device(hint_bounds(256 * device as u64, scale), d, scale),
    }
}

/// Something a frame draws.
#[derive(Debug, Clone, Copy, PartialEq, Eq, Structural)]
pub enum Element {
    /// A stroke of the document, by its place.
    Stroke(usize),
    /// A text box of the document, by its place.
    Text(usize),
    StrokeInProgress,
    /// The text box being edited.
    Edit,
    Hint,
    EraserMarker,
}

/// An element that is there or not.
pub open spec fn optional(there: bool, element: Element) -> Seq<Element> {
    if there { seq![element] } else { seq![] }
}

/// What a frame draws, from back to front, with a cache that holds the layouts it needs.
pub open spec fn elements_of<L>(
    a: AnnotationsView,
    o: OverlayView,
    damage: Option<Rect>,
    device: u32,
    scale: u32,
    cache: CacheView<L>,
    skip: Option<usize>,
) -> Seq<Element> {
    drawn_strokes(a, damage, cache).map_values(|i: usize| Element::Stroke(i)) + picked(
        a.texts.len() as int,
        |i: int| is_drawn(a, damage, cache, skip, i),
    ).map_values(|i: usize| Element::Text(i)) + optional(
        o.stroke is Some,
        Element::StrokeInProgress,
    ) + optional(o.text is Some, Element::Edit) + optional(
        draws_hint(o, damage, device, scale),
        Element::Hint,
    ) + optional(o.eraser is Some, Element::EraserMarker)
}

fn stroke_elements(places: &Vec<usize>) -> (r: Vec<Element>)
    ensures
        r@ == places@.map_values(|i: usize| Element::Stroke(i)),
{
    let mut elements: Vec<Element> = Vec::new();
    let mut n: usize = 0;
    while n < places.len()
        invariant
            n <= places@.len(),
            elements@.len() == n,
            forall|k: int| 0 <= k < n ==> #[trigger] elements@[k] == Element::Stroke(places@[k]),
        decreases places@.len() - n,
    {
        elements.push(Element::Stroke(places[n]));
        n = n + 1;
    }
    proof {
        assert(elements@ =~= places@.map_values(|i: usize| Element::Stroke(i)));
    }
    elements
}

fn add_texts(elements: &mut Vec<Element>, places: &Vec<usize>)
    ensures
        final(elements)@ == old(elements)@ + places@.map_values(|i: usize| Element::Text(i)),
{
    let ghost start = elements@;
    let mut n: usize = 0;
    while n < places.len()
        invariant
            n <= places@.len(),
            elements@.len() == start.len() + n,
            forall|k: int| 0 <= k < start.len() ==> #[trigger] elements@[k] == start[k],
            forall|k: int|
                start.len() <= k < start.len() + n ==> #[trigger] elements@[k] == Element::Text(
                    places@[k - start.len()],
                ),
        decreases places@.len() - n,
    {
        elements.push(Element::Text(places[n]));
        n = n + 1;
    }
    proof {
        assert(elements@ =~= start + places@.map_values(|i: usize| Element::Text(i)));
    }
}

/// What a frame draws, from back to front, once the layouts it needs are held. The surface is
/// `device` pixels wide.
pub fn elements_to_draw<L>(
    ann: &OutputAnnotations,
    overlay: &Overlay,
    damage: Option<Rect>,
    device: u32,
    scale: u32,
    cache: &mut TextLayoutCache<L>,
    skip: Option<usize>,
) -> (r: Vec<Element>)
    requires
        old(cache)@.wf(),
        damage is Some ==> damage->0.in_range(),
    ensures
        r@ == elements_of(
            ann@,
            overlay@,
            damage,
            device,
            scale,
            old(cache)@.synced(ann@.strokes.len(), ann@.texts.len(), scale),
            skip,
        ),
        final(cache)@.wf(),
        final(cache)@ == boxes_kept(
            ann@,
            damage,
            old(cache)@.synced(ann@.strokes.len(), ann@.texts.len(), scale),
        ),
{
    let ghost synced = cache@.synced(ann@.strokes.len(), ann@.texts.len(), scale);
    let strokes: Vec<usize> = strokes_to_draw(ann, damage, scale, cache);
    let texts: Vec<usize> = texts_to_draw(ann, damage, cache, skip);
    proof {
        let now = |i: int| is_drawn(ann@, damage, cache@, skip, i);
        let before = |i: int| is_drawn(ann@, damage, synced, skip, i);
        assert forall|i: int| #[trigger] now(i) == before(i) by {
            assert(cache@.entry(i) == synced.entry(i));
        }
        lemma_picked_alike(ann@.texts.len() as int, now, before);
    }
    let mut elements: Vec<Element> = stroke_elements(&strokes);
    add_texts(&mut elements, &texts);
    let ghost settled = elements@;
    if overlay.stroke.is_some() {
        elements.push(Element::StrokeInProgress);
    }
    if overlay.text.is_some() {
        elements.push(Element::Edit);
    }
    if hint_to_draw(overlay, damage, device, scale) {
        elements.push(Element::Hint);
    }
    if overlay.eraser.is_some() {
        elements.push(Element::EraserMarker);
    }
    proof {
        assert(elements@ =~= settled + optional(
            overlay@.stroke is Some,
            Element::StrokeInProgress,
        ) + optional(overlay@.text is Some, Element::Edit) + optional(
            draws_hint(overlay@, damage, device, scale),
            Element::Hint,
        ) + optional(overlay@.eraser is Some, Element::EraserMarker));
    }
    elements
}

/// Conditions that agree below the bound pick the same places.
pub proof fn lemma_picked_alike(n: int, a: spec_fn(int) -> bool, b: spec_fn(int) -> bool)
    requires
        forall|i: int| 0 <= i < n ==> #[trigger] a(i) == b(i),
    ensures
        picked(n, a) == picked(n, b),
    decreases n,
{
    if n > 0 {
        lemma_picked_alike(n - 1, a, b);
    }
}

/// A place is picked exactly where it is below the bound and the condition holds.
pub proof fn picked_is_what_was_asked_for(n: int, pick: spec_fn(int) -> bool, i: usize)
    requires
        0 <= n <= usize::MAX,
    ensures
        picked(n, pick).contains(i) <==> i < n && pick(i as int),
    decreases n,
{
    if n > 0 {
        picked_is_what_was_asked_for(n - 1, pick, i);
        let (now, before) = (picked(n, pick), picked(n - 1, pick));
        if pick(n - 1) {
            if before.contains(i) {
                let k = choose|k: int| 0 <= k < before.len() && before[k] == i;
                assert(now[k] == i);
            }
            if i == n - 1 {
                assert(now[before.len() as int] == i);
            }
            if now.contains(i) {
                let k = choose|k: int| 0 <= k < now.len() && now[k] == i;
                if k < before.len() {
                    assert(before[k] == i);
                }
            }
        }
    }
}

/// A frame that repaints a box paints nothing outside it: with the damage box of what is shown,
/// accounted with whatever the cache holds, every stroke and every text box it draws lies inside
/// the box, and so do the hint if it draws it and the estimate of every text box it lays out.
pub proof fn a_boxed_frame_paints_inside_its_box<L>(
    a: AnnotationsView,
    o: OverlayView,
    width: u64,
    device: u32,
    scale: u32,
    from: Rect,
    damage: Rect,
    cache: CacheView<L>,
    skip: Option<usize>,
    i: usize,
)
    requires
        damage::cached_boxes(a, o, width, cache).least_settled(from, damage),
        a.strokes.len() <= usize::MAX,
        scale > 0,
        256 * device == width * scale,
    ensures
        drawn_strokes(a, Some(damage), cache).contains(i) ==> i < a.strokes.len()
            && cache.stroke_box(i as int, a.strokes[i as int]) is Some && damage.covers(
            cache.stroke_box(i as int, a.strokes[i as int])->0,
        ),
        i < a.texts.len() && is_drawn(a, Some(damage), cache, skip, i as int) ==> damage.covers(
            cache.entry(i as int)->0.paint_bounds,
        ),
        i < a.texts.len() && is_missing(a, Some(damage), cache, skip, i as int) ==> damage.covers(
            a.texts[i as int].paint_bounds(),
        ),
        draws_hint(o, Some(damage), device, scale) ==> damage.covers(damage::hint_box(width, 1)),
{
    the_hint_is_reached_alike_in_device_pixels(width, device, scale, damage);
    let boxes = damage::cached_boxes(a, o, width, cache);
    let pick = |i: int| reached(cache.stroke_box(i, a.strokes[i]), Some(damage));
    picked_is_what_was_asked_for(a.strokes.len() as int, pick, i);
    if i < a.strokes.len() {
        assert(damage::covers_if_reached(damage, boxes.strokes[i as int]));
    }
    if i < a.texts.len() {
        assert(damage::covers_if_reached(damage, Some(boxes.texts[i as int])));
    }
}

/// A logical box reaches the hint's device pixels exactly where it reaches its logical ones.
pub proof fn the_hint_is_reached_alike_in_device_pixels(width: u64, device: u32, scale: u32, damage: Rect)
    requires
        scale > 0,
        256 * device == width * scale,
    ensures
        overlaps_on_device(damage::hint_box((256 * device) as u64, scale), damage, scale)
            == damage::hint_box(width, 1).overlaps(damage),
{
    let on_device = damage::hint_box((256 * device) as u64, scale);
    let logical = damage::hint_box(width, 1);
    let s = scale as int;
    assert((width < 184_320) == (width * s < 184_320 * s)) by (nonlinear_arith)
        requires
            s > 0,
    ;
    assert(width <= width * s) by (nonlinear_arith)
        requires
            s > 0,
            width >= 0,
    ;
    assert((width - 184_320) * s == width * s - 184_320 * s) by (nonlinear_arith);
    assert(0 * s == 0) by (nonlinear_arith);
    let reserved = geometry::min(width as int, 184_320);
    assert(on_device.x == 2520 * ((width - reserved) * s));
    assert(on_device.w == 5040 * (reserved * s));
    assert(logical.y * s == 5040 * (3840 * s)) by (nonlinear_arith)
        requires
            logical.y == 5040 * 3840,
    ;
    assert(logical.h * s == 5040 * (9216 * s)) by (nonlinear_arith)
        requires
            logical.h == 5040 * 9216,
    ;
    assert(logical.x * s == 2520 * ((width - reserved) * s)) by (nonlinear_arith)
        requires
            logical.x == 2520 * (width - reserved),
    ;
    assert(logical.w * s == 5040 * (reserved * s)) by (nonlinear_arith)
        requires
            logical.w == 5040 * reserved,
    ;
    lemma_scaled_box(on_device, logical, damage, s);
}

proof fn lemma_scaled_box(on_device: Rect, logical: Rect, damage: Rect, s: int)
    requires
        s > 0,
        on_device.x == logical.x * s,
        on_device.y == logical.y * s,
        on_device.w == logical.w * s,
        on_device.h == logical.h * s,
    ensures
        on_device.x < damage.right() * s <==> logical.x < damage.right(),
        damage.x * s < on_device.right() <==> damage.x < logical.right(),
        on_device.y < damage.bottom() * s <==> logical.y < damage.bottom(),
        damage.y * s < on_device.bottom() <==> damage.y < logical.bottom(),
{
    let (x, y, w, h) = (logical.x as int, logical.y as int, logical.w as int, logical.h as int);
    assert((x + w) * s == x * s + w * s) by (nonlinear_arith);
    assert((y + h) * s == y * s + h * s) by (nonlinear_arith);
    lemma_scaled_order(x, damage.right(), s);
    lemma_scaled_order(damage.x as int, x + w, s);
    lemma_scaled_order(y, damage.bottom(), s);
    lemma_scaled_order(damage.y as int, y + h, s);
}

proof fn lemma_scaled_order(a: int, b: int, s: int)
    requires
        s > 0,
    ensures
        a * s < b * s <==> a < b,
{
    assert(a < b ==> a * s < b * s) by (nonlinear_arith)
        requires
            s > 0,
    ;
    assert(b <= a ==> b * s <= a * s) by (nonlinear_arith)
        requires
            s > 0,
    ;
}

/// A text box that was missing is drawn once it was laid out, where its measured box takes part.
pub proof fn a_missing_text_is_drawn_once_laid_out<L>(
    a: AnnotationsView,
    damage: Option<Rect>,
    cache: CacheView<L>,
    skip: Option<usize>,
    i: nat,
    entry: TextCacheEntry<L>,
)
    requires
        i < a.texts.len(),
        is_missing(a, damage, cache, skip, i as int),
        entry.is_for(a.texts[i as int]),
        reached(Some(entry.paint_bounds), damage),
    ensures
        is_drawn(a, damage, cache.with_entry(i, entry), skip, i as int),
{
}

/// A whole frame draws every stroke, lays out and then draws every text box that is not skipped,
/// and draws the hint if there is one.
pub proof fn a_whole_frame_leaves_nothing_out<L>(
    a: AnnotationsView,
    o: OverlayView,
    device: u32,
    scale: u32,
    cache: CacheView<L>,
    skip: Option<usize>,
    i: usize,
)
    requires
        a.strokes.len() <= usize::MAX,
    ensures
        i < a.strokes.len() ==> drawn_strokes(a, None, cache).contains(i),
        i < a.texts.len() && skip != Some(i) ==> is_missing(a, None, cache, skip, i as int)
            || is_drawn(a, None, cache, skip, i as int),
        draws_hint(o, None, device, scale) == (o.hint is Some),
{
    let pick = |i: int| reached(cache.stroke_box(i, a.strokes[i]), None);
    picked_is_what_was_asked_for(a.strokes.len() as int, pick, i);
}

/// How far in front the kind of an element is.
pub open spec fn depth(e: Element) -> int {
    match e {
        Element::Stroke(_) => 0,
        Element::Text(_) => 1,
        Element::StrokeInProgress => 2,
        Element::Edit => 3,
        Element::Hint => 4,
        Element::EraserMarker => 5,
    }
}

/// One element is drawn before another: it is of a kind further behind, or an earlier one of the
/// document's strokes or text boxes.
pub open spec fn is_behind(e: Element, f: Element) -> bool {
    ||| depth(e) < depth(f)
    ||| e is Stroke && f is Stroke && e->Stroke_0 < f->Stroke_0
    ||| e is Text && f is Text && e->Text_0 < f->Text_0
}

/// Every element is behind those that are drawn after it, and of the kinds from one to before
/// another.
spec fn is_layered(s: Seq<Element>, from: int, to: int) -> bool {
    &&& forall|i: int| 0 <= i < s.len() ==> from <= depth(#[trigger] s[i]) < to
    &&& forall|i: int, j: int|
        0 <= i < j < s.len() ==> is_behind(#[trigger] s[i], #[trigger] s[j])
}

proof fn lemma_layers(a: Seq<Element>, b: Seq<Element>, from: int, mid: int, to: int)
    requires
        from <= mid <= to,
        is_layered(a, from, mid),
        is_layered(b, mid, to),
    ensures
        is_layered(a + b, from, to),
        forall|e: Element| #[trigger] (a + b).contains(e) <==> a.contains(e) || b.contains(e),
{
    let s = a + b;
    assert forall|i: int| 0 <= i < s.len() implies from <= depth(#[trigger] s[i]) < to by {
        if i < a.len() {
            assert(s[i] == a[i]);
        } else {
            assert(s[i] == b[i - a.len()]);
        }
    }
    assert forall|i: int, j: int| 0 <= i < j < s.len() implies is_behind(
        #[trigger] s[i],
        #[trigger] s[j],
    ) by {
        if i < a.len() {
            assert(s[i] == a[i]);
        } else {
            assert(s[i] == b[i - a.len()]);
        }
        if j < a.len() {
            assert(s[j] == a[j]);
        } else {
            assert(s[j] == b[j - a.len()]);
        }
    }
    assert forall|e: Element| #[trigger] s.contains(e) <==> a.contains(e) || b.contains(e) by {
        if a.contains(e) {
            let i = choose|i: int| 0 <= i < a.len() && a[i] == e;
            assert(s[i] == e);
        }
        if b.contains(e) {
            let i = choose|i: int| 0 <= i < b.len() && b[i] == e;
            assert(s[a.len() + i] == e);
        }
    }
}

proof fn lemma_picked_in_order(n: int, pick: spec_fn(int) -> bool)
    requires
        0 <= n <= usize::MAX,
    ensures
        forall|i: int| 0 <= i < picked(n, pick).len() ==> #[trigger] picked(n, pick)[i] < n,
        forall|i: int, j: int|
            0 <= i < j < picked(n, pick).len() ==> (#[trigger] picked(n, pick)[i]) < (
            #[trigger] picked(n, pick)[j]),
    decreases n,
{
    if n > 0 {
        lemma_picked_in_order(n - 1, pick);
        let (now, before) = (picked(n, pick), picked(n - 1, pick));
        if pick(n - 1) {
            assert forall|i: int, j: int| 0 <= i < j < now.len() implies (#[trigger] now[i]) < (
            #[trigger] now[j]) by {
                assert(now[i] == before[i]);
                if j < before.len() {
                    assert(now[j] == before[j]);
                }
            }
            assert forall|i: int| 0 <= i < now.len() implies #[trigger] now[i] < n by {
                if i < before.len() {
                    assert(now[i] == before[i]);
                }
            }
        }
    }
}

proof fn lemma_stroke_layer(n: int, pick: spec_fn(int) -> bool, i: usize)
    requires
        0 <= n <= usize::MAX,
    ensures
        ({
            let s = picked(n, pick).map_values(|i: usize| Element::Stroke(i));
            &&& is_layered(s, 0, 1)
            &&& s.contains(Element::Stroke(i)) <==> i < n && pick(i as int)
        }),
{
    let places = picked(n, pick);
    let s = places.map_values(|i: usize| Element::Stroke(i));
    lemma_picked_in_order(n, pick);
    picked_is_what_was_asked_for(n, pick, i);
    assert forall|k: int, j: int| 0 <= k < j < s.len() implies is_behind(
        #[trigger] s[k],
        #[trigger] s[j],
    ) by {
        assert(places[k] < places[j]);
    }
    if places.contains(i) {
        let k = choose|k: int| 0 <= k < places.len() && places[k] == i;
        assert(s[k] == Element::Stroke(i));
    }
    if s.contains(Element::Stroke(i)) {
        let k = choose|k: int| 0 <= k < s.len() && s[k] == Element::Stroke(i);
        assert(places[k] == i);
    }
}

proof fn lemma_text_layer(n: int, pick: spec_fn(int) -> bool, i: usize)
    requires
        0 <= n <= usize::MAX,
    ensures
        ({
            let s = picked(n, pick).map_values(|i: usize| Element::Text(i));
            &&& is_layered(s, 1, 2)
            &&& s.contains(Element::Text(i)) <==> i < n && pick(i as int)
        }),
{
    let places = picked(n, pick);
    let s = places.map_values(|i: usize| Element::Text(i));
    lemma_picked_in_order(n, pick);
    picked_is_what_was_asked_for(n, pick, i);
    assert forall|k: int, j: int| 0 <= k < j < s.len() implies is_behind(
        #[trigger] s[k],
        #[trigger] s[j],
    ) by {
        assert(places[k] < places[j]);
    }
    if places.contains(i) {
        let k = choose|k: int| 0 <= k < places.len() && places[k] == i;
        assert(s[k] == Element::Text(i));
    }
    if s.contains(Element::Text(i)) {
        let k = choose|k: int| 0 <= k < s.len() && s[k] == Element::Text(i);
        assert(places[k] == i);
    }
}

proof fn lemma_one_layer(there: bool, e: Element)
    ensures
        is_layered(optional(there, e), depth(e), depth(e) + 1),
        optional(there, e).contains(e) <==> there,
        forall|f: Element| #[trigger] optional(there, e).contains(f) ==> f == e,
{
    if there {
        assert(optional(there, e)[0] == e);
    }
}

/// Everything is drawn once, from back to front: the strokes in their order, the text boxes in
/// theirs, the stroke in progress, the text box being edited, the hint and the eraser marker. What
/// is in progress is always drawn, and of the document what reaches into the damage, all of it
/// where the whole surface is repainted. A text box that is left out, because it is being edited,
/// is not drawn twice.
pub proof fn elements_are_drawn_from_back_to_front<L>(
    a: AnnotationsView,
    o: OverlayView,
    damage: Option<Rect>,
    device: u32,
    scale: u32,
    cache: CacheView<L>,
    skip: Option<usize>,
    i: usize,
)
    requires
        a.strokes.len() <= usize::MAX,
        a.texts.len() <= usize::MAX,
    ensures
        ({
            let all = elements_of(a, o, damage, device, scale, cache, skip);
            &&& forall|j: int, k: int|
                0 <= j < k < all.len() ==> is_behind(#[trigger] all[j], #[trigger] all[k])
            &&& all.contains(Element::StrokeInProgress) <==> o.stroke is Some
            &&& all.contains(Element::Edit) <==> o.text is Some
            &&& all.contains(Element::EraserMarker) <==> o.eraser is Some
            &&& all.contains(Element::Hint) ==> o.hint is Some
            &&& damage is None ==> (all.contains(Element::Hint) <==> o.hint is Some)
            &&& all.contains(Element::Stroke(i)) ==> i < a.strokes.len()
            &&& damage is None && i < a.strokes.len() ==> all.contains(Element::Stroke(i))
            &&& damage is Some && i < a.strokes.len() ==> {
                let b = cache.stroke_box(i as int, a.strokes[i as int]);
                all.contains(Element::Stroke(i)) <==> b is Some && b->0.overlaps(damage->0)
            }
            &&& all.contains(Element::Text(i)) ==> i < a.texts.len() && skip != Some(i)
            &&& i < a.texts.len() && skip != Some(i) && cache.has_text(i as int, a.texts[i as int])
                ==> (all.contains(Element::Text(i)) <==> (damage is None || cache.entry(
                i as int,
            )->0.paint_bounds.overlaps(damage->0)))
        }),
{
    let pick = |i: int| reached(cache.stroke_box(i, a.strokes[i]), damage);
    let drawn = |i: int| is_drawn(a, damage, cache, skip, i);
    lemma_stroke_layer(a.strokes.len() as int, pick, i);
    lemma_text_layer(a.texts.len() as int, drawn, i);
    lemma_one_layer(o.stroke is Some, Element::StrokeInProgress);
    lemma_one_layer(o.text is Some, Element::Edit);
    lemma_one_layer(draws_hint(o, damage, device, scale), Element::Hint);
    lemma_one_layer(o.eraser is Some, Element::EraserMarker);
    let l0 = drawn_strokes(a, damage, cache).map_values(|i: usize| Element::Stroke(i));
    let l1 = picked(a.texts.len() as int, drawn).map_values(|i: usize| Element::Text(i));
    let l2 = optional(o.stroke is Some, Element::StrokeInProgress);
    let l3 = optional(o.text is Some, Element::Edit);
    let l4 = optional(draws_hint(o, damage, device, scale), Element::Hint);
    let l5 = optional(o.eraser is Some, Element::EraserMarker);
    lemma_layers(l0, l1, 0, 1, 2);
    lemma_layers(l0 + l1, l2, 0, 2, 3);
    lemma_layers(l0 + l1 + l2, l3, 0, 3, 4);
    lemma_layers(l0 + l1 + l2 + l3, l4, 0, 4, 5);
    lemma_layers(l0 + l1 + l2 + l3 + l4, l5, 0, 5, 6);
    assert(elements_of(a, o, damage, device, scale, cache, skip) == l0 + l1 + l2 + l3 + l4 + l5);
    lemma_only_of_its_kind(l0, 0, 1);
    lemma_only_of_its_kind(l1, 1, 2);
}

proof fn lemma_only_of_its_kind(s: Seq<Element>, from: int, to: int)
    requires
        is_layered(s, from, to),
    ensures
        forall|e: Element| #[trigger] s.contains(e) ==> from <= depth(e) < to,
{
}

} // verus!
