//! What the frames of a surface have in common: a frame that repaints a box leaves the same
//! picture as one that repaints everything, and so does a frame that reuses earlier layouts.

use vstd::prelude::*;

use crate::canvas::AnnotationsView;
use crate::damage;
use crate::geometry::Rect;
use crate::layout::{CacheView, TextCacheEntry};
use crate::overlay::OverlayView;
use crate::region;
use crate::region::DamageRegion;
use crate::render;
use crate::render::Element;

verus! {

/// The element does not move: a stroke or a text box of the document, or the hint.
pub open spec fn is_settled(e: Element) -> bool {
    e is Stroke || e is Text || e is Hint
}

/// The box an element is accounted with; the transient ones are accounted together.
pub open spec fn element_box<L>(
    a: AnnotationsView,
    o: OverlayView,
    width: u64,
    cache: CacheView<L>,
    e: Element,
) -> Option<Rect> {
    match e {
        Element::Stroke(i) => cache.stroke_box(i as int, a.strokes[i as int]),
        Element::Text(i) => Some(cache.text_box(i as int, a.texts[i as int])),
        Element::Hint => Some(damage::hint_box(width, 1)),
        Element::Edit => match o.text {
            Some(t) => Some(t.item.paint_bounds()),
            None => None,
        },
        Element::StrokeInProgress | Element::EraserMarker => damage::transient_box(o),
    }
}

/// An element takes part in a frame that repaints a box: it reaches into the box, or it is drawn
/// in every frame.
pub open spec fn takes_part<L>(
    a: AnnotationsView,
    o: OverlayView,
    width: u64,
    cache: CacheView<L>,
    damage: Rect,
    e: Element,
) -> bool {
    is_settled(e) ==> element_box(a, o, width, cache, e) is Some && element_box(
        a,
        o,
        width,
        cache,
        e,
    )->0.overlaps(damage)
}

proof fn lemma_picked_filter(
    n: int,
    all: spec_fn(int) -> bool,
    some: spec_fn(int) -> bool,
    element: spec_fn(usize) -> Element,
    keep: spec_fn(Element) -> bool,
)
    requires
        n <= usize::MAX,
        forall|i: int|
            0 <= i <= usize::MAX ==> #[trigger] some(i) == (all(i) && keep(element(i as usize))),
    ensures
        render::picked(n, some).map_values(element) == render::picked(n, all).map_values(
            element,
        ).filter(keep),
    decreases n,
{
    reveal(Seq::filter);
    if n > 0 {
        lemma_picked_filter(n - 1, all, some, element, keep);
        let before = render::picked(n - 1, all).map_values(element);
        let now = render::picked(n, all).map_values(element);
        let kept = render::picked(n, some).map_values(element);
        assert(some(n - 1) == (all(n - 1) && keep(element((n - 1) as usize))));
        if all(n - 1) {
            assert(now =~= before.push(element((n - 1) as usize)));
            assert(now.drop_last() =~= before);
        }
        if some(n - 1) {
            assert(kept =~= render::picked(n - 1, some).map_values(element).push(
                element((n - 1) as usize),
            ));
        }
    } else {
        assert(render::picked(n, some).map_values(element) =~= render::picked(n, all).map_values(
            element,
        ).filter(keep));
    }
}

proof fn lemma_optional_filter(there: bool, element: Element, keep: spec_fn(Element) -> bool)
    ensures
        render::optional(there, element).filter(keep) == render::optional(
            there && keep(element),
            element,
        ),
{
    reveal(Seq::filter);
    let s = render::optional(there, element);
    if there {
        assert(s.drop_last() =~= Seq::empty());
        assert(s.drop_last().filter(keep) =~= Seq::empty());
        assert(s.filter(keep) =~= render::optional(there && keep(element), element));
    } else {
        assert(s.filter(keep) =~= render::optional(there && keep(element), element));
    }
}

/// A frame that repaints a box draws, in the order of the whole frame, exactly those of its
/// elements that reach into the box, and the transient ones.
pub proof fn a_boxed_frame_draws_what_reaches_into_its_box<L>(
    a: AnnotationsView,
    o: OverlayView,
    width: u64,
    device: u32,
    scale: u32,
    cache: CacheView<L>,
    skip: Option<usize>,
    damage: Rect,
)
    requires
        a.strokes.len() <= usize::MAX,
        a.texts.len() <= usize::MAX,
        scale > 0,
        256 * device == width * scale,
    ensures
        render::elements_of(a, o, Some(damage), device, scale, cache, skip)
            == render::elements_of(a, o, None, device, scale, cache, skip).filter(
            |e: Element| takes_part(a, o, width, cache, damage, e),
        ),
{
    let keep = |e: Element| takes_part(a, o, width, cache, damage, e);
    let stroke = |i: usize| Element::Stroke(i);
    let text = |i: usize| Element::Text(i);
    let all_strokes = |i: int| render::reached(cache.stroke_box(i, a.strokes[i]), None);
    let some_strokes = |i: int| render::reached(cache.stroke_box(i, a.strokes[i]), Some(damage));
    let all_texts = |i: int| render::is_drawn(a, None, cache, skip, i);
    let some_texts = |i: int| render::is_drawn(a, Some(damage), cache, skip, i);
    lemma_picked_filter(a.strokes.len() as int, all_strokes, some_strokes, stroke, keep);
    lemma_picked_filter(a.texts.len() as int, all_texts, some_texts, text, keep);
    let s = render::picked(a.strokes.len() as int, all_strokes).map_values(stroke);
    let t = render::picked(a.texts.len() as int, all_texts).map_values(text);
    let p = render::optional(o.stroke is Some, Element::StrokeInProgress);
    let e = render::optional(o.text is Some, Element::Edit);
    let h = render::optional(render::draws_hint(o, None, device, scale), Element::Hint);
    let m = render::optional(o.eraser is Some, Element::EraserMarker);
    Seq::filter_distributes_over_add(s, t, keep);
    Seq::filter_distributes_over_add(s + t, p, keep);
    Seq::filter_distributes_over_add(s + t + p, e, keep);
    Seq::filter_distributes_over_add(s + t + p + e, h, keep);
    Seq::filter_distributes_over_add(s + t + p + e + h, m, keep);
    lemma_optional_filter(o.stroke is Some, Element::StrokeInProgress, keep);
    lemma_optional_filter(o.text is Some, Element::Edit, keep);
    lemma_optional_filter(render::draws_hint(o, None, device, scale), Element::Hint, keep);
    lemma_optional_filter(o.eraser is Some, Element::EraserMarker, keep);
    render::the_hint_is_reached_alike_in_device_pixels(width, device, scale, damage);
    assert(render::draws_hint(o, Some(damage), device, scale) == (render::draws_hint(
        o,
        None,
        device,
        scale,
    ) && keep(Element::Hint)));
}

/// A box that was accounted with the estimates of the text boxes serves a frame that goes by the
/// measured ones, where each measured box lies inside its estimate.
pub proof fn estimates_serve_for_measured_boxes<L>(
    a: AnnotationsView,
    o: OverlayView,
    width: u64,
    cache: CacheView<L>,
    damage: Rect,
)
    requires
        damage::drawn_boxes(a, o, width).settled(damage),
        forall|i: int|
            0 <= i < a.strokes.len() ==> #[trigger] cache.stroke_box(i, a.strokes[i])
                == a.strokes[i].bounds(),
        forall|i: int|
            0 <= i < a.texts.len() ==> (#[trigger] a.texts[i]).paint_bounds().covers(
                cache.text_box(i, a.texts[i]),
            ),
    ensures
        damage::cached_boxes(a, o, width, cache).settled(damage),
{
    let (rough, fine) = (
        damage::drawn_boxes(a, o, width),
        damage::cached_boxes(a, o, width, cache),
    );
    assert forall|i: int| 0 <= i < fine.strokes.len() implies damage::covers_if_reached(
        damage,
        #[trigger] fine.strokes[i],
    ) by {
        assert(cache.stroke_box(i, a.strokes[i]) == a.strokes[i].bounds());
        assert(damage::covers_if_reached(damage, rough.strokes[i]));
    }
    assert forall|i: int| 0 <= i < fine.texts.len() implies damage::covers_if_reached(
        damage,
        Some(#[trigger] fine.texts[i]),
    ) by {
        assert(a.texts[i].paint_bounds().covers(cache.text_box(i, a.texts[i])));
        assert(damage::covers_if_reached(damage, Some(rough.texts[i])));
    }
}

/// A pixel once some elements were painted over it, one after another.
pub open spec fn painted<P>(
    paint: spec_fn(Element, int, P) -> P,
    elements: Seq<Element>,
    p: int,
    start: P,
) -> P
    decreases elements.len(),
{
    if elements.len() == 0 {
        start
    } else {
        paint(elements.last(), p, painted(paint, elements.drop_last(), p, start))
    }
}

/// Painting an element leaves a pixel as it is.
pub open spec fn leaves_alone<P>(
    paint: spec_fn(Element, int, P) -> P,
    e: Element,
    p: int,
) -> bool {
    forall|v: P| #[trigger] paint(e, p, v) == v
}

/// A pixel lies in a box.
pub open spec fn in_box(bounds: Option<Rect>, scale: u32, w: u32, h: u32, p: int) -> bool {
    bounds is Some && DamageRegion::of(bounds->0, scale, w, h).holds(p, w, h)
}

/// No element of a whole frame is painted outside the box it is accounted with.
pub open spec fn keeps_to_the_boxes<L, P>(
    paint: spec_fn(Element, int, P) -> P,
    a: AnnotationsView,
    o: OverlayView,
    width: u64,
    cache: CacheView<L>,
    scale: u32,
    w: u32,
    h: u32,
) -> bool {
    forall|e: Element, p: int|
        render::elements_of(a, o, None, w, scale, cache, None).contains(e) && !in_box(
            element_box(a, o, width, cache, e),
            scale,
            w,
            h,
            p,
        ) ==> #[trigger] leaves_alone(paint, e, p)
}

proof fn lemma_filtered_is_in(s: Seq<Element>, keep: spec_fn(Element) -> bool, e: Element)
    requires
        s.filter(keep).contains(e),
    ensures
        s.contains(e),
        keep(e),
    decreases s.len(),
{
    reveal(Seq::filter);
    let kept = s.filter(keep);
    let k = choose|k: int| 0 <= k < kept.len() && kept[k] == e;
    if s.len() > 0 {
        let before = s.drop_last().filter(keep);
        if k < before.len() {
            assert(before[k] == e);
            lemma_filtered_is_in(s.drop_last(), keep, e);
            let i = choose|i: int| 0 <= i < s.drop_last().len() && s.drop_last()[i] == e;
            assert(s[i] == e);
        } else {
            assert(s[s.len() - 1] == e);
        }
    }
}

proof fn lemma_painting_skips<P>(
    paint: spec_fn(Element, int, P) -> P,
    elements: Seq<Element>,
    keep: spec_fn(Element) -> bool,
    p: int,
    start: P,
)
    requires
        forall|e: Element|
            #[trigger] elements.contains(e) && !keep(e) ==> leaves_alone(paint, e, p),
    ensures
        painted(paint, elements, p, start) == painted(paint, elements.filter(keep), p, start),
    decreases elements.len(),
{
    reveal(Seq::filter);
    if elements.len() > 0 {
        let before = elements.drop_last();
        let e = elements.last();
        assert forall|f: Element| #[trigger] before.contains(f) && !keep(f) implies leaves_alone(
            paint,
            f,
            p,
        ) by {
            let k = choose|k: int| 0 <= k < before.len() && before[k] == f;
            assert(elements[k] == f);
            assert(elements.contains(f));
        }
        lemma_painting_skips(paint, before, keep, p, start);
        assert(elements[elements.len() - 1] == e);
        assert(elements.contains(e));
        if keep(e) {
            let kept = elements.filter(keep);
            assert(kept =~= before.filter(keep).push(e));
            assert(kept.drop_last() =~= before.filter(keep));
        } else {
            assert(leaves_alone(paint, e, p));
        }
    }
}

proof fn lemma_painting_elsewhere<P>(
    paint: spec_fn(Element, int, P) -> P,
    elements: Seq<Element>,
    p: int,
    start: P,
)
    requires
        forall|e: Element| #[trigger] elements.contains(e) ==> leaves_alone(paint, e, p),
    ensures
        painted(paint, elements, p, start) == start,
    decreases elements.len(),
{
    if elements.len() > 0 {
        let before = elements.drop_last();
        assert forall|f: Element| #[trigger] before.contains(f) implies leaves_alone(paint, f, p) by {
            let k = choose|k: int| 0 <= k < before.len() && before[k] == f;
            assert(elements[k] == f);
            assert(elements.contains(f));
        }
        lemma_painting_elsewhere(paint, before, p, start);
        assert(elements[elements.len() - 1] == elements.last());
        assert(elements.contains(elements.last()));
    }
}

proof fn lemma_painting_alike<P>(
    one: spec_fn(Element, int, P) -> P,
    other: spec_fn(Element, int, P) -> P,
    elements: Seq<Element>,
    p: int,
    start: P,
)
    requires
        forall|e: Element, v: P|
            elements.contains(e) ==> #[trigger] one(e, p, v) == other(e, p, v),
    ensures
        painted(one, elements, p, start) == painted(other, elements, p, start),
    decreases elements.len(),
{
    if elements.len() > 0 {
        let before = elements.drop_last();
        assert forall|f: Element, v: P| before.contains(f) implies #[trigger] one(f, p, v)
            == other(f, p, v) by {
            let k = choose|k: int| 0 <= k < before.len() && before[k] == f;
            assert(elements[k] == f);
            assert(elements.contains(f));
        }
        lemma_painting_alike(one, other, before, p, start);
        assert(elements[elements.len() - 1] == elements.last());
        assert(elements.contains(elements.last()));
    }
}

proof fn lemma_device_in_order(u: int, v: int, scale: int, limit: int)
    requires
        u <= v,
        0 <= scale,
        0 <= limit,
    ensures
        0 <= region::device(u, scale, limit) <= region::device(v, scale, limit) <= limit,
{
    if v > 0 {
        assert(0 <= v * scale) by (nonlinear_arith)
            requires
                0 <= v,
                0 <= scale,
        ;
    }
    if u > 0 {
        assert(0 <= u * scale <= v * scale) by (nonlinear_arith)
            requires
                0 <= u <= v,
                0 <= scale,
        ;
    }
}

/// What lies in a box lies in every box that covers it, pixel by pixel.
pub proof fn a_covering_box_has_the_pixels(
    outer: Rect,
    inner: Rect,
    scale: u32,
    w: u32,
    h: u32,
    p: int,
)
    requires
        outer.covers(inner),
        DamageRegion::of(inner, scale, w, h).holds(p, w, h),
    ensures
        DamageRegion::of(outer, scale, w, h).holds(p, w, h),
{
    let s = scale as int;
    lemma_device_in_order(outer.x as int, inner.x as int, s, w as int);
    lemma_device_in_order(outer.y as int, inner.y as int, s, h as int);
    lemma_device_in_order(inner.right(), outer.right(), s, w as int);
    lemma_device_in_order(inner.bottom(), outer.bottom(), s, h as int);
    let (x0, y0, x1, y1) = DamageRegion::of(inner, scale, w, h).span(w, h);
    let (a0, b0, a1, b1) = DamageRegion::of(outer, scale, w, h).span(w, h);
    let y = choose|y: int| y0 <= y < y1 && #[trigger] region::in_row(p, y, x0, x1, w as int);
    assert(region::in_row(p, y, a0, a1, w as int));
}

/// Boxes that share no area share no pixel.
pub proof fn boxes_apart_share_no_pixel(a: Rect, b: Rect, scale: u32, w: u32, h: u32, p: int)
    requires
        !a.overlaps(b),
        DamageRegion::of(a, scale, w, h).holds(p, w, h),
    ensures
        !DamageRegion::of(b, scale, w, h).holds(p, w, h),
{
    let (s, wide, high) = (scale as int, w as int, h as int);
    lemma_device_in_order(a.x as int, a.x as int, s, wide);
    lemma_device_in_order(a.y as int, a.y as int, s, high);
    lemma_device_in_order(b.x as int, b.x as int, s, wide);
    lemma_device_in_order(b.y as int, b.y as int, s, high);
    lemma_device_in_order(a.right(), a.right(), s, wide);
    lemma_device_in_order(a.bottom(), a.bottom(), s, high);
    lemma_device_in_order(b.right(), b.right(), s, wide);
    lemma_device_in_order(b.bottom(), b.bottom(), s, high);
    let (x0, y0, x1, y1) = DamageRegion::of(a, scale, w, h).span(w, h);
    let (u0, v0, u1, v1) = DamageRegion::of(b, scale, w, h).span(w, h);
    let y = choose|y: int| y0 <= y < y1 && #[trigger] region::in_row(p, y, x0, x1, wide);
    if DamageRegion::of(b, scale, w, h).holds(p, w, h) {
        let v = choose|v: int| v0 <= v < v1 && #[trigger] region::in_row(p, v, u0, u1, wide);
        lemma_one_row(p, y, x0, x1, v, u0, u1, wide);
        if b.right() <= a.x {
            lemma_device_in_order(b.right(), a.x as int, s, wide);
        } else if a.right() <= b.x {
            lemma_device_in_order(a.right(), b.x as int, s, wide);
        } else if b.bottom() <= a.y {
            lemma_device_in_order(b.bottom(), a.y as int, s, high);
        } else {
            lemma_device_in_order(a.bottom(), b.y as int, s, high);
        }
    }
}

proof fn lemma_one_row(p: int, y: int, x0: int, x1: int, v: int, u0: int, u1: int, w: int)
    requires
        0 <= x0,
        x1 <= w,
        0 <= u0,
        u1 <= w,
        region::in_row(p, y, x0, x1, w),
        region::in_row(p, v, u0, u1, w),
    ensures
        y == v,
{
    assert(y == v) by (nonlinear_arith)
        requires
            y * w <= p < y * w + w,
            v * w <= p < v * w + w,
    ;
}

/// The elements of a frame that repaints everything, without those that move.
spec fn settled_elements<L>(
    a: AnnotationsView,
    o: OverlayView,
    device: u32,
    scale: u32,
    cache: CacheView<L>,
) -> Seq<Element> {
    render::elements_of(
        a,
        OverlayView { stroke: None, eraser: None, ..o },
        None,
        device,
        scale,
        cache,
        None,
    )
}

proof fn lemma_settled_elements<L>(
    a: AnnotationsView,
    o: OverlayView,
    device: u32,
    scale: u32,
    cache: CacheView<L>,
)
    requires
        o.text is None,
    ensures
        render::elements_of(a, o, None, device, scale, cache, None).filter(
            |e: Element| is_settled(e),
        ) == settled_elements(a, o, device, scale, cache),
        forall|e: Element| #[trigger]
            settled_elements(a, o, device, scale, cache).contains(e) ==> is_settled(e),
{
    let keep = |e: Element| is_settled(e);
    let all_strokes = |i: int| render::reached(cache.stroke_box(i, a.strokes[i]), None);
    let all_texts = |i: int| render::is_drawn(a, None, cache, None, i);
    let s = render::picked(a.strokes.len() as int, all_strokes).map_values(
        |i: usize| Element::Stroke(i),
    );
    let t = render::picked(a.texts.len() as int, all_texts).map_values(|i: usize| Element::Text(i));
    let p = render::optional(o.stroke is Some, Element::StrokeInProgress);
    let e = render::optional(o.text is Some, Element::Edit);
    let h = render::optional(render::draws_hint(o, None, device, scale), Element::Hint);
    let m = render::optional(o.eraser is Some, Element::EraserMarker);
    lemma_filter_keeps_all(s, keep);
    lemma_filter_keeps_all(t, keep);
    Seq::filter_distributes_over_add(s, t, keep);
    Seq::filter_distributes_over_add(s + t, p, keep);
    Seq::filter_distributes_over_add(s + t + p, e, keep);
    Seq::filter_distributes_over_add(s + t + p + e, h, keep);
    Seq::filter_distributes_over_add(s + t + p + e + h, m, keep);
    lemma_optional_filter(o.stroke is Some, Element::StrokeInProgress, keep);
    lemma_optional_filter(o.text is Some, Element::Edit, keep);
    lemma_optional_filter(render::draws_hint(o, None, device, scale), Element::Hint, keep);
    lemma_optional_filter(o.eraser is Some, Element::EraserMarker, keep);
    let whole = render::elements_of(a, o, None, device, scale, cache, None);
    let settled = settled_elements(a, o, device, scale, cache);
    assert(whole == s + t + p + e + h + m);
    let none = Seq::<Element>::empty();
    assert(settled =~= s + t + none + none + h + none);
    assert(whole.filter(keep) =~= settled);
}

proof fn lemma_filter_keeps_all(s: Seq<Element>, keep: spec_fn(Element) -> bool)
    requires
        forall|i: int| 0 <= i < s.len() ==> keep(#[trigger] s[i]),
    ensures
        s.filter(keep) == s,
    decreases s.len(),
{
    reveal(Seq::filter);
    if s.len() > 0 {
        assert forall|i: int| 0 <= i < s.drop_last().len() implies keep(
            #[trigger] s.drop_last()[i],
        ) by {
            assert(keep(s[i]));
        }
        lemma_filter_keeps_all(s.drop_last(), keep);
        assert(keep(s[s.len() - 1]));
        assert(s.drop_last().push(s.last()) =~= s);
    } else {
        assert(s.filter(keep) =~= s);
    }
}

proof fn lemma_places<L>(
    a: AnnotationsView,
    o: OverlayView,
    damage: Option<Rect>,
    device: u32,
    scale: u32,
    cache: CacheView<L>,
    e: Element,
)
    requires
        a.strokes.len() <= usize::MAX,
        a.texts.len() <= usize::MAX,
        render::elements_of(a, o, damage, device, scale, cache, None).contains(e),
    ensures
        e matches Element::Stroke(i) ==> i < a.strokes.len(),
        e matches Element::Text(i) ==> i < a.texts.len(),
        e is Edit ==> o.text is Some,
        e is Hint ==> o.hint is Some,
{
    let whole = render::elements_of(a, o, damage, device, scale, cache, None);
    let strokes = render::drawn_strokes(a, damage, cache);
    let pick_stroke = |i: int| render::reached(cache.stroke_box(i, a.strokes[i]), damage);
    let pick_text = |i: int| render::is_drawn(a, damage, cache, None, i);
    let texts = render::picked(a.texts.len() as int, pick_text);
    let k = choose|k: int| 0 <= k < whole.len() && whole[k] == e;
    if k < strokes.len() {
        let i = strokes[k];
        assert(whole[k] == Element::Stroke(i));
        render::picked_is_what_was_asked_for(a.strokes.len() as int, pick_stroke, i);
        assert(strokes.contains(i));
    } else if k < strokes.len() + texts.len() {
        let i = texts[k - strokes.len()];
        assert(whole[k] == Element::Text(i));
        render::picked_is_what_was_asked_for(a.texts.len() as int, pick_text, i);
        assert(texts.contains(i));
    }
}

/// Both frames show the same of everything but the transient elements: the same document, hint
/// and layouts, with no text box being edited.
pub open spec fn differ_in_transients_only(before: OverlayView, now: OverlayView) -> bool {
    before.text is None && now.text is None && before.hint == now.hint
}

/// The box covers the transient elements of both frames.
pub open spec fn covers_what_moved(damage: Rect, before: OverlayView, now: OverlayView) -> bool {
    &&& damage::transient_box(before) is Some ==> damage.covers(damage::transient_box(before)->0)
    &&& damage::transient_box(now) is Some ==> damage.covers(damage::transient_box(now)->0)
}

proof fn lemma_inside<L, P>(
    a: AnnotationsView,
    o: OverlayView,
    width: u64,
    w: u32,
    h: u32,
    scale: u32,
    cache: CacheView<L>,
    damage: Rect,
    paint: spec_fn(Element, int, P) -> P,
    blank: P,
    p: int,
)
    requires
        a.strokes.len() <= usize::MAX,
        a.texts.len() <= usize::MAX,
        scale > 0,
        256 * w == width * scale,
        keeps_to_the_boxes(paint, a, o, width, cache, scale, w, h),
        DamageRegion::of(damage, scale, w, h).holds(p, w, h),
    ensures
        painted(
            paint,
            render::elements_of(a, o, Some(damage), w, scale, cache, None),
            p,
            blank,
        ) == painted(
            paint,
            render::elements_of(a, o, None, w, scale, cache, None),
            p,
            blank,
        ),
{
    let whole = render::elements_of(a, o, None, w, scale, cache, None);
    let keep = |e: Element| takes_part(a, o, width, cache, damage, e);
    a_boxed_frame_draws_what_reaches_into_its_box(a, o, width, w, scale, cache, None, damage);
    assert forall|e: Element| #[trigger] whole.contains(e) && !keep(e) implies leaves_alone(
        paint,
        e,
        p,
    ) by {
        let bounds = element_box(a, o, width, cache, e);
        if bounds is Some {
            boxes_apart_share_no_pixel(damage, bounds->0, scale, w, h, p);
        }
        assert(!in_box(bounds, scale, w, h, p));
    }
    lemma_painting_skips(paint, whole, keep, p, blank);
}

proof fn lemma_outside<L, P>(
    a: AnnotationsView,
    o: OverlayView,
    width: u64,
    w: u32,
    h: u32,
    scale: u32,
    cache: CacheView<L>,
    damage: Rect,
    paint: spec_fn(Element, int, P) -> P,
    start: P,
    p: int,
)
    requires
        a.strokes.len() <= usize::MAX,
        a.texts.len() <= usize::MAX,
        scale > 0,
        256 * w == width * scale,
        o.text is None,
        damage::cached_boxes(a, o, width, cache).settled(damage),
        damage::transient_box(o) is Some ==> damage.covers(damage::transient_box(o)->0),
        keeps_to_the_boxes(paint, a, o, width, cache, scale, w, h),
        !DamageRegion::of(damage, scale, w, h).holds(p, w, h),
    ensures
        painted(
            paint,
            render::elements_of(a, o, Some(damage), w, scale, cache, None),
            p,
            start,
        ) == start,
{
    let whole = render::elements_of(a, o, None, w, scale, cache, None);
    let boxed = render::elements_of(a, o, Some(damage), w, scale, cache, None);
    let keep = |e: Element| takes_part(a, o, width, cache, damage, e);
    let boxes = damage::cached_boxes(a, o, width, cache);
    a_boxed_frame_draws_what_reaches_into_its_box(a, o, width, w, scale, cache, None, damage);
    assert forall|e: Element| #[trigger] boxed.contains(e) implies leaves_alone(paint, e, p) by {
        lemma_places(a, o, Some(damage), w, scale, cache, e);
        lemma_filtered_is_in(whole, keep, e);
        let bounds = element_box(a, o, width, cache, e);
        match e {
            Element::Stroke(i) => {
                assert(damage::covers_if_reached(damage, boxes.strokes[i as int]));
            },
            Element::Text(i) => {
                assert(damage::covers_if_reached(damage, Some(boxes.texts[i as int])));
            },
            _ => {},
        }
        if in_box(bounds, scale, w, h, p) {
            a_covering_box_has_the_pixels(damage, bounds->0, scale, w, h, p);
        }
    }
    lemma_painting_elsewhere(paint, boxed, p, start);
}

proof fn lemma_transients_elsewhere<L, P>(
    a: AnnotationsView,
    o: OverlayView,
    width: u64,
    w: u32,
    h: u32,
    scale: u32,
    cache: CacheView<L>,
    damage: Rect,
    paint: spec_fn(Element, int, P) -> P,
    blank: P,
    p: int,
)
    requires
        a.strokes.len() <= usize::MAX,
        a.texts.len() <= usize::MAX,
        o.text is None,
        damage::transient_box(o) is Some ==> damage.covers(damage::transient_box(o)->0),
        keeps_to_the_boxes(paint, a, o, width, cache, scale, w, h),
        !DamageRegion::of(damage, scale, w, h).holds(p, w, h),
    ensures
        painted(
            paint,
            render::elements_of(a, o, None, w, scale, cache, None),
            p,
            blank,
        ) == painted(paint, settled_elements(a, o, w, scale, cache), p, blank),
{
    let whole = render::elements_of(a, o, None, w, scale, cache, None);
    let keep = |e: Element| is_settled(e);
    lemma_settled_elements(a, o, w, scale, cache);
    assert forall|e: Element| #[trigger] whole.contains(e) && !keep(e) implies leaves_alone(
        paint,
        e,
        p,
    ) by {
        lemma_places(a, o, None, w, scale, cache, e);
        let bounds = element_box(a, o, width, cache, e);
        if in_box(bounds, scale, w, h, p) {
            a_covering_box_has_the_pixels(damage, bounds->0, scale, w, h, p);
        }
    }
    lemma_painting_skips(paint, whole, keep, p, blank);
}

/// A frame that repaints a box leaves the picture that a frame of the whole surface leaves, pixel
/// by pixel. The buffer holds the previous frame, in whatever form `stored` brings pixels into;
/// the box is blanked, the elements that reach into it are painted, and its pixels are stored.
///
/// That holds of every way to paint that keeps each element inside the box it is accounted with,
/// and that paints a settled element now as it did before.
pub proof fn a_boxed_frame_leaves_the_picture_of_a_whole_one<L, P>(
    a: AnnotationsView,
    before: OverlayView,
    now: OverlayView,
    width: u64,
    w: u32,
    h: u32,
    scale: u32,
    cache: CacheView<L>,
    damage: Rect,
    paint_before: spec_fn(Element, int, P) -> P,
    paint_now: spec_fn(Element, int, P) -> P,
    blank: P,
    stored: spec_fn(P) -> P,
    p: int,
)
    requires
        a.strokes.len() <= usize::MAX,
        a.texts.len() <= usize::MAX,
        scale > 0,
        256 * w == width * scale,
        differ_in_transients_only(before, now),
        covers_what_moved(damage, before, now),
        damage::cached_boxes(a, now, width, cache).settled(damage),
        keeps_to_the_boxes(paint_before, a, before, width, cache, scale, w, h),
        keeps_to_the_boxes(paint_now, a, now, width, cache, scale, w, h),
        forall|e: Element, q: int, v: P|
            is_settled(e) && render::elements_of(a, now, None, w, scale, cache, None).contains(e)
                ==> #[trigger] paint_before(e, q, v) == paint_now(e, q, v),
    ensures
        ({
            let previous = render::elements_of(a, before, None, w, scale, cache, None);
            let boxed = render::elements_of(a, now, Some(damage), w, scale, cache, None);
            let whole = render::elements_of(a, now, None, w, scale, cache, None);
            let result = if DamageRegion::of(damage, scale, w, h).holds(p, w, h) {
                stored(painted(paint_now, boxed, p, blank))
            } else {
                painted(paint_now, boxed, p, stored(painted(paint_before, previous, p, blank)))
            };
            result == stored(painted(paint_now, whole, p, blank))
        }),
{
    if DamageRegion::of(damage, scale, w, h).holds(p, w, h) {
        lemma_inside(a, now, width, w, h, scale, cache, damage, paint_now, blank, p);
    } else {
        let previous = render::elements_of(a, before, None, w, scale, cache, None);
        let held = stored(painted(paint_before, previous, p, blank));
        lemma_outside(a, now, width, w, h, scale, cache, damage, paint_now, held, p);
        lemma_transients_elsewhere(
            a,
            before,
            width,
            w,
            h,
            scale,
            cache,
            damage,
            paint_before,
            blank,
            p,
        );
        lemma_transients_elsewhere(
            a,
            now,
            width,
            w,
            h,
            scale,
            cache,
            damage,
            paint_now,
            blank,
            p,
        );
        lemma_settled_elements(a, now, w, scale, cache);
        let settled = settled_elements(a, now, w, scale, cache);
        assert(settled_elements(a, before, w, scale, cache) == settled);
        let whole = render::elements_of(a, now, None, w, scale, cache, None);
        assert forall|e: Element, v: P| settled.contains(e) implies #[trigger] paint_before(e, p, v)
            == paint_now(e, p, v) by {
            lemma_filtered_is_in(whole, |e: Element| is_settled(e), e);
        }
        lemma_painting_alike(paint_before, paint_now, settled, p, blank);
    }
}

/// Every layout that is held is that of its text and size at the scale of the cache, as `layout`
/// says what that is.
pub open spec fn is_faithful<L>(
    cache: CacheView<L>,
    layout: spec_fn(Seq<char>, u32, u32) -> L,
) -> bool {
    forall|i: int|
        (#[trigger] cache.entry(i)) is Some ==> cache.entry(i)->0.layout == layout(
            cache.entry(i)->0.text@,
            cache.entry(i)->0.size,
            cache.scale,
        )
}

/// The cache once the first `n` text boxes were laid out where a whole frame misses them.
pub open spec fn laid_out<L>(
    a: AnnotationsView,
    cache: CacheView<L>,
    fresh: spec_fn(int) -> TextCacheEntry<L>,
    n: int,
) -> CacheView<L>
    decreases n,
{
    if n <= 0 {
        cache
    } else {
        let before = laid_out(a, cache, fresh, n - 1);
        if render::is_missing(a, None, cache, None, n - 1) {
            before.with_entry((n - 1) as nat, fresh(n - 1))
        } else {
            before
        }
    }
}

proof fn lemma_laid_out<L>(
    a: AnnotationsView,
    cache: CacheView<L>,
    fresh: spec_fn(int) -> TextCacheEntry<L>,
    layout: spec_fn(Seq<char>, u32, u32) -> L,
    n: int,
)
    requires
        0 <= n <= a.texts.len(),
        cache.entries.len() == a.texts.len(),
        is_faithful(cache, layout),
        forall|i: int|
            0 <= i < a.texts.len() ==> (#[trigger] fresh(i)).is_for(a.texts[i]) && fresh(i).layout
                == layout(a.texts[i].text, a.texts[i].size, cache.scale),
    ensures
        laid_out(a, cache, fresh, n).scale == cache.scale,
        laid_out(a, cache, fresh, n).stroke_bounds == cache.stroke_bounds,
        laid_out(a, cache, fresh, n).entries.len() == a.texts.len(),
        forall|i: int|
            0 <= i < a.texts.len() ==> (#[trigger] laid_out(a, cache, fresh, n).entries[i]) == (
            if i < n && render::is_missing(a, None, cache, None, i) {
                Some(fresh(i))
            } else {
                cache.entries[i]
            }),
    decreases n,
{
    if n > 0 {
        lemma_laid_out(a, cache, fresh, layout, n - 1);
    }
}

proof fn lemma_whole_frame_layouts<L>(
    a: AnnotationsView,
    cache: CacheView<L>,
    scale: u32,
    fresh: spec_fn(int) -> TextCacheEntry<L>,
    layout: spec_fn(Seq<char>, u32, u32) -> L,
)
    requires
        is_faithful(cache, layout),
        forall|i: int|
            0 <= i < a.texts.len() ==> (#[trigger] fresh(i)).is_for(a.texts[i]) && fresh(i).layout
                == layout(a.texts[i].text, a.texts[i].size, scale),
    ensures
        ({
            let held = laid_out(
                a,
                cache.synced(a.strokes.len(), a.texts.len(), scale),
                fresh,
                a.texts.len() as int,
            );
            &&& is_faithful(held, layout)
            &&& held.scale == scale
            &&& forall|i: int|
                0 <= i < a.texts.len() ==> held.has_text(i, #[trigger] a.texts[i])
        }),
{
    let synced = cache.synced(a.strokes.len(), a.texts.len(), scale);
    assert forall|i: int| (#[trigger] synced.entry(i)) is Some implies synced.entry(i)->0.layout
        == layout(synced.entry(i)->0.text@, synced.entry(i)->0.size, synced.scale) by {
        assert(cache.entry(i) == synced.entry(i));
    }
    lemma_laid_out(a, synced, fresh, layout, a.texts.len() as int);
    let held = laid_out(a, synced, fresh, a.texts.len() as int);
    assert forall|i: int| 0 <= i < a.texts.len() implies held.has_text(i, #[trigger] a.texts[i]) by {
        assert(fresh(i).is_for(a.texts[i]));
        assert(held.entry(i) == held.entries[i]);
    }
    assert forall|i: int| (#[trigger] held.entry(i)) is Some implies held.entry(i)->0.layout
        == layout(held.entry(i)->0.text@, held.entry(i)->0.size, held.scale) by {
        assert(held.entry(i) == held.entries[i]);
        assert(synced.entry(i) == synced.entries[i]);
        assert(fresh(i).is_for(a.texts[i]));
    }
}

/// What a cache holds from earlier frames never changes the picture: a whole frame draws the same
/// elements, and every text box with the same layout, as one that starts from an empty cache.
/// `layout` says how a text of a size is laid out at a scale; `fresh` is what a frame that misses
/// a text box puts into the cache.
pub proof fn a_warm_cache_changes_nothing<L>(
    a: AnnotationsView,
    o: OverlayView,
    device: u32,
    scale: u32,
    cache: CacheView<L>,
    fresh: spec_fn(int) -> TextCacheEntry<L>,
    layout: spec_fn(Seq<char>, u32, u32) -> L,
)
    requires
        is_faithful(cache, layout),
        forall|i: int|
            0 <= i < a.texts.len() ==> (#[trigger] fresh(i)).is_for(a.texts[i]) && fresh(i).layout
                == layout(a.texts[i].text, a.texts[i].size, scale),
    ensures
        ({
            let (strokes, texts) = (a.strokes.len(), a.texts.len());
            let warm = laid_out(a, cache.synced(strokes, texts, scale), fresh, texts as int);
            let cold = laid_out(
                a,
                CacheView::<L>::cold().synced(strokes, texts, scale),
                fresh,
                texts as int,
            );
            &&& render::elements_of(a, o, None, device, scale, warm, None)
                == render::elements_of(a, o, None, device, scale, cold, None)
            &&& forall|i: int|
                0 <= i < texts ==> (#[trigger] warm.entry(i)) is Some && cold.entry(i) is Some
                    && warm.entry(i)->0.layout == cold.entry(i)->0.layout
                    && warm.entry(i)->0.layout == layout(a.texts[i].text, a.texts[i].size, scale)
            &&& is_faithful(warm, layout)
        }),
{
    let (strokes, texts) = (a.strokes.len(), a.texts.len());
    let empty = CacheView::<L>::cold();
    lemma_whole_frame_layouts(a, cache, scale, fresh, layout);
    lemma_whole_frame_layouts(a, empty, scale, fresh, layout);
    let warm = laid_out(a, cache.synced(strokes, texts, scale), fresh, texts as int);
    let cold = laid_out(a, empty.synced(strokes, texts, scale), fresh, texts as int);
    let stroke_warm = |i: int| render::reached(warm.stroke_box(i, a.strokes[i]), None);
    let stroke_cold = |i: int| render::reached(cold.stroke_box(i, a.strokes[i]), None);
    render::lemma_picked_alike(strokes as int, stroke_warm, stroke_cold);
    let text_warm = |i: int| render::is_drawn(a, None, warm, None, i);
    let text_cold = |i: int| render::is_drawn(a, None, cold, None, i);
    assert forall|i: int| 0 <= i < texts implies #[trigger] text_warm(i) == text_cold(i) by {
        assert(warm.has_text(i, a.texts[i]));
        assert(cold.has_text(i, a.texts[i]));
    }
    render::lemma_picked_alike(texts as int, text_warm, text_cold);
    assert forall|i: int| 0 <= i < texts implies (#[trigger] warm.entry(i)) is Some && cold.entry(
        i,
    ) is Some && warm.entry(i)->0.layout == cold.entry(i)->0.layout && warm.entry(i)->0.layout
        == layout(a.texts[i].text, a.texts[i].size, scale) by {
        assert(warm.has_text(i, a.texts[i]));
        assert(cold.has_text(i, a.texts[i]));
        assert(cold.entry(i) is Some);
    }
}

/// A text box that was changed is noticed: whatever was held for the text or the size it had, a
/// whole frame lays it out anew.
pub proof fn a_changed_text_is_noticed<L>(a: AnnotationsView, cache: CacheView<L>, i: int)
    requires
        0 <= i < a.texts.len(),
        cache.entry(i) is Some,
        cache.entry(i)->0.text@ != a.texts[i].text || cache.entry(i)->0.size != a.texts[i].size,
    ensures
        render::is_missing(a, None, cache, None, i),
        !render::is_drawn(a, None, cache, None, i),
{
}

} // verus!
