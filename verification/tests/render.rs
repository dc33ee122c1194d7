use sgraffito::canvas::{
    Doc, Hint, OutputAnnotations, Overlay, Rect, Stroke, TextBuffer, TextItem, TextOverlay,
};
use sgraffito::geometry::{PARTS, RECT_PX};
use sgraffito::hint::{fitting_pill, hint_items, hint_shapes, HintCache, ItemWidths, Shape};
use sgraffito::hint::{HINT_KEY_SIZE, HINT_LABEL_SIZE};
use sgraffito::paint::{PathOp, StrokeShape, PATH_PX};
use sgraffito::render::{
    blend_within, damage_box, damage_box_with_cache, elements_to_draw, eraser_marker, parse_hex, rounded_rect_path, stroke_shape, texts_to_lay_out, transient_bounds, DamageRegion,
    Element, TextLayoutCache,
};
use sgraffito::typeset::{display_text, edit_marks, paint_bounds, text_edit_bounds, Glyph, Run};
use tiny_skia::{FillRule, LineCap, LineJoin, Paint, Path, PathBuilder, PixmapMut, Transform};

/// A surface width in the library's units.
fn units(w: u32) -> u64 {
    256 * w as u64
}

/// Device pixels of a length in parts.
fn parts(v: i128) -> f32 {
    (v as f64 / RECT_PX as f64) as f32
}

const W: u32 = 200;
const H: u32 = 100;

/// Logical pixels in the library's units.
fn px(v: f32) -> i32 {
    (v * 256.0).round() as i32
}

fn len(v: f32) -> u32 {
    (v * 256.0).round() as u32
}

fn rect(x: f32, y: f32, w: f32, h: f32) -> Rect {
    let parts = |v: f32| px(v) as i128 * PARTS;
    Rect { x: parts(x), y: parts(y), w: parts(w), h: parts(h) }
}

/// Device pixels of a length in 1/256.
fn device(v: i128) -> f32 {
    v as f32 / 256.0
}

/// Draws frames with tiny-skia. Text is laid out without a font: every glyph is a block of half
/// an em in a cell of 0.6 em, on lines of 1.2 em.
struct Renderer {
    hints: HintCache,
}

type Cache = TextLayoutCache<Vec<Run>>;

fn shape(text: &str, size: u32, scale: u32) -> Vec<Run> {
    let em = (size * scale) as i32;
    let mut start = 0;
    let mut runs = vec![];
    for (n, line) in text.split('\n').enumerate() {
        let top = n as i32 * em * 6 / 5;
        let glyphs: Vec<Glyph> = line
            .char_indices()
            .enumerate()
            .map(|(k, (at, _))| Glyph { start: start + at, x: k as i32 * em * 3 / 5 })
            .collect();
        runs.push(Run {
            line_w: glyphs.len() as i32 * em * 3 / 5,
            line_y: top + em * 9 / 10,
            line_top: top,
            line_height: em * 6 / 5,
            glyphs,
        });
        start += line.len() + 1;
    }
    runs
}

fn text_width(text: &str, size: u32) -> u32 {
    text.chars().count() as u32 * size * 3 / 5
}

fn build(ops: &[PathOp]) -> Option<Path> {
    let f = |v: i128| (v as f64 / PATH_PX as f64) as f32;
    let mut pb = PathBuilder::new();
    for op in ops {
        match *op {
            PathOp::MoveTo { x, y } => pb.move_to(f(x), f(y)),
            PathOp::LineTo { x, y } => pb.line_to(f(x), f(y)),
            PathOp::QuadTo { cx, cy, x, y } => pb.quad_to(f(cx), f(cy), f(x), f(y)),
            PathOp::CubicTo { ax, ay, bx, by, x, y } => {
                pb.cubic_to(f(ax), f(ay), f(bx), f(by), f(x), f(y))
            }
            PathOp::Close => pb.close(),
        }
    }
    pb.finish()
}

fn paint(c: [u8; 4]) -> Paint<'static> {
    let mut paint = Paint::default();
    paint.set_color_rgba8(c[0], c[1], c[2], c[3]);
    paint.anti_alias = true;
    paint
}

fn line_style(width: f32) -> tiny_skia::Stroke {
    tiny_skia::Stroke {
        width,
        line_cap: LineCap::Round,
        line_join: LineJoin::Round,
        ..Default::default()
    }
}

fn fill(pixmap: &mut PixmapMut, path: &Path, c: [u8; 4]) {
    pixmap.fill_path(path, &paint(c), FillRule::Winding, Transform::identity(), None);
}

fn outline(pixmap: &mut PixmapMut, path: &Path, c: [u8; 4], width: f32) {
    pixmap.stroke_path(path, &paint(c), &line_style(width), Transform::identity(), None);
}

fn draw_stroke(pixmap: &mut PixmapMut, s: &Stroke, scale: u32) {
    match stroke_shape(s, scale) {
        StrokeShape::Nothing => {}
        StrokeShape::Dot { x, y, width, color } => {
            if let Some(path) = PathBuilder::from_circle(device(x), device(y), device(width as i128) / 2.0)
            {
                fill(pixmap, &path, color);
            }
        }
        StrokeShape::Line { path, width, color } => {
            if let Some(path) = build(&path) {
                outline(pixmap, &path, color, device(width as i128));
            }
        }
    }
}

impl Renderer {
    fn new() -> Self {
        Self { hints: HintCache::new() }
    }

    #[allow(clippy::too_many_arguments)]
    fn render(
        &mut self,
        buf: &mut [u8],
        width: u32,
        height: u32,
        scale: u32,
        ann: &OutputAnnotations,
        overlay: &Overlay,
        damage: Option<Rect>,
    ) {
        let mut cache = Cache::new();
        self.render_with_cache(buf, width, height, scale, ann, overlay, damage, &mut cache, None);
    }

    #[allow(clippy::too_many_arguments)]
    fn render_with_cache(
        &mut self,
        buf: &mut [u8],
        width: u32,
        height: u32,
        scale: u32,
        ann: &OutputAnnotations,
        overlay: &Overlay,
        damage: Option<Rect>,
        cache: &mut Cache,
        skip: Option<usize>,
    ) {
        let Some(mut pixmap) = PixmapMut::from_bytes(buf, width, height) else {
            return;
        };
        for i in texts_to_lay_out(ann, damage, scale, cache, skip) {
            let item = &ann.texts[i];
            let runs = shape(&item.text, item.size, scale);
            let bounds = paint_bounds(&runs, item, scale);
            cache.insert(i, item, runs, bounds);
        }
        for element in elements_to_draw(ann, overlay, damage, width, scale, cache, skip) {
            match element {
                Element::Stroke(i) => draw_stroke(&mut pixmap, &ann.strokes[i], scale),
                Element::Text(i) => {
                    let runs = cache.get_mut(i).unwrap();
                    let item = &ann.texts[i];
                    draw_runs(&mut pixmap, runs, corner(item, scale), &item.color, item.size * scale);
                }
                Element::StrokeInProgress => {
                    draw_stroke(&mut pixmap, overlay.stroke.as_ref().unwrap(), scale)
                }
                Element::Edit => {
                    let edit = overlay.text.as_ref().unwrap();
                    draw_text(&mut pixmap, &edit.item, scale, Some(edit));
                }
                Element::Hint => {
                    self.draw_hint(&mut pixmap, overlay.hint.as_ref().unwrap(), scale)
                }
                Element::EraserMarker => {
                    let m = eraser_marker(overlay.eraser.unwrap(), scale);
                    let circle = PathBuilder::from_circle(device(m.x), device(m.y), device(m.radius));
                    outline(&mut pixmap, &circle.unwrap(), m.color, device(m.width));
                }
            }
        }
    }

    fn draw_hint(&mut self, pixmap: &mut PixmapMut, hint: &Hint, scale: u32) {
        let surface = pixmap.width();
        if self.hints.find(hint, surface, scale).is_none() {
            let items = hint_items(hint);
            let mut widths = ItemWidths { keys: [0; 6], labels: [0; 6] };
            for (i, (key, label)) in items.iter().enumerate() {
                widths.keys[i] = text_width(key, HINT_KEY_SIZE);
                widths.labels[i] = text_width(label, HINT_LABEL_SIZE);
            }
            let Some(pill) = fitting_pill(hint, surface, scale, &widths) else {
                return;
            };
            self.hints.keep(*hint, surface, scale, pill);
        }
        let pill = self.hints.find(hint, surface, scale).unwrap();
        for part in hint_shapes(pill, hint.color, scale) {
            match part {
                Shape::RoundRect { area, radius, fill: inner, edge, edge_width } => {
                    if let Some(path) = rounded_rect_path(area, radius).and_then(|p| build(&p)) {
                        fill(pixmap, &path, inner);
                        outline(pixmap, &path, edge, parts(edge_width));
                    }
                }
                Shape::Text(label) => {
                    let at = ((label.x / PARTS) as i32, (label.y / PARTS) as i32);
                    let runs = shape(&label.text, label.size, scale);
                    draw_runs(pixmap, &runs, at, &label.color, label.size * scale);
                }
            }
        }
    }

    fn text_edit_bounds(&mut self, text: &str, item: &TextItem, scale: u32) -> Rect {
        text_edit_bounds(&shape(text, item.size, scale), item, scale)
    }
}

/// The corner of a text box, in 1/256 of a device pixel.
fn corner(item: &TextItem, scale: u32) -> (i32, i32) {
    (item.x * scale as i32, item.y * scale as i32)
}

fn draw_runs(pixmap: &mut PixmapMut, runs: &[Run], (ox, oy): (i32, i32), color: &str, em: u32) {
    let c = parse_hex(color);
    let (w, h) = (pixmap.width(), pixmap.height());
    let em = em as i32;
    for run in runs {
        for glyph in &run.glyphs {
            let (x, y) = ((ox + glyph.x) / 256, (oy + run.line_y - em / 2) / 256);
            let side = (em / 512) as u32;
            assert!(blend_within(pixmap, w, h, x, y, side, side, c));
        }
    }
}

fn draw_text(pixmap: &mut PixmapMut, item: &TextItem, scale: u32, edit: Option<&TextOverlay>) {
    let Some(display) = display_text(item, edit) else {
        return;
    };
    let runs = shape(&display, item.size, scale);
    draw_runs(pixmap, &runs, corner(item, scale), &item.color, item.size * scale);
    if let Some(e) = edit {
        for mark in edit_marks(&runs, item, e, scale) {
            let r = mark.area;
            if let Some(r) = tiny_skia::Rect::from_xywh(parts(r.x), parts(r.y), parts(r.w), parts(r.h)) {
                fill(pixmap, &PathBuilder::from_rect(r), mark.color);
            }
        }
    }
}

fn buffer(w: u32, h: u32) -> Vec<u8> {
    vec![0u8; (w * h * 4) as usize]
}

fn alpha(buf: &[u8], w: u32, x: u32, y: u32) -> u8 {
    buf[((y * w + x) * 4 + 3) as usize]
}

fn ink(buf: &[u8]) -> usize {
    buf.chunks_exact(4).filter(|p| p[3] != 0).count()
}

fn ann(strokes: Vec<Stroke>, texts: Vec<TextItem>) -> OutputAnnotations {
    OutputAnnotations { strokes, texts }
}

fn line(y: f32, x0: f32, x1: f32) -> Stroke {
    Stroke {
        color: "#e01b24".into(),
        width: len(4.0),
        points: vec![[px(x0), px(y)], [px(x1), px(y)]],
    }
}

#[test]
fn empty_doc_leaves_buffer_transparent() {
    let mut buf = buffer(W, H);
    Renderer::new().render(
        &mut buf,
        W,
        H,
        1,
        &OutputAnnotations::default(),
        &Overlay::default(),
        None,
    );
    assert_eq!(ink(&buf), 0);
}

#[test]
fn committed_stroke_draws_ink_on_the_line_only() {
    let mut buf = buffer(W, H);
    let a = ann(vec![line(50.0, 20.0, 180.0)], vec![]);
    Renderer::new().render(&mut buf, W, H, 1, &a, &Overlay::default(), None);
    assert!(alpha(&buf, W, 100, 50) > 0);
    assert_eq!(alpha(&buf, W, 100, 10), 0);
    assert_eq!(alpha(&buf, W, 100, 90), 0);
}

#[test]
fn scale_multiplies_coordinates() {
    let (w, h) = (W * 2, H * 2);
    let mut buf = buffer(w, h);
    let a = ann(vec![line(50.0, 20.0, 180.0)], vec![]);
    Renderer::new().render(&mut buf, w, h, 2, &a, &Overlay::default(), None);
    assert!(alpha(&buf, w, 200, 100) > 0);
    assert_eq!(alpha(&buf, w, 200, 50), 0);
}

#[test]
fn text_item_draws_ink() {
    let mut buf = buffer(W, H);
    let a = ann(
        vec![],
        vec![TextItem {
            x: px(10.0),
            y: px(10.0),
            color: "#ffffff".into(),
            size: len(32.0),
            text: "H".into(),
        }],
    );
    Renderer::new().render(&mut buf, W, H, 1, &a, &Overlay::default(), None);
    assert!(ink(&buf) > 0);
    assert_eq!(alpha(&buf, W, 190, 90), 0);
}

#[test]
fn overlay_in_progress_stroke_is_drawn() {
    let mut buf = buffer(W, H);
    let overlay = Overlay {
        stroke: Some(line(30.0, 10.0, 60.0)),
        ..Default::default()
    };
    Renderer::new().render(
        &mut buf,
        W,
        H,
        1,
        &OutputAnnotations::default(),
        &overlay,
        None,
    );
    assert!(alpha(&buf, W, 35, 30) > 0);
}

#[test]
fn overlay_eraser_marker_is_drawn() {
    let mut buf = buffer(W, H);
    let overlay = Overlay {
        eraser: Some([px(150.0), px(20.0)]),
        ..Default::default()
    };
    Renderer::new().render(
        &mut buf,
        W,
        H,
        1,
        &OutputAnnotations::default(),
        &overlay,
        None,
    );
    assert!(ink(&buf) > 0);
    assert_eq!(alpha(&buf, W, 100, 80), 0);
}

fn edit(item: &TextItem, typed: &str, index: Option<usize>, preedit: &str) -> Overlay {
    Overlay {
        text: Some(TextOverlay {
            item: item.clone(),
            buffer: TextBuffer::new(typed),
            index,
            preedit: preedit.into(),
        }),
        ..Default::default()
    }
}

#[test]
fn overlay_text_box_draws_text_and_cursor() {
    let mut buf = buffer(W, H);
    let item = TextItem {
        x: px(10.0),
        y: px(10.0),
        color: "#ffffff".into(),
        size: len(32.0),
        text: "ab".into(),
    };
    let overlay = edit(&item, "ab", None, "");
    Renderer::new().render(
        &mut buf,
        W,
        H,
        1,
        &OutputAnnotations::default(),
        &overlay,
        None,
    );
    assert!(ink(&buf) > 0);
    // The caret stands behind the text, as high as the line.
    assert!(alpha(&buf, W, 49, 12) > 0);
    assert!(alpha(&buf, W, 49, 46) > 0);
}

#[test]
fn preedit_renders_more_ink_than_committed_text_alone() {
    let item = TextItem {
        x: px(10.0),
        y: px(10.0),
        color: "#ffffff".into(),
        size: len(32.0),
        text: "ab".into(),
    };
    let mut plain = buffer(W, H);
    let mut with_preedit = buffer(W, H);
    Renderer::new().render(
        &mut plain,
        W,
        H,
        1,
        &OutputAnnotations::default(),
        &edit(&item, "ab", None, ""),
        None,
    );
    Renderer::new().render(
        &mut with_preedit,
        W,
        H,
        1,
        &OutputAnnotations::default(),
        &edit(&item, "ab", None, "ni"),
        None,
    );
    assert!(
        ink(&with_preedit) > ink(&plain),
        "preedit should add ink: {} vs {}",
        ink(&with_preedit),
        ink(&plain)
    );
}

#[test]
fn stroke_is_smoothed_through_the_sample_midpoints() {
    let mut buf = buffer(120, 80);
    let points = vec![
        [px(10.0), px(60.0)],
        [px(40.0), px(20.0)],
        [px(70.0), px(60.0)],
        [px(100.0), px(20.0)],
    ];
    let a = ann(
        vec![Stroke {
            color: "#e01b24".into(),
            width: len(4.0),
            points,
        }],
        vec![],
    );
    Renderer::new().render(&mut buf, 120, 80, 1, &a, &Overlay::default(), None);
    // The ends are still exactly on the first and last sample, with round caps.
    assert!(alpha(&buf, 120, 10, 60) > 0);
    assert!(alpha(&buf, 120, 100, 20) > 0);
    // The interior samples are control points of the curve, not points on it: a polyline
    // would paint both of these, a smoothed stroke cuts the corner instead.
    assert_eq!(alpha(&buf, 120, 40, 20), 0);
    assert_eq!(alpha(&buf, 120, 70, 60), 0);
}

#[test]
fn single_sample_stroke_is_a_dot() {
    let mut buf = buffer(W, H);
    let a = ann(
        vec![Stroke {
            color: "#e01b24".into(),
            width: len(4.0),
            points: vec![[px(60.0), px(40.0)]],
        }],
        vec![],
    );
    Renderer::new().render(&mut buf, W, H, 1, &a, &Overlay::default(), None);
    assert!(alpha(&buf, W, 60, 40) > 0);
    assert_eq!(alpha(&buf, W, 60, 50), 0);
}

/// One frame exactly as it is composed: clear the damaged region, draw, then swap the R and B
/// bytes of that region.
fn frame(
    buf: &mut [u8],
    w: u32,
    h: u32,
    ann: &OutputAnnotations,
    overlay: &Overlay,
    damage: Option<Rect>,
) {
    let region = match damage {
        None => DamageRegion::All,
        Some(d) => DamageRegion::from_logical(d, 1, w, h),
    };
    region.clear(buf, w, h);
    Renderer::new().render(buf, w, h, 1, ann, overlay, damage);
    region.swap_rb(buf, w, h);
}

fn dot(x: f32, y: f32) -> Overlay {
    Overlay {
        stroke: Some(Stroke {
            color: "#f6d32d".into(),
            width: len(3.0),
            points: vec![[px(x), px(y)]],
        }),
        ..Default::default()
    }
}

#[test]
fn hint_draws_ink_only_when_it_is_present() {
    let doc = OutputAnnotations::default();
    let with = Overlay {
        hint: Some(Hint {
            tool: "text",
            color: "#33d17a",
            size: len(18.0),
        }),
        ..Default::default()
    };
    let mut buf = buffer(640, 120);
    Renderer::new().render(&mut buf, 640, 120, 1, &doc, &with, None);
    assert!(ink(&buf) > 0);

    let mut plain = buffer(640, 120);
    Renderer::new().render(&mut plain, 640, 120, 1, &doc, &Overlay::default(), None);
    assert_eq!(ink(&plain), 0);
}

#[test]
fn hint_is_a_centred_translucent_capsule() {
    let (w, h) = (640u32, 120u32);
    let mut buf = buffer(w, h);
    let overlay = Overlay {
        hint: Some(Hint {
            tool: "pen",
            color: "#33d17a",
            size: len(3.0),
        }),
        ..Default::default()
    };
    Renderer::new().render(
        &mut buf,
        w,
        h,
        1,
        &OutputAnnotations::default(),
        &overlay,
        None,
    );
    // The capsule lives in the top strip and is centred: the row through its middle is
    // painted in the middle of the surface and empty at the far left edge.
    let painted: Vec<u32> = (0..w).filter(|x| alpha(&buf, w, *x, 33) > 0).collect();
    assert!(!painted.is_empty());
    let (left, right) = (*painted.first().unwrap(), *painted.last().unwrap());
    assert!(
        (left + right).abs_diff(w - 1) <= 2,
        "pill {left}..{right} is not centred on {w}"
    );
    assert_eq!(alpha(&buf, w, 2, 33), 0);
    // The fill is translucent, so the wallpaper still reads through the capsule.
    let fill = alpha(&buf, w, left + 4, 33);
    assert!(fill > 0 && fill < 255, "fill alpha {fill}");
}

#[test]
fn the_eraser_cannot_reach_the_hint() {
    // The hint lives in the transient overlay, never in the document, so a click at its
    // position has nothing to delete — including the colour swatch at the hint's origin.
    let mut doc = OutputAnnotations::default();
    assert!(!doc.erase(px(16.0), px(16.0)));
    assert!(!doc.erase(px(40.0), px(22.0)));
}

#[test]
fn damage_region_clears_and_swaps_only_its_rectangle() {
    let (w, h) = (4u32, 2u32);
    let mut buf = vec![9u8; (w * h * 4) as usize];
    let region = DamageRegion::from_logical(rect(1.0, 0.0, 1.0, 2.0), 1, w, h);
    region.clear(&mut buf, w, h);
    for y in 0..h {
        for x in 0..w {
            let v = buf[((y * w + x) * 4) as usize];
            assert_eq!(v, if x == 1 { 0 } else { 9 }, "pixel {x},{y}");
        }
    }
    // A rectangle that runs off the surface is clipped to it.
    assert_eq!(
        DamageRegion::from_logical(rect(-5.0, -5.0, 100.0, 100.0), 1, w, h),
        DamageRegion::Rect {
            x0: 0,
            y0: 0,
            x1: 4,
            y1: 2
        }
    );

    let mut buf = vec![0u8; (w * h * 4) as usize];
    let pixel = 4usize; // pixel (1, 0) of a 4-wide surface
    buf[pixel..pixel + 4].copy_from_slice(&[1, 2, 3, 4]);
    DamageRegion::Rect {
        x0: 1,
        y0: 0,
        x1: 2,
        y1: 1,
    }
    .swap_rb(&mut buf, w, h);
    assert_eq!(&buf[pixel..pixel + 4], &[3, 2, 1, 4]);
    // The pixel just outside the region keeps its bytes untouched.
    assert_eq!(&buf[pixel + 4..pixel + 8], &[0, 0, 0, 0]);
}

#[test]
fn damage_box_grows_to_contain_the_element_it_overlaps() {
    let a = ann(vec![line(50.0, 20.0, 180.0)], vec![]);
    let transient = rect(100.0, 40.0, 10.0, 10.0);
    let grown = damage_box(&a, &Overlay::default(), transient, units(W));
    // The line's box is 20..180 x 47..53 plus half the width and the anti-aliasing edge, and
    // the line is drawn whole, so the damage box has to reach past both of its ends: outside
    // the box those pixels would keep already-swapped bytes.
    let at = |v: f32| px(v) as i128 * PARTS;
    assert!(grown.x <= at(17.0) && grown.x + grown.w >= at(183.0), "{grown:?}");
    assert!(grown.y <= at(40.0) && grown.y + grown.h >= at(53.0), "{grown:?}");
    // An element that does not overlap leaves the box alone.
    let far = rect(300.0, 300.0, 10.0, 10.0);
    assert_eq!(damage_box(&a, &Overlay::default(), far, units(W)), far);
}

#[test]
fn bounding_box_frame_is_pixel_identical_to_a_whole_surface_frame() {
    let doc = ann(
        vec![line(50.0, 20.0, 180.0), line(70.0, 20.0, 180.0)],
        vec![TextItem {
            x: px(120.0),
            y: px(60.0),
            color: "#ffffff".into(),
            size: len(18.0),
            text: "note".into(),
        }],
    );
    let first = dot(100.0, 45.0);
    let second = dot(104.0, 48.0);
    let damage = damage_box(
        &doc,
        &second,
        transient_bounds(&first)
            .unwrap()
            .union(transient_bounds(&second).unwrap()),
        units(W),
    );
    // Both buffers start from the same frame, then get the second frame in the two ways.
    let mut whole = buffer(W, H);
    frame(&mut whole, W, H, &doc, &first, None);
    let mut boxed = whole.clone();
    frame(&mut whole, W, H, &doc, &second, None);
    frame(&mut boxed, W, H, &doc, &second, Some(damage));
    assert_eq!(whole, boxed);
}

#[test]
fn a_hint_does_not_widen_a_drag_far_from_it() {
    let overlay = Overlay {
        hint: Some(Hint {
            tool: "pen",
            color: "#ffffff",
            size: len(3.0),
        }),
        ..Default::default()
    };
    let transient = rect(100.0, 300.0, 10.0, 10.0);
    // The hint sits in the top strip; a drag far below it must not drag it along.
    assert_eq!(
        damage_box(&OutputAnnotations::default(), &overlay, transient, units(1920)),
        transient
    );
    // One into it takes all of it in.
    let near = damage_box(&OutputAnnotations::default(), &overlay, rect(900.0, 40.0, 1.0, 90.0), units(1920));
    assert_eq!(near, rect(600.0, 15.0, 720.0, 115.0));
}

#[test]
fn bounding_box_frame_with_a_hint_matches_a_whole_surface_frame() {
    // The reserve has to hold the whole capsule: a frame that damages only the box around a
    // drag into the hint must still paint every capsule pixel the whole-surface frame paints.
    let (w, h) = (1024u32, 200u32);
    let hint = Hint {
        tool: "text",
        color: "#33d17a",
        size: len(72.0),
    };
    let first = Overlay {
        hint: Some(hint),
        ..dot(500.0, 20.0)
    };
    let second = Overlay {
        hint: Some(hint),
        ..dot(504.0, 24.0)
    };
    let damage = damage_box(
        &OutputAnnotations::default(),
        &second,
        transient_bounds(&first)
            .unwrap()
            .union(transient_bounds(&second).unwrap()),
        units(w),
    );
    let mut whole = buffer(w, h);
    frame(
        &mut whole,
        w,
        h,
        &OutputAnnotations::default(),
        &first,
        None,
    );
    let mut boxed = whole.clone();
    frame(
        &mut whole,
        w,
        h,
        &OutputAnnotations::default(),
        &second,
        None,
    );
    frame(
        &mut boxed,
        w,
        h,
        &OutputAnnotations::default(),
        &second,
        Some(damage),
    );
    assert_eq!(whole, boxed);
}

#[test]
fn doc_strokes_of_other_outputs_are_not_drawn() {
    let mut buf = buffer(W, H);
    let mut doc = Doc::default();
    doc.insert("eDP-1", ann(vec![line(50.0, 20.0, 180.0)], vec![]));
    // Rendering an output reads only that output's bucket; an empty bucket means no annotations
    assert!(doc.get("HDMI-1").is_none());
    Renderer::new().render(
        &mut buf,
        W,
        H,
        1,
        &OutputAnnotations::default(),
        &Overlay::default(),
        None,
    );
    assert_eq!(ink(&buf), 0);
}

fn text_item(text: &str) -> TextItem {
    TextItem {
        x: px(10.0),
        y: px(10.0),
        color: "#ffffff".into(),
        size: len(24.0),
        text: text.into(),
    }
}

fn render_cached(
    renderer: &mut Renderer,
    cache: &mut Cache,
    annotations: &OutputAnnotations,
    buffer: &mut [u8],
) {
    renderer.render_with_cache(
        buffer,
        200,
        100,
        1,
        annotations,
        &Overlay::default(),
        None,
        cache,
        None,
    );
}

#[test]
fn warm_text_cache_matches_cold_text_cache() {
    let mut renderer = Renderer::new();
    let mut cache = Cache::new();
    let annotations = ann(vec![], vec![text_item("cached text")]);
    let mut cold = vec![0; 200 * 100 * 4];
    let mut warm = vec![0; 200 * 100 * 4];
    render_cached(&mut renderer, &mut cache, &annotations, &mut cold);
    render_cached(&mut renderer, &mut cache, &annotations, &mut warm);
    assert_eq!(cold, warm);
    assert!(ink(&cold) > 0);
}

#[test]
fn text_cache_notices_changed_text_without_external_invalidation() {
    let mut renderer = Renderer::new();
    let mut cache = Cache::new();
    let mut annotations = ann(vec![], vec![text_item("before")]);
    let mut first = vec![0; 200 * 100 * 4];
    render_cached(&mut renderer, &mut cache, &annotations, &mut first);
    annotations.texts[0].text = "after".into();
    let mut warm = vec![0; 200 * 100 * 4];
    render_cached(&mut renderer, &mut cache, &annotations, &mut warm);
    let mut cold = vec![0; 200 * 100 * 4];
    let mut fresh_cache = Cache::new();
    render_cached(&mut renderer, &mut fresh_cache, &annotations, &mut cold);
    assert_eq!(cold, warm);
    assert_ne!(first, warm);
}

#[test]
fn warm_hint_cache_matches_cold_hint_render() {
    let mut renderer = Renderer::new();
    let annotations = OutputAnnotations::default();
    let overlay = Overlay {
        hint: Some(Hint {
            tool: "pen",
            color: "#e01b24",
            size: len(3.0),
        }),
        ..Default::default()
    };
    let mut cold = vec![0; 640 * 120 * 4];
    renderer.render(&mut cold, 640, 120, 1, &annotations, &overlay, None);
    let mut warm = vec![0; 640 * 120 * 4];
    renderer.render(&mut warm, 640, 120, 1, &annotations, &overlay, None);
    assert_eq!(cold, warm);
    assert_eq!(renderer.hints.entries.len(), 1);
}

#[test]
fn localized_new_text_uses_the_same_safe_damage_path() {
    let mut renderer = Renderer::new();
    let annotations = OutputAnnotations::default();
    let item = text_item("new text");
    let overlay = edit(&item, "new text", None, "");
    let bounds = renderer.text_edit_bounds("new text", &item, 1);
    let mut expected = vec![0; 200 * 100 * 4];
    renderer.render(&mut expected, 200, 100, 1, &annotations, &overlay, None);
    let mut actual = vec![0; 200 * 100 * 4];
    let mut cache = Cache::new();
    renderer.render_with_cache(
        &mut actual,
        200,
        100,
        1,
        &annotations,
        &overlay,
        Some(bounds),
        &mut cache,
        None,
    );
    assert_eq!(actual, expected);
}

#[test]
fn cached_damage_box_matches_uncached_damage_box() {
    let annotations = OutputAnnotations {
        strokes: vec![Stroke {
            color: "#ffffff".into(),
            width: len(3.0),
            points: vec![[px(20.0), px(50.0)], [px(180.0), px(50.0)]],
        }],
        texts: vec![text_item("cached text")],
    };
    let overlay = Overlay::default();
    let from = rect(100.0, 48.0, 4.0, 4.0);
    let expected = damage_box(&annotations, &overlay, from, units(200));
    let mut cache = Cache::new();
    let actual = damage_box_with_cache(&annotations, &overlay, from, units(200), 1, &mut cache);
    assert_eq!(actual, expected);
    // Asked again, the warm cache gives the same.
    let warm = damage_box_with_cache(&annotations, &overlay, from, units(200), 1, &mut cache);
    assert_eq!(warm, expected);
}

#[test]
fn localized_text_edit_skips_the_stale_document_text() {
    let mut renderer = Renderer::new();
    let old_document = ann(vec![], vec![text_item("before")]);
    let mut new_document = old_document.clone();
    new_document.texts[0].text = "after".into();
    let overlay = edit(&old_document.texts[0], "after", Some(0), "");
    let old_bounds = renderer.text_edit_bounds("before", &old_document.texts[0], 1);
    let new_bounds = renderer.text_edit_bounds("after", &new_document.texts[0], 1);
    let damage = old_bounds.union(new_bounds);

    let mut old_frame = vec![0; 200 * 100 * 4];
    renderer.render(
        &mut old_frame,
        200,
        100,
        1,
        &old_document,
        &Overlay::default(),
        None,
    );
    let expected_overlay = edit(&new_document.texts[0], "after", None, "");
    let mut expected = vec![0; 200 * 100 * 4];
    renderer.render(
        &mut expected,
        200,
        100,
        1,
        &OutputAnnotations::default(),
        &expected_overlay,
        None,
    );

    let mut actual = old_frame;
    DamageRegion::from_logical(damage, 1, 200, 100).clear(&mut actual, 200, 100);
    let mut cache = Cache::new();
    renderer.render_with_cache(
        &mut actual,
        200,
        100,
        1,
        &old_document,
        &overlay,
        Some(damage),
        &mut cache,
        Some(0),
    );
    assert_eq!(actual, expected);
}

#[test]
fn elements_are_drawn_from_back_to_front() {
    let item = text_item("note");
    let a = ann(vec![line(50.0, 20.0, 180.0), line(300.0, 20.0, 180.0)], vec![item.clone()]);
    let overlay = Overlay {
        stroke: Some(line(5.0, 0.0, 5.0)),
        eraser: Some([0, 0]),
        text: edit(&item, "typed", None, "").text,
        hint: Some(Hint { tool: "pen", color: "#ffffff", size: len(3.0) }),
    };
    let mut cache: TextLayoutCache<()> = TextLayoutCache::new();
    assert_eq!(texts_to_lay_out(&a, None, 1, &mut cache, Some(0)), vec![]);
    assert_eq!(texts_to_lay_out(&a, None, 1, &mut cache, None), vec![0]);
    cache.insert(0, &item, (), item.paint_bounds());
    assert_eq!(texts_to_lay_out(&a, None, 1, &mut cache, None), vec![]);
    assert_eq!(
        elements_to_draw(&a, &overlay, None, 200, 1, &mut cache, None),
        vec![
            Element::Stroke(0),
            Element::Stroke(1),
            Element::Text(0),
            Element::StrokeInProgress,
            Element::Edit,
            Element::Hint,
            Element::EraserMarker,
        ]
    );
    // Of what is settled, a boxed frame draws what its box reaches only.
    let low = rect(0.0, 290.0, 200.0, 20.0);
    assert_eq!(
        elements_to_draw(&a, &Overlay { stroke: None, text: None, ..overlay }, Some(low), 200, 1, &mut cache, None),
        vec![Element::Stroke(1), Element::EraserMarker]
    );
    // At another scale nothing is laid out yet.
    assert_eq!(texts_to_lay_out(&a, None, 2, &mut cache, None), vec![0]);
}

#[test]
fn a_boxed_frame_draws_the_hint_where_its_box_reaches_it() {
    let overlay = Overlay {
        hint: Some(Hint { tool: "pen", color: "#ffffff", size: len(3.0) }),
        ..Default::default()
    };
    let a = OutputAnnotations::default();
    let mut cache: TextLayoutCache<()> = TextLayoutCache::new();
    let mut draws = |damage: Rect, width: u32, scale: u32| {
        !elements_to_draw(&a, &overlay, Some(damage), width, scale, &mut cache, None).is_empty()
    };
    // 1441 device pixels at scale 2 are 720.5 logical ones, so the reserve starts at 0.25.
    assert!(draws(Rect { x: 0, y: 20 * RECT_PX, w: RECT_PX / 4 + 1, h: RECT_PX }, 1441, 2));
    assert!(!draws(Rect { x: 0, y: 20 * RECT_PX, w: RECT_PX / 4, h: RECT_PX }, 1441, 2));
    // 2161 at scale 3 are 720 and a third, so it starts at a sixth.
    assert!(draws(Rect { x: 0, y: 20 * RECT_PX, w: RECT_PX / 6 + 1, h: RECT_PX }, 2161, 3));
    assert!(!draws(Rect { x: 0, y: 20 * RECT_PX, w: RECT_PX / 6, h: RECT_PX }, 2161, 3));
    assert!(!draws(Rect { x: 0, y: 0, w: 900 * RECT_PX, h: 15 * RECT_PX }, 1441, 2));
    assert!(draws(Rect { x: 0, y: 0, w: 900 * RECT_PX, h: 15 * RECT_PX + 1 }, 1441, 2));
}

#[test]
fn a_boxed_frame_draws_the_reached_elements_of_the_whole_one() {
    let a = ann(
        vec![line(50.0, 20.0, 180.0), line(300.0, 20.0, 180.0), line(52.0, 20.0, 30.0)],
        vec![text_item("note"), TextItem { y: px(200.0), ..text_item("far") }],
    );
    let overlay = dot(100.0, 45.0);
    let mut cache = Cache::new();
    for i in texts_to_lay_out(&a, None, 1, &mut cache, None) {
        let runs = shape(&a.texts[i].text, a.texts[i].size, 1);
        let bounds = paint_bounds(&runs, &a.texts[i], 1);
        cache.insert(i, &a.texts[i], runs, bounds);
    }
    let from = transient_bounds(&overlay).unwrap();
    let damage = damage_box_with_cache(&a, &overlay, from, units(W), 1, &mut cache);
    let whole = elements_to_draw(&a, &overlay, None, W, 1, &mut cache, None);
    let boxed = elements_to_draw(&a, &overlay, Some(damage), W, 1, &mut cache, None);
    let reached: Vec<Element> = whole
        .iter()
        .copied()
        .filter(|e| match *e {
            Element::Stroke(i) => a.strokes[i].bounds().unwrap().intersects(damage),
            Element::Text(i) => cache.bounds(i).unwrap().intersects(damage),
            _ => true,
        })
        .collect();
    assert_eq!(boxed, reached);
    assert_eq!(whole.len(), 6);
    assert!(boxed.len() < whole.len() && boxed.len() > 1);
}
