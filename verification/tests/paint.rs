use sgraffito::canvas::{Hint, OutputAnnotations, Overlay, Rect, Stroke, TextBuffer, TextItem, TextOverlay};
use sgraffito::geometry::{PARTS, RECT_PX};
use sgraffito::hint::{
    active_key, fitting_pill, hint_items, hint_pill, hint_shapes, hint_text, HintCache, ItemWidths,
    Label, Piece, Shape,
};
use sgraffito::layout::TextLayoutCache;
use sgraffito::paint::{
    blend_within, eraser_marker, parse_hex, rounded_rect_path, smoothed_path, stroke_shape, PathOp,
    StrokeShape, PATH_PX,
};
use sgraffito::region::{buffer_format, DamageRegion, ABGR8888, ARGB8888};
use sgraffito::render::{damage_box, damage_box_with_cache, hint_bounds, transient_bounds};
use sgraffito::typeset::{display_text, edit_marks, paint_bounds, text_edit_bounds, Glyph, Run};
use tiny_skia::PixmapMut;
use wayland_client::protocol::wl_shm::Format;

/// A rectangle given in 1/256 of a pixel.
fn units(x: i128, y: i128, w: i128, h: i128) -> Rect {
    Rect { x: x * PARTS, y: y * PARTS, w: w * PARTS, h: h * PARTS }
}

#[test]
fn colours_are_read_as_their_bytes() {
    assert_eq!(parse_hex("#e01b24"), [0xe0, 0x1b, 0x24, 255]);
    assert_eq!(parse_hex("#1C1c1eC7"), [0x1c, 0x1c, 0x1e, 0xc7]);
    assert_eq!(parse_hex("ffffff1f"), [255, 255, 255, 0x1f]);
    assert_eq!(parse_hex("##000000"), [0, 0, 0, 255]);
    assert_eq!(parse_hex("#fff"), [255; 4]);
    assert_eq!(parse_hex(""), [255; 4]);
}

#[test]
fn odd_colours_are_read_like_a_radix_number() {
    let reference = |s: &str| -> [u8; 4] {
        let hex = s.trim_start_matches('#');
        let v = u32::from_str_radix(hex, 16).unwrap_or(0xff_ffff);
        match hex.len() {
            8 => [(v >> 24) as u8, (v >> 16) as u8, (v >> 8) as u8, v as u8],
            6 => [(v >> 16) as u8, (v >> 8) as u8, v as u8, 255],
            _ => [255, 255, 255, 255],
        }
    };
    for s in [
        "+12345", "+1234567", "-12345", "12345g", "1234567g", "++1234", "+", "#+", "买牛", "a买bc",
        "买牛奶", "ffffffff", "FFFFFF", "1 2345", "#12345678#", "aé1b2c", "00000000", "#######",
    ] {
        assert_eq!(parse_hex(s), reference(s), "{s}");
    }
}

#[test]
fn blending_rounds_like_real_arithmetic() {
    // The formula in single precision, as src-over is usually written.
    let real = |s: u8, d: u8, a: u8, most: u8| -> u8 {
        let f = a as f32 / 255.0;
        (s as f32 * f + d as f32 * (1.0 - f)).round().clamp(0.0, most as f32) as u8
    };
    let real_alpha = |da: u8, a: u8| -> u8 {
        (a as f32 + da as f32 * (1.0 - a as f32 / 255.0)).round().clamp(0.0, 255.0) as u8
    };
    for a in 1..=255u8 {
        for s in (0..=255u8).step_by(3) {
            let mut bytes: Vec<u8> = (0..=255u8).flat_map(|v| [v, v / 2, 0, v]).collect();
            let before = bytes.clone();
            let mut pixmap = PixmapMut::from_bytes(&mut bytes, 16, 16).unwrap();
            assert!(blend_within(&mut pixmap, 16, 16, 0, 0, 16, 16, [s, 255 - s, s / 2, a]));
            for (now, d) in bytes.chunks_exact(4).zip(before.chunks_exact(4)) {
                let alpha = real_alpha(d[3], a);
                let expected = [
                    real(s, d[0], a, alpha),
                    real(255 - s, d[1], a, alpha),
                    real(s / 2, d[2], a, alpha),
                    alpha,
                ];
                assert_eq!(now, expected, "{s} {a} {d:?}");
            }
        }
    }
}

#[test]
fn blending_stays_inside_the_picture_and_the_rectangle() {
    let mut bytes = vec![0u8; 5 * 4 * 4];
    let mut pixmap = PixmapMut::from_bytes(&mut bytes, 5, 4).unwrap();
    assert!(blend_within(&mut pixmap, 5, 4, -1, 2, 3, 9, [10, 20, 30, 255]));
    for y in 0..4 {
        for x in 0..5 {
            let i = (y * 5 + x) * 4;
            let expected: [u8; 4] = if x < 2 && y >= 2 { [10, 20, 30, 255] } else { [0; 4] };
            assert_eq!(&bytes[i..i + 4], &expected, "{x} {y}");
        }
    }
}

#[test]
fn blending_with_a_transparent_colour_changes_nothing() {
    let mut bytes = vec![7u8; 16];
    let mut pixmap = PixmapMut::from_bytes(&mut bytes, 2, 2).unwrap();
    assert!(blend_within(&mut pixmap, 2, 2, 0, 0, 2, 2, [255, 255, 255, 0]));
    assert_eq!(bytes, vec![7u8; 16]);
}

#[test]
fn blending_refuses_more_pixels_than_there_are() {
    let mut bytes = vec![0u8; 16];
    let mut pixmap = PixmapMut::from_bytes(&mut bytes, 2, 2).unwrap();
    assert!(!blend_within(&mut pixmap, 3, 2, 0, 0, 2, 2, [255; 4]));
    assert!(!blend_within(&mut pixmap, 2, 2, 1, 0, i32::MAX as u32, 2, [255; 4]));
    assert!(blend_within(&mut pixmap, 2, 2, -5, 0, 2, 2, [255; 4]));
    // Bytes that do not make up whole pixels hold none.
    let mut odd = vec![0u8; 17];
    let mut pixmap = PixmapMut::from_bytes(&mut odd, 2, 2).unwrap();
    assert!(!blend_within(&mut pixmap, 2, 2, 0, 0, 2, 2, [255; 4]));
    assert_eq!(odd, vec![0u8; 17]);
    assert_eq!(bytes, vec![0u8; 16]);
}

#[test]
fn a_path_runs_through_the_middles() {
    // Coordinates in 1/512 of a pixel.
    let at = |v: i128| v * (PATH_PX / 512);
    let points = vec![[0, 0], [256, 512], [768, 0], [1024, 257]];
    assert_eq!(
        smoothed_path(&points, 2).unwrap(),
        vec![
            PathOp::MoveTo { x: 0, y: 0 },
            PathOp::QuadTo { cx: at(1024), cy: at(2048), x: at(2048), y: at(1024) },
            PathOp::QuadTo { cx: at(3072), cy: 0, x: at(3584), y: at(514) },
            PathOp::LineTo { x: at(4096), y: at(1028) },
        ]
    );
    assert_eq!(
        smoothed_path(&vec![[1, 2], [3, 4]], 1).unwrap(),
        vec![
            PathOp::MoveTo { x: at(2), y: at(4) },
            PathOp::LineTo { x: at(6), y: at(8) },
        ]
    );
    // The middle of neighbouring units is half a unit.
    assert_eq!(
        smoothed_path(&vec![[0, 0], [1, 1], [2, 4]], 1).unwrap()[1],
        PathOp::QuadTo { cx: at(2), cy: at(2), x: at(3), y: at(5) }
    );
    assert_eq!(smoothed_path(&vec![[1, 2]], 1), None);
    assert_eq!(smoothed_path(&vec![], 1), None);
}

#[test]
fn a_stroke_is_nothing_a_dot_or_a_line() {
    let stroke = |points: Vec<[i32; 2]>| Stroke { color: "#0102037f".into(), width: 300, points };
    assert_eq!(stroke_shape(&stroke(vec![]), 3), StrokeShape::Nothing);
    assert_eq!(
        stroke_shape(&stroke(vec![[-5, 7]]), 3),
        StrokeShape::Dot { x: -15, y: 21, width: 900, color: [1, 2, 3, 0x7f] }
    );
    let points = vec![[0, 0], [5, 5]];
    assert_eq!(
        stroke_shape(&stroke(points.clone()), 3),
        StrokeShape::Line { path: smoothed_path(&points, 3).unwrap(), width: 900, color: [1, 2, 3, 0x7f] }
    );
}

#[test]
fn a_rounded_rectangle_is_made_of_quarter_circles() {
    // Lengths in pixels, and the corner's control points at 0.552285 of its radius.
    let at = |v: i128| v * PATH_PX;
    let px = |v: i128| v * RECT_PX;
    let area = Rect { x: px(100), y: px(200), w: px(1000), h: px(600) };
    let path = rounded_rect_path(area, px(300)).unwrap();
    assert_eq!(path.len(), 10);
    assert_eq!(path[0], PathOp::MoveTo { x: at(400), y: at(200) });
    assert_eq!(path[1], PathOp::LineTo { x: at(800), y: at(200) });
    let k = at(300) / 1_000_000 * 552_285;
    assert_eq!(k, at(300) * 552_285 / 1_000_000);
    assert_eq!(
        path[2],
        PathOp::CubicTo {
            ax: at(800) + k,
            ay: at(200),
            bx: at(1100),
            by: at(500) - k,
            x: at(1100),
            y: at(500),
        }
    );
    assert_eq!(path[9], PathOp::Close);
    // The radius is at most half of the shorter side.
    assert_eq!(rounded_rect_path(area, px(9999)), Some(path));
    // A radius below zero turns the corners outwards.
    let inverted = rounded_rect_path(area, px(-1)).unwrap();
    assert_eq!(inverted[0], PathOp::MoveTo { x: at(99), y: at(200) });
    assert_eq!(inverted[1], PathOp::LineTo { x: at(1101), y: at(200) });
    // An odd side halves exactly, and so does its control point.
    let thin = rounded_rect_path(Rect { x: 0, y: 0, w: 7, h: 3 }, 100).unwrap();
    assert_eq!(thin[0], PathOp::MoveTo { x: 600_000, y: 0 });
    assert_eq!(thin[1], PathOp::LineTo { x: 2_200_000, y: 0 });
    assert_eq!(
        thin[2],
        PathOp::CubicTo {
            ax: 2_200_000 + 331_371,
            ay: 0,
            bx: 2_800_000,
            by: 600_000 - 331_371,
            x: 2_800_000,
            y: 600_000,
        }
    );
    assert_eq!(rounded_rect_path(Rect { w: 0, ..area }, 3), None);
    assert_eq!(rounded_rect_path(Rect { h: -1, ..area }, 3), None);
}

#[test]
fn the_eraser_marker_is_as_wide_as_its_reach() {
    let m = eraser_marker([256, -512], 2);
    assert_eq!((m.x, m.y, m.radius, m.width), (512, -1024, 4096, 1024));
    assert_eq!(m.color, [255, 255, 255, 220]);
    let overlay = Overlay { eraser: Some([2560, 2560]), ..Default::default() };
    assert_eq!(
        transient_bounds(&overlay),
        Some(units(0, 0, 5120, 5120))
    );
    assert_eq!(transient_bounds(&Overlay::default()), None);
}

fn sample_stroke() -> Stroke {
    Stroke { color: "#ffffff".into(), width: 512, points: vec![[0, 0], [25600, 0]] }
}

#[test]
fn transient_elements_are_boxed_together() {
    let overlay = Overlay {
        stroke: Some(sample_stroke()),
        eraser: Some([0, 25600]),
        ..Default::default()
    };
    assert_eq!(
        transient_bounds(&overlay),
        Some(units(-2560, -512, 25600 + 512 + 2560, 25600 + 2560 + 512))
    );
}

#[test]
fn formats_have_their_wayland_codes() {
    assert_eq!(u32::from(Format::Argb8888), ARGB8888);
    assert_eq!(u32::from(Format::Abgr8888), ABGR8888);
    assert_eq!(buffer_format(&[ARGB8888, u32::from(Format::Xrgb8888)]), (ARGB8888, true));
    assert_eq!(buffer_format(&[u32::from(Format::Xrgb8888), ABGR8888]), (ABGR8888, false));
}

#[test]
fn swapping_twice_gives_the_bytes_back() {
    let start: Vec<u8> = (0..5 * 3 * 4 + 3).map(|v| v as u8).collect();
    for region in [
        DamageRegion::All,
        DamageRegion::Rect { x0: 1, y0: 1, x1: 4, y1: 9 },
        DamageRegion::Rect { x0: 4, y0: 1, x1: 4, y1: 2 },
        DamageRegion::Rect { x0: 2, y0: 0, x1: 99, y1: 1 },
    ] {
        let mut buf = start.clone();
        region.swap_rb(&mut buf, 5, 3);
        if region == DamageRegion::All {
            assert_eq!(&buf[..5], &[2, 1, 0, 3, 6]);
            assert_eq!(&buf[60..], &start[60..]);
        }
        region.swap_rb(&mut buf, 5, 3);
        assert_eq!(buf, start);
    }
}

#[test]
fn clearing_stays_inside_the_region() {
    let mut buf = vec![1u8; 5 * 3 * 4];
    DamageRegion::Rect { x0: 3, y0: 1, x1: 9, y1: 9 }.clear(&mut buf, 5, 3);
    for (i, v) in buf.iter().enumerate() {
        let (x, y) = (i / 4 % 5, i / 20);
        assert_eq!(*v, if x >= 3 && y >= 1 { 0 } else { 1 }, "{i}");
    }
    DamageRegion::All.clear(&mut buf, 0, 3);
    assert!(buf.contains(&1));
    DamageRegion::All.clear(&mut buf, 5, 3);
    assert!(buf.iter().all(|v| *v == 0));
}

#[test]
fn logical_rectangles_become_device_pixels() {
    let r = Rect { h: 1 << 90, ..units(255, 257, 1000, 0) };
    assert_eq!(
        DamageRegion::from_logical(r, 1, 100, 50),
        DamageRegion::Rect { x0: 0, y0: 1, x1: 4, y1: 50 }
    );
    assert_eq!(
        DamageRegion::from_logical(r, 3, 100, 50),
        DamageRegion::Rect { x0: 2, y0: 3, x1: 14, y1: 50 }
    );
    assert_eq!(
        DamageRegion::from_logical(r, 0, 100, 50),
        DamageRegion::Rect { x0: 0, y0: 0, x1: 0, y1: 0 }
    );
}

#[test]
fn a_damage_box_takes_in_what_it_grows_into() {
    // The first stroke is reached only through the second one.
    let mut far = sample_stroke();
    far.points = vec![[25600, -25600], [25600, 300]];
    let a = OutputAnnotations { strokes: vec![far, sample_stroke()], texts: vec![] };
    let from = units(0, 0, 256, 256);
    assert_eq!(
        damage_box(&a, &Overlay::default(), from, 25600),
        units(-512, -26112, 26624, 26112 + 812)
    );
    // A stroke of an odd width reaches half a unit further.
    let odd = Stroke { width: 513, ..sample_stroke() };
    assert_eq!(odd.bounds().unwrap(), units(-512, -512, 26624, 1024).grown(PARTS / 2));
}

#[test]
fn a_measured_text_box_replaces_the_estimate() {
    let item = TextItem { x: 0, y: 0, color: "#ffffff".into(), size: 2560, text: "wide".into() };
    let a = OutputAnnotations { strokes: vec![], texts: vec![item.clone()] };
    let mut cache: TextLayoutCache<u8> = TextLayoutCache::new();
    let from = units(10, 10, 10, 10);
    cache.sync(0, 1, 1);
    let measured = units(-256, -256, 5000, 4000);
    cache.insert(0, &item, 7, measured);
    let overlay = Overlay::default();
    assert_eq!(damage_box_with_cache(&a, &overlay, from, 25600, 1, &mut cache), measured);
    assert!(cache.matches(0, &item));
    assert_eq!(cache.text_bounds(0, &item), Some(measured));
    assert_eq!(cache.get_mut(0), Some(&mut 7));
    *cache.get_mut(0).unwrap() = 8;
    assert_eq!(cache.entries[0].as_ref().unwrap().layout, 8);
    let other = TextItem { text: "other".into(), ..item.clone() };
    assert!(!cache.matches(0, &other));
    assert_eq!(cache.text_bounds(0, &other), None);
    assert_eq!(cache.bounds(1), None);
    // Another scale starts over.
    assert_eq!(
        damage_box_with_cache(&a, &overlay, from, 25600, 2, &mut cache),
        item.paint_bounds()
    );
    assert_eq!(cache.get_mut(0), None);
    cache.insert(3, &item, 1, measured);
    assert_eq!(cache.entries.len(), 4);
    cache.invalidate();
    assert!(cache.entries.is_empty());
}

fn run(line_w: i32, line_top: i32, glyphs: &[(usize, i32)]) -> Run {
    Run {
        line_w,
        line_y: line_top + 2000,
        line_top,
        line_height: 3000,
        glyphs: glyphs.iter().map(|g| Glyph { start: g.0, x: g.1 }).collect(),
    }
}

fn item() -> TextItem {
    TextItem { x: 512, y: -256, color: "#010203".into(), size: 2560, text: "ab".into() }
}

#[test]
fn text_is_boxed_as_it_was_laid_out() {
    let runs = vec![run(7001, 0, &[]), run(500, 3500, &[])];
    // 7001 and 6500 device units at scale 2 are half as many logical ones, with a pixel around.
    let measured = Rect {
        x: 256 * PARTS,
        y: -512 * PARTS,
        w: 7001 * PARTS / 2 + 512 * PARTS,
        h: (3250 + 512) * PARTS,
    };
    assert_eq!(paint_bounds(&runs, &item(), 2), measured);
    assert_eq!(text_edit_bounds(&runs, &item(), 2), measured.grown(512 * PARTS));
    // A scale that does not divide the length rounds it up.
    assert_eq!(paint_bounds(&runs, &item(), 11).w, (7001 * PARTS + 10) / 11 + 512 * PARTS);
    // A box is at least an empty line high, 1.2 em.
    assert_eq!(
        paint_bounds(&vec![run(0, 0, &[])], &item(), 1),
        units(256, -512, 512, 3072 + 512)
    );
    assert_eq!(paint_bounds(&vec![], &item(), 1), units(256, -512, 512, 3072 + 512));
    // A size of one unit makes a line of 1.2 units.
    let tiny = TextItem { size: 1, ..item() };
    assert_eq!(paint_bounds(&vec![], &tiny, 1).h, 6048 + 512 * PARTS);
}

fn overlay(typed: &str, preedit: &str) -> TextOverlay {
    TextOverlay {
        item: item(),
        buffer: TextBuffer::new(typed),
        index: None,
        preedit: preedit.into(),
    }
}

#[test]
fn the_caret_and_the_underline_follow_the_last_line() {
    let runs = vec![run(900, 0, &[(0, 0), (3, 450)]), run(1200, 3000, &[(6, 0), (7, 700)])];
    let marks = edit_marks(&runs, &item(), &overlay("ab", ""), 2);
    assert_eq!(marks.len(), 1);
    assert_eq!(marks[0].color, [1, 2, 3, 255]);
    assert_eq!(marks[0].area, units(1024 + 1200, -512 + 3000, 1024, 3000));
    // The preedit starts at the byte after the typed text.
    let marks = edit_marks(&runs, &item(), &overlay("abcdefg", "x"), 2);
    assert_eq!(marks.len(), 2);
    assert_eq!(
        marks[0].area,
        units(1024 + 700, -512 + 5000 + 768, 500, 768)
    );
    // Without a glyph of its own it starts where the line ends.
    let marks = edit_marks(&runs, &item(), &overlay("0123456789", "x"), 2);
    assert_eq!((marks[0].area.x, marks[0].area.w), ((1024 + 1200) * PARTS, 0));
    // An empty text has its caret at the corner.
    let marks = edit_marks(&vec![], &item(), &overlay("", ""), 1);
    assert_eq!(marks[0].area, units(512, -256, 512, 3072));
    // Fractions of an em that are no whole unit: 0.8 em, 1.2 em and 0.15 em of one.
    let tiny = TextItem { size: 1, ..item() };
    let marks = edit_marks(&vec![], &tiny, &overlay("", "x"), 1);
    assert_eq!(marks[0].area.y, -256 * PARTS + 4032 + 756);
    assert_eq!(marks[1].area.h, 6048);
}

#[test]
fn what_is_typed_is_shown_with_the_preedit_behind_it() {
    assert_eq!(display_text(&item(), Some(&overlay("x", "ni"))), Some("xni".to_string()));
    assert_eq!(display_text(&item(), Some(&overlay("", ""))), Some(String::new()));
    assert_eq!(display_text(&item(), None), Some("ab".to_string()));
    let empty = TextItem { text: String::new(), ..item() };
    assert_eq!(display_text(&empty, None), None);
}

fn hint(tool: &'static str, size: u32) -> Hint {
    Hint { tool, color: "#33d17a", size }
}

#[test]
fn sizes_are_shown_like_a_formatted_number() {
    for size in (0..20_000).step_by(32).chain([128, 384, 640, u32::MAX]) {
        for (tool, name) in [("pen", "width"), ("text", "size"), ("eraser", "width")] {
            let items = hint_items(&hint(tool, size));
            assert_eq!(items[4].0, "[ ]");
            assert_eq!(items[4].1, format!("{name} {:.0}", size as f64 / 256.0));
        }
    }
    let keys: Vec<&str> = hint_items(&hint("pen", 256)).iter().map(|i| i.0).collect();
    assert_eq!(keys, vec!["1-5", "P", "E", "T", "[ ]", "Esc"]);
}

#[test]
fn the_active_tools_key_is_found() {
    assert_eq!(active_key("pen"), Some(1));
    assert_eq!(active_key("eraser"), Some(2));
    assert_eq!(active_key("text"), Some(3));
    assert_eq!(active_key("brush"), None);
}

fn widths() -> ItemWidths {
    ItemWidths { keys: [5000, 1000, 2048, 2049, 3000, 4000], labels: [1000, 2000, 3000, 4000, 5000, 6000] }
}

#[test]
fn the_capsule_is_laid_out_from_left_to_right() {
    let caps: u64 = [5000, 2048, 2048, 2049, 3000, 4000].iter().map(|w| w + 3584).sum();
    let bare = hint_pill(&hint("eraser", 768), 1000, 1, &widths(), false).unwrap();
    let inner = 3072 + 4096 + 3584 + caps + 5 * 3584;
    assert_eq!(bare.width, inner + 3072);
    // In 1/512 of a device pixel, so that the two sides are the same.
    assert_eq!(bare.x, 256_000 - bare.width);
    let odd = hint_pill(&hint("eraser", 768), 2001, 2, &widths(), false).unwrap();
    assert_eq!(odd.x, 2001 * 256 - 2 * bare.width);
    assert_eq!(bare.pieces.len(), 7);
    assert_eq!((&bare.pieces[0].piece, bare.pieces[0].x, bare.pieces[0].w), (&Piece::Well, 3072, 4096));
    assert_eq!(bare.pieces[1].x, 10752);
    assert_eq!(bare.pieces[2].x, 10752 + 8584 + 3584);
    assert_eq!(bare.pieces[3].piece, Piece::Key { key: "E", glyph: 2048, active: true });
    assert_eq!(bare.pieces[4].piece, Piece::Key { key: "T", glyph: 2049, active: false });

    let full = hint_pill(&hint("eraser", 768), 1000, 1, &widths(), true).unwrap();
    assert_eq!(full.width, bare.width + 6 * 1792 + 21000);
    assert_eq!(full.pieces.len(), 13);
    assert_eq!(
        full.pieces[6].piece,
        Piece::Label { text: "eraser".to_string(), active: true }
    );
    assert_eq!(
        full.pieces[10].piece,
        Piece::Label { text: "width 3".to_string(), active: false }
    );
    let last = &full.pieces[12];
    assert_eq!(last.x + last.w + 3072, full.width);
}

#[test]
fn labels_are_dropped_before_the_capsule_is() {
    let h = hint("pen", 768);
    let full = hint_pill(&h, 1000, 1, &widths(), true).unwrap().width;
    let bare = hint_pill(&h, 1000, 1, &widths(), false).unwrap().width;
    let fits = |w: u64| ((w + 255) / 256) as u32;
    assert_eq!(fitting_pill(&h, fits(full), 1, &widths()).unwrap().width, full);
    assert_eq!(fitting_pill(&h, fits(full) - 1, 1, &widths()).unwrap().width, bare);
    assert_eq!(fitting_pill(&h, fits(bare) - 1, 1, &widths()), None);
    // At scale 2 a surface can be half a logical pixel wider, and that can be enough.
    let mut slim = widths();
    slim.labels[0] -= 128;
    let width = full - 128;
    let least = ((2 * width + 255) / 256) as u32;
    assert_eq!(least, 805);
    assert_eq!(hint_pill(&h, least, 2, &slim, true).unwrap().width, width);
    assert_eq!(hint_pill(&h, least - 1, 2, &slim, true), None);
    // However wide the surface is, only the reserve is used.
    let mut wide = widths();
    wide.labels[0] = 720 * 256;
    assert_eq!(hint_pill(&h, 5000, 1, &wide, true), None);
    assert!(hint_pill(&h, 5000, 1, &wide, false).is_some());
    assert!(hint_pill(&h, u32::MAX, u32::MAX, &widths(), false).is_none());
}

#[test]
fn the_capsule_lies_in_its_reserve() {
    for (surface, scale) in [(400, 1), (719, 1), (720, 1), (721, 1), (1920, 1), (1441, 2), (3001, 3)] {
        if let Some(pill) = fitting_pill(&hint("pen", 768), surface, scale, &widths()) {
            let reserve = hint_bounds(256 * surface as u64, scale);
            let left = pill.x as i128 * PARTS / 2;
            assert!(reserve.x <= left);
            let width = pill.width as i128 * scale as i128 * PARTS;
            assert!(left + width <= reserve.x + reserve.w);
            // As far from the one edge of the surface as from the other.
            assert_eq!(2 * left + width, surface as i128 * RECT_PX);
        }
    }
    assert_eq!(
        hint_bounds(1920 * 256, 1),
        units(600 * 256, 15 * 256, 720 * 256, 36 * 256)
    );
    assert_eq!(
        hint_bounds(100 * 256, 1),
        units(0, 15 * 256, 100 * 256, 36 * 256)
    );
    // 721 device pixels at scale 1: half a pixel on either side.
    assert_eq!(hint_bounds(721 * 256, 1).x, RECT_PX / 2);
    assert_eq!(
        hint_bounds(3840 * 256, 2),
        units(1200 * 256, 30 * 256, 1440 * 256, 72 * 256)
    );
}

#[test]
fn a_text_of_the_hint_is_centred_in_its_box() {
    let label = |top, height, size, scale| {
        hint_text(7, top, height, size, "#ffffff", "x", scale).y
    };
    // A line of 14.4 pixels in a box of 22 has 3.8 above it.
    assert_eq!(label(0, 22 * 256, 12 * 256, 1), 38 * RECT_PX / 10);
    assert_eq!(label(0, 22 * 256, 12 * 256, 5), 19 * RECT_PX);
    assert_eq!(label(-256, 22 * 256, 12 * 256, 1), 28 * RECT_PX / 10);
    // A line that is higher than its box starts above it.
    assert_eq!(label(0, 10 * 256, 20 * 256, 1), -7 * RECT_PX);
    assert_eq!(label(i32::MAX, u32::MAX, 0, 0), 0);
    let whole = hint_text(7, 0, 0, 0, "#012345", "text", 1);
    assert_eq!((whole.x, whole.color.as_str(), whole.text.as_str()), (7, "#012345", "text"));
}

#[test]
fn the_capsule_is_painted_before_its_pieces() {
    let pill = hint_pill(&hint("pen", 768), 2001, 2, &widths(), true).unwrap();
    let shapes = hint_shapes(&pill, "#33d17a", 2);
    let left = pill.x as i128 * PARTS / 2;
    let place = |x: u64| left + 2 * x as i128 * PARTS;
    // The capsule, the well, six keycaps with their glyphs and six labels.
    assert_eq!(shapes.len(), 1 + 1 + 12 + 6);
    assert_eq!(
        shapes[0],
        Shape::RoundRect {
            area: Rect { x: left, ..units(0, 8192, 2 * pill.width as i128, 17408) },
            radius: 8704 * PARTS,
            fill: [0x1c, 0x1c, 0x1e, 0xc7],
            edge: [255, 255, 255, 0x1f],
            edge_width: 512 * PARTS,
        }
    );
    assert_eq!(
        shapes[1],
        Shape::RoundRect {
            area: Rect { x: place(3072), ..units(0, 2 * 6400, 8192, 8192) },
            radius: 2048 * PARTS,
            fill: [0x33, 0xd1, 0x7a, 255],
            edge: [255, 255, 255, 0x4d],
            edge_width: 512 * PARTS,
        }
    );
    // The pen's keycap is the second one, and it is highlighted.
    let key = &pill.pieces[3];
    assert_eq!(
        shapes[5],
        Shape::RoundRect {
            area: Rect { x: place(key.x), ..units(0, 2 * 5632, 2 * key.w as i128, 2 * 5632) },
            radius: 3072 * PARTS,
            fill: [0x0a, 0x84, 0xff, 255],
            edge: [0x0a, 0x84, 0xff, 255],
            edge_width: 512 * PARTS,
        }
    );
    // Its glyph stands 16 + 6 + 3.8 pixels down, twice that on the device.
    assert_eq!(
        shapes[6],
        Shape::Text(Label {
            x: place(key.x) + (key.w as i128 - 1000) * PARTS,
            y: 516 * RECT_PX / 10,
            color: "#ffffffee".into(),
            size: 3072,
            text: "P".into(),
        })
    );
    // A label of 13 pixels in the 34 of the capsule: 16 + 9.2.
    let label = &pill.pieces[4];
    assert_eq!(
        shapes[7],
        Shape::Text(Label {
            x: place(label.x),
            y: 504 * RECT_PX / 10,
            color: "#fffffff2".into(),
            size: 3328,
            text: "pen".into(),
        })
    );
}

#[test]
fn the_hint_cache_forgets_the_oldest() {
    let mut cache = HintCache::new();
    let pill = || fitting_pill(&hint("pen", 768), 1000, 1, &widths()).unwrap();
    for size in 0..17 {
        assert!(cache.find(&hint("pen", size), 1000, 1).is_none());
        cache.keep(hint("pen", size), 1000, 1, pill());
        assert_eq!(cache.find(&hint("pen", size), 1000, 1), Some(&pill()));
    }
    assert_eq!(cache.entries.len(), 16);
    assert!(cache.find(&hint("pen", 0), 1000, 1).is_none());
    assert!(cache.find(&hint("pen", 1), 1000, 1).is_some());
    assert!(cache.find(&hint("pen", 1), 1001, 1).is_none());
    assert!(cache.find(&hint("pen", 1), 1000, 2).is_none());
    assert!(cache.find(&hint("text", 1), 1000, 1).is_none());
    assert!(cache.find(&Hint { color: "#ffffff", ..hint("pen", 1) }, 1000, 1).is_none());
}
