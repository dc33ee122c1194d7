use sgraffito::canvas::{Doc, ItemId, OutputAnnotations, Rect, Stroke, TextItem};
use sgraffito::geometry::{PARTS, RECT_PX};

/// Logical pixels in the library's units.
fn px(v: f32) -> i32 {
    (v * 256.0).round() as i32
}

fn len(v: f32) -> u32 {
    (v * 256.0).round() as u32
}

fn rect(x: f32, y: f32, w: f32, h: f32) -> Rect {
    let parts = |v: f32| px(v) as i128 * PARTS;
    Rect { x: parts(x), y: parts(y), w: parts(w), h: parts(h) }
}

fn line(y: f32, x0: f32, x1: f32) -> Stroke {
    Stroke {
        color: "#e01b24".into(),
        width: len(3.0),
        points: vec![[px(x0), px(y)], [px(x1), px(y)]],
    }
}

fn ann(strokes: Vec<Stroke>, texts: Vec<TextItem>) -> OutputAnnotations {
    OutputAnnotations { strokes, texts }
}

fn text(x: f32, y: f32, s: &str) -> TextItem {
    TextItem {
        x: px(x),
        y: px(y),
        color: "#ffffff".into(),
        size: len(18.0),
        text: s.into(),
    }
}

#[test]
fn hits_stroke_within_threshold() {
    let a = ann(vec![line(100.0, 0.0, 200.0)], vec![]);
    assert_eq!(a.hit(px(50.0), px(101.0)), Some(ItemId::Stroke(0)));
}

#[test]
fn threshold_boundary_is_inclusive() {
    let a = ann(vec![line(100.0, 0.0, 200.0)], vec![]);
    assert_eq!(a.hit(px(50.0), px(108.0)), Some(ItemId::Stroke(0)));
    assert_eq!(a.hit(px(50.0), px(108.5)), None);
    // One unit past the threshold is past it.
    assert_eq!(a.hit(px(50.0), px(108.0) + 1), None);
}

#[test]
fn misses_far_away_point() {
    let a = ann(vec![line(100.0, 0.0, 200.0)], vec![]);
    assert_eq!(a.hit(px(50.0), px(120.0)), None);
    assert!(
        !ann(vec![line(100.0, 0.0, 200.0)], vec![])
            .clone()
            .erase(px(400.0), px(400.0))
    );
}

#[test]
fn misses_beyond_stroke_ends() {
    let a = ann(vec![line(100.0, 0.0, 200.0)], vec![]);
    assert_eq!(a.hit(px(220.0), px(100.0)), None);
}

#[test]
fn picks_nearest_stroke() {
    let a = ann(
        vec![line(100.0, 0.0, 200.0), line(104.0, 0.0, 200.0)],
        vec![],
    );
    assert_eq!(a.hit(px(50.0), px(101.0)), Some(ItemId::Stroke(0)));
    assert_eq!(a.hit(px(50.0), px(103.0)), Some(ItemId::Stroke(1)));
    // Halfway between the two, the first one wins.
    assert_eq!(a.hit(px(50.0), px(102.0)), Some(ItemId::Stroke(0)));
}

#[test]
fn hits_text_box() {
    let a = ann(vec![], vec![text(100.0, 200.0, "buy milk")]);
    assert_eq!(a.hit(px(110.0), px(210.0)), Some(ItemId::Text(0)));
    assert_eq!(a.hit(px(100.0 + 0.6 * 18.0 * 8.0 + 5.0), px(210.0)), None);
}

#[test]
fn text_wins_over_stroke_at_same_point() {
    let t = text(100.0, 200.0, "note");
    let s = line(205.0, 90.0, 200.0);
    let a = ann(vec![s], vec![t]);
    assert_eq!(a.hit(px(110.0), px(205.0)), Some(ItemId::Text(0)));
}

#[test]
fn erase_removes_only_hit_item() {
    let mut a = ann(
        vec![line(100.0, 0.0, 200.0), line(140.0, 0.0, 200.0)],
        vec![],
    );
    assert!(a.erase(px(50.0), px(101.0)));
    assert_eq!(a.strokes.len(), 1);
    assert_eq!(a.strokes[0].points[0][1], px(140.0));
    assert!(!a.erase(px(50.0), px(101.0)));
}

#[test]
fn erase_removes_text_box() {
    let mut a = ann(vec![], vec![text(100.0, 200.0, "note")]);
    assert!(a.erase(px(110.0), px(210.0)));
    assert!(a.texts.is_empty());
}

#[test]
fn multi_line_text_box_grows() {
    let a = ann(vec![], vec![text(0.0, 0.0, "ab\ncdef")]);
    // Two lines: height is 2 * 1.2 * size, width comes from the longest line
    assert_eq!(a.hit(px(10.0), px(1.2 * 18.0 + 1.0)), Some(ItemId::Text(0)));
    assert_eq!(a.hit(px(10.0), px(2.4 * 18.0 + 1.0)), None);
}

#[test]
fn rect_union_and_intersection() {
    let a = rect(0.0, 0.0, 10.0, 10.0);
    let b = rect(20.0, 5.0, 10.0, 10.0);
    assert_eq!(a.union(b), rect(0.0, 0.0, 30.0, 15.0));
    assert!(!a.intersects(b));
    assert!(a.intersects(rect(5.0, 5.0, 1.0, 1.0)));
    // Touching edges are not an overlap, so culling never keeps a box that only abuts.
    assert!(!a.intersects(rect(10.0, 0.0, 5.0, 5.0)));
}

#[test]
fn stroke_bounds_cover_the_width_and_handle_the_empty_and_single_case() {
    let s = Stroke {
        color: "#ffffff".into(),
        width: len(4.0),
        points: vec![[px(10.0), px(20.0)], [px(30.0), px(20.0)]],
    };
    // Half the stroke width plus one logical pixel for the anti-aliasing edge.
    assert_eq!(s.bounds(), Some(rect(7.0, 17.0, 26.0, 6.0)));
    let empty = Stroke {
        points: vec![],
        ..s.clone()
    };
    assert_eq!(empty.bounds(), None);
    // A single sample renders as a dot, so its box is a square and not empty.
    let dot = Stroke {
        points: vec![[px(5.0), px(5.0)]],
        ..s
    };
    assert_eq!(dot.bounds(), Some(rect(2.0, 2.0, 6.0, 6.0)));
}

/// The squared distance from a point to a segment, in logical pixels.
fn segment(p: [f64; 2], a: [f64; 2], b: [f64; 2]) -> f64 {
    let (abx, aby) = (b[0] - a[0], b[1] - a[1]);
    let len2 = abx * abx + aby * aby;
    let t = if len2 == 0.0 {
        0.0
    } else {
        (((p[0] - a[0]) * abx + (p[1] - a[1]) * aby) / len2).clamp(0.0, 1.0)
    };
    let (dx, dy) = (p[0] - a[0] - t * abx, p[1] - a[1] - t * aby);
    dx * dx + dy * dy
}

#[test]
fn hit_testing_agrees_with_real_arithmetic_away_from_the_edge() {
    let points = [[-700, 3000], [4100, 2900], [4100, 2900], [5120, -256], [0, 0]];
    let s = Stroke {
        color: "#e01b24".into(),
        width: 768,
        points: points.to_vec(),
    };
    let a = ann(vec![s], vec![]);
    let at = |p: [i32; 2]| [p[0] as f64 / 256.0, p[1] as f64 / 256.0];
    let mut hits = 0;
    for x in (-4000..8000).step_by(173) {
        for y in (-4000..8000).step_by(191) {
            let d = points
                .windows(2)
                .map(|w| segment(at([x, y]), at(w[0]), at(w[1])))
                .fold(f64::INFINITY, f64::min);
            if (d - 64.0).abs() < 1e-6 {
                continue;
            }
            assert_eq!(a.hit(x, y).is_some(), d < 64.0, "{x} {y} {d}");
            hits += (d < 64.0) as u32;
        }
    }
    assert!(hits > 100);
}

#[test]
fn a_single_sample_is_hit_like_a_point() {
    let s = Stroke {
        color: "#e01b24".into(),
        width: len(3.0),
        points: vec![[px(10.0), px(10.0)]],
    };
    let a = ann(vec![s], vec![]);
    assert_eq!(a.hit(px(18.0), px(10.0)), Some(ItemId::Stroke(0)));
    assert_eq!(a.hit(px(16.0), px(16.0)), None);
    assert_eq!(a.hit(px(10.0), px(10.0)), Some(ItemId::Stroke(0)));
}

#[test]
fn a_stroke_without_samples_is_never_hit() {
    let s = Stroke {
        color: "#e01b24".into(),
        width: len(3.0),
        points: vec![],
    };
    assert_eq!(ann(vec![s], vec![]).hit(0, 0), None);
}

#[test]
fn the_first_of_two_overlapping_text_boxes_is_hit() {
    let a = ann(
        vec![],
        vec![text(0.0, 0.0, "below"), text(5.0, 5.0, "above")],
    );
    assert_eq!(a.hit(px(10.0), px(10.0)), Some(ItemId::Text(0)));
}

#[test]
fn text_boxes_have_these_sizes() {
    let t = text(1.0, 2.0, "abc");
    let tenths = |v: i128| v * RECT_PX / 10;
    // 0.6 * 18 * 3 = 32.4 and 1.2 * 18 = 21.6 logical pixels.
    assert_eq!(
        t.bounds(),
        Rect { x: tenths(10), y: tenths(20), w: tenths(324), h: tenths(216) }
    );
    // 18 * 3 wide and 21.6 high, with 9 pixels around.
    assert_eq!(
        t.paint_bounds(),
        Rect { x: tenths(-80), y: tenths(-70), w: tenths(720), h: tenths(396) }
    );
    // An empty text counts as one character in one line.
    assert_eq!(text(0.0, 0.0, "").bounds().w, tenths(108));
    // A size of one unit: three fifths of a unit wide, six fifths high, half a unit around.
    let tiny = TextItem { x: 0, y: 0, size: 1, ..text(0.0, 0.0, "a") };
    assert_eq!(tiny.bounds(), Rect { x: 0, y: 0, w: 3024, h: 6048 });
    assert_eq!(tiny.paint_bounds(), Rect { x: -2520, y: -2520, w: 10080, h: 11088 });
}

#[test]
fn lines_are_counted_like_str_lines() {
    for s in ["", "a", "a\n", "a\n\n", "\n", "a\r\nbc\r\n", "a\r", "\r\n\r\n", "ab\ncdef\ng"] {
        let t = text(0.0, 0.0, s);
        let lines = s.lines().count().max(1) as i128;
        let chars = s.lines().map(|l| l.chars().count()).max().unwrap_or(0).max(1) as i128;
        let b = t.bounds();
        assert_eq!(b.w, PARTS * 3 * 4608 * chars / 5, "{s:?}");
        assert_eq!(b.h, PARTS * 6 * 4608 * lines / 5, "{s:?}");
    }
}

#[test]
fn growing_a_rectangle_is_undone_by_shrinking_it() {
    let r = rect(3.0, 4.0, 10.0, 20.0);
    assert_eq!(r.grown(RECT_PX), rect(2.0, 3.0, 12.0, 22.0));
    assert_eq!(r.grown(RECT_PX).grown(-RECT_PX), r);
    assert!(r.contains(px(3.0), px(24.0)));
    assert!(!r.contains(px(3.0), px(24.0) + 1));
}

#[test]
fn outputs_keep_their_annotations_apart() {
    let mut doc = Doc::default();
    doc.add_stroke("eDP-1", line(1.0, 0.0, 5.0));
    doc.put_text("HDMI-1", None, text(0.0, 0.0, "here"));
    doc.put_text("HDMI-1", Some(0), text(0.0, 0.0, "there"));
    doc.put_text("HDMI-1", Some(7), text(0.0, 0.0, "more"));
    assert_eq!(doc.get("eDP-1").unwrap().strokes.len(), 1);
    assert!(doc.get("eDP-1").unwrap().texts.is_empty());
    let texts: Vec<&str> = doc
        .get("HDMI-1")
        .unwrap()
        .texts
        .iter()
        .map(|t| t.text.as_str())
        .collect();
    assert_eq!(texts, vec!["there", "more"]);
    assert!(doc.get("DP-3").is_none());
    assert!(!doc.erase("DP-3", 0, 0));
    assert!(doc.get("DP-3").is_none());
    assert!(doc.erase("eDP-1", px(2.0), px(1.0)));
    assert!(doc.get("eDP-1").unwrap().strokes.is_empty());
    doc.insert("eDP-1", ann(vec![], vec![text(0.0, 0.0, "x")]));
    assert_eq!(doc.get("eDP-1").unwrap().texts.len(), 1);
    doc.clear();
    assert!(doc.get("eDP-1").is_none());
    assert!(doc.get("HDMI-1").is_none());
}
