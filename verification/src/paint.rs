//! Colours, curves and pixels.

use tiny_skia::{PixmapMut, PremultipliedColorU8};
use vstd::prelude::*;

use crate::canvas;
use crate::canvas::{Stroke, StrokeView};
use crate::damage::ERASER_MARKER_RADIUS;
use crate::geometry;
use crate::geometry::Rect;
use crate::region;
use crate::text;
use crate::text::{byte_len, chars_of};

verus! {

/// The text without the `#`s it starts with.
pub open spec fn without_hashes(s: Seq<char>) -> Seq<char>
    decreases s.len(),
{
    if s.len() > 0 && s[0] == '#' { without_hashes(s.drop_first()) } else { s }
}

/// The value of a hexadecimal digit.
pub open spec fn hex_digit(c: char) -> Option<int> {
    let u = c as u32;
    if 48 <= u <= 57 {
        Some(u - 48)
    } else if 97 <= u <= 102 {
        Some(u - 87)
    } else if 65 <= u <= 70 {
        Some(u - 55)
    } else {
        None
    }
}

/// The value of hexadecimal digits, where there are only such.
pub open spec fn hex_number(s: Seq<char>) -> Option<int>
    decreases s.len(),
{
    if s.len() == 0 {
        Some(0)
    } else {
        match (hex_number(s.drop_last()), hex_digit(s.last())) {
            (Some(n), Some(d)) => Some(16 * n + d),
            _ => None,
        }
    }
}

/// The value of a hexadecimal numeral, which may start with a plus sign.
pub open spec fn hex_value(s: Seq<char>) -> Option<int> {
    let digits = if s.len() > 1 && s[0] == '+' { s.drop_first() } else { s };
    if digits.len() == 0 { None } else { hex_number(digits) }
}

/// The colour a text stands for: the numeral behind its `#`s, or white where that is none; as
/// `rrggbbaa` where it has 8 bytes, as an opaque `rrggbb` where it has 6, and opaque white else.
pub open spec fn color_of(s: Seq<char>) -> [u8; 4] {
    let hex = without_hashes(s);
    let v = match hex_value(hex) {
        Some(v) => v,
        None => 0xff_ffff,
    };
    if text::utf8_len(hex) == 8 {
        [
            (v / 0x100_0000) as u8,
            (v / 0x1_0000 % 256) as u8,
            (v / 0x100 % 256) as u8,
            (v % 256) as u8,
        ]
    } else if text::utf8_len(hex) == 6 {
        [(v / 0x1_0000) as u8, (v / 0x100 % 256) as u8, (v % 256) as u8, 255]
    } else {
        [255, 255, 255, 255]
    }
}

fn digit_value(c: char) -> (r: Option<u64>)
    ensures
        r is Some <==> hex_digit(c) is Some,
        r is Some ==> r->0 == hex_digit(c)->0 && r->0 < 16,
{
    let u: u32 = c as u32;
    if 48 <= u && u <= 57 {
        Some((u - 48) as u64)
    } else if 97 <= u && u <= 102 {
        Some((u - 87) as u64)
    } else if 65 <= u && u <= 70 {
        Some((u - 55) as u64)
    } else {
        None
    }
}

/// `16 ^ n`, for as many digits as a colour has.
spec fn bound(n: int) -> int
    decreases n,
{
    if n <= 0 { 1 } else { 16 * bound(n - 1) }
}

/// The value of at most 8 characters, or white's where they are no hexadecimal numeral.
fn numeral_value(cs: &Vec<char>, from: usize) -> (r: u64)
    requires
        from <= cs@.len() <= from + 8,
    ensures
        r == (match hex_value(cs@.skip(from as int)) {
            Some(v) => v,
            None => 0xff_ffff,
        }),
        r <= 0xffff_ffff,
{
    let ghost s = cs@.skip(from as int);
    let start: usize = if cs.len() - from > 1 && cs[from] == '+' { from + 1 } else { from };
    let ghost digits = cs@.skip(start as int);
    proof {
        if start == from + 1 {
            assert(s.drop_first() =~= digits);
        } else {
            assert(s =~= digits);
        }
        reveal_with_fuel(bound, 9);
        assert(bound(8) == 0x1_0000_0000);
    }
    if start == cs.len() {
        return 0xff_ffff;
    }
    let mut i: usize = start;
    let mut value: u64 = 0;
    proof {
        assert(digits.take(0) =~= Seq::<char>::empty());
    }
    while i < cs.len()
        invariant
            from <= start <= i <= cs@.len() <= from + 8,
            digits == cs@.skip(start as int),
            hex_number(digits.take(i - start)) == Some(value as int),
            value < bound(i - start),
            bound(i - start) <= bound(8),
            bound(8) == 0x1_0000_0000,
            digits.len() > 0,
            s == cs@.skip(from as int),
            hex_value(s) == hex_number(digits),
        decreases cs@.len() - i,
    {
        proof {
            assert(digits.take(i + 1 - start).drop_last() =~= digits.take(i - start));
            assert(digits.take(i + 1 - start).last() == cs@[i as int]);
            lemma_bound(i + 1 - start, 8);
        }
        match digit_value(cs[i]) {
            Some(d) => {
                value = 16 * value + d;
            },
            None => {
                proof {
                    lemma_bad_digit(digits, i - start);
                }
                return 0xff_ffff;
            },
        }
        i = i + 1;
    }
    proof {
        assert(digits.take(digits.len() as int) =~= digits);
    }
    value
}

proof fn lemma_bound(n: int, m: int)
    requires
        0 <= n <= m,
    ensures
        1 <= bound(n) <= bound(m),
    decreases m,
{
    if n < m {
        lemma_bound(n, m - 1);
    } else if n > 0 {
        lemma_bound(n - 1, m - 1);
    }
}

proof fn lemma_bad_digit(s: Seq<char>, i: int)
    requires
        0 <= i < s.len(),
        hex_digit(s[i]) is None,
    ensures
        hex_number(s) is None,
    decreases s.len(),
{
    if i < s.len() - 1 {
        lemma_bad_digit(s.drop_last(), i);
    }
}

proof fn lemma_chars_fit_bytes(s: Seq<char>)
    ensures
        s.len() <= text::utf8_len(s),
    decreases s.len(),
{
    if s.len() > 0 {
        lemma_chars_fit_bytes(s.drop_last());
        text::lemma_utf8_len_step(s, s.len() - 1);
        assert(s.take(s.len() - 1) =~= s.drop_last());
        assert(s.take(s.len() as int) =~= s);
    }
}

/// `#rrggbb` or `#rrggbbaa` to RGBA bytes.
pub fn parse_hex(s: &str) -> (r: [u8; 4])
    ensures
        r == color_of(s@),
{
    let cs: Vec<char> = chars_of(s);
    let total: usize = byte_len(s);
    let mut from: usize = 0;
    proof {
        assert(s@.skip(0) =~= s@);
        assert(s@.take(0) =~= Seq::<char>::empty());
    }
    while from < cs.len() && cs[from] == '#'
        invariant
            cs@ == s@,
            from <= cs@.len(),
            without_hashes(s@.skip(from as int)) == without_hashes(s@),
            text::utf8_len(s@.skip(from as int)) + from == total,
        decreases cs@.len() - from,
    {
        proof {
            let rest = s@.skip(from as int);
            assert(rest.drop_first() =~= s@.skip(from + 1));
            let head = seq!['#'];
            assert(rest =~= head + rest.drop_first());
            text::lemma_encode_concat(head, rest.drop_first());
            text::lemma_utf8_len_step(head, 0);
            assert(head.take(1) =~= head);
            assert(head.take(0) =~= Seq::<char>::empty());
        }
        from = from + 1;
    }
    let bytes: usize = total - from;
    let ghost hex = s@.skip(from as int);
    proof {
        assert(hex == without_hashes(s@));
        lemma_chars_fit_bytes(hex);
    }
    if bytes == 8 {
        let v: u64 = numeral_value(&cs, from);
        [
            (v / 0x100_0000) as u8,
            (v / 0x1_0000 % 256) as u8,
            (v / 0x100 % 256) as u8,
            (v % 256) as u8,
        ]
    } else if bytes == 6 {
        let v: u64 = numeral_value(&cs, from);
        proof {
            lemma_six_digits(hex);
        }
        [(v / 0x1_0000) as u8, (v / 0x100 % 256) as u8, (v % 256) as u8, 255]
    } else {
        [255, 255, 255, 255]
    }
}

proof fn lemma_number_bound(s: Seq<char>)
    requires
        hex_number(s) is Some,
    ensures
        0 <= hex_number(s)->0 < bound(s.len() as int),
    decreases s.len(),
{
    if s.len() > 0 {
        lemma_number_bound(s.drop_last());
    }
}

proof fn lemma_six_digits(s: Seq<char>)
    requires
        s.len() <= 6,
    ensures
        hex_value(s) is Some ==> 0 <= hex_value(s)->0 < 0x100_0000,
{
    reveal_with_fuel(bound, 7);
    assert(bound(6) == 0x100_0000);
    let digits = if s.len() > 1 && s[0] == '+' { s.drop_first() } else { s };
    if digits.len() > 0 && hex_number(digits) is Some {
        lemma_number_bound(digits);
        lemma_bound(digits.len() as int, 6);
    }
}

/// One device pixel, in the units the coordinates of a path are counted in. They are fine enough
/// for the middle of two samples and for the control points of a rounded corner to be exact.
pub const PATH_PX: i128 = 516_096_000_000;

/// How many of a path's units a unit of length has, and how many a part of a rectangle's.
pub const PATH_UNIT: i128 = 2_016_000_000;
pub const PATH_PART: i128 = 400_000;

/// Half of them.
pub const PATH_HALF_UNIT: i128 = 1_008_000_000;
pub const PATH_HALF_PART: i128 = 200_000;

/// How far from the origin the edges of a rounded rectangle may lie, in parts.
pub const PATH_REACH: i128 = 0x100_0000_0000_0000_0000_0000_0000;

/// A step of a path.
#[derive(Debug, Clone, Copy, PartialEq, Eq, Structural)]
pub enum PathOp {
    MoveTo { x: i128, y: i128 },
    LineTo { x: i128, y: i128 },
    /// A quadratic curve to (x, y) with the control point (cx, cy).
    QuadTo { cx: i128, cy: i128, x: i128, y: i128 },
    /// A cubic curve to (x, y) with the control points (ax, ay) and (bx, by).
    CubicTo { ax: i128, ay: i128, bx: i128, by: i128, x: i128, y: i128 },
    Close,
}

/// A sample in device pixels.
pub open spec fn on_device(v: i32, scale: u32) -> int {
    PATH_UNIT * (v * scale)
}

/// The middle of two samples in device pixels.
pub open spec fn middle(a: i32, b: i32, scale: u32) -> int {
    PATH_HALF_UNIT * ((a + b) * scale)
}

/// The `i`-th step of the path of a stroke: to the first sample, along a curve to the middle of
/// the `i`-th sample and the next one, and straight to the last sample.
pub open spec fn path_step(points: Seq<[i32; 2]>, scale: u32, i: int) -> PathOp {
    let p = points[i];
    let (x, y) = (on_device(p[0], scale) as i128, on_device(p[1], scale) as i128);
    if i == 0 {
        PathOp::MoveTo { x, y }
    } else if i == points.len() - 1 {
        PathOp::LineTo { x, y }
    } else {
        let next = points[i + 1];
        PathOp::QuadTo {
            cx: x,
            cy: y,
            x: middle(p[0], next[0], scale) as i128,
            y: middle(p[1], next[1], scale) as i128,
        }
    }
}

/// The path a stroke is drawn along.
pub open spec fn path_of(points: Seq<[i32; 2]>, scale: u32) -> Seq<PathOp> {
    Seq::new(points.len(), |i: int| path_step(points, scale, i))
}

fn device_coordinate(v: i32, scale: u32) -> (r: i128)
    ensures
        r == on_device(v, scale),
{
    proof {
        assert(-0x8000_0000 * 0xffff_ffff <= v * scale <= 0x7fff_ffff * 0xffff_ffff)
            by (nonlinear_arith)
            requires
                -0x8000_0000 <= v <= 0x7fff_ffff,
                0 <= scale <= 0xffff_ffff,
        ;
    }
    PATH_UNIT * (v as i128 * scale as i128)
}

fn device_middle(a: i32, b: i32, scale: u32) -> (r: i128)
    ensures
        r == middle(a, b, scale),
{
    proof {
        assert(-0x1_0000_0000 * 0xffff_ffff <= (a + b) * scale <= 0x1_0000_0000 * 0xffff_ffff)
            by (nonlinear_arith)
            requires
                -0x8000_0000 <= a <= 0x7fff_ffff,
                -0x8000_0000 <= b <= 0x7fff_ffff,
                0 <= scale <= 0xffff_ffff,
        ;
    }
    PATH_HALF_UNIT * ((a as i128 + b as i128) * scale as i128)
}

/// The path a stroke is drawn along: a quadratic curve through the midpoint of every pair of
/// consecutive samples, with the interior samples as control points, so a slow drag does not
/// render as a chain of straight segments. The stored samples are never modified. Two samples
/// are a straight line; fewer make no path, and the caller draws a single one as a dot.
pub fn smoothed_path(points: &Vec<[i32; 2]>, scale: u32) -> (r: Option<Vec<PathOp>>)
    ensures
        r is None <==> points@.len() < 2,
        r is Some ==> r->0@ == path_of(points@, scale),
{
    if points.len() < 2 {
        return None;
    }
    let mut ops: Vec<PathOp> = Vec::new();
    let mut i: usize = 0;
    while i < points.len()
        invariant
            i <= points@.len(),
            ops@.len() == i,
            forall|j: int| 0 <= j < i ==> #[trigger] ops@[j] == path_step(points@, scale, j),
        decreases points@.len() - i,
    {
        let p: [i32; 2] = points[i];
        let x: i128 = device_coordinate(p[0], scale);
        let y: i128 = device_coordinate(p[1], scale);
        let op: PathOp = if i == 0 {
            PathOp::MoveTo { x, y }
        } else if i == points.len() - 1 {
            PathOp::LineTo { x, y }
        } else {
            let next: [i32; 2] = points[i + 1];
            PathOp::QuadTo {
                cx: x,
                cy: y,
                x: device_middle(p[0], next[0], scale),
                y: device_middle(p[1], next[1], scale),
            }
        };
        ops.push(op);
        i = i + 1;
    }
    proof {
        assert(ops@ =~= path_of(points@, scale));
    }
    Some(ops)
}

/// How a stroke is drawn. Lengths are device pixels in 1/256, except along the path.
#[derive(Debug, PartialEq, Eq)]
pub enum StrokeShape {
    /// There is no sample to draw.
    Nothing,
    /// One sample is a filled circle of the stroke's width across.
    Dot { x: i128, y: i128, width: u64, color: [u8; 4] },
    /// Two samples or more are a line with round ends and joins.
    Line { path: Vec<PathOp>, width: u64, color: [u8; 4] },
}

/// How a stroke is drawn.
pub fn stroke_shape(s: &Stroke, scale: u32) -> (r: StrokeShape)
    ensures
        s@.points.len() == 0 <==> r is Nothing,
        s@.points.len() == 1 <==> r is Dot,
        s@.points.len() >= 2 <==> r is Line,
        r matches StrokeShape::Dot { x, y, width, color } ==> {
            &&& x == s@.points[0][0] * scale
            &&& y == s@.points[0][1] * scale
            &&& width == s@.width * scale
            &&& color == color_of(s@.color)
        },
        r matches StrokeShape::Line { path, width, color } ==> {
            &&& path@ == path_of(s@.points, scale)
            &&& width == s@.width * scale
            &&& color == color_of(s@.color)
        },
{
    let color: [u8; 4] = parse_hex(s.color.as_str());
    let scaled: u32 = s.width;
    proof {
        assert(0 <= scaled * scale <= 0xffff_ffff * 0xffff_ffff) by (nonlinear_arith)
            requires
                0 <= scaled <= 0xffff_ffff,
                0 <= scale <= 0xffff_ffff,
        ;
    }
    let width: u64 = s.width as u64 * scale as u64;
    if let Some(path) = smoothed_path(&s.points, scale) {
        StrokeShape::Line { path, width, color }
    } else if s.points.len() == 0 {
        StrokeShape::Nothing
    } else {
        let p: [i32; 2] = s.points[0];
        proof {
            let (px, py) = (p[0], p[1]);
            assert(-0x8000_0000 * 0xffff_ffff <= px * scale <= 0x7fff_ffff * 0xffff_ffff)
                by (nonlinear_arith)
                requires
                    -0x8000_0000 <= px <= 0x7fff_ffff,
                    0 <= scale <= 0xffff_ffff,
            ;
            assert(-0x8000_0000 * 0xffff_ffff <= py * scale <= 0x7fff_ffff * 0xffff_ffff)
                by (nonlinear_arith)
                requires
                    -0x8000_0000 <= py <= 0x7fff_ffff,
                    0 <= scale <= 0xffff_ffff,
            ;
        }
        StrokeShape::Dot {
            x: p[0] as i128 * scale as i128,
            y: p[1] as i128 * scale as i128,
            width,
            color,
        }
    }
}

/// The path starts on the first sample and ends on the last one, the samples between are only
/// pulled towards: the curve passes through the middles between neighbours instead.
pub proof fn a_path_ends_on_the_samples(points: Seq<[i32; 2]>, scale: u32, i: int)
    requires
        points.len() >= 2,
    ensures
        path_of(points, scale).len() == points.len(),
        path_of(points, scale)[0] == (PathOp::MoveTo {
            x: on_device(points[0][0], scale) as i128,
            y: on_device(points[0][1], scale) as i128,
        }),
        path_of(points, scale).last() == (PathOp::LineTo {
            x: on_device(points.last()[0], scale) as i128,
            y: on_device(points.last()[1], scale) as i128,
        }),
        0 < i < points.len() - 1 ==> path_of(points, scale)[i] is QuadTo,
{
}

/// Twice the corner radius of a rounded rectangle: at most the shorter side.
pub open spec fn corner(area: Rect, radius: int) -> int {
    geometry::min(2 * radius, geometry::min(area.w as int, area.h as int))
}

/// How far from a corner's end its control point is, in a path's units, so that the curve
/// approximates a quarter circle: 0.552285 of the radius.
pub open spec fn control(diameter: int) -> int {
    110_457 * diameter
}

impl Rect {
    /// Every edge lies where the coordinates of a path reach.
    pub open spec fn in_path_range(self) -> bool {
        &&& -PATH_REACH <= self.x <= PATH_REACH
        &&& -PATH_REACH <= self.y <= PATH_REACH
        &&& -PATH_REACH <= self.right() <= PATH_REACH
        &&& -PATH_REACH <= self.bottom() <= PATH_REACH
    }
}

/// The path of a rounded rectangle, clockwise from the top edge's left end.
pub open spec fn rounded_path(area: Rect, radius: int) -> Seq<PathOp> {
    let r = PATH_HALF_PART * corner(area, radius);
    let k = control(corner(area, radius));
    let (x, y) = (PATH_PART * area.x, PATH_PART * area.y);
    let (right, bottom) = (PATH_PART * area.right(), PATH_PART * area.bottom());
    seq![
        PathOp::MoveTo { x: (x + r) as i128, y: y as i128 },
        PathOp::LineTo { x: (right - r) as i128, y: y as i128 },
        PathOp::CubicTo {
            ax: (right - r + k) as i128,
            ay: y as i128,
            bx: right as i128,
            by: (y + r - k) as i128,
            x: right as i128,
            y: (y + r) as i128,
        },
        PathOp::LineTo { x: right as i128, y: (bottom - r) as i128 },
        PathOp::CubicTo {
            ax: right as i128,
            ay: (bottom - r + k) as i128,
            bx: (right - r + k) as i128,
            by: bottom as i128,
            x: (right - r) as i128,
            y: bottom as i128,
        },
        PathOp::LineTo { x: (x + r) as i128, y: bottom as i128 },
        PathOp::CubicTo {
            ax: (x + r - k) as i128,
            ay: bottom as i128,
            bx: x as i128,
            by: (bottom - r + k) as i128,
            x: x as i128,
            y: (bottom - r) as i128,
        },
        PathOp::LineTo { x: x as i128, y: (y + r) as i128 },
        PathOp::CubicTo {
            ax: x as i128,
            ay: (y + r - k) as i128,
            bx: (x + r - k) as i128,
            by: y as i128,
            x: (x + r) as i128,
            y: y as i128,
        },
        PathOp::Close,
    ]
}

/// Path of a rounded rectangle of device pixels, with a radius in parts. Quadratic corners are
/// visibly too flat at a capsule's radius, so the corners are cubic circle segments.
pub fn rounded_rect_path(area: Rect, radius: i128) -> (r: Option<Vec<PathOp>>)
    requires
        area.in_path_range(),
        -PATH_REACH <= radius <= PATH_REACH,
    ensures
        r is None <==> area.w <= 0 || area.h <= 0,
        r is Some ==> r->0@ == rounded_path(area, radius as int),
{
    if area.w <= 0 || area.h <= 0 {
        return None;
    }
    let side: i128 = if area.w <= area.h { area.w } else { area.h };
    let diameter: i128 = if 2 * radius <= side { 2 * radius } else { side };
    let r: i128 = PATH_HALF_PART * diameter;
    let k: i128 = 110_457 * diameter;
    let (x, y): (i128, i128) = (PATH_PART * area.x, PATH_PART * area.y);
    let (right, bottom): (i128, i128) = (
        PATH_PART * (area.x + area.w),
        PATH_PART * (area.y + area.h),
    );
    let mut ops: Vec<PathOp> = Vec::new();
    ops.push(PathOp::MoveTo { x: x + r, y });
    ops.push(PathOp::LineTo { x: right - r, y });
    ops.push(
        PathOp::CubicTo {
            ax: right - r + k,
            ay: y,
            bx: right,
            by: y + r - k,
            x: right,
            y: y + r,
        },
    );
    ops.push(PathOp::LineTo { x: right, y: bottom - r });
    ops.push(
        PathOp::CubicTo {
            ax: right,
            ay: bottom - r + k,
            bx: right - r + k,
            by: bottom,
            x: right - r,
            y: bottom,
        },
    );
    ops.push(PathOp::LineTo { x: x + r, y: bottom });
    ops.push(
        PathOp::CubicTo {
            ax: x + r - k,
            ay: bottom,
            bx: x,
            by: bottom - r + k,
            x,
            y: bottom - r,
        },
    );
    ops.push(PathOp::LineTo { x, y: y + r });
    ops.push(
        PathOp::CubicTo { ax: x, ay: y + r - k, bx: x + r - k, by: y, x: x + r, y },
    );
    ops.push(PathOp::Close);
    proof {
        assert(ops@ =~= rounded_path(area, radius as int));
    }
    Some(ops)
}

/// Whether the points of a step lie in an area of device pixels.
pub open spec fn step_inside(op: PathOp, area: Rect) -> bool {
    match op {
        PathOp::MoveTo { x, y } => point_inside(x, y, area),
        PathOp::LineTo { x, y } => point_inside(x, y, area),
        PathOp::QuadTo { cx, cy, x, y } => point_inside(cx, cy, area) && point_inside(x, y, area),
        PathOp::CubicTo { ax, ay, bx, by, x, y } => point_inside(ax, ay, area) && point_inside(
            bx,
            by,
            area,
        ) && point_inside(x, y, area),
        PathOp::Close => true,
    }
}

/// Whether a point of a path lies in an area of device pixels, its edges included.
pub open spec fn point_inside(x: i128, y: i128, area: Rect) -> bool {
    &&& PATH_PART * area.x <= x <= PATH_PART * area.right()
    &&& PATH_PART * area.y <= y <= PATH_PART * area.bottom()
}

/// A rounded rectangle stays inside its rectangle, and ends where it began.
pub proof fn a_rounded_rectangle_stays_inside(area: Rect, radius: int, i: int)
    requires
        area.in_path_range(),
        area.w > 0,
        area.h > 0,
        0 <= radius <= PATH_REACH,
        0 <= i < rounded_path(area, radius).len(),
    ensures
        step_inside(rounded_path(area, radius)[i], area),
        rounded_path(area, radius)[8]->CubicTo_x == rounded_path(area, radius)[0]->MoveTo_x,
        rounded_path(area, radius)[8]->CubicTo_y == rounded_path(area, radius)[0]->MoveTo_y,
{
    let r = PATH_HALF_PART * corner(area, radius);
    let k = control(corner(area, radius));
    assert(0 <= k <= r);
}

/// The circle that marks where the eraser is: its centre and radius, the width of its line, and
/// its colour. Lengths are device pixels in 1/256.
#[derive(Debug, Clone, Copy, PartialEq, Eq)]
pub struct Marker {
    pub x: i128,
    pub y: i128,
    pub radius: i128,
    pub width: i128,
    pub color: [u8; 4],
}

/// The eraser marker at a point: a circle of the eraser's reach, drawn with a line of 2 pixels.
pub fn eraser_marker(at: [i32; 2], scale: u32) -> (r: Marker)
    ensures
        r == (Marker {
            x: (at[0] * scale) as i128,
            y: (at[1] * scale) as i128,
            radius: (ERASER_MARKER_RADIUS * scale) as i128,
            width: (512 * scale) as i128,
            color: [255, 255, 255, 220],
        }),
        r.x == at[0] * scale,
        r.y == at[1] * scale,
{
    proof {
        let (px, py) = (at[0], at[1]);
        assert(-0x8000_0000 * 0xffff_ffff <= px * scale <= 0x7fff_ffff * 0xffff_ffff)
            by (nonlinear_arith)
            requires
                -0x8000_0000 <= px <= 0x7fff_ffff,
                0 <= scale <= 0xffff_ffff,
        ;
        assert(-0x8000_0000 * 0xffff_ffff <= py * scale <= 0x7fff_ffff * 0xffff_ffff)
            by (nonlinear_arith)
            requires
                -0x8000_0000 <= py <= 0x7fff_ffff,
                0 <= scale <= 0xffff_ffff,
        ;
    }
    let s: i128 = scale as i128;
    Marker {
        x: at[0] as i128 * s,
        y: at[1] as i128 * s,
        radius: ERASER_MARKER_RADIUS * s,
        width: 512 * s,
        color: [255, 255, 255, 220],
    }
}

/// `tiny_skia::PixmapMut`: a picture that borrows its bytes.
#[verifier::external_type_specification]
#[verifier::external_body]
pub struct ExPixmapMut<'a>(PixmapMut<'a>);

/// The red, green, blue and alpha of every pixel of a picture, row by row; none where its bytes
/// do not make up whole pixels.
pub uninterp spec fn pixmap_pixels(p: PixmapMut<'_>) -> Seq<(u8, u8, u8, u8)>;

/// How many bytes a picture has.
///
/// This is the length of what `PixmapMut::data_mut` gives. Four bytes make a pixel.
#[verifier::external_body]
fn pixmap_bytes(p: &mut PixmapMut<'_>) -> (r: usize)
    ensures
        *final(p) == *old(p),
        r % 4 == 0 ==> pixmap_pixels(*final(p)).len() == r / 4,
        r % 4 != 0 ==> pixmap_pixels(*final(p)).len() == 0,
{
    p.data_mut().len()
}

/// A pixel of a picture.
///
/// This reads an element of the slice that `PixmapMut::pixels_mut` gives, by
/// `PremultipliedColorU8`'s accessors; the picture stays as it is.
#[verifier::external_body]
fn pixel_at(p: &mut PixmapMut<'_>, i: usize) -> (r: (u8, u8, u8, u8))
    requires
        i < pixmap_pixels(*old(p)).len(),
    ensures
        *final(p) == *old(p),
        r == pixmap_pixels(*old(p))[i as int],
{
    let c = p.pixels_mut()[i];
    (c.red(), c.green(), c.blue(), c.alpha())
}

/// Puts a pixel into a picture.
///
/// This writes an element of the slice that `PixmapMut::pixels_mut` gives and leaves the others.
/// `PremultipliedColorU8::from_rgba` takes exactly the colours none of whose channels exceeds
/// the alpha.
#[verifier::external_body]
fn put_pixel(p: &mut PixmapMut<'_>, i: usize, c: (u8, u8, u8, u8))
    requires
        i < pixmap_pixels(*old(p)).len(),
        c.0 <= c.3 && c.1 <= c.3 && c.2 <= c.3,
    ensures
        pixmap_pixels(*final(p)) == pixmap_pixels(*old(p)).update(i as int, c),
{
    p.pixels_mut()[i] = PremultipliedColorU8::from_rgba(c.0, c.1, c.2, c.3).unwrap();
}

/// The whole number nearest to `(s * a + d * (255 - a)) / 255`: `s` over `d`, with `s` as opaque
/// as `a` of 255.
pub open spec fn mixed(s: int, d: int, a: int) -> int {
    (2 * (s * a + d * (255 - a)) + 255) / 510
}

/// A channel of the mixture, at most its alpha.
pub open spec fn mixed_channel(s: u8, d: u8, a: u8, alpha: int) -> int {
    let m = mixed(s as int, d as int, a as int);
    if m <= alpha { m } else { alpha }
}

/// A colour blended over a premultiplied pixel.
pub open spec fn over(c: [u8; 4], d: (u8, u8, u8, u8)) -> (u8, u8, u8, u8) {
    let alpha = mixed(255, d.3 as int, c[3] as int);
    (
        mixed_channel(c[0], d.0, c[3], alpha) as u8,
        mixed_channel(c[1], d.1, c[3], alpha) as u8,
        mixed_channel(c[2], d.2, c[3], alpha) as u8,
        alpha as u8,
    )
}

fn mix(s: u8, d: u8, a: u8) -> (r: u8)
    ensures
        r == mixed(s as int, d as int, a as int),
{
    proof {
        lemma_mixed_fits(s as int, d as int, a as int);
    }
    let left: u32 = 255 - a as u32;
    ((2 * (s as u32 * a as u32 + d as u32 * left) + 255) / 510) as u8
}

proof fn lemma_mixed_fits(s: int, d: int, a: int)
    requires
        0 <= s <= 255,
        0 <= d <= 255,
        0 <= a <= 255,
    ensures
        0 <= s * a <= 65025,
        0 <= d * (255 - a) <= 65025,
        0 <= s * a + d * (255 - a) <= 65025,
        0 <= mixed(s, d, a) <= 255,
{
    assert(0 <= s * a <= 255 * a) by (nonlinear_arith)
        requires
            0 <= s <= 255,
            0 <= a,
    ;
    assert(0 <= d * (255 - a) <= 255 * (255 - a)) by (nonlinear_arith)
        requires
            0 <= d <= 255,
            0 <= 255 - a,
    ;
}

fn blend_pixel(c: [u8; 4], d: (u8, u8, u8, u8)) -> (r: (u8, u8, u8, u8))
    ensures
        r == over(c, d),
        r.0 <= r.3 && r.1 <= r.3 && r.2 <= r.3,
{
    let alpha: u8 = mix(255, d.3, c[3]);
    let (red, green, blue): (u8, u8, u8) = (
        mix(c[0], d.0, c[3]),
        mix(c[1], d.1, c[3]),
        mix(c[2], d.2, c[3]),
    );
    // Clamped to the alpha to keep the pixel premultiplied.
    (
        if red <= alpha { red } else { alpha },
        if green <= alpha { green } else { alpha },
        if blue <= alpha { blue } else { alpha },
        alpha,
    )
}

/// A rectangle of device pixels clipped to `0..limit` along one axis: where it starts and ends.
pub open spec fn clipped(from: int, len: int, limit: int) -> (int, int) {
    (if from > 0 { from } else { 0 }, if from + len < limit { from + len } else { limit })
}

/// The `i`-th pixel of a picture `clip_w` wide lies in the part of a rectangle that is inside
/// `clip_w` x `clip_h`.
pub open spec fn in_clip(i: int, clip_w: u32, clip_h: u32, x: i32, y: i32, w: u32, h: u32) -> bool {
    let (x0, x1) = clipped(x as int, w as int, clip_w as int);
    let (y0, y1) = clipped(y as int, h as int, clip_h as int);
    region::in_rows(i, y0, y1, x0, x1, clip_w as int)
}

/// The pixels with a colour blended over those of a rectangle.
pub open spec fn blended(
    pixels: Seq<(u8, u8, u8, u8)>,
    clip_w: u32,
    clip_h: u32,
    x: i32,
    y: i32,
    w: u32,
    h: u32,
    c: [u8; 4],
) -> Seq<(u8, u8, u8, u8)> {
    Seq::new(
        pixels.len(),
        |i: int|
            if c[3] > 0 && in_clip(i, clip_w, clip_h, x, y, w, h) {
                over(c, pixels[i])
            } else {
                pixels[i]
            },
    )
}

/// Blend a colour (alpha included) over a rectangle of a premultiplied picture, as far as the
/// rectangle lies inside `clip_w` x `clip_h`.
pub fn blend(
    pixmap: &mut PixmapMut<'_>,
    clip_w: u32,
    clip_h: u32,
    x: i32,
    y: i32,
    w: u32,
    h: u32,
    c: [u8; 4],
)
    requires
        x + w <= i32::MAX,
        y + h <= i32::MAX,
        clip_w <= i32::MAX,
        clip_h <= i32::MAX,
        clip_w * clip_h <= pixmap_pixels(*old(pixmap)).len(),
    ensures
        pixmap_pixels(*final(pixmap)) == blended(
            pixmap_pixels(*old(pixmap)),
            clip_w,
            clip_h,
            x,
            y,
            w,
            h,
            c,
        ),
{
    let ghost start = pixmap_pixels(*pixmap);
    let ghost goal = blended(start, clip_w, clip_h, x, y, w, h, c);
    if c[3] == 0 {
        proof {
            assert(goal =~= start);
        }
        return;
    }
    let x0: i64 = if x > 0 { x as i64 } else { 0 };
    let y0: i64 = if y > 0 { y as i64 } else { 0 };
    let (right, bottom): (i64, i64) = (x as i64 + w as i64, y as i64 + h as i64);
    let x1: i64 = if right < clip_w as i64 { right } else { clip_w as i64 };
    let y1: i64 = if bottom < clip_h as i64 { bottom } else { clip_h as i64 };
    if x1 <= x0 || y1 <= y0 {
        proof {
            assert(goal =~= start);
        }
        return;
    }
    // Every pixel has an index, because there are no more of them than bytes.
    let _bytes: usize = pixmap_bytes(pixmap);
    let mut row: i64 = y0;
    while row < y1
        invariant
            c[3] > 0,
            0 <= x0 < x1 <= clip_w <= i32::MAX,
            0 <= y0 <= row <= y1 <= clip_h <= i32::MAX,
            clipped(x as int, w as int, clip_w as int) == (x0 as int, x1 as int),
            clipped(y as int, h as int, clip_h as int) == (y0 as int, y1 as int),
            clip_w * clip_h <= start.len() <= usize::MAX,
            pixmap_pixels(*pixmap).len() == start.len(),
            forall|i: int|
                0 <= i < start.len() ==> #[trigger] pixmap_pixels(*pixmap)[i] == (
                if region::in_rows(i, y0 as int, row as int, x0 as int, x1 as int, clip_w as int) {
                    over(c, start[i])
                } else {
                    start[i]
                }),
        decreases y1 - row,
    {
        let ghost before = pixmap_pixels(*pixmap);
        proof {
            assert(0 <= row * clip_w && row * clip_w + x1 <= clip_w * clip_h && row * clip_w
                <= 0x7fff_ffff * 0x7fff_ffff) by (nonlinear_arith)
                requires
                    0 <= row < clip_h <= 0x7fff_ffff,
                    0 <= x1 <= clip_w <= 0x7fff_ffff,
            ;
        }
        let base: i64 = row * clip_w as i64;
        let mut col: i64 = x0;
        while col < x1
            invariant
                base == row * clip_w,
                0 <= base,
                base + x1 <= before.len() <= usize::MAX,
                0 <= x0 <= col <= x1,
                x1 <= i32::MAX,
                base <= 0x7fff_ffff * 0x7fff_ffff,
                pixmap_pixels(*pixmap).len() == before.len(),
                forall|i: int|
                    0 <= i < before.len() ==> #[trigger] pixmap_pixels(*pixmap)[i] == (if base + x0
                        <= i < base + col {
                        over(c, before[i])
                    } else {
                        before[i]
                    }),
            decreases x1 - col,
        {
            let i: usize = (base + col) as usize;
            let d: (u8, u8, u8, u8) = pixel_at(pixmap, i);
            put_pixel(pixmap, i, blend_pixel(c, d));
            col = col + 1;
        }
        proof {
            assert forall|i: int| 0 <= i < start.len() implies #[trigger] pixmap_pixels(*pixmap)[i]
                == (if region::in_rows(
                i,
                y0 as int,
                row + 1,
                x0 as int,
                x1 as int,
                clip_w as int,
            ) {
                over(c, start[i])
            } else {
                start[i]
            }) by {
                region::lemma_rows_step(
                    i,
                    y0 as int,
                    row as int,
                    x0 as int,
                    x1 as int,
                    clip_w as int,
                );
                if region::in_row(i, row as int, x0 as int, x1 as int, clip_w as int) {
                    region::lemma_rows_apart(
                        i,
                        y0 as int,
                        row as int,
                        x0 as int,
                        x1 as int,
                        clip_w as int,
                    );
                    assert(before[i] == start[i]);
                } else {
                    assert(pixmap_pixels(*pixmap)[i] == before[i]);
                }
            }
        }
        row = row + 1;
    }
    proof {
        assert(pixmap_pixels(*pixmap) =~= goal);
    }
}

/// Blend a colour over a rectangle of a picture that is said to be `clip_w` x `clip_h` pixels;
/// returns whether the picture has so many and the rectangle ends on the number line. Where it
/// does not, the picture stays as it is.
pub fn blend_within(
    pixmap: &mut PixmapMut<'_>,
    clip_w: u32,
    clip_h: u32,
    x: i32,
    y: i32,
    w: u32,
    h: u32,
    c: [u8; 4],
) -> (r: bool)
    ensures
        r == (x + w <= i32::MAX && y + h <= i32::MAX && clip_w <= i32::MAX && clip_h <= i32::MAX
            && clip_w * clip_h <= pixmap_pixels(*old(pixmap)).len()),
        r ==> pixmap_pixels(*final(pixmap)) == blended(
            pixmap_pixels(*old(pixmap)),
            clip_w,
            clip_h,
            x,
            y,
            w,
            h,
            c,
        ),
        !r ==> pixmap_pixels(*final(pixmap)) == pixmap_pixels(*old(pixmap)),
{
    let bytes: usize = pixmap_bytes(pixmap);
    let pixels: usize = if bytes % 4 == 0 { bytes / 4 } else { 0 };
    let max: i64 = 0x7fff_ffff;
    if x as i64 + w as i64 > max || y as i64 + h as i64 > max || clip_w as i64 > max
        || clip_h as i64 > max {
        return false;
    }
    proof {
        assert(0 <= clip_w * clip_h <= 0x7fff_ffff * 0x7fff_ffff) by (nonlinear_arith)
            requires
                0 <= clip_w <= 0x7fff_ffff,
                0 <= clip_h <= 0x7fff_ffff,
        ;
    }
    if clip_w as u64 * clip_h as u64 > pixels as u64 {
        return false;
    }
    blend(pixmap, clip_w, clip_h, x, y, w, h, c);
    true
}

proof fn lemma_mixed_ends(s: int, d: int)
    requires
        0 <= s <= 255,
        0 <= d <= 255,
    ensures
        mixed(s, d, 255) == s,
        mixed(s, d, 0) == d,
{
    assert(d * (255 - 255) == 0 && s * 0 == 0) by (nonlinear_arith);
    assert(s * 255 + d * (255 - 255) == 255 * s);
    assert(s * 0 + d * (255 - 0) == 255 * d);
    assert((510 * s + 255) / 510 == s);
    assert((510 * d + 255) / 510 == d);
}

/// Blending keeps pixels premultiplied, an opaque colour replaces what is under it, and a
/// transparent one leaves a premultiplied pixel as it is.
pub proof fn blending_keeps_pixels_premultiplied(c: [u8; 4], d: (u8, u8, u8, u8))
    ensures
        over(c, d).0 <= over(c, d).3,
        over(c, d).1 <= over(c, d).3,
        over(c, d).2 <= over(c, d).3,
        over(c, d).3 >= c[3],
        c[3] == 255 ==> over(c, d) == (c[0], c[1], c[2], 255u8),
        c[3] == 0 && d.0 <= d.3 && d.1 <= d.3 && d.2 <= d.3 ==> over(c, d) == d,
{
    let a = c[3] as int;
    lemma_mixed_ends(255, d.3 as int);
    lemma_mixed_ends(c[0] as int, d.0 as int);
    lemma_mixed_ends(c[1] as int, d.1 as int);
    lemma_mixed_ends(c[2] as int, d.2 as int);
    lemma_mixed_fits(255, d.3 as int, a);
    lemma_mixed_fits(c[0] as int, d.0 as int, a);
    lemma_mixed_fits(c[1] as int, d.1 as int, a);
    lemma_mixed_fits(c[2] as int, d.2 as int, a);
}

/// The point of a path, with half the line's width around it, lies inside a logical box.
pub open spec fn drawn_inside(x: int, y: int, width: u32, b: Rect, scale: u32) -> bool {
    let half = 1_008_000_000 * (width * scale);
    &&& 400_000 * (b.x * scale) <= x - half
    &&& x + half <= 400_000 * (b.right() * scale)
    &&& 400_000 * (b.y * scale) <= y - half
    &&& y + half <= 400_000 * (b.bottom() * scale)
}

proof fn lemma_scaled_sample(p: int, width: int, low: int, high: int, scale: int)
    requires
        low <= 5040 * p - (2520 * width + 1_290_240),
        5040 * p + (2520 * width + 1_290_240) <= high,
        scale >= 0,
    ensures
        400_000 * (low * scale) <= 2_016_000_000 * (p * scale) - 1_008_000_000 * (width * scale),
        2_016_000_000 * (p * scale) + 1_008_000_000 * (width * scale) <= 400_000 * (high * scale),
{
    let (a, b) = (5040 * p - (2520 * width + 1_290_240), 5040 * p + (2520 * width + 1_290_240));
    assert(low * scale <= a * scale && b * scale <= high * scale) by (nonlinear_arith)
        requires
            low <= a,
            b <= high,
            scale >= 0,
    ;
    assert((5040 * p - (2520 * width + 1_290_240)) * scale == 5040 * (p * scale) - 2520 * (width
        * scale) - 1_290_240 * scale) by (nonlinear_arith);
    assert((5040 * p + (2520 * width + 1_290_240)) * scale == 5040 * (p * scale) + 2520 * (width
        * scale) + 1_290_240 * scale) by (nonlinear_arith);
}

proof fn lemma_point_drawn_inside(s: StrokeView, scale: u32, i: int)
    requires
        0 <= i < s.points.len(),
    ensures
        s.bounds() is Some,
        drawn_inside(
            2_016_000_000 * (s.points[i][0] * scale),
            2_016_000_000 * (s.points[i][1] * scale),
            s.width,
            s.bounds()->0,
            scale,
        ),
{
    let b = s.bounds()->0;
    canvas::a_stroke_box_is_the_least_around_its_samples(s, b);
    assert(canvas::surrounds(b, s.points[i], s.width));
    lemma_scaled_sample(
        s.points[i][0] as int,
        s.width as int,
        b.x as int,
        b.right(),
        scale as int,
    );
    lemma_scaled_sample(
        s.points[i][1] as int,
        s.width as int,
        b.y as int,
        b.bottom(),
        scale as int,
    );
}

/// The line a stroke is drawn with stays inside the stroke's box: every point of its path does,
/// control points included, with half the line's width around it.
pub proof fn a_stroke_is_drawn_inside_its_box(s: StrokeView, scale: u32, i: int)
    requires
        s.points.len() >= 2,
        0 <= i < s.points.len(),
    ensures
        s.bounds() is Some,
        ({
            let b = s.bounds()->0;
            match path_of(s.points, scale)[i] {
                PathOp::MoveTo { x, y } => drawn_inside(x as int, y as int, s.width, b, scale),
                PathOp::LineTo { x, y } => drawn_inside(x as int, y as int, s.width, b, scale),
                PathOp::QuadTo { cx, cy, x, y } => drawn_inside(
                    cx as int,
                    cy as int,
                    s.width,
                    b,
                    scale,
                ) && drawn_inside(x as int, y as int, s.width, b, scale),
                _ => false,
            }
        }),
{
    let b = s.bounds()->0;
    lemma_point_drawn_inside(s, scale, i);
    let p = s.points[i];
    lemma_sample_fits(p[0], scale);
    lemma_sample_fits(p[1], scale);
    if 0 < i < s.points.len() - 1 {
        lemma_point_drawn_inside(s, scale, i + 1);
        let q = s.points[i + 1];
        lemma_sample_fits(q[0], scale);
        lemma_sample_fits(q[1], scale);
        assert((p[0] + q[0]) * scale == p[0] * scale + q[0] * scale) by (nonlinear_arith);
        assert((p[1] + q[1]) * scale == p[1] * scale + q[1] * scale) by (nonlinear_arith);
    }
}

proof fn lemma_sample_fits(v: i32, scale: u32)
    ensures
        -0x8000_0000 * 0xffff_ffff <= v * scale <= 0x7fff_ffff * 0xffff_ffff,
{
    assert(-0x8000_0000 * 0xffff_ffff <= v * scale <= 0x7fff_ffff * 0xffff_ffff) by (nonlinear_arith)
        requires
            -0x8000_0000 <= v <= 0x7fff_ffff,
            0 <= scale <= 0xffff_ffff,
    ;
}

/// The curve of a stroke passes through the middle of every sample but the first and the next
/// one, and is pulled towards the sample itself; it starts on the first sample and ends on the
/// last.
pub proof fn a_stroke_follows_its_samples(points: Seq<[i32; 2]>, scale: u32, i: int)
    requires
        points.len() >= 2,
        0 <= i < points.len(),
    ensures
        path_of(points, scale).len() == points.len(),
        ({
            let px = |v: int| 2_016_000_000 * (v * scale);
            let p = points[i];
            match path_of(points, scale)[i] {
                PathOp::MoveTo { x, y } => i == 0 && x == px(p[0] as int) && y == px(p[1] as int),
                PathOp::LineTo { x, y } => i == points.len() - 1 && x == px(p[0] as int) && y == px(
                    p[1] as int,
                ),
                PathOp::QuadTo { cx, cy, x, y } => {
                    &&& 0 < i < points.len() - 1
                    &&& cx == px(p[0] as int) && cy == px(p[1] as int)
                    &&& 2 * x == px(p[0] as int) + px(points[i + 1][0] as int)
                    &&& 2 * y == px(p[1] as int) + px(points[i + 1][1] as int)
                },
                _ => false,
            }
        }),
{
    let p = points[i];
    lemma_sample_fits(p[0], scale);
    lemma_sample_fits(p[1], scale);
    if 0 < i < points.len() - 1 {
        let q = points[i + 1];
        lemma_sample_fits(q[0], scale);
        lemma_sample_fits(q[1], scale);
        assert((p[0] + q[0]) * scale == p[0] * scale + q[0] * scale) by (nonlinear_arith);
        assert((p[1] + q[1]) * scale == p[1] * scale + q[1] * scale) by (nonlinear_arith);
    }
}

/// A byte written out as two hexadecimal digits.
pub open spec fn written(b: u8, digits: Seq<char>) -> Seq<char> {
    seq![digits[b as int / 16], digits[b as int % 16]]
}

proof fn lemma_digits(digits: Seq<char>, n: int)
    requires
        digits == "0123456789abcdef"@ || digits == "0123456789ABCDEF"@,
        0 <= n < 16,
    ensures
        digits.len() == 16,
        hex_digit(digits[n]) == Some(n),
        digits[n] != '#',
        digits[n] != '+',
        digits[n] as u32 <= 0x7f,
{
    reveal_strlit("0123456789abcdef");
    reveal_strlit("0123456789ABCDEF");
}

proof fn lemma_byte_added(s: Seq<char>, b: u8, digits: Seq<char>)
    requires
        digits == "0123456789abcdef"@ || digits == "0123456789ABCDEF"@,
        hex_number(s) is Some,
    ensures
        hex_number(s + written(b, digits)) == Some(256 * hex_number(s)->0 + b),
{
    lemma_digits(digits, b as int / 16);
    lemma_digits(digits, b as int % 16);
    let all = s + written(b, digits);
    let one = all.drop_last();
    assert(one.drop_last() =~= s);
    assert(one.last() == digits[b as int / 16]);
    assert(all.last() == digits[b as int % 16]);
    assert(hex_number(one) == Some(16 * hex_number(s)->0 + b as int / 16));
}

proof fn lemma_ascii_bytes(s: Seq<char>)
    requires
        forall|i: int| 0 <= i < s.len() ==> #[trigger] s[i] as u32 <= 0x7f,
    ensures
        text::utf8_len(s) == s.len(),
    decreases s.len(),
{
    if s.len() > 0 {
        let rest = s.drop_first();
        assert forall|i: int| 0 <= i < rest.len() implies #[trigger] rest[i] as u32 <= 0x7f by {
            assert(rest[i] == s[i + 1]);
        }
        lemma_ascii_bytes(rest);
        assert(s[0] as u32 <= 0x7f);
    }
}

/// A colour written as `#rrggbb`, with small digits or capitals, is read as those bytes, opaque;
/// and written as `#rrggbbaa` with the last byte as its alpha.
pub proof fn a_written_colour_is_read_back(r: u8, g: u8, b: u8, a: u8, digits: Seq<char>)
    requires
        digits == "0123456789abcdef"@ || digits == "0123456789ABCDEF"@,
    ensures
        ({
            let rgb = written(r, digits) + written(g, digits) + written(b, digits);
            &&& color_of(seq!['#'] + rgb)@ == seq![r, g, b, 255u8]
            &&& color_of(seq!['#'] + (rgb + written(a, digits)))@ == seq![r, g, b, a]
        }),
{
    lemma_written_bytes(r, g, b, a, digits);
    let three = written(r, digits) + written(g, digits) + written(b, digits);
    let four = three + written(a, digits);
    lemma_one_hash(three);
    lemma_one_hash(four);
    lemma_three_bytes(seq!['#'] + three, r, g, b);
    lemma_four_bytes(seq!['#'] + four, r, g, b, a);
}

proof fn lemma_three_bytes(s: Seq<char>, r: u8, g: u8, b: u8)
    requires
        text::utf8_len(without_hashes(s)) == 6,
        hex_value(without_hashes(s)) == Some(65536 * r + 256 * g + b),
    ensures
        color_of(s)@ == seq![r, g, b, 255u8],
{
    assert(color_of(s)@ =~= seq![r, g, b, 255u8]);
}

proof fn lemma_four_bytes(s: Seq<char>, r: u8, g: u8, b: u8, a: u8)
    requires
        text::utf8_len(without_hashes(s)) == 8,
        hex_value(without_hashes(s)) == Some(256 * (65536 * r + 256 * g + b) + a),
    ensures
        color_of(s)@ == seq![r, g, b, a],
{
    let v: int = 256 * (65536 * r + 256 * g + b) + a;
    let (x, y): (int, int) = (256 * r + g, 65536 * r + 256 * g + b);
    assert(v % 256 == a);
    assert(v / 0x100 == y && y % 256 == b);
    assert(v / 0x1_0000 == x && x % 256 == g);
    assert(v / 0x100_0000 == r);
    let c = color_of(s);
    assert(c[0] == r);
    assert(c[1] == g);
    assert(c[2] == b);
    assert(c[3] == a);
    assert(c@ =~= seq![r, g, b, a]);
}

proof fn lemma_written_byte(b: u8, digits: Seq<char>)
    requires
        digits == "0123456789abcdef"@ || digits == "0123456789ABCDEF"@,
    ensures
        ({
            let s = written(b, digits);
            &&& s.len() == 2
            &&& s[0] != '#' && s[0] != '+'
            &&& s[0] as u32 <= 0x7f && s[1] as u32 <= 0x7f
        }),
{
    lemma_digits(digits, b as int / 16);
    lemma_digits(digits, b as int % 16);
}

proof fn lemma_written_bytes(r: u8, g: u8, b: u8, a: u8, digits: Seq<char>)
    requires
        digits == "0123456789abcdef"@ || digits == "0123456789ABCDEF"@,
    ensures
        ({
            let three = written(r, digits) + written(g, digits) + written(b, digits);
            let four = three + written(a, digits);
            &&& three.len() == 6 && four.len() == 8
            &&& three[0] != '#' && four[0] != '#'
            &&& text::utf8_len(three) == 6 && text::utf8_len(four) == 8
            &&& hex_value(three) == Some(65536 * r + 256 * g + b)
            &&& hex_value(four) == Some(256 * (65536 * r + 256 * g + b) + a)
        }),
{
    let none = Seq::<char>::empty();
    let (one, two) = (written(r, digits), written(r, digits) + written(g, digits));
    let three = two + written(b, digits);
    let four = three + written(a, digits);
    assert(hex_number(none) == Some(0int));
    lemma_byte_added(none, r, digits);
    assert(none + one =~= one);
    lemma_byte_added(one, g, digits);
    lemma_byte_added(two, b, digits);
    lemma_byte_added(three, a, digits);
    lemma_written_byte(r, digits);
    lemma_written_byte(g, digits);
    lemma_written_byte(b, digits);
    lemma_written_byte(a, digits);
    assert(four[0] == one[0] && three[0] == one[0]);
    lemma_ascii_bytes(three);
    lemma_ascii_bytes(four);
}

proof fn lemma_one_hash(s: Seq<char>)
    requires
        s.len() > 0,
        s[0] != '#',
    ensures
        without_hashes(seq!['#'] + s) == s,
{
    assert((seq!['#'] + s).drop_first() =~= s);
    assert(without_hashes(s) == s);
}

/// A pixel of the picture has the colour blended over it where the rectangle covers it, and stays
/// as it is elsewhere, or where the colour is transparent.
pub proof fn a_pixel_is_blended_where_the_rectangle_is(
    pixels: Seq<(u8, u8, u8, u8)>,
    clip_w: u32,
    clip_h: u32,
    x: i32,
    y: i32,
    w: u32,
    h: u32,
    c: [u8; 4],
    px: int,
    py: int,
)
    requires
        0 <= px < clip_w,
        0 <= py < clip_h,
        py * clip_w + px < pixels.len(),
    ensures
        ({
            let after = blended(pixels, clip_w, clip_h, x, y, w, h, c);
            let i = py * clip_w + px;
            let inside = x <= px < x + w && y <= py < y + h;
            &&& after.len() == pixels.len()
            &&& inside && c[3] > 0 ==> after[i] == over(c, pixels[i])
            &&& !inside || c[3] == 0 ==> after[i] == pixels[i]
        }),
{
    let i = py * clip_w + px;
    assert(i >= 0) by (nonlinear_arith)
        requires
            i == py * clip_w + px,
            py >= 0,
            px >= 0,
            clip_w >= 0,
    ;
    let (x0, x1) = clipped(x as int, w as int, clip_w as int);
    let (y0, y1) = clipped(y as int, h as int, clip_h as int);
    let inside = x <= px < x + w && y <= py < y + h;
    if inside {
        assert(region::in_row(i, py, x0, x1, clip_w as int));
    } else if in_clip(i, clip_w, clip_h, x, y, w, h) {
        let row = choose|row: int| y0 <= row < y1 && #[trigger]
            region::in_row(i, row, x0, x1, clip_w as int);
        region::lemma_pixel_in_row(px, py, i - row * clip_w, row, clip_w as int);
    }
}

proof fn lemma_mixed_is_nearest(s: int, d: int, a: int)
    requires
        0 <= s <= 255,
        0 <= d <= 255,
        0 <= a <= 255,
    ensures
        -255 <= 2 * (255 * mixed(s, d, a) - (s * a + d * (255 - a))) <= 255,
{
    lemma_mixed_fits(s, d, a);
}

/// What is left of the pixel under a colour, and what comes of the colour, add up to the pixel
/// that is blended, to the nearest whole number; no channel exceeds the alpha.
pub proof fn blending_weighs_by_the_alpha(c: [u8; 4], d: (u8, u8, u8, u8))
    ensures
        ({
            let r = over(c, d);
            let (a, left) = (c[3] as int, 255 - c[3]);
            &&& -255 <= 2 * (255 * r.3 - (255 * a + d.3 * left)) <= 255
            &&& r.0 < r.3 ==> -255 <= 2 * (255 * r.0 - (c[0] * a + d.0 * left)) <= 255
            &&& r.1 < r.3 ==> -255 <= 2 * (255 * r.1 - (c[1] * a + d.1 * left)) <= 255
            &&& r.2 < r.3 ==> -255 <= 2 * (255 * r.2 - (c[2] * a + d.2 * left)) <= 255
            &&& r.0 == r.3 ==> 2 * (255 * r.0 - (c[0] * a + d.0 * left)) <= 255
            &&& r.1 == r.3 ==> 2 * (255 * r.1 - (c[1] * a + d.1 * left)) <= 255
            &&& r.2 == r.3 ==> 2 * (255 * r.2 - (c[2] * a + d.2 * left)) <= 255
            &&& r.0 <= r.3 && r.1 <= r.3 && r.2 <= r.3
        }),
{
    let a = c[3] as int;
    lemma_mixed_fits(255, d.3 as int, a);
    lemma_mixed_fits(c[0] as int, d.0 as int, a);
    lemma_mixed_fits(c[1] as int, d.1 as int, a);
    lemma_mixed_fits(c[2] as int, d.2 as int, a);
    lemma_mixed_is_nearest(255, d.3 as int, a);
    lemma_mixed_is_nearest(c[0] as int, d.0 as int, a);
    lemma_mixed_is_nearest(c[1] as int, d.1 as int, a);
    lemma_mixed_is_nearest(c[2] as int, d.2 as int, a);
}

} // verus!
