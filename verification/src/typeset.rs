//! What laid-out text amounts to: its box, its caret, and the line under what the input method
//! has not finished.
//!
//! The shaper measures in device pixels, which are counted in 1/256 here. What follows from its
//! measures is counted in parts, as rectangles are.

use vstd::prelude::*;

use crate::canvas::{TextItem, TextItemView};
use crate::geometry;
use crate::geometry::{Rect, FIFTH, PARTS, RECT_PX, TWENTIETH};
use crate::overlay::TextOverlay;
use crate::paint;
use crate::paint::parse_hex;
use crate::text;
use crate::text::{byte_len, joined};

verus! {

/// Width of the caret: 2 logical pixels.
pub const CURSOR_WIDTH: u32 = 512;

/// Height of the line under a preedit: 1.5 logical pixels.
pub const UNDERLINE_HEIGHT: u32 = 384;

/// A glyph of a line: the byte its text starts at, and where it is.
#[derive(Debug, Clone, Copy, PartialEq, Eq, Structural)]
pub struct Glyph {
    pub start: usize,
    pub x: i32,
}

/// A line of laid-out text.
#[derive(Debug, PartialEq, Eq)]
pub struct Run {
    pub line_w: i32,
    /// The baseline.
    pub line_y: i32,
    pub line_top: i32,
    pub line_height: i32,
    pub glyphs: Vec<Glyph>,
}

/// What the lines of a text amount to: the place of the last line, and the extent of all, in
/// parts.
#[derive(Debug, Clone, Copy, PartialEq, Eq, Structural)]
pub struct Metrics {
    pub line_w: i128,
    pub baseline: i128,
    pub line_top: i128,
    pub line_height: i128,
    pub max_right: i128,
    pub max_bottom: i128,
}

/// The size of a text box in device pixels.
pub open spec fn device_text_size(size: u32, scale: u32) -> int {
    size * scale
}

/// What the first `n` lines amount to. No line at all stands for an empty one: 1.2 em high, with
/// the baseline at 0.8 em.
pub open spec fn metrics_of(runs: Seq<Run>, size: u32, scale: u32, n: int) -> Metrics
    decreases n,
{
    let em = device_text_size(size, scale);
    if n <= 0 {
        Metrics {
            line_w: 0,
            baseline: (FIFTH * (4 * em)) as i128,
            line_top: 0,
            line_height: (FIFTH * (6 * em)) as i128,
            max_right: 0,
            max_bottom: (FIFTH * (6 * em)) as i128,
        }
    } else {
        let before = metrics_of(runs, size, scale, n - 1);
        let run = runs[n - 1];
        Metrics {
            line_w: (PARTS * run.line_w) as i128,
            baseline: (PARTS * run.line_y) as i128,
            line_top: (PARTS * run.line_top) as i128,
            line_height: (PARTS * run.line_height) as i128,
            max_right: geometry::max(before.max_right as int, PARTS * run.line_w) as i128,
            max_bottom: geometry::max(
                before.max_bottom as int,
                PARTS * (run.line_top + run.line_height),
            ) as i128,
        }
    }
}

/// A non-negative device length in logical pixels, to the whole part above where the scale does
/// not divide it.
pub open spec fn logical_length(n: int, scale: int) -> int {
    (n + scale - 1) / scale
}

/// The box of laid-out text: from the text box's corner as far as the lines reach, with a pixel
/// of margin.
pub open spec fn measured_box(item: TextItemView, m: Metrics, scale: u32) -> Rect {
    let core = Rect {
        x: (PARTS * item.x) as i128,
        y: (PARTS * item.y) as i128,
        w: logical_length(m.max_right as int, scale as int) as i128,
        h: logical_length(m.max_bottom as int, scale as int) as i128,
    };
    core.outset(RECT_PX as int)
}

/// No measure is larger.
const MOST: i128 = 0x1_0000_0000_0000_0000_0000;

spec fn sane(m: Metrics) -> bool {
    &&& 0 <= m.max_right <= MOST
    &&& 0 <= m.max_bottom <= MOST
    &&& -MOST <= m.line_w <= MOST
    &&& -MOST <= m.line_top <= MOST
    &&& -MOST <= m.line_height <= MOST
    &&& -MOST <= m.baseline <= MOST
}

/// What the lines of a text amount to.
fn measured(runs: &Vec<Run>, size: u32, scale: u32) -> (r: Metrics)
    ensures
        r == metrics_of(runs@, size, scale, runs@.len() as int),
        sane(r),
{
    proof {
        lemma_em(size, scale);
    }
    let em: i128 = size as i128 * scale as i128;
    let mut m = Metrics {
        line_w: 0,
        baseline: FIFTH * (4 * em),
        line_top: 0,
        line_height: FIFTH * (6 * em),
        max_right: 0,
        max_bottom: FIFTH * (6 * em),
    };
    let mut n: usize = 0;
    while n < runs.len()
        invariant
            n <= runs@.len(),
            m == metrics_of(runs@, size, scale, n as int),
            sane(m),
        decreases runs@.len() - n,
    {
        let w: i128 = PARTS * runs[n].line_w as i128;
        let y: i128 = PARTS * runs[n].line_y as i128;
        let top: i128 = PARTS * runs[n].line_top as i128;
        let height: i128 = PARTS * runs[n].line_height as i128;
        m = Metrics {
            line_w: w,
            baseline: y,
            line_top: top,
            line_height: height,
            max_right: if m.max_right >= w { m.max_right } else { w },
            max_bottom: if m.max_bottom >= top + height { m.max_bottom } else { top + height },
        };
        n = n + 1;
    }
    m
}

proof fn lemma_em(size: u32, scale: u32)
    ensures
        0 <= device_text_size(size, scale) <= 0xffff_ffff * 0xffff_ffff,
{
    assert(0 <= size * scale <= 0xffff_ffff * 0xffff_ffff) by (nonlinear_arith)
        requires
            0 <= size <= 0xffff_ffff,
            0 <= scale <= 0xffff_ffff,
    ;
}

fn to_logical(n: i128, scale: u32) -> (r: i128)
    requires
        0 <= n <= MOST,
        scale > 0,
    ensures
        r == logical_length(n as int, scale as int),
        0 <= r <= n,
{
    proof {
        lemma_rounds_up(n as int, scale as int);
    }
    let (n, s): (u128, u128) = (n as u128, scale as u128);
    ((n + s - 1) / s) as i128
}

fn lines_box(runs: &Vec<Run>, item: &TextItem, scale: u32) -> (r: Rect)
    requires
        scale > 0,
    ensures
        r.x == PARTS * item.x,
        r.y == PARTS * item.y,
        r.outset(RECT_PX as int) == measured_box(
            item@,
            metrics_of(runs@, item@.size, scale, runs@.len() as int),
            scale,
        ),
        0 <= r.w <= MOST,
        0 <= r.h <= MOST,
{
    let m: Metrics = measured(runs, item.size, scale);
    Rect {
        x: PARTS * item.x as i128,
        y: PARTS * item.y as i128,
        w: to_logical(m.max_right, scale),
        h: to_logical(m.max_bottom, scale),
    }
}

/// The box of a laid-out text box.
pub fn paint_bounds(runs: &Vec<Run>, item: &TextItem, scale: u32) -> (r: Rect)
    requires
        scale > 0,
    ensures
        r == measured_box(
            item@,
            metrics_of(runs@, item@.size, scale, runs@.len() as int),
            scale,
        ),
        r.in_range(),
{
    lines_box(runs, item, scale).grown(RECT_PX)
}

/// The box of a text box that is edited: with room for the caret.
pub fn text_edit_bounds(runs: &Vec<Run>, item: &TextItem, scale: u32) -> (r: Rect)
    requires
        scale > 0,
    ensures
        r == measured_box(
            item@,
            metrics_of(runs@, item@.size, scale, runs@.len() as int),
            scale,
        ).outset(PARTS * CURSOR_WIDTH),
        r.in_range(),
{
    lines_box(runs, item, scale).grown(RECT_PX).grown(PARTS * CURSOR_WIDTH as i128)
}

/// The text that is drawn: what was typed, with what the input method has not finished behind it.
pub open spec fn display_of(committed: Seq<char>, preedit: Seq<char>) -> Seq<char> {
    committed + preedit
}

/// The text that is drawn for a text box: what is typed and what the input method has not
/// finished while it is edited, its own text else. `None` where there is nothing to draw.
pub fn display_text(item: &TextItem, edit: Option<&TextOverlay>) -> (r: Option<String>)
    ensures
        edit is Some ==> r is Some && r->0@ == display_of(
            edit->0@.typed,
            edit->0@.preedit,
        ),
        edit is None ==> (r is None <==> item@.text.len() == 0),
        edit is None && r is Some ==> r->0@ == item@.text,
{
    match edit {
        Some(e) => Some(joined(e.buffer.text.as_str(), e.preedit.as_str())),
        None => if item.text.as_str().unicode_len() == 0 {
            None
        } else {
            Some(item.text.clone())
        },
    }
}

/// Where the first glyph at or after a byte is among the first `k` glyphs of a line.
pub open spec fn glyph_from(glyphs: Seq<Glyph>, byte: int, k: int) -> Option<i32>
    decreases k,
{
    if k <= 0 {
        None
    } else if glyph_from(glyphs, byte, k - 1) is Some {
        glyph_from(glyphs, byte, k - 1)
    } else if glyphs[k - 1].start >= byte {
        Some(glyphs[k - 1].x)
    } else {
        None
    }
}

/// Where the first glyph at or after a byte is among the first `n` lines.
pub open spec fn first_glyph(runs: Seq<Run>, byte: int, n: int) -> Option<i32>
    decreases n,
{
    if n <= 0 {
        None
    } else if first_glyph(runs, byte, n - 1) is Some {
        first_glyph(runs, byte, n - 1)
    } else {
        glyph_from(runs[n - 1].glyphs@, byte, runs[n - 1].glyphs@.len() as int)
    }
}

fn glyph_at(runs: &Vec<Run>, byte: usize) -> (r: Option<i32>)
    ensures
        r == first_glyph(runs@, byte as int, runs@.len() as int),
{
    let mut found: Option<i32> = None;
    let mut n: usize = 0;
    while n < runs.len()
        invariant
            n <= runs@.len(),
            found == first_glyph(runs@, byte as int, n as int),
        decreases runs@.len() - n,
    {
        let mut here: Option<i32> = None;
        let mut k: usize = 0;
        while k < runs[n].glyphs.len()
            invariant
                n < runs@.len(),
                k <= runs@[n as int].glyphs@.len(),
                here == glyph_from(runs@[n as int].glyphs@, byte as int, k as int),
            decreases runs@[n as int].glyphs@.len() - k,
        {
            let glyph: Glyph = runs[n].glyphs[k];
            if here.is_none() && glyph.start >= byte {
                here = Some(glyph.x);
            }
            k = k + 1;
        }
        if found.is_none() {
            found = here;
        }
        n = n + 1;
    }
    found
}

/// A solid rectangle, in device pixels.
#[derive(Debug, Clone, Copy, PartialEq, Eq)]
pub struct Fill {
    pub area: Rect,
    pub color: [u8; 4],
}

/// The caret: the line box the text ends in, so it matches the typed text.
pub open spec fn caret_of(item: TextItemView, m: Metrics, scale: u32) -> Rect {
    Rect {
        x: (PARTS * (item.x * scale) + m.line_w) as i128,
        y: (PARTS * (item.y * scale) + m.line_top) as i128,
        w: (PARTS * (CURSOR_WIDTH * scale)) as i128,
        h: m.line_height,
    }
}

/// The line under the part of the text that the input method has not finished: from its first
/// glyph to the end of the line, 0.15 em below the baseline.
pub open spec fn underline_of(
    item: TextItemView,
    runs: Seq<Run>,
    m: Metrics,
    committed: Seq<char>,
    scale: u32,
) -> Rect {
    let from = match first_glyph(runs, text::utf8_len(committed) as int, runs.len() as int) {
        Some(x) => PARTS * x,
        None => m.line_w as int,
    };
    Rect {
        x: (PARTS * (item.x * scale) + from) as i128,
        y: (PARTS * (item.y * scale) + m.baseline + TWENTIETH * (3 * device_text_size(
            item.size,
            scale,
        ))) as i128,
        w: geometry::max(m.line_w - from, 0) as i128,
        h: (PARTS * (UNDERLINE_HEIGHT * scale)) as i128,
    }
}

fn scaled_coordinate(v: i32, scale: u32) -> (r: i128)
    ensures
        r == v * scale,
        -0x8000_0000 * 0xffff_ffff <= r <= 0x7fff_ffff * 0xffff_ffff,
{
    proof {
        assert(-0x8000_0000 * 0xffff_ffff <= v * scale <= 0x7fff_ffff * 0xffff_ffff)
            by (nonlinear_arith)
            requires
                -0x8000_0000 <= v <= 0x7fff_ffff,
                0 <= scale <= 0xffff_ffff,
        ;
    }
    v as i128 * scale as i128
}

/// What is drawn around the text of a text box that is edited, in order: the line under what
/// the input method has not finished, where there is such, and the caret.
pub fn edit_marks(
    runs: &Vec<Run>,
    item: &TextItem,
    edit: &TextOverlay,
    scale: u32,
) -> (r: Vec<Fill>)
    ensures
        ({
            let m = metrics_of(runs@, item@.size, scale, runs@.len() as int);
            let color = paint::color_of(item@.color);
            let caret = Fill { area: caret_of(item@, m, scale), color };
            let under = Fill {
                area: underline_of(item@, runs@, m, edit@.typed, scale),
                color,
            };
            r@ == (if edit@.preedit.len() > 0 { seq![under, caret] } else { seq![caret] })
        }),
{
    let m: Metrics = measured(runs, item.size, scale);
    let color: [u8; 4] = parse_hex(item.color.as_str());
    let ox: i128 = PARTS * scaled_coordinate(item.x, scale);
    let oy: i128 = PARTS * scaled_coordinate(item.y, scale);
    let mut marks: Vec<Fill> = Vec::new();
    proof {
        lemma_em(item.size, scale);
        lemma_em(CURSOR_WIDTH, scale);
        lemma_em(UNDERLINE_HEIGHT, scale);
    }
    if edit.preedit.as_str().unicode_len() > 0 {
        let em: i128 = item.size as i128 * scale as i128;
        let from: i128 = match glyph_at(runs, byte_len(edit.buffer.text.as_str())) {
            Some(x) => PARTS * x as i128,
            None => m.line_w,
        };
        marks.push(
            Fill {
                area: Rect {
                    x: ox + from,
                    y: oy + m.baseline + TWENTIETH * (3 * em),
                    w: if m.line_w > from { m.line_w - from } else { 0 },
                    h: PARTS * (UNDERLINE_HEIGHT as i128 * scale as i128),
                },
                color,
            },
        );
    }
    marks.push(
        Fill {
            area: Rect {
                x: ox + m.line_w,
                y: oy + m.line_top,
                w: PARTS * (CURSOR_WIDTH as i128 * scale as i128),
                h: m.line_height,
            },
            color,
        },
    );
    proof {
        let under = Fill {
            area: underline_of(item@, runs@, m, edit@.typed, scale),
            color,
        };
        let caret = Fill { area: caret_of(item@, m, scale), color };
        if edit@.preedit.len() > 0 {
            assert(marks@ =~= seq![under, caret]);
        } else {
            assert(marks@ =~= seq![caret]);
        }
    }
    marks
}

/// The caret stands where the last line ends, and it is as high as that line.
pub proof fn the_caret_is_at_the_end_of_the_text(
    item: TextItemView,
    runs: Seq<Run>,
    scale: u32,
)
    requires
        runs.len() > 0,
    ensures
        ({
            let m = metrics_of(runs, item.size, scale, runs.len() as int);
            let caret = caret_of(item, m, scale);
            &&& caret.x == (PARTS * (item.x * scale + runs.last().line_w)) as i128
            &&& caret.y == (PARTS * (item.y * scale + runs.last().line_top)) as i128
            &&& caret.h == PARTS * runs.last().line_height
            &&& caret.w == 5040 * (2 * 256 * scale)
        }),
{
}

/// Where there is no line yet, the caret stands at the corner of the box and is 1.2 em high.
pub proof fn the_caret_of_an_empty_text_is_at_its_corner(item: TextItemView, scale: u32)
    ensures
        ({
            let caret = caret_of(item, metrics_of(Seq::empty(), item.size, scale, 0), scale);
            &&& caret.x == 5040 * (item.x * scale)
            &&& caret.y == 5040 * (item.y * scale)
            &&& caret.h == 6048 * (item.size * scale)
            &&& caret.w == 5040 * (2 * 256 * scale)
        }),
{
    lemma_em(item.size, scale);
    lemma_corner(item.x, scale);
    lemma_corner(item.y, scale);
}

proof fn lemma_corner(v: i32, scale: u32)
    ensures
        -0x8000_0000 * 0xffff_ffff <= v * scale <= 0x7fff_ffff * 0xffff_ffff,
{
    assert(-0x8000_0000 * 0xffff_ffff <= v * scale <= 0x7fff_ffff * 0xffff_ffff)
        by (nonlinear_arith)
        requires
            -0x8000_0000 <= v <= 0x7fff_ffff,
            0 <= scale <= 0xffff_ffff,
    ;
}

proof fn lemma_glyph_from(glyphs: Seq<Glyph>, byte: int, k: int)
    requires
        0 <= k <= glyphs.len(),
    ensures
        glyph_from(glyphs, byte, k) is None <==> forall|i: int|
            0 <= i < k ==> (#[trigger] glyphs[i]).start < byte,
        forall|i: int|
            0 <= i < k && (#[trigger] glyphs[i]).start >= byte && (forall|j: int|
                0 <= j < i ==> (#[trigger] glyphs[j]).start < byte) ==> glyph_from(glyphs, byte, k)
                == Some(glyphs[i].x),
    decreases k,
{
    if k > 0 {
        lemma_glyph_from(glyphs, byte, k - 1);
    }
}

proof fn lemma_first_glyph(runs: Seq<Run>, byte: int, n: int, r: int)
    requires
        0 <= r < n <= runs.len(),
        forall|i: int, j: int|
            0 <= i < r && 0 <= j < runs[i].glyphs@.len() ==> (
            #[trigger] runs[i].glyphs@[j]).start < byte,
        glyph_from(runs[r].glyphs@, byte, runs[r].glyphs@.len() as int) is Some,
    ensures
        first_glyph(runs, byte, n) == glyph_from(
            runs[r].glyphs@,
            byte,
            runs[r].glyphs@.len() as int,
        ),
    decreases n,
{
    if r < n - 1 {
        lemma_first_glyph(runs, byte, n - 1, r);
    } else {
        lemma_no_first_glyph(runs, byte, n - 1);
    }
}

proof fn lemma_no_first_glyph(runs: Seq<Run>, byte: int, n: int)
    requires
        0 <= n <= runs.len(),
        forall|i: int, j: int|
            0 <= i < n && 0 <= j < runs[i].glyphs@.len() ==> (
            #[trigger] runs[i].glyphs@[j]).start < byte,
    ensures
        first_glyph(runs, byte, n) is None,
    decreases n,
{
    if n > 0 {
        lemma_no_first_glyph(runs, byte, n - 1);
        lemma_glyph_from(runs[n - 1].glyphs@, byte, runs[n - 1].glyphs@.len() as int);
    }
}

/// The line under what the input method has not finished starts at the first glyph behind the
/// text that was typed, wherever lines break, and ends where the caret stands; it lies 0.15 em
/// below the baseline and is 1.5 logical pixels high.
pub proof fn the_underline_runs_from_the_typed_text_to_the_caret(
    item: TextItemView,
    runs: Seq<Run>,
    typed: Seq<char>,
    scale: u32,
    r: int,
    k: int,
)
    requires
        0 <= r < runs.len(),
        0 <= k < runs[r].glyphs@.len(),
        runs[r].glyphs@[k].start >= text::utf8_len(typed),
        forall|j: int|
            0 <= j < k ==> (#[trigger] runs[r].glyphs@[j]).start < text::utf8_len(typed),
        forall|i: int, j: int|
            0 <= i < r && 0 <= j < runs[i].glyphs@.len() ==> (
            #[trigger] runs[i].glyphs@[j]).start < text::utf8_len(typed),
    ensures
        ({
            let m = metrics_of(runs, item.size, scale, runs.len() as int);
            let under = underline_of(item, runs, m, typed, scale);
            let caret = caret_of(item, m, scale);
            let x = runs[r].glyphs@[k].x;
            &&& under.x == 5040 * (item.x * scale) + 5040 * x
            &&& x <= runs.last().line_w ==> under.x + under.w == caret.x
            &&& x > runs.last().line_w ==> under.w == 0
            &&& under.y == 5040 * (item.y * scale) + 5040 * runs.last().line_y + 756 * (item.size
                * scale)
            &&& under.h == 5040 * (384 * scale)
        }),
{
    let byte = text::utf8_len(typed) as int;
    lemma_glyph_from(runs[r].glyphs@, byte, runs[r].glyphs@.len() as int);
    assert(glyph_from(runs[r].glyphs@, byte, runs[r].glyphs@.len() as int) == Some(
        runs[r].glyphs@[k].x,
    ));
    lemma_first_glyph(runs, byte, runs.len() as int, r);
    lemma_em(item.size, scale);
    lemma_corner(item.x, scale);
    lemma_corner(item.y, scale);
    let under = underline_of(
        item,
        runs,
        metrics_of(runs, item.size, scale, runs.len() as int),
        typed,
        scale,
    );
    let s = scale as int;
    lemma_em(UNDERLINE_HEIGHT, scale);
    assert(UNDERLINE_HEIGHT * scale == 384 * s);
    assert(under.h == PARTS * (UNDERLINE_HEIGHT * scale));
}

proof fn lemma_extent(runs: Seq<Run>, size: u32, scale: u32, n: int)
    requires
        0 <= n <= runs.len(),
    ensures
        forall|i: int| 0 <= i < n ==> metrics_of(runs, size, scale, n).max_right >= PARTS * (
        #[trigger] runs[i]).line_w,
        forall|i: int| 0 <= i < n ==> metrics_of(runs, size, scale, n).max_bottom >= PARTS * ((
        #[trigger] runs[i]).line_top + runs[i].line_height),
        0 <= metrics_of(runs, size, scale, n).max_right <= MOST,
        0 <= metrics_of(runs, size, scale, n).max_bottom <= MOST,
    decreases n,
{
    lemma_em(size, scale);
    if n > 0 {
        lemma_extent(runs, size, scale, n - 1);
    }
}

/// The measured box covers every line: in device pixels, each line ends within the box.
pub proof fn the_measured_box_covers_every_line(
    item: TextItemView,
    runs: Seq<Run>,
    scale: u32,
    i: int,
)
    requires
        0 <= i < runs.len(),
        scale > 0,
    ensures
        ({
            let b = measured_box(item, metrics_of(runs, item.size, scale, runs.len() as int), scale);
            &&& b.x <= PARTS * item.x
            &&& b.y <= PARTS * item.y
            &&& PARTS * (item.x * scale + runs[i].line_w) <= b.right() * scale
            &&& PARTS * (item.y * scale + runs[i].line_top + runs[i].line_height) <= b.bottom()
                * scale
        }),
{
    let m = metrics_of(runs, item.size, scale, runs.len() as int);
    lemma_extent(runs, item.size, scale, runs.len() as int);
    lemma_rounds_up(m.max_right as int, scale as int);
    lemma_rounds_up(m.max_bottom as int, scale as int);
    let b = measured_box(item, m, scale);
    let (w, h) = (
        logical_length(m.max_right as int, scale as int),
        logical_length(m.max_bottom as int, scale as int),
    );
    let (x, y, s) = (item.x as int, item.y as int, scale as int);
    assert(b.right() == 5040 * x + w + 1_290_240);
    assert(b.bottom() == 5040 * y + h + 1_290_240);
    assert((5040 * x + w + 1_290_240) * s == 5040 * (x * s) + w * s + 1_290_240 * s)
        by (nonlinear_arith);
    assert((5040 * y + h + 1_290_240) * s == 5040 * (y * s) + h * s + 1_290_240 * s)
        by (nonlinear_arith);
}

proof fn lemma_rounds_up(n: int, scale: int)
    requires
        0 <= n,
        0 < scale,
    ensures
        n <= logical_length(n, scale) * scale,
        0 <= logical_length(n, scale) <= n,
{
    let q = (n + scale - 1) / scale;
    assert(n <= q * scale && 0 <= q <= n) by (nonlinear_arith)
        requires
            q == (n + scale - 1) / scale,
            0 <= n,
            0 < scale,
    ;
}

/// The extent of the lines is no larger than it has to be: it ends with the widest line and at the
/// bottom of the lowest, or at 1.2 em where no line goes further.
pub proof fn the_extent_is_that_of_some_line(runs: Seq<Run>, size: u32, scale: u32, n: int)
    requires
        0 <= n <= runs.len(),
    ensures
        ({
            let m = metrics_of(runs, size, scale, n);
            &&& m.max_right == 0 || exists|i: int|
                0 <= i < n && m.max_right == 5040 * (#[trigger] runs[i]).line_w
            &&& m.max_bottom == 6048 * (size * scale) || exists|i: int|
                0 <= i < n && m.max_bottom == 5040 * ((#[trigger] runs[i]).line_top
                    + runs[i].line_height)
        }),
    decreases n,
{
    lemma_em(size, scale);
    lemma_extent(runs, size, scale, n);
    if n > 0 {
        the_extent_is_that_of_some_line(runs, size, scale, n - 1);
        lemma_extent(runs, size, scale, n - 1);
        let (before, m) = (metrics_of(runs, size, scale, n - 1), metrics_of(runs, size, scale, n));
        let run = runs[n - 1];
        assert(m.max_right == before.max_right || m.max_right == 5040 * run.line_w);
        assert(m.max_bottom == before.max_bottom || m.max_bottom == 5040 * (run.line_top
            + run.line_height));
    }
}

/// Measured lengths become logical ones by the least that covers them at the scale.
pub proof fn logical_lengths_are_the_least_that_cover(n: int, scale: int)
    requires
        0 <= n,
        0 < scale,
    ensures
        logical_length(n, scale) * scale >= n,
        logical_length(n, scale) * scale < n + scale,
{
    lemma_rounds_up(n, scale);
    let q = (n + scale - 1) / scale;
    assert(q * scale <= n + scale - 1) by (nonlinear_arith)
        requires
            q == (n + scale - 1) / scale,
            0 < scale,
    ;
}

} // verus!
