//! The edit-mode hint: a capsule of keycaps and their meaning, centred near the top edge of the
//! output. Lengths are logical pixels in 1/256; what is painted is counted in device pixels.

use vstd::prelude::*;

use crate::damage;
use crate::damage::{HINT_HAIRLINE, HINT_HEIGHT, HINT_RESERVE, HINT_TOP};
use crate::geometry;
use crate::geometry::{Rect, FIFTH, HALF, PARTS};
use crate::overlay::{Hint, HintView};
use crate::paint;
use crate::paint::{parse_hex, PATH_REACH};
use crate::text;
use crate::text::{joined, numeral, same_text};

verus! {

/// Space inside the capsule's ends: 12 logical pixels.
pub const HINT_PAD: u64 = 3072;

/// Size of the labels and of the keycaps' glyphs: 13 and 12 logical pixels.
pub const HINT_LABEL_SIZE: u32 = 3328;
pub const HINT_KEY_SIZE: u32 = 3072;

/// A keycap: the least room for its glyph, the space on either side of it, its height and the
/// radius of its corners: 8, 7, 22 and 6 logical pixels.
pub const HINT_KEY_MIN: u64 = 2048;
pub const HINT_KEY_PAD: u64 = 1792;
pub const HINT_KEY_HEIGHT: i128 = 5632;
pub const HINT_KEY_RADIUS: i128 = 1536;

/// The space between a keycap and its label, and between items: 7 and 14 logical pixels.
pub const HINT_GAP: u64 = 1792;
pub const HINT_ITEM_GAP: u64 = 3584;

/// The well with the active colour: its size and the radius of its corners: 16 and 4 logical
/// pixels.
pub const HINT_WELL: u64 = 4096;
pub const HINT_WELL_RADIUS: i128 = 1024;

/// A capsule is a rectangle whose corner radius is half its height.
pub const HINT_RADIUS: i128 = 4352;

/// How many hints a cache holds.
pub const HINT_CACHE_CAP: usize = 16;

/// `#rrggbbaa`. The pill fill stands in for a material that blurs what is behind it, which a
/// plain surface cannot: there is translucency only.
pub const HINT_PILL_FILL: &'static str = "#1c1c1ec7";
pub const HINT_PILL_EDGE: &'static str = "#ffffff1f";
pub const HINT_KEY_FILL: &'static str = "#ffffff26";
pub const HINT_KEY_EDGE: &'static str = "#ffffff2e";

/// The active tool's keycap.
pub const HINT_ACCENT: &'static str = "#0a84ffff";
pub const HINT_KEY_TEXT: &'static str = "#ffffffee";
pub const HINT_LABEL_TEXT: &'static str = "#ebebf59e";
pub const HINT_LABEL_ACTIVE: &'static str = "#fffffff2";
pub const HINT_WELL_EDGE: &'static str = "#ffffff4d";

/// How many keys the hint shows.
pub const HINT_ITEMS: usize = 6;

/// A length in whole pixels: to the nearest one, halfway to the even one.
pub open spec fn whole_pixels(size: u32) -> int {
    let (n, rest) = (size / 256, size % 256);
    if rest > 128 || (rest == 128 && n % 2 == 1) { n + 1 } else { n as int }
}

/// The key of an item.
pub open spec fn key_of(i: int) -> Seq<char> {
    if i == 0 {
        "1-5"@
    } else if i == 1 {
        "P"@
    } else if i == 2 {
        "E"@
    } else if i == 3 {
        "T"@
    } else if i == 4 {
        "[ ]"@
    } else {
        "Esc"@
    }
}

/// The meaning of an item's key. The size key is contextual: it adjusts the pen width, or the
/// text size while the text tool is active.
pub open spec fn label_of(hint: HintView, i: int) -> Seq<char> {
    if i == 0 {
        "colour"@
    } else if i == 1 {
        "pen"@
    } else if i == 2 {
        "eraser"@
    } else if i == 3 {
        "text: click to place"@
    } else if i == 4 {
        (if hint.tool == "text"@ { "size"@ } else { "width"@ }) + " "@ + text::decimal(
            whole_pixels(hint.size) as nat,
        )
    } else {
        "end text, again locks"@
    }
}

/// The item of the active tool's key, where the tool is known.
pub open spec fn active_item(tool: Seq<char>) -> Option<int> {
    if tool == "pen"@ {
        Some(1)
    } else if tool == "eraser"@ {
        Some(2)
    } else if tool == "text"@ {
        Some(3)
    } else {
        None
    }
}

fn pixels(size: u32) -> (r: u32)
    ensures
        r == whole_pixels(size),
{
    let (n, rest): (u32, u32) = (size / 256, size % 256);
    if rest > 128 || (rest == 128 && n % 2 == 1) {
        n + 1
    } else {
        n
    }
}

/// The keys and what they do, in the order the capsule shows them.
pub fn hint_items(hint: &Hint) -> (r: Vec<(&'static str, String)>)
    ensures
        r@.len() == HINT_ITEMS,
        forall|i: int|
            0 <= i < HINT_ITEMS ==> (#[trigger] r@[i]).0@ == key_of(i) && r@[i].1@ == label_of(
                hint@,
                i,
            ),
{
    let name: &str = if same_text(hint.tool, "text") { "size" } else { "width" };
    let size: String = joined(joined(name, " ").as_str(), numeral(pixels(hint.size)).as_str());
    let mut items: Vec<(&'static str, String)> = Vec::new();
    items.push(("1-5", "colour".to_string()));
    items.push(("P", "pen".to_string()));
    items.push(("E", "eraser".to_string()));
    items.push(("T", "text: click to place".to_string()));
    items.push(("[ ]", size));
    items.push(("Esc", "end text, again locks".to_string()));
    items
}

/// The keycap of the tool the hint reports as the active one: the place of its item.
pub fn active_key(tool: &str) -> (r: Option<usize>)
    ensures
        r is Some <==> active_item(tool@) is Some,
        r is Some ==> r->0 == active_item(tool@)->0,
{
    if same_text(tool, "pen") {
        Some(1)
    } else if same_text(tool, "eraser") {
        Some(2)
    } else if same_text(tool, "text") {
        Some(3)
    } else {
        None
    }
}

/// How wide the items' keys and labels are when they are laid out in their sizes.
#[derive(Debug, Clone, Copy, PartialEq, Eq)]
pub struct ItemWidths {
    pub keys: [u32; 6],
    pub labels: [u32; 6],
}

/// One laid-out element of the hint.
#[derive(Debug, PartialEq, Eq)]
pub enum Piece {
    /// The active colour.
    Well,
    /// A keycap: its glyph, how wide that is, and whether it is the active tool's key.
    Key { key: &'static str, glyph: u32, active: bool },
    /// The meaning of the keycap before it.
    Label { text: String, active: bool },
}

/// What an element is, in the mathematical model.
#[verifier::ext_equal]
pub enum PieceView {
    Well,
    Key { key: Seq<char>, glyph: u32, active: bool },
    Label { text: Seq<char>, active: bool },
}

impl View for Piece {
    type V = PieceView;

    open spec fn view(&self) -> PieceView {
        match *self {
            Piece::Well => PieceView::Well,
            Piece::Key { key, glyph, active } => PieceView::Key { key: key@, glyph, active },
            Piece::Label { text, active } => PieceView::Label { text: text@, active },
        }
    }
}

/// An element and where it is in the capsule.
#[derive(Debug, PartialEq, Eq)]
pub struct Placed {
    pub piece: Piece,
    pub x: u64,
    pub w: u64,
}

/// What a placed element is, in the mathematical model.
#[verifier::ext_equal]
pub struct PlacedView {
    pub piece: PieceView,
    pub x: int,
    pub w: int,
}

impl View for Placed {
    type V = PlacedView;

    open spec fn view(&self) -> PlacedView {
        PlacedView { piece: self.piece@, x: self.x as int, w: self.w as int }
    }
}

/// A laid-out hint capsule: where it sits, in 1/512 of a device pixel from the surface's left
/// edge, how wide it is, and what to paint.
#[derive(Debug, PartialEq, Eq)]
pub struct HintPill {
    pub x: u64,
    pub width: u64,
    pub pieces: Vec<Placed>,
}

impl ItemWidths {
    /// The width of an item's keycap.
    pub open spec fn cap(self, i: int) -> int {
        geometry::max(self.keys[i] as int, HINT_KEY_MIN as int) + 2 * HINT_KEY_PAD
    }

    /// The width of an item.
    pub open spec fn item(self, i: int, labels: bool) -> int {
        if labels { self.cap(i) + HINT_GAP + self.labels[i] } else { self.cap(i) }
    }

    /// Where an item starts.
    pub open spec fn item_at(self, i: int, labels: bool) -> int
        decreases i,
    {
        if i <= 0 {
            HINT_PAD + HINT_WELL + HINT_ITEM_GAP
        } else {
            self.item_at(i - 1, labels) + self.item(i - 1, labels) + HINT_ITEM_GAP
        }
    }

    /// The width of the capsule.
    pub open spec fn total(self, labels: bool) -> int {
        self.item_at(5, labels) + self.item(5, labels) + HINT_PAD
    }
}

/// The keycap of an item.
pub open spec fn placed_key(hint: HintView, m: ItemWidths, labels: bool, i: int) -> PlacedView {
    PlacedView {
        piece: PieceView::Key {
            key: key_of(i),
            glyph: m.keys[i],
            active: active_item(hint.tool) == Some(i),
        },
        x: m.item_at(i, labels),
        w: m.cap(i),
    }
}

/// The label of an item.
pub open spec fn placed_label(hint: HintView, m: ItemWidths, i: int) -> PlacedView {
    PlacedView {
        piece: PieceView::Label {
            text: label_of(hint, i),
            active: active_item(hint.tool) == Some(i),
        },
        x: m.item_at(i, true) + m.cap(i) + HINT_GAP,
        w: m.labels[i] as int,
    }
}

/// The elements of the capsule up to the `n`-th item, from left to right.
pub open spec fn placed_items(hint: HintView, m: ItemWidths, labels: bool, n: int) -> Seq<PlacedView>
    decreases n,
{
    if n <= 0 {
        seq![PlacedView { piece: PieceView::Well, x: HINT_PAD as int, w: HINT_WELL as int }]
    } else {
        let before = placed_items(hint, m, labels, n - 1);
        let key = before.push(placed_key(hint, m, labels, n - 1));
        if labels { key.push(placed_label(hint, m, n - 1)) } else { key }
    }
}

/// The elements of a capsule, in the mathematical model.
pub open spec fn views(pieces: Seq<Placed>) -> Seq<PlacedView> {
    pieces.map_values(|p: Placed| p@)
}

/// Whether a surface that is `device` pixels wide has room for a capsule of a width: it is no
/// wider than the surface, and no wider than what the damage accounting reserves.
pub open spec fn has_room(width: int, device: u32, scale: u32) -> bool {
    width * scale <= 256 * device && width <= HINT_RESERVE
}

impl HintPill {
    /// The capsule for a hint, centred on a surface, with labels or without.
    pub open spec fn is_for(
        self,
        hint: HintView,
        device: u32,
        scale: u32,
        m: ItemWidths,
        labels: bool,
    ) -> bool {
        &&& self.width == m.total(labels)
        &&& self.x == 256 * device - self.width * scale
        &&& views(self.pieces@) == placed_items(hint, m, labels, HINT_ITEMS as int)
    }
}

proof fn lemma_item_at(m: ItemWidths, labels: bool, i: int)
    requires
        0 <= i <= 6,
    ensures
        0 <= m.item_at(i, labels) <= (i + 1) * 0x3_0000_0000,
    decreases i,
{
    if i > 0 {
        lemma_item_at(m, labels, i - 1);
        lemma_widths(m, i - 1);
    }
}

proof fn lemma_widths(m: ItemWidths, i: int)
    ensures
        HINT_KEY_MIN <= m.cap(i) <= 0xffff_ffff + 2 * HINT_KEY_PAD,
        0 <= m.item(i, true) <= 2 * 0xffff_ffff + 2 * HINT_KEY_PAD + HINT_GAP,
        0 <= m.item(i, false) <= 0xffff_ffff + 2 * HINT_KEY_PAD,
{
}

/// Lay the capsule out from left to right. `None` when the result would not fit on the surface,
/// which is `device` pixels wide.
pub fn hint_pill(
    hint: &Hint,
    device: u32,
    scale: u32,
    widths: &ItemWidths,
    labels: bool,
) -> (r: Option<HintPill>)
    ensures
        r is Some <==> has_room(widths.total(labels), device, scale),
        r is Some ==> r->0.is_for(hint@, device, scale, *widths, labels) && r->0.in_reach(),
{
    let active: Option<usize> = active_key(hint.tool);
    let items: Vec<(&'static str, String)> = hint_items(hint);
    let mut pieces: Vec<Placed> = Vec::new();
    pieces.push(Placed { piece: Piece::Well, x: HINT_PAD, w: HINT_WELL });
    let mut cursor: u64 = HINT_PAD + HINT_WELL + HINT_ITEM_GAP;
    let mut i: usize = 0;
    proof {
        assert(views(pieces@) =~= placed_items(hint@, *widths, labels, 0));
        lemma_item_at(*widths, labels, 5);
        lemma_widths(*widths, 5);
    }
    while i < HINT_ITEMS
        invariant
            i <= HINT_ITEMS,
            items@.len() == HINT_ITEMS,
            forall|j: int|
                0 <= j < HINT_ITEMS ==> (#[trigger] items@[j]).0@ == key_of(j) && items@[j].1@
                    == label_of(hint@, j),
            active is Some <==> active_item(hint@.tool) is Some,
            active is Some ==> active->0 == active_item(hint@.tool)->0,
            i < HINT_ITEMS ==> cursor == widths.item_at(i as int, labels),
            i == HINT_ITEMS ==> cursor == widths.item_at(5, labels) + widths.item(5, labels),
            views(pieces@) == placed_items(hint@, *widths, labels, i as int),
        decreases HINT_ITEMS - i,
    {
        proof {
            lemma_item_at(*widths, labels, i as int);
            lemma_widths(*widths, i as int);
        }
        let ghost before = pieces@;
        let is_active: bool = match active {
            Some(a) => a == i,
            None => false,
        };
        let glyph: u32 = widths.keys[i];
        let cap: u64 = (if glyph as u64 >= HINT_KEY_MIN {
            glyph as u64
        } else {
            HINT_KEY_MIN
        }) + 2 * HINT_KEY_PAD;
        pieces.push(
            Placed {
                piece: Piece::Key { key: items[i].0, glyph, active: is_active },
                x: cursor,
                w: cap,
            },
        );
        proof {
            assert(views(pieces@) =~= views(before).push(
                placed_key(hint@, *widths, labels, i as int),
            ));
        }
        cursor = cursor + cap;
        if labels {
            let ghost with_key = pieces@;
            cursor = cursor + HINT_GAP;
            let label: u64 = widths.labels[i] as u64;
            pieces.push(
                Placed {
                    piece: Piece::Label { text: items[i].1.clone(), active: is_active },
                    x: cursor,
                    w: label,
                },
            );
            proof {
                assert(views(pieces@) =~= views(with_key).push(
                    placed_label(hint@, *widths, i as int),
                ));
            }
            cursor = cursor + label;
        }
        if i + 1 < HINT_ITEMS {
            cursor = cursor + HINT_ITEM_GAP;
        }
        i = i + 1;
    }
    let width: u64 = cursor + HINT_PAD;
    if width > HINT_RESERVE {
        return None;
    }
    proof {
        assert(0 <= width * scale <= 184_320 * 0xffff_ffff) by (nonlinear_arith)
            requires
                0 <= width <= 184_320,
                0 <= scale <= 0xffff_ffff,
        ;
    }
    let (taken, all): (u64, u64) = (width * scale as u64, 256 * device as u64);
    if taken > all {
        return None;
    }
    let pill: HintPill = HintPill { x: all - taken, width, pieces };
    proof {
        a_capsule_can_be_painted(pill, hint@, device, scale, *widths, labels);
    }
    Some(pill)
}

/// The capsule that fits on the surface. The descriptions are dropped first when it would not
/// fit: the keycaps alone still teach the shortcuts.
pub fn fitting_pill(hint: &Hint, device: u32, scale: u32, widths: &ItemWidths) -> (r: Option<
    HintPill,
>)
    ensures
        r is None <==> !has_room(widths.total(true), device, scale) && !has_room(
            widths.total(false),
            device,
            scale,
        ),
        r is Some ==> r->0.in_reach() && r->0.is_for(
            hint@,
            device,
            scale,
            *widths,
            has_room(widths.total(true), device, scale),
        ),
{
    match hint_pill(hint, device, scale, widths, true) {
        Some(pill) => Some(pill),
        None => hint_pill(hint, device, scale, widths, false),
    }
}

/// A hint that was laid out for a surface, `surface` device pixels wide, at a scale.
#[derive(Debug)]
pub struct CachedHint {
    pub hint: Hint,
    pub surface: u32,
    pub scale: u32,
    pub pill: HintPill,
}

impl CachedHint {
    pub open spec fn is_of(self, hint: HintView, surface: u32, scale: u32) -> bool {
        self.hint@ == hint && self.surface == surface && self.scale == scale
    }
}

/// The hints laid out last.
#[derive(Debug)]
pub struct HintCache {
    pub entries: Vec<CachedHint>,
}

/// The first entry at or after `from` for a hint on a surface at a scale.
pub open spec fn place_of(
    entries: Seq<CachedHint>,
    hint: HintView,
    surface: u32,
    scale: u32,
    from: int,
) -> Option<int>
    decreases entries.len() - from,
{
    if from < 0 || from >= entries.len() {
        None
    } else if entries[from].is_of(hint, surface, scale) {
        Some(from)
    } else {
        place_of(entries, hint, surface, scale, from + 1)
    }
}

/// The entries once another is kept: the oldest makes room for it.
pub open spec fn kept(entries: Seq<CachedHint>, entry: CachedHint) -> Seq<CachedHint> {
    (if entries.len() == HINT_CACHE_CAP { entries.drop_first() } else { entries }).push(entry)
}

impl HintCache {
    pub fn new() -> (r: HintCache)
        ensures
            r.entries@.len() == 0,
    {
        HintCache { entries: Vec::new() }
    }

    /// The capsule that was laid out for a hint on a surface at a scale.
    pub fn find(&self, hint: &Hint, surface: u32, scale: u32) -> (r: Option<&HintPill>)
        ensures
            r is Some <==> place_of(self.entries@, hint@, surface, scale, 0) is Some,
            r is Some ==> *r->0 == self.entries@[place_of(
                self.entries@,
                hint@,
                surface,
                scale,
                0,
            )->0].pill,
    {
        let mut i: usize = 0;
        while i < self.entries.len()
            invariant
                i <= self.entries@.len(),
                place_of(self.entries@, hint@, surface, scale, 0) == place_of(
                    self.entries@,
                    hint@,
                    surface,
                    scale,
                    i as int,
                ),
            decreases self.entries@.len() - i,
        {
            let entry: &CachedHint = &self.entries[i];
            if same_text(entry.hint.tool, hint.tool) && same_text(entry.hint.color, hint.color)
                && entry.hint.size == hint.size && entry.surface == surface && entry.scale
                == scale {
                proof {
                    assert(self.entries@[i as int].hint@ =~= hint@);
                }
                return Some(&entry.pill);
            }
            i = i + 1;
        }
        None
    }

    /// Keep a capsule that was laid out.
    pub fn keep(&mut self, hint: Hint, surface: u32, scale: u32, pill: HintPill)
        requires
            old(self).entries@.len() <= HINT_CACHE_CAP,
        ensures
            final(self).entries@ == kept(
                old(self).entries@,
                (CachedHint { hint, surface, scale, pill }),
            ),
            final(self).entries@.len() <= HINT_CACHE_CAP,
    {
        let ghost start = self.entries@;
        if self.entries.len() == HINT_CACHE_CAP {
            self.entries.remove(0);
            proof {
                assert(self.entries@ =~= start.drop_first());
            }
        }
        self.entries.push(CachedHint { hint, surface, scale, pill });
    }
}

/// A text of the hint: where its top-left corner is, in parts of device pixels, and how it looks.
#[derive(Debug, PartialEq, Eq)]
pub struct Label {
    pub x: i128,
    pub y: i128,
    pub color: String,
    pub size: u32,
    pub text: String,
}

/// What a text of the hint is, in the mathematical model.
#[verifier::ext_equal]
pub struct LabelView {
    pub x: int,
    pub y: int,
    pub color: Seq<char>,
    pub size: u32,
    pub text: Seq<char>,
}

impl View for Label {
    type V = LabelView;

    open spec fn view(&self) -> LabelView {
        LabelView {
            x: self.x as int,
            y: self.y as int,
            color: self.color@,
            size: self.size,
            text: self.text@,
        }
    }
}

/// Something to paint for the hint. Lengths are parts of device pixels, except a text's size.
#[derive(Debug, PartialEq, Eq)]
pub enum Shape {
    /// A rectangle with rounded corners, a fill and an edge.
    RoundRect { area: Rect, radius: i128, fill: [u8; 4], edge: [u8; 4], edge_width: i128 },
    Text(Label),
}

/// What a shape is, in the mathematical model.
pub enum ShapeView {
    RoundRect { area: Rect, radius: int, fill: [u8; 4], edge: [u8; 4], edge_width: int },
    Text(LabelView),
}

impl View for Shape {
    type V = ShapeView;

    open spec fn view(&self) -> ShapeView {
        match *self {
            Shape::RoundRect { area, radius, fill, edge, edge_width } => ShapeView::RoundRect {
                area,
                radius: radius as int,
                fill,
                edge,
                edge_width: edge_width as int,
            },
            Shape::Text(label) => ShapeView::Text(label@),
        }
    }
}

/// A logical length in parts of device pixels.
pub open spec fn device_parts(v: int, scale: u32) -> int {
    PARTS * (v * scale)
}

/// A rounded rectangle of the hint. `x` is counted in parts of device pixels already.
pub open spec fn round_rect(
    x: int,
    y: int,
    w: int,
    h: int,
    radius: int,
    fill: [u8; 4],
    edge: [u8; 4],
    scale: u32,
) -> ShapeView {
    ShapeView::RoundRect {
        area: Rect {
            x: x as i128,
            y: device_parts(y, scale) as i128,
            w: device_parts(w, scale) as i128,
            h: device_parts(h, scale) as i128,
        },
        radius: device_parts(radius, scale),
        fill,
        edge,
        edge_width: device_parts(HINT_HAIRLINE as int, scale),
    }
}

/// A label vertically centred in a `height`-tall box whose top edge is `top`: its line is 1.2 em
/// high. `x` is counted in parts of device pixels already.
pub open spec fn centred_text(
    x: int,
    top: int,
    height: int,
    size: u32,
    color: Seq<char>,
    text: Seq<char>,
    scale: u32,
) -> LabelView {
    LabelView {
        x,
        y: (PARTS * top + HALF * height - FIFTH * (3 * size)) * scale,
        color,
        size,
        text,
    }
}

/// Where a place in a capsule is, in parts of device pixels.
pub open spec fn on_surface(pill_x: int, x: int, scale: u32) -> int {
    HALF * pill_x + device_parts(x, scale)
}

/// What the capsule itself is painted as.
pub open spec fn pill_shape(pill_x: int, width: int, scale: u32) -> ShapeView {
    round_rect(
        on_surface(pill_x, 0, scale),
        HINT_TOP as int,
        width,
        HINT_HEIGHT as int,
        HINT_RADIUS as int,
        paint::color_of(HINT_PILL_FILL@),
        paint::color_of(HINT_PILL_EDGE@),
        scale,
    )
}

/// What an element of a capsule at `pill_x` is painted as.
pub open spec fn piece_shapes(p: PlacedView, pill_x: int, color: Seq<char>, scale: u32) -> Seq<
    ShapeView,
> {
    let key_top = HINT_TOP + (HINT_HEIGHT - HINT_KEY_HEIGHT) / 2;
    let x = on_surface(pill_x, p.x, scale);
    match p.piece {
        PieceView::Well => seq![
            round_rect(
                x,
                HINT_TOP + (HINT_HEIGHT - HINT_WELL) / 2,
                HINT_WELL as int,
                HINT_WELL as int,
                HINT_WELL_RADIUS as int,
                paint::color_of(color),
                paint::color_of(HINT_WELL_EDGE@),
                scale,
            ),
        ],
        PieceView::Key { key, glyph, active } => seq![
            round_rect(
                x,
                key_top,
                p.w,
                HINT_KEY_HEIGHT as int,
                HINT_KEY_RADIUS as int,
                paint::color_of(if active { HINT_ACCENT@ } else { HINT_KEY_FILL@ }),
                paint::color_of(if active { HINT_ACCENT@ } else { HINT_KEY_EDGE@ }),
                scale,
            ),
            ShapeView::Text(
                centred_text(
                    x + HALF * ((p.w - glyph) * scale),
                    key_top,
                    HINT_KEY_HEIGHT as int,
                    HINT_KEY_SIZE,
                    HINT_KEY_TEXT@,
                    key,
                    scale,
                ),
            ),
        ],
        PieceView::Label { text, active } => seq![
            ShapeView::Text(
                centred_text(
                    x,
                    HINT_TOP as int,
                    HINT_HEIGHT as int,
                    HINT_LABEL_SIZE,
                    if active { HINT_LABEL_ACTIVE@ } else { HINT_LABEL_TEXT@ },
                    text,
                    scale,
                ),
            ),
        ],
    }
}

/// What the capsule and its first `n` elements are painted as, in order.
pub open spec fn shapes_of(
    pieces: Seq<PlacedView>,
    pill_x: int,
    width: int,
    color: Seq<char>,
    scale: u32,
    n: int,
) -> Seq<ShapeView>
    decreases n,
{
    if n <= 0 {
        seq![pill_shape(pill_x, width, scale)]
    } else {
        shapes_of(pieces, pill_x, width, color, scale, n - 1) + piece_shapes(
            pieces[n - 1],
            pill_x,
            color,
            scale,
        )
    }
}

/// The shapes, in the mathematical model.
pub open spec fn shape_views(shapes: Seq<Shape>) -> Seq<ShapeView> {
    shapes.map_values(|s: Shape| s@)
}

impl PlacedView {
    /// The element lies inside a capsule of this width, and its glyph inside it.
    pub open spec fn inside(self, width: int) -> bool {
        &&& 0 <= self.x
        &&& 0 <= self.w
        &&& self.x + self.w <= width
        &&& self.piece is Key ==> self.piece->glyph <= self.w
    }
}

impl HintPill {
    /// The capsule starts where a surface can end at the latest, it is no wider than what is
    /// reserved for it, and its elements lie inside it.
    pub open spec fn in_reach(self) -> bool {
        &&& self.x <= 256 * 0xffff_ffff
        &&& self.width <= HINT_RESERVE
        &&& forall|i: int|
            0 <= i < self.pieces@.len() ==> (#[trigger] self.pieces@[i])@.inside(self.width as int)
    }
}

impl Shape {
    /// A rectangle lies where a path can go around it.
    pub open spec fn in_path_range(self) -> bool {
        self is RoundRect ==> self->area.in_path_range() && 0 <= self->radius <= PATH_REACH
    }
}

/// A logical length in parts of device pixels.
fn scaled_parts(v: i128, scale: u32) -> (r: i128)
    requires
        0 <= v <= HINT_RESERVE,
    ensures
        r == device_parts(v as int, scale),
        0 <= r <= 0x100_0000_0000_0000_0000,
{
    proof {
        assert(0 <= v * scale <= 184_320 * 0xffff_ffff) by (nonlinear_arith)
            requires
                0 <= v <= 184_320,
                0 <= scale <= 0xffff_ffff,
        ;
    }
    PARTS * (v * scale as i128)
}

fn scaled_area(
    x: i128,
    y: i128,
    w: i128,
    h: i128,
    radius: i128,
    fill: [u8; 4],
    edge: [u8; 4],
    scale: u32,
) -> (r: Shape)
    requires
        0 <= x <= 0x1000_0000_0000_0000_0000,
        0 <= y <= HINT_RESERVE,
        0 <= w <= HINT_RESERVE,
        0 <= h <= HINT_RESERVE,
        0 <= radius <= HINT_RESERVE,
    ensures
        r@ == round_rect(
            x as int,
            y as int,
            w as int,
            h as int,
            radius as int,
            fill,
            edge,
            scale,
        ),
        r.in_path_range(),
{
    Shape::RoundRect {
        area: Rect {
            x,
            y: scaled_parts(y, scale),
            w: scaled_parts(w, scale),
            h: scaled_parts(h, scale),
        },
        radius: scaled_parts(radius, scale),
        fill,
        edge,
        edge_width: scaled_parts(HINT_HAIRLINE, scale),
    }
}

/// A label vertically centred in a `height`-tall box whose top edge is `top`. `x` is counted in
/// parts of device pixels already.
pub fn hint_text(
    x: i128,
    top: i32,
    height: u32,
    size: u32,
    color: &str,
    text: &str,
    scale: u32,
) -> (r: Label)
    ensures
        r@ == centred_text(x as int, top as int, height as int, size, color@, text@, scale),
{
    let y: i128 = PARTS * top as i128 + HALF * height as i128 - FIFTH * (3 * size as i128);
    proof {
        assert(-0x4000_0000_0000 * 0xffff_ffff <= y * scale <= 0x4000_0000_0000 * 0xffff_ffff)
            by (nonlinear_arith)
            requires
                -0x4000_0000_0000 <= y <= 0x4000_0000_0000,
                0 <= scale <= 0xffff_ffff,
        ;
    }
    Label {
        x,
        y: y * scale as i128,
        color: color.to_string(),
        size,
        text: text.to_string(),
    }
}

/// What a laid-out hint of a colour is painted as, in order: the capsule, then its elements from
/// left to right, a keycap before its glyph.
pub fn hint_shapes(pill: &HintPill, color: &str, scale: u32) -> (r: Vec<Shape>)
    requires
        pill.in_reach(),
    ensures
        shape_views(r@) == shapes_of(
            views(pill.pieces@),
            pill.x as int,
            pill.width as int,
            color@,
            scale,
            pill.pieces@.len() as int,
        ),
        forall|i: int| 0 <= i < r@.len() ==> (#[trigger] r@[i]).in_path_range(),
{
    let mut shapes: Vec<Shape> = Vec::new();
    let left: i128 = HALF * pill.x as i128;
    proof {
        assert(0 * scale == 0) by (nonlinear_arith);
    }
    shapes.push(
        scaled_area(
            left,
            HINT_TOP,
            pill.width as i128,
            HINT_HEIGHT,
            HINT_RADIUS,
            parse_hex(HINT_PILL_FILL),
            parse_hex(HINT_PILL_EDGE),
            scale,
        ),
    );
    let ghost placed = views(pill.pieces@);
    proof {
        assert(shape_views(shapes@) =~= shapes_of(
            placed,
            pill.x as int,
            pill.width as int,
            color@,
            scale,
            0,
        ));
    }
    let mut n: usize = 0;
    while n < pill.pieces.len()
        invariant
            n <= pill.pieces@.len(),
            pill.in_reach(),
            placed == views(pill.pieces@),
            left == HALF * pill.x,
            forall|i: int| 0 <= i < shapes@.len() ==> (#[trigger] shapes@[i]).in_path_range(),
            shape_views(shapes@) == shapes_of(
                placed,
                pill.x as int,
                pill.width as int,
                color@,
                scale,
                n as int,
            ),
        decreases pill.pieces@.len() - n,
    {
        let ghost before = shapes@;
        let p: &Placed = &pill.pieces[n];
        proof {
            assert(pill.pieces@[n as int]@.inside(pill.width as int));
        }
        let x: i128 = left + scaled_parts(p.x as i128, scale);
        match &p.piece {
            Piece::Well => {
                shapes.push(
                    scaled_area(
                        x,
                        HINT_TOP + (HINT_HEIGHT - HINT_WELL as i128) / 2,
                        HINT_WELL as i128,
                        HINT_WELL as i128,
                        HINT_WELL_RADIUS,
                        parse_hex(color),
                        parse_hex(HINT_WELL_EDGE),
                        scale,
                    ),
                );
            },
            Piece::Key { key, glyph, active } => {
                let top: i128 = HINT_TOP + (HINT_HEIGHT - HINT_KEY_HEIGHT) / 2;
                let fill: &str = if *active { HINT_ACCENT } else { HINT_KEY_FILL };
                let edge: &str = if *active { HINT_ACCENT } else { HINT_KEY_EDGE };
                shapes.push(
                    scaled_area(
                        x,
                        top,
                        p.w as i128,
                        HINT_KEY_HEIGHT,
                        HINT_KEY_RADIUS,
                        parse_hex(fill),
                        parse_hex(edge),
                        scale,
                    ),
                );
                // Centre the glyph in its keycap.
                let slack: i128 = scaled_parts((p.w - *glyph as u64) as i128, scale) / 2;
                proof {
                    let (spare, s) = (p.w - *glyph, scale as int);
                    assert(5040 * (spare * s) / 2 == 2520 * (spare * s));
                }
                shapes.push(
                    Shape::Text(
                        hint_text(
                            x + slack,
                            top as i32,
                            HINT_KEY_HEIGHT as u32,
                            HINT_KEY_SIZE,
                            HINT_KEY_TEXT,
                            key,
                            scale,
                        ),
                    ),
                );
            },
            Piece::Label { text, active } => {
                let tint: &str = if *active { HINT_LABEL_ACTIVE } else { HINT_LABEL_TEXT };
                shapes.push(
                    Shape::Text(
                        hint_text(
                            x,
                            HINT_TOP as i32,
                            HINT_HEIGHT as u32,
                            HINT_LABEL_SIZE,
                            tint,
                            text.as_str(),
                            scale,
                        ),
                    ),
                );
            },
        }
        proof {
            assert(placed[n as int] == pill.pieces@[n as int]@);
            assert(shape_views(shapes@) =~= shape_views(before) + piece_shapes(
                placed[n as int],
                pill.x as int,
                color@,
                scale,
            ));
        }
        n = n + 1;
    }
    shapes
}

proof fn lemma_items_inside(hint: HintView, m: ItemWidths, labels: bool, n: int)
    requires
        0 <= n <= 6,
    ensures
        forall|i: int|
            0 <= i < placed_items(hint, m, labels, n).len() ==> (#[trigger] placed_items(
                hint,
                m,
                labels,
                n,
            )[i]).inside(
                if n == 0 {
                    (HINT_PAD + HINT_WELL) as int
                } else {
                    m.item_at(n - 1, labels) + m.item(n - 1, labels)
                },
            ) && HINT_PAD <= placed_items(hint, m, labels, n)[i].x,
    decreases n,
{
    if n > 0 {
        lemma_items_inside(hint, m, labels, n - 1);
        lemma_item_at(m, labels, n - 1);
        lemma_widths(m, n - 1);
        lemma_starts(m, labels, n - 1);
        let before = placed_items(hint, m, labels, n - 1);
        let now = placed_items(hint, m, labels, n);
        assert forall|i: int| 0 <= i < now.len() implies (#[trigger] now[i]).inside(
            m.item_at(n - 1, labels) + m.item(n - 1, labels),
        ) && HINT_PAD <= now[i].x by {
            if i < before.len() {
                assert(now[i] == before[i]);
            }
        }
    }
}

proof fn lemma_starts(m: ItemWidths, labels: bool, i: int)
    requires
        0 <= i <= 6,
    ensures
        HINT_PAD <= m.item_at(i, labels),
    decreases i,
{
    if i > 0 {
        lemma_starts(m, labels, i - 1);
        lemma_widths(m, i - 1);
    }
}

/// Every element of the capsule lies between its ends' padding.
pub proof fn pieces_lie_inside_the_capsule(hint: HintView, m: ItemWidths, labels: bool, i: int)
    requires
        0 <= i < placed_items(hint, m, labels, 6).len(),
    ensures
        HINT_PAD <= placed_items(hint, m, labels, 6)[i].x,
        placed_items(hint, m, labels, 6)[i].inside(m.total(labels) - HINT_PAD),
{
    lemma_items_inside(hint, m, labels, 6);
}

/// A capsule that was laid out for a surface can be painted.
pub proof fn a_capsule_can_be_painted(
    pill: HintPill,
    hint: HintView,
    device: u32,
    scale: u32,
    m: ItemWidths,
    labels: bool,
)
    requires
        pill.is_for(hint, device, scale, m, labels),
        has_room(m.total(labels), device, scale),
    ensures
        pill.in_reach(),
{
    assert(0 <= pill.width * scale) by (nonlinear_arith)
        requires
            0 <= pill.width,
            0 <= scale,
    ;
    assert forall|i: int| 0 <= i < pill.pieces@.len() implies (#[trigger] pill.pieces@[i])@.inside(
        pill.width as int,
    ) by {
        assert(views(pill.pieces@)[i] == pill.pieces@[i]@);
        pieces_lie_inside_the_capsule(hint, m, labels, i);
    }
}

/// The capsule is centred: it ends as far from the surface's right edge as it starts from the
/// left one.
pub proof fn the_capsule_is_centred(
    pill: HintPill,
    hint: HintView,
    device: u32,
    scale: u32,
    m: ItemWidths,
    labels: bool,
)
    requires
        pill.is_for(hint, device, scale, m, labels),
    ensures
        on_surface(pill.x as int, 0, scale) == PARTS * (256 * device) - on_surface(
            pill.x as int,
            pill.width as int,
            scale,
        ),
{
    assert(0 * scale == 0) by (nonlinear_arith);
}

/// The capsule lies inside the box that the damage accounting reserves for it, so a frame that
/// repaints that box repaints the whole capsule.
pub proof fn the_reserve_holds_the_capsule(
    pill: HintPill,
    hint: HintView,
    device: u32,
    scale: u32,
    m: ItemWidths,
    labels: bool,
)
    requires
        pill.is_for(hint, device, scale, m, labels),
        has_room(m.total(labels), device, scale),
    ensures
        damage::hint_box((256 * device) as u64, scale).covers(
            pill_shape(pill.x as int, pill.width as int, scale)->area,
        ),
{
    let (w, s) = (pill.width as int, scale as int);
    assert(0 * s == 0) by (nonlinear_arith);
    assert(0 <= w * s <= 184_320 * s <= 184_320 * 0xffff_ffff) by (nonlinear_arith)
        requires
            0 <= w <= 184_320,
            0 <= s <= 0xffff_ffff,
    ;
}

/// A capsule that was kept is found again, unless one for the same hint, surface and scale is
/// found before it; and never more than the cap are kept.
pub proof fn a_kept_capsule_is_found(entries: Seq<CachedHint>, entry: CachedHint)
    requires
        entries.len() <= HINT_CACHE_CAP,
        place_of(entries, entry.hint@, entry.surface, entry.scale, 0) is None,
    ensures
        kept(entries, entry).len() <= HINT_CACHE_CAP,
        place_of(kept(entries, entry), entry.hint@, entry.surface, entry.scale, 0) == Some(
            kept(entries, entry).len() - 1,
        ),
{
    let all = kept(entries, entry);
    lemma_no_place(entries, entry.hint@, entry.surface, entry.scale, 0);
    assert forall|i: int| 0 <= i < all.len() - 1 implies !(#[trigger] all[i]).is_of(
        entry.hint@,
        entry.surface,
        entry.scale,
    ) by {
        if entries.len() == HINT_CACHE_CAP {
            assert(all[i] == entries[i + 1]);
        } else {
            assert(all[i] == entries[i]);
        }
    }
    lemma_last_place(all, entry.hint@, entry.surface, entry.scale, 0);
}

proof fn lemma_no_place(
    entries: Seq<CachedHint>,
    hint: HintView,
    surface: u32,
    scale: u32,
    from: int,
)
    requires
        0 <= from <= entries.len(),
        place_of(entries, hint, surface, scale, from) is None,
    ensures
        forall|i: int|
            from <= i < entries.len() ==> !(#[trigger] entries[i]).is_of(hint, surface, scale),
    decreases entries.len() - from,
{
    if from < entries.len() {
        lemma_no_place(entries, hint, surface, scale, from + 1);
    }
}

proof fn lemma_last_place(
    entries: Seq<CachedHint>,
    hint: HintView,
    surface: u32,
    scale: u32,
    from: int,
)
    requires
        0 <= from < entries.len(),
        entries.last().is_of(hint, surface, scale),
        forall|i: int|
            from <= i < entries.len() - 1 ==> !(#[trigger] entries[i]).is_of(hint, surface, scale),
    ensures
        place_of(entries, hint, surface, scale, from) == Some(entries.len() - 1),
    decreases entries.len() - from,
{
    if from < entries.len() - 1 {
        assert(!entries[from].is_of(hint, surface, scale));
        lemma_last_place(entries, hint, surface, scale, from + 1);
    }
}

} // verus!
