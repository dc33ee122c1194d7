//! What the capsule of the edit-mode hint shows, and where.

use vstd::prelude::*;

use crate::damage;
use crate::geometry::Rect;
use crate::hint;
use crate::hint::{CachedHint, ItemWidths, PieceView, PlacedView, ShapeView};
use crate::overlay::HintView;
use crate::text;

verus! {

proof fn lemma_elements(hint: HintView, m: ItemWidths, labels: bool, n: int)
    requires
        0 <= n <= 6,
    ensures
        ({
            let p = hint::placed_items(hint, m, labels, n);
            &&& p.len() == 1 + (if labels { 2 * n } else { n })
            &&& p[0] == (PlacedView { piece: PieceView::Well, x: 3072, w: 4096 })
            &&& labels ==> forall|i: int|
                0 <= i < n ==> p[2 * i + 1] == #[trigger] hint::placed_key(hint, m, true, i)
                    && p[2 * i + 2] == hint::placed_label(hint, m, i)
            &&& !labels ==> forall|i: int|
                0 <= i < n ==> p[i + 1] == #[trigger] hint::placed_key(hint, m, false, i)
        }),
    decreases n,
{
    if n > 0 {
        lemma_elements(hint, m, labels, n - 1);
        let before = hint::placed_items(hint, m, labels, n - 1);
        let p = hint::placed_items(hint, m, labels, n);
        assert forall|i: int| labels && 0 <= i < n implies p[2 * i + 1]
            == #[trigger] hint::placed_key(hint, m, true, i) && p[2 * i + 2] == hint::placed_label(
            hint,
            m,
            i,
        ) by {
            if i < n - 1 {
                assert(p[2 * i + 1] == before[2 * i + 1]);
                assert(p[2 * i + 2] == before[2 * i + 2]);
            }
        }
        assert forall|i: int| !labels && 0 <= i < n implies p[i + 1] == #[trigger] hint::placed_key(
            hint,
            m,
            false,
            i,
        ) by {
            if i < n - 1 {
                assert(p[i + 1] == before[i + 1]);
            }
        }
    }
}

/// The colour well stands 12 logical pixels from the left end of the capsule and is 16 wide. Each
/// keycap follows what is before it after 14, is 14 wider than its glyph, or 22 wide where that is
/// more, and its label follows it after 7. The capsule ends 12 behind the last of them.
pub proof fn elements_stand_side_by_side(hint: HintView, m: ItemWidths, i: int)
    requires
        0 <= i < 6,
    ensures
        ({
            let p = hint::placed_items(hint, m, true, 6);
            let (before, key, label) = (p[2 * i], p[2 * i + 1], p[2 * i + 2]);
            &&& p.len() == 13
            &&& p[0].piece is Well && p[0].x == 12 * 256 && p[0].w == 16 * 256
            &&& key.piece is Key && label.piece is Label
            &&& key.piece->glyph == m.keys[i]
            &&& key.x == before.x + before.w + 14 * 256
            &&& key.w >= m.keys[i] + 14 * 256 && key.w >= 22 * 256
            &&& key.w == m.keys[i] + 14 * 256 || key.w == 22 * 256
            &&& label.x == key.x + key.w + 7 * 256
            &&& label.w == m.labels[i]
            &&& m.total(true) == p[12].x + p[12].w + 12 * 256
        }),
        ({
            let p = hint::placed_items(hint, m, false, 6);
            let (before, key) = (p[i], p[i + 1]);
            &&& p.len() == 7
            &&& p[0].piece is Well && p[0].x == 12 * 256 && p[0].w == 16 * 256
            &&& key.piece is Key
            &&& key.piece->glyph == m.keys[i]
            &&& key.x == before.x + before.w + 14 * 256
            &&& key.w == hint::placed_items(hint, m, true, 6)[2 * i + 1].w
            &&& m.total(false) == p[6].x + p[6].w + 12 * 256
        }),
{
    lemma_elements(hint, m, true, 6);
    lemma_elements(hint, m, false, 6);
    let full = hint::placed_items(hint, m, true, 6);
    let bare = hint::placed_items(hint, m, false, 6);
    assert(full[2 * i + 1] == hint::placed_key(hint, m, true, i));
    assert(bare[i + 1] == hint::placed_key(hint, m, false, i));
    assert(full[11] == hint::placed_key(hint, m, true, 5));
    assert(bare[6] == hint::placed_key(hint, m, false, 5));
    if i > 0 {
        assert(full[2 * (i - 1) + 1] == hint::placed_key(hint, m, true, i - 1));
        assert(full[2 * i] == hint::placed_label(hint, m, i - 1));
        assert(bare[(i - 1) + 1] == hint::placed_key(hint, m, false, i - 1));
    }
}

/// The keys are `1-5`, `P`, `E`, `T`, `[ ]` and `Esc`. The key of the active tool stands out, and
/// so does its label; no other does.
pub proof fn only_the_active_tool_stands_out(hint: HintView, m: ItemWidths, i: int)
    requires
        0 <= i < 6,
    ensures
        ({
            let p = hint::placed_items(hint, m, true, 6);
            let (key, label) = (p[2 * i + 1].piece, p[2 * i + 2].piece);
            &&& key->key == seq!["1-5"@, "P"@, "E"@, "T"@, "[ ]"@, "Esc"@][i]
            &&& key->Key_active <==> (hint.tool == "pen"@ && i == 1) || (hint.tool == "eraser"@
                && i == 2) || (hint.tool == "text"@ && i == 3)
            &&& label->Label_active == key->Key_active
            &&& hint::placed_items(hint, m, false, 6)[i + 1].piece == key
            &&& i == 4 && hint.tool == "text"@ ==> label->text == "size "@ + text::decimal(
                hint::whole_pixels(hint.size) as nat,
            )
            &&& i == 4 && hint.tool != "text"@ ==> label->text == "width "@ + text::decimal(
                hint::whole_pixels(hint.size) as nat,
            )
        }),
{
    lemma_elements(hint, m, true, 6);
    lemma_elements(hint, m, false, 6);
    assert(hint::placed_items(hint, m, true, 6)[2 * i + 1] == hint::placed_key(hint, m, true, i));
    assert(hint::placed_items(hint, m, false, 6)[i + 1] == hint::placed_key(hint, m, false, i));
    reveal_strlit("pen");
    reveal_strlit("eraser");
    reveal_strlit("text");
    assert("pen"@.len() == 3 && "eraser"@.len() == 6 && "text"@.len() == 4);
    reveal_strlit("size");
    reveal_strlit("width");
    reveal_strlit(" ");
    reveal_strlit("size ");
    reveal_strlit("width ");
    assert("size"@ + " "@ =~= "size "@);
    assert("width"@ + " "@ =~= "width "@);
}

/// A size is shown to the nearest whole pixel, and to the even one of two that are as near.
pub proof fn a_size_is_shown_to_the_nearest_pixel(size: u32)
    ensures
        ({
            let n = hint::whole_pixels(size);
            &&& -128 <= size - 256 * n <= 128
            &&& size - 256 * n == 128 || size - 256 * n == -128 ==> n % 2 == 0
        }),
{
}

/// The number that digits stand for, read from left to right.
pub open spec fn read_as(s: Seq<char>) -> int
    decreases s.len(),
{
    if s.len() == 0 { 0 } else { 10 * read_as(s.drop_last()) + (s.last() as u32 - '0' as u32) }
}

/// A numeral is made of digits, reads as its number, and starts with no zero unless it is that
/// alone.
pub proof fn a_numeral_reads_as_its_number(n: nat)
    ensures
        read_as(text::decimal(n)) == n,
        text::decimal(n).len() > 0,
        forall|i: int|
            0 <= i < text::decimal(n).len() ==> '0' as u32 <= #[trigger] text::decimal(n)[i] as u32
                && text::decimal(n)[i] as u32 <= '9' as u32,
        n > 0 ==> text::decimal(n)[0] != '0',
    decreases n,
{
    let s = text::decimal(n);
    if n < 10 {
        assert(s.drop_last() =~= Seq::empty());
        assert(read_as(s.drop_last()) == 0);
        assert(s.last() == (48 + n) as char);
    } else {
        let before = text::decimal(n / 10);
        a_numeral_reads_as_its_number(n / 10);
        assert(s.drop_last() =~= before);
        assert(s.last() == (48 + n % 10) as char);
        assert forall|i: int| 0 <= i < s.len() implies '0' as u32 <= #[trigger] s[i] as u32
            && s[i] as u32 <= '9' as u32 by {
            if i < before.len() {
                assert(s[i] == before[i]);
            }
        }
        assert(s[0] == before[0]);
    }
}

/// A capsule is shown where it is no wider than the surface and no wider than 720 logical pixels.
pub proof fn a_capsule_has_room_within_the_surface(width: int, device: u32, scale: u32)
    ensures
        hint::has_room(width, device, scale) <==> width * scale <= 256 * device && width <= 720
            * 256,
{
}

/// A capsule that is found was laid out for that very hint, on a surface as wide, at that scale.
pub proof fn a_found_capsule_is_of_the_hint(
    entries: Seq<CachedHint>,
    hint: HintView,
    surface: u32,
    scale: u32,
    from: int,
)
    requires
        0 <= from <= entries.len(),
    ensures
        hint::place_of(entries, hint, surface, scale, from) matches Some(i) ==> {
            &&& from <= i < entries.len()
            &&& entries[i].hint.tool@ == hint.tool
            &&& entries[i].hint.color@ == hint.color
            &&& entries[i].hint.size == hint.size
            &&& entries[i].surface == surface
            &&& entries[i].scale == scale
        },
    decreases entries.len() - from,
{
    if from < entries.len() {
        a_found_capsule_is_of_the_hint(entries, hint, surface, scale, from + 1);
    }
}

/// Where a length of the capsule's is within what is reserved for it, its place on the surface
/// can be counted.
proof fn lemma_in_range(v: int, scale: u32)
    requires
        0 <= v <= 184_320,
    ensures
        0 <= hint::device_parts(v, scale) <= 0x100_0000_0000_0000_0000,
{
    assert(0 <= v * scale <= 184_320 * 0xffff_ffff) by (nonlinear_arith)
        requires
            0 <= v <= 184_320,
            0 <= scale <= 0xffff_ffff,
    ;
}

/// Twice the height at which a rectangle has its middle.
pub open spec fn twice_the_middle(r: Rect) -> int {
    2 * r.y + r.h
}

/// The colour well, the keycaps and the labels stand at half the height of the capsule, and the
/// glyph of a keycap stands in its middle both ways. A text takes a line of 1.2 em.
pub proof fn elements_are_centred_in_the_capsule(
    p: PlacedView,
    pill_x: int,
    width: int,
    color: Seq<char>,
    scale: u32,
)
    requires
        0 <= pill_x <= 256 * 0xffff_ffff,
        0 <= width <= 184_320,
        p.inside(width),
    ensures
        ({
            let pill = hint::pill_shape(pill_x, width, scale)->area;
            let shapes = hint::piece_shapes(p, pill_x, color, scale);
            &&& pill.y == 5040 * (16 * 256 * scale) && pill.h == 5040 * (34 * 256 * scale)
            &&& pill.w == 5040 * (width * scale)
            &&& p.piece is Well ==> {
                &&& shapes.len() == 1
                &&& twice_the_middle(shapes[0]->area) == twice_the_middle(pill)
                &&& shapes[0]->area.w == shapes[0]->area.h == 5040 * (16 * 256 * scale)
                &&& shapes[0]->area.x == pill.x + 5040 * (p.x * scale)
            }
            &&& p.piece is Key ==> {
                let (cap, glyph) = (shapes[0]->area, shapes[1]->Text_0);
                &&& shapes.len() == 2
                &&& twice_the_middle(cap) == twice_the_middle(pill)
                &&& cap.h == 5040 * (22 * 256 * scale)
                &&& cap.w == 5040 * (p.w * scale)
                &&& cap.x == pill.x + 5040 * (p.x * scale)
                &&& 2 * glyph.y + 6048 * (glyph.size * scale) == twice_the_middle(cap)
                &&& 2 * glyph.x + 5040 * (p.piece->glyph * scale) == 2 * cap.x + cap.w
                &&& glyph.text == p.piece->key && glyph.size == 12 * 256
            }
            &&& p.piece is Label ==> {
                let label = shapes[0]->Text_0;
                &&& shapes.len() == 1
                &&& 2 * label.y + 6048 * (label.size * scale) == twice_the_middle(pill)
                &&& label.x == pill.x + 5040 * (p.x * scale)
                &&& label.text == p.piece->text && label.size == 13 * 256
            }
        }),
{
    let s = scale as int;
    lemma_in_range(4096, scale);
    lemma_in_range(8704, scale);
    lemma_in_range(5632, scale);
    lemma_in_range(width, scale);
    lemma_in_range(p.x, scale);
    lemma_in_range(p.w, scale);
    lemma_in_range(4096 + (8704 - 4096) / 2, scale);
    lemma_in_range(4096 + (8704 - 5632) / 2, scale);
    assert(0 * s == 0) by (nonlinear_arith);
    let pill = hint::pill_shape(pill_x, width, scale)->area;
    assert(pill.y == 20_643_840 * s && pill.h == 43_868_160 * s);
    assert(twice_the_middle(pill) == 85_155_840 * s);
    if p.piece is Well {
        let well = hint::piece_shapes(p, pill_x, color, scale)[0]->area;
        assert(damage::HINT_TOP + (damage::HINT_HEIGHT - hint::HINT_WELL) / 2 == 6400);
        lemma_in_range(6400, scale);
        assert(well.y == hint::device_parts(6400, scale));
        assert(well.y == 32_256_000 * s && well.h == 20_643_840 * s);
        assert(twice_the_middle(well) == 85_155_840 * s);
    } else if p.piece is Key {
        let g = p.piece->glyph as int;
        assert((p.w - g) * s == p.w * s - g * s) by (nonlinear_arith);
        let glyph = hint::piece_shapes(p, pill_x, color, scale)[1]->Text_0;
        assert(glyph.y == 33_288_192 * s);
        let cap = hint::piece_shapes(p, pill_x, color, scale)[0]->area;
        assert(damage::HINT_TOP + (damage::HINT_HEIGHT - hint::HINT_KEY_HEIGHT) / 2 == 5632);
        assert(cap.y == hint::device_parts(5632, scale));
        assert(cap.y == 28_385_280 * s && cap.h == 28_385_280 * s);
        assert(glyph.size == 3072);
        assert(6048 * (glyph.size * scale) == 18_579_456 * s);
        assert(twice_the_middle(cap) == 85_155_840 * s);
    } else if p.piece is Label {
        let label = hint::piece_shapes(p, pill_x, color, scale)[0]->Text_0;
        assert(label.y == 32_514_048 * s);
        assert(label.size == 3328);
        assert(6048 * (label.size * scale) == 20_127_744 * s);
    }
}

} // verus!
