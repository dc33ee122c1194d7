//! Rectangles in fixed-point logical pixels.

use vstd::prelude::*;

verus! {

/// One logical pixel, in the units every coordinate and length is counted in.
pub const PX: i32 = 256;

/// How many parts of a unit the lengths of a rectangle are counted in. Tenths and twentieths of
/// an em, halves, and quotients by every scale up to 10 are whole numbers of parts.
pub const PARTS: i128 = 5040;

/// Half, a fifth and a twentieth of a unit, in parts.
pub const HALF: i128 = 2520;
pub const FIFTH: i128 = 1008;
pub const TWENTIETH: i128 = 252;

/// One pixel, in parts.
pub const RECT_PX: i128 = 1_290_240;

/// How far from the origin the edges of a rectangle may lie.
pub const REACH: i128 = 0x1_0000_0000_0000_0000_0000_0000_0000;

/// An axis-aligned rectangle: its top-left corner, its width and its height, in parts.
#[derive(Debug, Clone, Copy, PartialEq, Eq, Structural)]
pub struct Rect {
    pub x: i128,
    pub y: i128,
    pub w: i128,
    pub h: i128,
}

pub open spec fn min(a: int, b: int) -> int {
    if a <= b { a } else { b }
}

pub open spec fn max(a: int, b: int) -> int {
    if a >= b { a } else { b }
}

impl Rect {
    /// The right edge.
    pub open spec fn right(self) -> int {
        self.x + self.w
    }

    /// The bottom edge.
    pub open spec fn bottom(self) -> int {
        self.y + self.h
    }

    /// Every edge lies within `REACH` of the origin, so no edge overflows.
    pub open spec fn in_range(self) -> bool {
        &&& -REACH <= self.x <= REACH
        &&& -REACH <= self.y <= REACH
        &&& -REACH <= self.right() <= REACH
        &&& -REACH <= self.bottom() <= REACH
    }

    /// The point, given in units, lies inside the rectangle or on its edge.
    pub open spec fn holds(self, x: int, y: int) -> bool {
        self.x <= PARTS * x <= self.right() && self.y <= PARTS * y <= self.bottom()
    }

    /// The rectangles share some area.
    pub open spec fn overlaps(self, other: Rect) -> bool {
        &&& self.x < other.right()
        &&& other.x < self.right()
        &&& self.y < other.bottom()
        &&& other.y < self.bottom()
    }

    /// No edge of `other` lies outside this rectangle.
    pub open spec fn covers(self, other: Rect) -> bool {
        &&& self.x <= other.x
        &&& self.y <= other.y
        &&& other.right() <= self.right()
        &&& other.bottom() <= self.bottom()
    }

    /// The rectangle with the outermost edges of the two.
    pub open spec fn joined(self, other: Rect) -> Rect {
        let x = min(self.x as int, other.x as int);
        let y = min(self.y as int, other.y as int);
        Rect {
            x: x as i128,
            y: y as i128,
            w: (max(self.right(), other.right()) - x) as i128,
            h: (max(self.bottom(), other.bottom()) - y) as i128,
        }
    }

    /// The rectangle with every edge moved `by` outwards.
    pub open spec fn outset(self, by: int) -> Rect {
        Rect {
            x: (self.x - by) as i128,
            y: (self.y - by) as i128,
            w: (self.w + 2 * by) as i128,
            h: (self.h + 2 * by) as i128,
        }
    }

    pub fn contains(&self, x: i32, y: i32) -> (r: bool)
        requires
            self.in_range(),
        ensures
            r == self.holds(x as int, y as int),
    {
        let (x, y): (i128, i128) = (PARTS * x as i128, PARTS * y as i128);
        x >= self.x && x <= self.x + self.w && y >= self.y && y <= self.y + self.h
    }

    /// Smallest rectangle covering both.
    pub fn union(self, other: Rect) -> (r: Rect)
        requires
            self.in_range(),
            other.in_range(),
        ensures
            r == self.joined(other),
            r.in_range(),
            r.x == min(self.x as int, other.x as int),
            r.y == min(self.y as int, other.y as int),
            r.right() == max(self.right(), other.right()),
            r.bottom() == max(self.bottom(), other.bottom()),
    {
        let x: i128 = if self.x <= other.x { self.x } else { other.x };
        let y: i128 = if self.y <= other.y { self.y } else { other.y };
        let (right, other_right): (i128, i128) = (self.x + self.w, other.x + other.w);
        let (bottom, other_bottom): (i128, i128) = (self.y + self.h, other.y + other.h);
        let right: i128 = if right >= other_right { right } else { other_right };
        let bottom: i128 = if bottom >= other_bottom { bottom } else { other_bottom };
        Rect { x, y, w: right - x, h: bottom - y }
    }

    /// Whether the two rectangles share any area. Touching edges do not count.
    pub fn intersects(&self, other: Rect) -> (r: bool)
        requires
            self.in_range(),
            other.in_range(),
        ensures
            r == self.overlaps(other),
    {
        self.x < other.x + other.w && other.x < self.x + self.w && self.y < other.y + other.h
            && other.y < self.y + self.h
    }

    /// The same rectangle with every edge moved `by` outwards.
    pub fn grown(self, by: i128) -> (r: Rect)
        requires
            self.in_range(),
            -REACH <= by <= REACH,
        ensures
            r == self.outset(by as int),
    {
        Rect { x: self.x - by, y: self.y - by, w: self.w + 2 * by, h: self.h + 2 * by }
    }
}

/// The union covers both rectangles, and every rectangle that covers both covers it.
pub proof fn union_is_the_least_cover(a: Rect, b: Rect, c: Rect)
    requires
        a.in_range(),
        b.in_range(),
    ensures
        a.joined(b).covers(a),
        a.joined(b).covers(b),
        c.covers(a) && c.covers(b) ==> c.covers(a.joined(b)),
{
}

/// Growing the union by a rectangle it covers already changes nothing, and the order of two
/// rectangles does not matter.
pub proof fn union_absorbs_and_commutes(a: Rect, b: Rect)
    requires
        a.in_range(),
        b.in_range(),
    ensures
        a.covers(b) ==> a.joined(b) == a,
        a.joined(b) == b.joined(a),
{
}

/// Overlap is symmetric, a rectangle that merely touches another does not overlap it, and
/// whatever overlaps a rectangle overlaps every rectangle that covers it.
pub proof fn overlap_is_symmetric_and_monotone(a: Rect, b: Rect, c: Rect)
    ensures
        a.overlaps(b) == b.overlaps(a),
        b.x == a.right() ==> !a.overlaps(b),
        b.y == a.bottom() ==> !a.overlaps(b),
        a.overlaps(b) && c.covers(b) ==> a.overlaps(c),
{
}

/// A rectangle grown outwards covers the one it grew from, and shrinking it back by the same
/// length undoes it.
pub proof fn growing_covers_and_is_undone(r: Rect, by: i128)
    requires
        r.in_range(),
        0 <= by <= REACH,
    ensures
        r.outset(by as int).covers(r),
        r.outset(by as int).outset(-by) == r,
{
}

/// A point, in parts, lies in a rectangle, but not on its right or bottom edge.
pub open spec fn lies_in(r: Rect, x: int, y: int) -> bool {
    r.x <= x < r.x + r.w && r.y <= y < r.y + r.h
}

/// Two rectangles that have an area overlap exactly where some point lies in both; one covers
/// another exactly where every point of the other lies in it; and a point, in units, is held by a
/// rectangle where it lies in it or on its edge.
pub proof fn rectangles_are_their_points(a: Rect, b: Rect, x: int, y: int)
    requires
        a.w > 0,
        a.h > 0,
        b.w > 0,
        b.h > 0,
    ensures
        a.overlaps(b) <==> exists|px: int, py: int| #[trigger]
            lies_in(a, px, py) && lies_in(b, px, py),
        a.covers(b) <==> forall|px: int, py: int| #[trigger]
            lies_in(b, px, py) ==> lies_in(a, px, py),
        lies_in(a, 5040 * x, 5040 * y) ==> a.holds(x, y),
        a.holds(x, y) <==> a.x <= 5040 * x && 5040 * x <= a.x + a.w && a.y <= 5040 * y && 5040 * y
            <= a.y + a.h,
{
    if a.overlaps(b) {
        let (px, py) = (max(a.x as int, b.x as int), max(a.y as int, b.y as int));
        assert(lies_in(a, px, py) && lies_in(b, px, py));
    }
    if forall|px: int, py: int| #[trigger] lies_in(b, px, py) ==> lies_in(a, px, py) {
        assert(lies_in(b, b.x as int, b.y as int));
        assert(lies_in(b, b.right() - 1, b.bottom() - 1));
    }
}

} // verus!
