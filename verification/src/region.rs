//! Regions of a frame in device pixels, and the bytes they stand for.

use vstd::prelude::*;

use crate::geometry::{Rect, RECT_PX};

verus! {

/// Region of a frame that has to be touched. Anything outside a `Rect` already holds the pixels
/// of the frame before it, which is only true for the buffer the previous frame was drawn into.
#[derive(Debug, Clone, Copy, PartialEq, Eq, Structural)]
pub enum DamageRegion {
    /// Every pixel of the surface.
    All,
    /// One half-open device rectangle, `[x0, x1) x [y0, y1)`.
    Rect { x0: u32, y0: u32, x1: u32, y1: u32 },
}

/// The device coordinate of a logical one, to the whole pixel below and clipped to `0..=limit`.
pub open spec fn device(v: int, scale: int, limit: int) -> int {
    if v <= 0 {
        0
    } else if v * scale >= RECT_PX * limit {
        limit
    } else {
        v * scale / RECT_PX as int
    }
}

fn to_device(v: i128, scale: u32, limit: u32) -> (r: u32)
    ensures
        r == device(v as int, scale as int, limit as int),
        r <= limit,
{
    if v <= 0 {
        return 0;
    }
    if scale == 0 {
        proof {
            assert(v * scale == 0) by (nonlinear_arith)
                requires
                    scale == 0,
            ;
        }
        return 0;
    }
    if v >= RECT_PX * limit as i128 {
        proof {
            assert(v * scale >= v) by (nonlinear_arith)
                requires
                    v > 0,
                    scale >= 1,
            ;
        }
        return limit;
    }
    proof {
        assert(0 <= v * scale < 1_290_240 * 0x1_0000_0000 * 0x1_0000_0000) by (nonlinear_arith)
            requires
                0 < v < 1_290_240 * 0x1_0000_0000,
                0 <= scale < 0x1_0000_0000,
        ;
    }
    let scaled: u128 = v as u128 * scale as u128;
    if scaled >= RECT_PX as u128 * limit as u128 {
        limit
    } else {
        (scaled / RECT_PX as u128) as u32
    }
}

impl DamageRegion {
    /// The device region of a logical rectangle, clipped to the surface.
    pub open spec fn of(damage: Rect, scale: u32, w: u32, h: u32) -> DamageRegion {
        DamageRegion::Rect {
            x0: device(damage.x as int, scale as int, w as int) as u32,
            y0: device(damage.y as int, scale as int, h as int) as u32,
            x1: device(damage.right(), scale as int, w as int) as u32,
            y1: device(damage.bottom(), scale as int, h as int) as u32,
        }
    }

    /// The columns and rows of the region on a `w` x `h` surface: `[x0, x1) x [y0, y1)`.
    pub open spec fn span(self, w: u32, h: u32) -> (int, int, int, int) {
        match self {
            DamageRegion::All => (0, 0, w as int, h as int),
            DamageRegion::Rect { x0, y0, x1, y1 } => (
                x0 as int,
                y0 as int,
                if x1 < w { x1 as int } else { w as int },
                if y1 < h { y1 as int } else { h as int },
            ),
        }
    }

    /// The region holds no pixel of the surface.
    pub open spec fn is_void(self, w: u32, h: u32) -> bool {
        let (x0, y0, x1, y1) = self.span(w, h);
        x1 <= x0 || y1 <= y0
    }

    /// The `p`-th pixel of a `w` x `h` surface, counted row by row, lies in the region.
    pub open spec fn holds(self, p: int, w: u32, h: u32) -> bool {
        let (x0, y0, x1, y1) = self.span(w, h);
        exists|y: int| y0 <= y < y1 && #[trigger] in_row(p, y, x0, x1, w as int)
    }

    /// The bytes of the region's last pixel lie in a buffer of this length.
    pub open spec fn fits(self, len: nat, w: u32, h: u32) -> bool {
        let (x0, y0, x1, y1) = self.span(w, h);
        self is Rect && !self.is_void(w, h) ==> 4 * ((y1 - 1) * w + x1) <= len
    }

    /// The buffer with the region cleared to transparent.
    pub open spec fn cleared(self, buf: Seq<u8>, w: u32, h: u32) -> Seq<u8> {
        Seq::new(
            buf.len(),
            |i: int|
                if (self is All && !self.is_void(w, h)) || (self is Rect && self.holds(i / 4, w, h)) {
                    0u8
                } else {
                    buf[i]
                },
        )
    }

    /// The buffer with the first and third byte of every pixel of the region exchanged.
    pub open spec fn swapped(self, buf: Seq<u8>, w: u32, h: u32) -> Seq<u8> {
        Seq::new(
            buf.len(),
            |i: int|
                if 4 * (i / 4) + 4 <= buf.len() && (self is All || self.holds(i / 4, w, h)) {
                    swapped_byte(buf, i)
                } else {
                    buf[i]
                },
        )
    }

    /// The device region a logical damage rectangle covers, clipped to the surface.
    pub fn from_logical(damage: Rect, scale: u32, w: u32, h: u32) -> (r: DamageRegion)
        requires
            damage.in_range(),
        ensures
            r == DamageRegion::of(damage, scale, w, h),
    {
        DamageRegion::Rect {
            x0: to_device(damage.x, scale, w),
            y0: to_device(damage.y, scale, h),
            x1: to_device(damage.x + damage.w, scale, w),
            y1: to_device(damage.y + damage.h, scale, h),
        }
    }

    /// The region clipped to a `w` x `h` surface, as `[x0, x1) x [y0, y1)`.
    pub fn rows(self, w: u32, h: u32) -> (r: (u32, u32, u32, u32))
        ensures
            r.0 == self.span(w, h).0,
            r.1 == self.span(w, h).1,
            r.2 == self.span(w, h).2,
            r.3 == self.span(w, h).3,
    {
        match self {
            DamageRegion::All => (0, 0, w, h),
            DamageRegion::Rect { x0, y0, x1, y1 } => (
                x0,
                y0,
                if x1 < w { x1 } else { w },
                if y1 < h { y1 } else { h },
            ),
        }
    }

    /// Clears the region to transparent.
    pub fn clear(self, buf: &mut [u8], w: u32, h: u32)
        requires
            self.fits(old(buf)@.len(), w, h),
        ensures
            final(buf)@ == self.cleared(old(buf)@, w, h),
    {
        let ghost start = buf@;
        let len: usize = buf.len();
        let (x0, y0, x1, y1): (u32, u32, u32, u32) = self.rows(w, h);
        if x1 <= x0 || y1 <= y0 {
            proof {
                assert(self.cleared(start, w, h) =~= start);
            }
            return;
        }
        if let DamageRegion::All = self {
            let mut i: usize = 0;
            while i < len
                invariant
                    i <= len,
                    len == buf@.len(),
                    buf@.len() == start.len(),
                    forall|j: int| 0 <= j < i ==> buf@[j] == 0u8,
                decreases len - i,
            {
                buf[i] = 0;
                i = i + 1;
            }
            proof {
                assert(buf@ =~= self.cleared(start, w, h));
            }
            return;
        }
        let mut y: u32 = y0;
        while y < y1
            invariant
                self is Rect,
                y0 <= y <= y1,
                x0 < x1 <= w,
                self.span(w, h) == (x0 as int, y0 as int, x1 as int, y1 as int),
                4 * ((y1 - 1) * w + x1) <= start.len(),
                start.len() == len,
                buf@.len() == start.len(),
                forall|i: int|
                    0 <= i < start.len() ==> #[trigger] buf@[i] == (if in_rows(
                        i / 4,
                        y0 as int,
                        y as int,
                        x0 as int,
                        x1 as int,
                        w as int,
                    ) {
                        0u8
                    } else {
                        start[i]
                    }),
            decreases y1 - y,
        {
            proof {
                lemma_row_fits(y as int, y1 as int, w as int, x0 as int, x1 as int, start.len() as int);
            }
            let ghost before = buf@;
            let from: usize = (4 * (y as u64 * w as u64 + x0 as u64)) as usize;
            let to: usize = (4 * (y as u64 * w as u64 + x1 as u64)) as usize;
            let mut i: usize = from;
            while i < to
                invariant
                    from <= i <= to <= buf@.len(),
                    buf@.len() == before.len(),
                    forall|j: int|
                        0 <= j < before.len() ==> #[trigger] buf@[j] == (if from <= j < i {
                            0u8
                        } else {
                            before[j]
                        }),
                decreases to - i,
            {
                buf[i] = 0;
                i = i + 1;
            }
            proof {
                assert forall|j: int| 0 <= j < start.len() implies #[trigger] buf@[j] == (if in_rows(
                    j / 4,
                    y0 as int,
                    y + 1,
                    x0 as int,
                    x1 as int,
                    w as int,
                ) {
                    0u8
                } else {
                    start[j]
                }) by {
                    assert(before[j] == buf@[j] || from <= j < to);
                    assert(from <= j < to <==> in_row(j / 4, y as int, x0 as int, x1 as int, w as int));
                    lemma_rows_step(j / 4, y0 as int, y as int, x0 as int, x1 as int, w as int);
                }
            }
            y = y + 1;
        }
        proof {
            assert(buf@ =~= self.cleared(start, w, h));
        }
    }

    /// Swaps the R and B bytes inside the region, turning a premultiplied RGBA buffer into
    /// `wl_shm` ARGB8888 (B, G, R, A on little endian). Only the ARGB8888 fallback of
    /// [`buffer_format`] needs it; either way the swapped bytes are single-use until the region
    /// is cleared again.
    pub fn swap_rb(self, buf: &mut [u8], w: u32, h: u32)
        requires
            self.fits(old(buf)@.len(), w, h),
        ensures
            final(buf)@ == self.swapped(old(buf)@, w, h),
    {
        let ghost start = buf@;
        let len: usize = buf.len();
        if let DamageRegion::All = self {
            let pixels: usize = len / 4;
            swap_pixels(buf, 0, pixels);
            proof {
                assert(buf@ =~= self.swapped(start, w, h));
            }
            return;
        }
        let (x0, y0, x1, y1): (u32, u32, u32, u32) = self.rows(w, h);
        if x1 <= x0 || y1 <= y0 {
            proof {
                assert(self.swapped(start, w, h) =~= start);
            }
            return;
        }
        let mut y: u32 = y0;
        while y < y1
            invariant
                self is Rect,
                y0 <= y <= y1,
                x0 < x1 <= w,
                self.span(w, h) == (x0 as int, y0 as int, x1 as int, y1 as int),
                4 * ((y1 - 1) * w + x1) <= start.len(),
                start.len() == len,
                buf@.len() == start.len(),
                forall|i: int|
                    0 <= i < start.len() ==> #[trigger] buf@[i] == (if 4 * (i / 4) + 4
                        <= start.len() && in_rows(
                        i / 4,
                        y0 as int,
                        y as int,
                        x0 as int,
                        x1 as int,
                        w as int,
                    ) {
                        swapped_byte(start, i)
                    } else {
                        start[i]
                    }),
            decreases y1 - y,
        {
            proof {
                lemma_row_fits(y as int, y1 as int, w as int, x0 as int, x1 as int, start.len() as int);
            }
            let ghost before = buf@;
            let from: usize = (y as u64 * w as u64 + x0 as u64) as usize;
            let to: usize = (y as u64 * w as u64 + x1 as u64) as usize;
            swap_pixels(buf, from, to);
            proof {
                assert forall|j: int| 0 <= j < start.len() implies #[trigger] buf@[j] == (if 4 * (j / 4)
                    + 4 <= start.len() && in_rows(
                    j / 4,
                    y0 as int,
                    y + 1,
                    x0 as int,
                    x1 as int,
                    w as int,
                ) {
                    swapped_byte(start, j)
                } else {
                    start[j]
                }) by {
                    let p = j / 4;
                    lemma_rows_step(p, y0 as int, y as int, x0 as int, x1 as int, w as int);
                    if in_row(p, y as int, x0 as int, x1 as int, w as int) {
                        lemma_rows_apart(p, y0 as int, y as int, x0 as int, x1 as int, w as int);
                        assert(before[4 * p] == start[4 * p]);
                        assert(before[4 * p + 2] == start[4 * p + 2]);
                        assert(before[j] == start[j]);
                    } else {
                        assert(buf@[j] == before[j]);
                    }
                }
            }
            y = y + 1;
        }
        proof {
            assert(buf@ =~= self.swapped(start, w, h));
        }
    }
}

/// The pixel lies in row `y` of a surface `w` wide, in the columns `[x0, x1)`.
pub open spec fn in_row(p: int, y: int, x0: int, x1: int, w: int) -> bool {
    y * w + x0 <= p < y * w + x1
}

/// The pixel lies in one of the rows `[y0, y1)`, in the columns `[x0, x1)`.
pub open spec fn in_rows(p: int, y0: int, y1: int, x0: int, x1: int, w: int) -> bool {
    exists|y: int| y0 <= y < y1 && #[trigger] in_row(p, y, x0, x1, w)
}

/// A byte of the buffer once the first and third byte of its pixel are exchanged.
pub open spec fn swapped_byte(buf: Seq<u8>, i: int) -> u8 {
    if i % 4 == 0 {
        buf[i + 2]
    } else if i % 4 == 2 {
        buf[i - 2]
    } else {
        buf[i]
    }
}

fn swap_pixels(buf: &mut [u8], from: usize, to: usize)
    requires
        from <= to,
        4 * to <= old(buf)@.len(),
    ensures
        final(buf)@.len() == old(buf)@.len(),
        forall|i: int|
            0 <= i < old(buf)@.len() ==> #[trigger] final(buf)@[i] == (if from <= i / 4 < to {
                swapped_byte(old(buf)@, i)
            } else {
                old(buf)@[i]
            }),
{
    let ghost start = buf@;
    let len: usize = buf.len();
    let mut p: usize = from;
    while p < to
        invariant
            from <= p <= to,
            4 * to <= len,
            len == start.len(),
            buf@.len() == start.len(),
            forall|i: int|
                0 <= i < start.len() ==> #[trigger] buf@[i] == (if from <= i / 4 < p {
                    swapped_byte(start, i)
                } else {
                    start[i]
                }),
        decreases to - p,
    {
        let first: u8 = buf[4 * p];
        let third: u8 = buf[4 * p + 2];
        buf[4 * p] = third;
        buf[4 * p + 2] = first;
        p = p + 1;
    }
}

proof fn lemma_row_fits(y: int, y1: int, w: int, x0: int, x1: int, len: int)
    requires
        0 <= y < y1 <= 0xffff_ffff,
        0 <= x0 < x1 <= w <= 0xffff_ffff,
        4 * ((y1 - 1) * w + x1) <= len,
        len <= usize::MAX,
    ensures
        0 <= y * w <= 0xffff_fffe * 0xffff_ffff,
        4 * (y * w + x1) <= len,
        y * w + x0 >= 0,
{
    assert(0 <= y * w <= (y1 - 1) * w && y * w <= 0xffff_fffe * 0xffff_ffff) by (nonlinear_arith)
        requires
            0 <= y < y1 <= 0xffff_ffff,
            0 <= w <= 0xffff_ffff,
    ;
}

pub proof fn lemma_rows_step(p: int, y0: int, y: int, x0: int, x1: int, w: int)
    requires
        y0 <= y,
    ensures
        in_rows(p, y0, y + 1, x0, x1, w) == (in_rows(p, y0, y, x0, x1, w) || in_row(p, y, x0, x1, w)),
{
    if in_rows(p, y0, y + 1, x0, x1, w) {
        let row = choose|row: int| y0 <= row < y + 1 && #[trigger] in_row(p, row, x0, x1, w);
        if row < y {
            assert(in_row(p, row, x0, x1, w));
        }
    }
    if in_rows(p, y0, y, x0, x1, w) {
        let row = choose|row: int| y0 <= row < y && #[trigger] in_row(p, row, x0, x1, w);
        assert(in_row(p, row, x0, x1, w));
    }
}

pub proof fn lemma_rows_apart(p: int, y0: int, y: int, x0: int, x1: int, w: int)
    requires
        0 <= x0 < x1 <= w,
        in_row(p, y, x0, x1, w),
    ensures
        !in_rows(p, y0, y, x0, x1, w),
{
    if in_rows(p, y0, y, x0, x1, w) {
        let row = choose|row: int| y0 <= row < y && #[trigger] in_row(p, row, x0, x1, w);
        assert(row * w + w <= y * w) by (nonlinear_arith)
            requires
                row + 1 <= y,
                w >= 0,
        ;
    }
}

/// The `wl_shm` format whose bytes are B, G, R, A on little endian. Every compositor offers it.
pub const ARGB8888: u32 = 0;

/// The `wl_shm` format whose bytes are R, G, B, A on little endian: the fourcc `AB24`.
pub const ABGR8888: u32 = 0x3432_4241;

/// The `wl_shm` format to allocate buffers in, and whether the frame's bytes then need the R/B
/// swap. `ABGR8888` is R, G, B, A, the order frames are drawn in, so it needs no swap; the
/// mandatory `ARGB8888` is B, G, R, A and does.
pub fn buffer_format(formats: &[u32]) -> (r: (u32, bool))
    ensures
        formats@.contains(ABGR8888) ==> r.0 == ABGR8888 && !r.1,
        !formats@.contains(ABGR8888) ==> r.0 == ARGB8888 && r.1,
{
    let mut i: usize = 0;
    while i < formats.len()
        invariant
            i <= formats@.len(),
            forall|j: int| 0 <= j < i ==> formats@[j] != ABGR8888,
        decreases formats@.len() - i,
    {
        if formats[i] == ABGR8888 {
            return (ABGR8888, false);
        }
        i = i + 1;
    }
    (ARGB8888, true)
}

/// Swapping a region twice gives the buffer back.
pub proof fn swapping_twice_is_nothing(region: DamageRegion, buf: Seq<u8>, w: u32, h: u32)
    ensures
        region.swapped(region.swapped(buf, w, h), w, h) == buf,
{
    assert(region.swapped(region.swapped(buf, w, h), w, h) =~= buf);
}

/// Clearing twice is clearing once, and what was cleared stays cleared through a swap.
pub proof fn cleared_bytes_stay_cleared(region: DamageRegion, buf: Seq<u8>, w: u32, h: u32)
    ensures
        region.cleared(region.cleared(buf, w, h), w, h) == region.cleared(buf, w, h),
        region is Rect ==> region.cleared(region.swapped(buf, w, h), w, h) == region.cleared(
            buf,
            w,
            h,
        ),
{
    assert(region.cleared(region.cleared(buf, w, h), w, h) =~= region.cleared(buf, w, h));
    if region is Rect {
        assert(region.cleared(region.swapped(buf, w, h), w, h) =~= region.cleared(buf, w, h));
    }
}

/// Nothing outside a rectangle is touched, neither by clearing nor by swapping.
pub proof fn outside_stays_untouched(
    region: DamageRegion,
    buf: Seq<u8>,
    w: u32,
    h: u32,
    i: int,
)
    requires
        0 <= i < buf.len(),
        region is Rect,
        !region.holds(i / 4, w, h),
    ensures
        region.cleared(buf, w, h)[i] == buf[i],
        region.swapped(buf, w, h)[i] == buf[i],
{
}

/// A region made from a logical rectangle lies on the surface, so its bytes lie in any buffer
/// that holds the surface.
pub proof fn a_logical_region_is_on_the_surface(
    damage: Rect,
    scale: u32,
    w: u32,
    h: u32,
    region: DamageRegion,
    len: nat,
)
    requires
        region == DamageRegion::of(damage, scale, w, h),
        4 * (w * h) <= len,
    ensures
        region->x0 <= w,
        region->x1 <= w,
        region->y0 <= h,
        region->y1 <= h,
        region.fits(len, w, h),
{
    lemma_device_in_range(damage.x as int, scale as int, w as int);
    lemma_device_in_range(damage.y as int, scale as int, h as int);
    lemma_device_in_range(damage.right(), scale as int, w as int);
    lemma_device_in_range(damage.bottom(), scale as int, h as int);
    let (x0, y0, x1, y1) = region.span(w, h);
    if !region.is_void(w, h) {
        assert((y1 - 1) * w + x1 <= w * h) by (nonlinear_arith)
            requires
                1 <= y1 <= h,
                x1 <= w,
                w >= 0,
        ;
    }
}

proof fn lemma_device_in_range(v: int, scale: int, limit: int)
    requires
        0 <= scale,
        0 <= limit,
    ensures
        0 <= device(v, scale, limit) <= limit,
{
    if v > 0 {
        assert(v * scale >= 0) by (nonlinear_arith)
            requires
                v > 0,
                scale >= 0,
        ;
    }
}

/// A logical rectangle in whole pixels inside the surface becomes exactly its pixels, `scale`
/// times as many each way.
pub proof fn whole_pixels_become_their_device_pixels(pixel: int, scale: int, limit: int)
    requires
        0 <= pixel,
        0 <= scale,
        pixel * scale <= limit,
    ensures
        device(RECT_PX * pixel, scale, limit) == pixel * scale,
{
    assert((1_290_240 * pixel) * scale == 1_290_240 * (pixel * scale)) by (nonlinear_arith);
    if pixel == 0 {
        assert(pixel * scale == 0) by (nonlinear_arith)
            requires
                pixel == 0,
        ;
    }
}

/// A logical coordinate lies in the device pixel it is said to, where that is on the surface;
/// before the surface it is put at its start, and behind it at its end.
pub proof fn coordinates_fall_into_their_pixel(v: int, scale: int, limit: int)
    requires
        0 <= scale,
        0 <= limit,
    ensures
        v <= 0 ==> device(v, scale, limit) == 0,
        v > 0 && v * scale >= 1_290_240 * limit ==> device(v, scale, limit) == limit,
        v > 0 && v * scale < 1_290_240 * limit ==> 1_290_240 * device(v, scale, limit) <= v * scale
            < 1_290_240 * (device(v, scale, limit) + 1),
{
}

/// A pixel has one column and one row.
pub proof fn lemma_pixel_in_row(x: int, y: int, x2: int, y2: int, w: int)
    requires
        0 <= x < w,
        0 <= x2 < w,
        y * w + x == y2 * w + x2,
    ensures
        x == x2 && y == y2,
{
    if y < y2 {
        assert((y2 - y) * w >= w) by (nonlinear_arith)
            requires
                y2 - y >= 1,
                w > 0,
        ;
        assert((y2 - y) * w == y2 * w - y * w) by (nonlinear_arith);
    } else if y > y2 {
        assert((y - y2) * w >= w) by (nonlinear_arith)
            requires
                y - y2 >= 1,
                w > 0,
        ;
        assert((y - y2) * w == y * w - y2 * w) by (nonlinear_arith);
    }
}

/// The pixel at a point of the surface is cleared, and has its first and third byte exchanged,
/// where the point lies between the region's edges, and is left alone where it does not. The
/// whole surface has no edges.
pub proof fn a_region_is_between_its_edges(
    region: DamageRegion,
    buf: Seq<u8>,
    w: u32,
    h: u32,
    x: int,
    y: int,
)
    requires
        0 <= x < w,
        0 <= y < h,
        4 * (y * w + x) + 4 <= buf.len(),
    ensures
        ({
            let p = 4 * (y * w + x);
            let (clear, swap) = (region.cleared(buf, w, h), region.swapped(buf, w, h));
            let inside = region is All || (region->x0 <= x < region->x1 && region->y0 <= y
                < region->y1);
            &&& inside ==> clear[p] == 0 && clear[p + 1] == 0 && clear[p + 2] == 0 && clear[p + 3]
                == 0
            &&& inside ==> swap[p] == buf[p + 2] && swap[p + 1] == buf[p + 1] && swap[p + 2]
                == buf[p] && swap[p + 3] == buf[p + 3]
            &&& !inside ==> clear.subrange(p, p + 4) == buf.subrange(p, p + 4)
            &&& !inside ==> swap.subrange(p, p + 4) == buf.subrange(p, p + 4)
            &&& clear.len() == buf.len() && swap.len() == buf.len()
        }),
{
    let q = y * w + x;
    let p = 4 * q;
    assert(q >= 0) by (nonlinear_arith)
        requires
            q == y * w + x,
            y >= 0,
            x >= 0,
            w >= 0,
    ;
    assert(p / 4 == q && (p + 1) / 4 == q && (p + 2) / 4 == q && (p + 3) / 4 == q);
    if region is Rect {
        let (x0, y0, x1, y1) = region.span(w, h);
        if x0 <= x < x1 && y0 <= y < y1 {
            assert(in_row(q, y, x0, x1, w as int));
        } else if region.holds(q, w, h) {
            let y2 = choose|y2: int| y0 <= y2 < y1 && #[trigger] in_row(q, y2, x0, x1, w as int);
            lemma_pixel_in_row(x, y, q - y2 * w, y2, w as int);
        }
        if !(x0 <= x < x1 && y0 <= y < y1) {
            assert(!region.holds(q, w, h));
            assert(region.cleared(buf, w, h).subrange(p, p + 4) =~= buf.subrange(p, p + 4));
            assert(region.swapped(buf, w, h).subrange(p, p + 4) =~= buf.subrange(p, p + 4));
        }
    }
}

} // verus!
