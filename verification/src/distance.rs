//! Exact squared distances from a point to a polyline, as fractions.

use vstd::prelude::*;

verus! {

/// A non-negative fraction in the mathematical model.
pub struct Fraction {
    pub num: int,
    pub den: int,
}

impl Fraction {
    pub open spec fn valid(self) -> bool {
        self.num >= 0 && self.den > 0
    }

    /// `self < other`.
    pub open spec fn below(self, other: Fraction) -> bool {
        self.num * other.den < other.num * self.den
    }

    /// `self <= limit` for a whole number.
    pub open spec fn at_most(self, limit: int) -> bool {
        self.num <= limit * self.den
    }

    /// Both fractions have the same value.
    pub open spec fn equals(self, other: Fraction) -> bool {
        self.num * other.den == other.num * self.den
    }
}

/// A non-negative fraction.
#[derive(Debug, Clone, Copy)]
pub struct Ratio {
    pub num: u128,
    pub den: u128,
}

impl View for Ratio {
    type V = Fraction;

    open spec fn view(&self) -> Fraction {
        Fraction { num: self.num as int, den: self.den as int }
    }
}

impl Ratio {
    /// `self < other`, decided by comparing continued fractions so that nothing overflows.
    pub fn less(self, other: Ratio) -> (r: bool)
        requires
            self.den > 0,
            other.den > 0,
        ensures
            r == self@.below(other@),
        decreases self.den + other.den,
    {
        let (q, rem): (u128, u128) = (self.num / self.den, self.num % self.den);
        let (p, other_rem): (u128, u128) = (other.num / other.den, other.num % other.den);
        proof {
            let (a, b, c, d) = (self.num as int, self.den as int, other.num as int, other.den as int);
            vstd::arithmetic::div_mod::lemma_fundamental_div_mod(a, b);
            vstd::arithmetic::div_mod::lemma_fundamental_div_mod(c, d);
            lemma_compare_by_quotient(b, q as int, rem as int, d, p as int, other_rem as int);
        }
        if q != p {
            q < p
        } else if other_rem == 0 {
            false
        } else if rem == 0 {
            true
        } else {
            let flipped = Ratio { num: other.den, den: other_rem };
            flipped.less(Ratio { num: self.den, den: rem })
        }
    }
}

/// Two fractions `q + r / b` and `p + s / d` compare by their whole parts, then by their rests.
proof fn lemma_compare_by_quotient(b: int, q: int, r: int, d: int, p: int, s: int)
    requires
        b > 0,
        d > 0,
        0 <= r < b,
        0 <= s < d,
    ensures
        q < p ==> (b * q + r) * d < (d * p + s) * b,
        q > p ==> (b * q + r) * d > (d * p + s) * b,
        q == p ==> ((b * q + r) * d < (d * p + s) * b <==> d * r < b * s),
        s == 0 ==> b * s == 0 && d * r >= 0,
        r == 0 && s > 0 ==> d * r < b * s,
{
    assert(q < p ==> (b * q + r) * d < (d * p + s) * b) by (nonlinear_arith)
        requires
            b > 0,
            d > 0,
            0 <= r < b,
            0 <= s < d,
    {
        if q < p {
            assert(b * q + r < b * (q + 1));
            assert(b * (q + 1) <= b * p);
            assert((b * q + r) * d < (b * p) * d);
            assert((b * p) * d == (d * p) * b);
            assert((d * p) * b <= (d * p + s) * b);
        }
    }
    assert(q > p ==> (b * q + r) * d > (d * p + s) * b) by (nonlinear_arith)
        requires
            b > 0,
            d > 0,
            0 <= r < b,
            0 <= s < d,
    {
        if q > p {
            assert(d * p + s < d * (p + 1));
            assert(d * (p + 1) <= d * q);
            assert((d * p + s) * b < (d * q) * b);
            assert((d * q) * b == (b * q) * d);
            assert((b * q) * d <= (b * q + r) * d);
        }
    }
    assert(q == p ==> ((b * q + r) * d < (d * p + s) * b <==> d * r < b * s)) by (nonlinear_arith)
        requires
            b > 0,
            d > 0,
    {
        assert((b * q + r) * d == (b * q) * d + d * r);
        assert((d * p + s) * b == (d * p) * b + b * s);
        if q == p {
            assert((b * q) * d == (d * p) * b);
        }
    }
    assert(d * r >= 0) by (nonlinear_arith)
        requires
            d > 0,
            r >= 0,
    ;
    assert(r == 0 && s > 0 ==> b * s > 0 && d * r == 0) by (nonlinear_arith)
        requires
            b > 0,
            d > 0,
    ;
}

pub open spec fn square(a: int) -> int {
    a * a
}

pub open spec fn clamp(v: int, lo: int, hi: int) -> int {
    if v < lo { lo } else if v > hi { hi } else { v }
}

/// Squared distance between two points.
pub open spec fn point_distance(p: [i32; 2], q: [i32; 2]) -> int {
    square(p[0] - q[0]) + square(p[1] - q[1])
}

/// Squared distance from `p` to the segment from `a` to `b`: the distance to the point at
/// `a + t (b - a)`, with `t` the projection of `p` clamped to `[0, 1]`. With `len2` the squared
/// length of the segment, `t` is `along / len2` and the offset is scaled by `len2`.
pub open spec fn segment_distance(p: [i32; 2], a: [i32; 2], b: [i32; 2]) -> Fraction {
    let (abx, aby) = (b[0] - a[0], b[1] - a[1]);
    let (apx, apy) = (p[0] - a[0], p[1] - a[1]);
    let len2 = abx * abx + aby * aby;
    if len2 == 0 {
        Fraction { num: point_distance(p, a), den: 1 }
    } else {
        let along = clamp(apx * abx + apy * aby, 0, len2);
        Fraction {
            num: square(apx * len2 - along * abx) + square(apy * len2 - along * aby),
            den: len2 * len2,
        }
    }
}

/// Squared distance from `p` to the nearest of the first `n` segments of a polyline.
pub open spec fn nearest_segment(points: Seq<[i32; 2]>, p: [i32; 2], n: nat) -> Fraction
    decreases n,
{
    if n <= 1 {
        segment_distance(p, points[0], points[1])
    } else {
        let best = nearest_segment(points, p, (n - 1) as nat);
        let last = segment_distance(p, points[n - 1], points[n as int]);
        if last.below(best) { last } else { best }
    }
}

/// Squared distance from `p` to a polyline; there is none to an empty one.
pub open spec fn polyline_distance(points: Seq<[i32; 2]>, p: [i32; 2]) -> Option<Fraction> {
    if points.len() == 0 {
        None
    } else if points.len() == 1 {
        Some(Fraction { num: point_distance(p, points[0]), den: 1 })
    } else {
        Some(nearest_segment(points, p, (points.len() - 1) as nat))
    }
}

proof fn lemma_product_bound(a: int, b: int, m: int)
    requires
        -m <= a <= m,
        -m <= b <= m,
    ensures
        -(m * m) <= a * b <= m * m,
{
    assert(-(m * m) <= a * b <= m * m) by (nonlinear_arith)
        requires
            -m <= a <= m,
            -m <= b <= m,
    ;
}

/// Squared distance between two points.
pub fn dist_squared(p: [i32; 2], q: [i32; 2]) -> (r: u128)
    ensures
        r == point_distance(p, q),
        r <= 0x2_0000_0000_0000_0000,
{
    let (dx, dy): (i128, i128) = (p[0] as i128 - q[0] as i128, p[1] as i128 - q[1] as i128);
    proof {
        lemma_product_bound(dx as int, dx as int, 0x1_0000_0000);
        lemma_product_bound(dy as int, dy as int, 0x1_0000_0000);
        lemma_square_nonneg(dx as int);
        lemma_square_nonneg(dy as int);
    }
    (dx * dx) as u128 + (dy * dy) as u128
}

proof fn lemma_square_nonneg(a: int)
    ensures
        a * a >= 0,
        a != 0 ==> a * a > 0,
{
    assert(a * a >= 0 && (a != 0 ==> a * a > 0)) by (nonlinear_arith);
}

/// The scaled offset from the foot of a perpendicular has length `len2 * cross^2`.
proof fn lemma_perpendicular(apx: int, apy: int, abx: int, aby: int)
    ensures
        ({
            let len2 = abx * abx + aby * aby;
            let along = apx * abx + apy * aby;
            let cross = abx * apy - aby * apx;
            square(apx * len2 - along * abx) + square(apy * len2 - along * aby) == len2 * (cross
                * cross)
        }),
{
    let len2 = abx * abx + aby * aby;
    let along = apx * abx + apy * aby;
    let cross = abx * apy - aby * apx;
    assert(apx * len2 - along * abx == -aby * cross) by (nonlinear_arith)
        requires
            len2 == abx * abx + aby * aby,
            along == apx * abx + apy * aby,
            cross == abx * apy - aby * apx,
    ;
    assert(apy * len2 - along * aby == abx * cross) by (nonlinear_arith)
        requires
            len2 == abx * abx + aby * aby,
            along == apx * abx + apy * aby,
            cross == abx * apy - aby * apx,
    ;
    assert(square(-aby * cross) + square(abx * cross) == len2 * (cross * cross)) by (nonlinear_arith)
        requires
            len2 == abx * abx + aby * aby,
    ;
}

/// Where the projection falls beyond the end of the segment, the distance is the one to the end.
proof fn lemma_beyond_the_end(p: [i32; 2], a: [i32; 2], b: [i32; 2])
    ensures
        ({
            let (abx, aby) = (b[0] - a[0], b[1] - a[1]);
            let (apx, apy) = (p[0] - a[0], p[1] - a[1]);
            let len2 = abx * abx + aby * aby;
            &&& square(apx * len2 - 0 * abx) + square(apy * len2 - 0 * aby) == (len2 * len2)
                * point_distance(p, a)
            &&& square(apx * len2 - len2 * abx) + square(apy * len2 - len2 * aby) == (len2 * len2)
                * point_distance(p, b)
        }),
{
    let (abx, aby) = (b[0] - a[0], b[1] - a[1]);
    let (apx, apy) = (p[0] - a[0], p[1] - a[1]);
    let len2 = abx * abx + aby * aby;
    assert(square(apx * len2 - 0 * abx) + square(apy * len2 - 0 * aby) == (len2 * len2) * (apx * apx
        + apy * apy)) by (nonlinear_arith);
    let (bpx, bpy) = (p[0] - b[0], p[1] - b[1]);
    assert(apx * len2 - len2 * abx == bpx * len2) by (nonlinear_arith)
        requires
            bpx == apx - abx,
    ;
    assert(apy * len2 - len2 * aby == bpy * len2) by (nonlinear_arith)
        requires
            bpy == apy - aby,
    ;
    assert(square(bpx * len2) + square(bpy * len2) == (len2 * len2) * (bpx * bpx + bpy * bpy))
        by (nonlinear_arith);
}

/// The squared distance to a segment, where it is no more than `limit`.
pub fn segment_within(p: [i32; 2], a: [i32; 2], b: [i32; 2], limit: u32) -> (r: Option<Ratio>)
    ensures
        segment_distance(p, a, b).valid(),
        r is Some <==> segment_distance(p, a, b).at_most(limit as int),
        r is Some ==> r->0.den > 0 && r->0@.equals(segment_distance(p, a, b)),
{
    let (abx, aby): (i128, i128) = (b[0] as i128 - a[0] as i128, b[1] as i128 - a[1] as i128);
    let (apx, apy): (i128, i128) = (p[0] as i128 - a[0] as i128, p[1] as i128 - a[1] as i128);
    proof {
        let m = 0x1_0000_0000int;
        lemma_product_bound(abx as int, abx as int, m);
        lemma_product_bound(aby as int, aby as int, m);
        lemma_product_bound(apx as int, abx as int, m);
        lemma_product_bound(apy as int, aby as int, m);
        lemma_product_bound(abx as int, apy as int, m);
        lemma_product_bound(aby as int, apx as int, m);
        lemma_square_nonneg(abx as int);
        lemma_square_nonneg(aby as int);
    }
    let len2: i128 = abx * abx + aby * aby;
    let along: i128 = apx * abx + apy * aby;
    let ghost exact = segment_distance(p, a, b);
    proof {
        lemma_beyond_the_end(p, a, b);
        lemma_perpendicular(apx as int, apy as int, abx as int, aby as int);
        lemma_square_nonneg(len2 as int);
        if len2 != 0 {
            let t = clamp(along as int, 0, len2 as int);
            lemma_square_nonneg(apx * len2 - t * abx);
            lemma_square_nonneg(apy * len2 - t * aby);
        } else {
            lemma_square_nonneg(p[0] - a[0]);
            lemma_square_nonneg(p[1] - a[1]);
        }
    }
    if len2 == 0 || along <= 0 || along >= len2 {
        let d: u128 = if len2 == 0 || along <= 0 { dist_squared(p, a) } else { dist_squared(p, b) };
        proof {
            if len2 != 0 {
                let den = len2 * len2;
                assert(exact.num == den * d);
                assert(d as int * den == exact.num * 1) by (nonlinear_arith)
                    requires
                        exact.num == den * d as int,
                ;
                assert(exact.num <= limit * den <==> d <= limit) by (nonlinear_arith)
                    requires
                        exact.num == den * d as int,
                        den > 0,
                ;
            }
        }
        if d <= limit as u128 {
            Some(Ratio { num: d, den: 1 })
        } else {
            None
        }
    } else {
        let cross: i128 = abx * apy - aby * apx;
        let side: i128 = if cross < 0 { -cross } else { cross };
        proof {
            let den = len2 * len2;
            assert(side * side == cross * cross) by (nonlinear_arith)
                requires
                    side == cross || side == -cross,
            ;
            assert(exact.num == len2 * (side * side));
            let (n, l, k) = (side * side, len2 as int, limit as int);
            assert(l * n <= k * (l * l) <==> n <= k * l) by (nonlinear_arith)
                requires
                    l > 0,
            ;
            assert(n * (l * l) == (l * n) * l) by (nonlinear_arith);
            assert(side >= 0x2_0000_0000_0000 ==> side * side >= 0x4_0000_0000_0000_0000_0000_0000)
                by (nonlinear_arith);
            assert(side < 0x2_0000_0000_0000 ==> side * side < 0x4_0000_0000_0000_0000_0000_0000)
                by (nonlinear_arith)
                requires
                    side >= 0,
            ;
            assert(k * l <= 0xffff_ffff * 0x2_0000_0000_0000_0000) by (nonlinear_arith)
                requires
                    0 <= k <= 0xffff_ffff,
                    0 <= l <= 0x2_0000_0000_0000_0000,
            ;
            lemma_square_nonneg(side as int);
        }
        if side >= 0x2_0000_0000_0000 {
            return None;
        }
        let num: u128 = (side * side) as u128;
        let den: u128 = len2 as u128;
        if num <= limit as u128 * den {
            Some(Ratio { num, den })
        } else {
            None
        }
    }
}

/// Fractions of the same value compare alike.
pub proof fn lemma_equal_fractions_compare_alike(x: Fraction, x2: Fraction, y: Fraction, y2: Fraction)
    requires
        x.valid(),
        x2.valid(),
        y.valid(),
        y2.valid(),
        x.equals(x2),
        y.equals(y2),
    ensures
        x.below(y) == x2.below(y2),
{
    let (a, b) = (x.num * y.den, y.num * x.den);
    let (c, d) = (x2.num * y2.den, y2.num * x2.den);
    let (k, l) = (x2.den * y2.den, x.den * y.den);
    assert(a * k == c * l) by (nonlinear_arith)
        requires
            a == x.num * y.den,
            c == x2.num * y2.den,
            k == x2.den * y2.den,
            l == x.den * y.den,
            x.num * x2.den == x2.num * x.den,
    {
        assert(a * k == (x.num * x2.den) * (y.den * y2.den));
        assert(c * l == (x2.num * x.den) * (y.den * y2.den));
    }
    assert(b * k == d * l) by (nonlinear_arith)
        requires
            b == y.num * x.den,
            d == y2.num * x2.den,
            k == x2.den * y2.den,
            l == x.den * y.den,
            y.num * y2.den == y2.num * y.den,
    {
        assert(b * k == (y.num * y2.den) * (x.den * x2.den));
        assert(d * l == (y2.num * y.den) * (x.den * x2.den));
    }
    assert(k > 0) by (nonlinear_arith)
        requires
            k == x2.den * y2.den,
            x2.den > 0,
            y2.den > 0,
    ;
    assert(l > 0) by (nonlinear_arith)
        requires
            l == x.den * y.den,
            x.den > 0,
            y.den > 0,
    ;
    assert(a < b <==> c < d) by (nonlinear_arith)
        requires
            k > 0,
            l > 0,
            a * k == c * l,
            b * k == d * l,
    {
        if a < b {
            assert(a * k < b * k);
        }
        if c < d {
            assert(c * l < d * l);
        }
    }
}

/// Being below is a strict order, and a fraction below a second that is not above a third is
/// below the third.
pub proof fn lemma_below_is_an_order(x: Fraction, y: Fraction, z: Fraction)
    requires
        x.valid(),
        y.valid(),
        z.valid(),
    ensures
        !x.below(x),
        x.below(y) ==> !y.below(x),
        x.below(y) && !z.below(y) ==> x.below(z),
{
    let (a, b, c, d, e, f) = (x.num, x.den, y.num, y.den, z.num, z.den);
    assert(a * d < c * b && !(e * d < c * f) ==> a * f < e * b) by (nonlinear_arith)
        requires
            b > 0,
            d > 0,
            f > 0,
    {
        if a * d < c * b && c * f <= e * d {
            assert((a * d) * f < (c * b) * f);
            assert((c * f) * b <= (e * d) * b);
            assert((c * b) * f == (c * f) * b);
            assert((a * f) * d < (e * b) * d) by {
                assert((a * f) * d == (a * d) * f);
                assert((e * b) * d == (e * d) * b);
            }
        }
    }
}

/// A fraction below another stays within every limit the other stays within, and a fraction
/// within a limit is below every fraction beyond it.
pub proof fn lemma_limits_order(x: Fraction, y: Fraction, limit: int)
    requires
        x.valid(),
        y.valid(),
    ensures
        x.below(y) && y.at_most(limit) ==> x.at_most(limit),
        x.at_most(limit) && !y.at_most(limit) ==> x.below(y),
{
    let (a, b, c, d, k) = (x.num, x.den, y.num, y.den, limit);
    assert(a * d < c * b && c <= k * d ==> a <= k * b) by (nonlinear_arith)
        requires
            b > 0,
            d > 0,
    {
        if a * d < c * b && c <= k * d {
            assert(c * b <= (k * d) * b);
            assert((k * d) * b == (k * b) * d);
            assert(a * d < (k * b) * d);
        }
    }
    assert(a <= k * b && !(c <= k * d) ==> a * d < c * b) by (nonlinear_arith)
        requires
            b > 0,
            d > 0,
    {
        if a <= k * b && c > k * d {
            assert(a * d <= (k * b) * d);
            assert((k * b) * d == (k * d) * b);
            assert((k * d) * b < c * b);
        }
    }
}

/// A distance is a non-negative number over a positive one.
pub proof fn lemma_polyline_distance_valid(points: Seq<[i32; 2]>, p: [i32; 2])
    ensures
        polyline_distance(points, p) is Some ==> polyline_distance(points, p)->0.valid(),
{
    if points.len() == 1 {
        lemma_square_nonneg(p[0] - points[0][0]);
        lemma_square_nonneg(p[1] - points[0][1]);
    } else if points.len() > 1 {
        lemma_nearest_segment_valid(points, p, (points.len() - 1) as nat);
    }
}

proof fn lemma_segment_distance_valid(p: [i32; 2], a: [i32; 2], b: [i32; 2])
    ensures
        segment_distance(p, a, b).valid(),
{
    let (abx, aby) = (b[0] - a[0], b[1] - a[1]);
    let (apx, apy) = (p[0] - a[0], p[1] - a[1]);
    let len2 = abx * abx + aby * aby;
    let t = clamp(apx * abx + apy * aby, 0, len2);
    lemma_square_nonneg(len2);
    lemma_square_nonneg(apx);
    lemma_square_nonneg(apy);
    lemma_square_nonneg(apx * len2 - t * abx);
    lemma_square_nonneg(apy * len2 - t * aby);
}

proof fn lemma_nearest_segment_valid(points: Seq<[i32; 2]>, p: [i32; 2], n: nat)
    ensures
        nearest_segment(points, p, n).valid(),
    decreases n,
{
    if n <= 1 {
        lemma_segment_distance_valid(p, points[0], points[1]);
    } else {
        lemma_nearest_segment_valid(points, p, (n - 1) as nat);
        lemma_segment_distance_valid(p, points[n - 1], points[n as int]);
    }
}

/// The squared distance to a polyline, where it is no more than `limit`.
pub fn polyline_within(points: &Vec<[i32; 2]>, p: [i32; 2], limit: u32) -> (r: Option<Ratio>)
    ensures
        r is Some <==> polyline_distance(points@, p) is Some && polyline_distance(
            points@,
            p,
        )->0.at_most(limit as int),
        r is Some ==> r->0.den > 0 && r->0@.equals(polyline_distance(points@, p)->0),
{
    if points.len() == 0 {
        return None;
    }
    if points.len() == 1 {
        let d: u128 = dist_squared(p, points[0]);
        return if d <= limit as u128 { Some(Ratio { num: d, den: 1 }) } else { None };
    }
    let mut best: Option<Ratio> = segment_within(p, points[0], points[1], limit);
    let mut n: usize = 1;
    while n + 1 < points.len()
        invariant
            1 <= n < points.len(),
            nearest_segment(points@, p, n as nat).valid(),
            best is Some <==> nearest_segment(points@, p, n as nat).at_most(limit as int),
            best is Some ==> best->0.den > 0 && best->0@.equals(
                nearest_segment(points@, p, n as nat),
            ),
        decreases points.len() - n,
    {
        let next: Option<Ratio> = segment_within(p, points[n], points[n + 1], limit);
        let ghost so_far = nearest_segment(points@, p, n as nat);
        let ghost last = segment_distance(p, points[n as int], points[n + 1]);
        proof {
            lemma_limits_order(so_far, last, limit as int);
            lemma_limits_order(last, so_far, limit as int);
            assert(nearest_segment(points@, p, (n + 1) as nat) == if last.below(so_far) {
                last
            } else {
                so_far
            });
        }
        if let Some(d) = next {
            let closer: bool = match best {
                Some(b) => {
                    proof {
                        lemma_equal_fractions_compare_alike(d@, last, b@, so_far);
                    }
                    d.less(b)
                },
                None => true,
            };
            if closer {
                best = Some(d);
            }
        }
        n = n + 1;
    }
    best
}

/// The squared distance from `p` to the point that is `k / m` of the way from `a` to `b`, times
/// the square of `m`.
pub open spec fn offset_squared(p: [i32; 2], a: [i32; 2], b: [i32; 2], k: int, m: int) -> int {
    let x = m * (p[0] - a[0]) - k * (b[0] - a[0]);
    let y = m * (p[1] - a[1]) - k * (b[1] - a[1]);
    x * x + y * y
}

/// The fraction is no more than the squared distance from `p` to the point that is `k / m` of the
/// way from `a` to `b`.
pub open spec fn no_farther(
    d: Fraction,
    p: [i32; 2],
    a: [i32; 2],
    b: [i32; 2],
    k: int,
    m: int,
) -> bool {
    d.num * (m * m) <= d.den * offset_squared(p, a, b, k, m)
}

/// The fraction is the squared distance from `p` to the point that is `k / m` of the way from `a`
/// to `b`.
pub open spec fn is_the_distance(
    d: Fraction,
    p: [i32; 2],
    a: [i32; 2],
    b: [i32; 2],
    k: int,
    m: int,
) -> bool {
    0 <= k <= m && m > 0 && d.num * (m * m) == d.den * offset_squared(p, a, b, k, m)
}

/// A clamped projection minimises the quadratic it stems from.
proof fn lemma_clamped_projection(c: int, l: int, k: int, m: int)
    requires
        l > 0,
        0 <= k <= m,
        m > 0,
    ensures
        ({
            let t = clamp(c, 0, l);
            (t * m) * (t * m) - 2 * (c * m) * (t * m) <= (l * k) * (l * k) - 2 * (c * m) * (l * k)
        }),
{
    let t = clamp(c, 0, l);
    let (u, v, w) = (l * k, t * m, c * m);
    assert(0 <= u <= l * m) by (nonlinear_arith)
        requires
            u == l * k,
            l > 0,
            0 <= k <= m,
    ;
    assert((u - v) * (u + v - 2 * w) >= 0) by {
        if t == c {
            assert((u - v) * (u - v) >= 0) by (nonlinear_arith);
        } else if t == 0 {
            assert(v == 0 && w <= 0) by (nonlinear_arith)
                requires
                    v == t * m,
                    w == c * m,
                    t == 0,
                    c < 0,
                    m > 0,
            ;
            assert(u * (u - 2 * w) >= 0) by (nonlinear_arith)
                requires
                    u >= 0,
                    w <= 0,
            ;
        } else {
            assert(v == l * m && w >= v) by (nonlinear_arith)
                requires
                    v == t * m,
                    w == c * m,
                    t == l,
                    c > l,
                    m > 0,
            ;
            assert((u - v) * (u + v - 2 * w) >= 0) by (nonlinear_arith)
                requires
                    u <= v,
                    w >= v,
            ;
        }
    }
    assert((u - v) * (u + v - 2 * w) == u * u - 2 * w * u - (v * v - 2 * w * v)) by (nonlinear_arith);
}

proof fn lemma_difference_squared(m: int, a: int, k: int, b: int)
    ensures
        (m * a - k * b) * (m * a - k * b) == (m * m) * (a * a) - 2 * (m * k) * (a * b) + (k * k)
            * (b * b),
{
    let (s, t) = (m * a, k * b);
    assert((s - t) * (s - t) == s * s - 2 * (s * t) + t * t) by (nonlinear_arith);
    assert((m * a) * (m * a) == (m * m) * (a * a)) by (nonlinear_arith);
    assert((k * b) * (k * b) == (k * k) * (b * b)) by (nonlinear_arith);
    assert((m * a) * (k * b) == (m * k) * (a * b)) by (nonlinear_arith);
    assert(2 * ((m * k) * (a * b)) == 2 * (m * k) * (a * b)) by (nonlinear_arith);
}

/// The square of a scaled offset, multiplied out.
proof fn lemma_offset_expanded(apx: int, apy: int, abx: int, aby: int, k: int, m: int)
    ensures
        ({
            let (x, y) = (m * apx - k * abx, m * apy - k * aby);
            x * x + y * y == (m * m) * (apx * apx + apy * apy) - 2 * (m * k) * (apx * abx + apy * aby)
                + (k * k) * (abx * abx + aby * aby)
        }),
{
    let (x, y) = (m * apx - k * abx, m * apy - k * aby);
    lemma_difference_squared(m, apx, k, abx);
    lemma_difference_squared(m, apy, k, aby);
    assert((m * m) * (apx * apx) + (m * m) * (apy * apy) == (m * m) * (apx * apx + apy * apy))
        by (nonlinear_arith);
    assert(2 * (m * k) * (apx * abx) + 2 * (m * k) * (apy * aby) == 2 * (m * k) * (apx * abx + apy
        * aby)) by (nonlinear_arith);
    assert((k * k) * (abx * abx) + (k * k) * (aby * aby) == (k * k) * (abx * abx + aby * aby))
        by (nonlinear_arith);
}

/// The distance to a segment is the least distance to any of its points, and it is the distance
/// to one of them.
pub proof fn the_segment_distance_is_the_least(
    p: [i32; 2],
    a: [i32; 2],
    b: [i32; 2],
    k: int,
    m: int,
)
    requires
        0 <= k <= m,
        m > 0,
    ensures
        segment_distance(p, a, b).valid(),
        no_farther(segment_distance(p, a, b), p, a, b, k, m),
        exists|j: int, n: int| #[trigger] is_the_distance(segment_distance(p, a, b), p, a, b, j, n),
{
    lemma_segment_distance_valid(p, a, b);
    let (abx, aby) = (b[0] - a[0], b[1] - a[1]);
    let (apx, apy) = (p[0] - a[0], p[1] - a[1]);
    let l = abx * abx + aby * aby;
    let c = apx * abx + apy * aby;
    let q = apx * apx + apy * apy;
    let d = segment_distance(p, a, b);
    lemma_square_nonneg(abx);
    lemma_square_nonneg(aby);
    lemma_offset_expanded(apx, apy, abx, aby, k, m);
    if l == 0 {
        assert(abx == 0 && aby == 0);
        assert(d.num == q && d.den == 1);
        assert(m * apx - k * abx == m * apx) by (nonlinear_arith)
            requires
                abx == 0,
        ;
        assert(m * apy - k * aby == m * apy) by (nonlinear_arith)
            requires
                aby == 0,
        ;
        assert((m * apx) * (m * apx) + (m * apy) * (m * apy) == q * (m * m)) by (nonlinear_arith)
            requires
                q == apx * apx + apy * apy,
        ;
        lemma_offset_expanded(apx, apy, abx, aby, 0, 1);
        assert(1 * apx - 0 * abx == apx && 1 * apy - 0 * aby == apy) by (nonlinear_arith);
        assert(is_the_distance(d, p, a, b, 0, 1));
    } else {
        let t = clamp(c, 0, l);
        lemma_clamped_projection(c, l, k, m);
        lemma_offset_expanded(apx, apy, abx, aby, t, l);
        assert(apx * l == l * apx && apy * l == l * apy) by (nonlinear_arith);
        assert(d.num == (l * l) * q - 2 * (l * t) * c + (t * t) * l);
        assert(d.den == l * l);
        let (left, right) = (
            (t * m) * (t * m) - 2 * (c * m) * (t * m),
            (l * k) * (l * k) - 2 * (c * m) * (l * k),
        );
        let base = (l * l) * ((m * m) * q);
        let o = (m * m) * q - 2 * (m * k) * c + (k * k) * l;
        assert(d.num * (m * m) == base + l * left) by {
            let (x, y, z, w) = ((l * l) * q, 2 * (l * t) * c, (t * t) * l, m * m);
            assert((x - y + z) * w == x * w - y * w + z * w) by (nonlinear_arith);
            assert(((l * l) * q) * (m * m) == (l * l) * ((m * m) * q)) by (nonlinear_arith);
            assert((2 * (l * t) * c) * (m * m) == l * (2 * (c * m) * (t * m))) by (nonlinear_arith);
            assert(((t * t) * l) * (m * m) == l * ((t * m) * (t * m))) by (nonlinear_arith);
            let (e, f) = ((t * m) * (t * m), 2 * (c * m) * (t * m));
            assert(l * (e - f) == l * e - l * f) by (nonlinear_arith);
        }
        assert(d.den * o == base + l * right) by {
            let (x, y, z, w) = ((m * m) * q, 2 * (m * k) * c, (k * k) * l, l * l);
            assert(w * (x - y + z) == w * x - w * y + w * z) by (nonlinear_arith);
            assert((l * l) * (2 * (m * k) * c) == l * (2 * (c * m) * (l * k))) by (nonlinear_arith);
            assert((l * l) * ((k * k) * l) == l * ((l * k) * (l * k))) by (nonlinear_arith);
            let (e, f) = ((l * k) * (l * k), 2 * (c * m) * (l * k));
            assert(l * (e - f) == l * e - l * f) by (nonlinear_arith);
        }
        assert(l * left <= l * right) by (nonlinear_arith)
            requires
                left <= right,
                l > 0,
        ;
        assert(d.num == offset_squared(p, a, b, t, l));
        assert(d.num * (l * l) == d.den * offset_squared(p, a, b, t, l)) by (nonlinear_arith)
            requires
                d.den == l * l,
                d.num == offset_squared(p, a, b, t, l),
        ;
        assert(is_the_distance(d, p, a, b, t, l));
    }
}

/// The end of the `i`-th segment of a polyline; a single point is a segment to itself.
pub open spec fn segment_end(points: Seq<[i32; 2]>, i: int) -> [i32; 2] {
    if i + 1 < points.len() { points[i + 1] } else { points[i] }
}

/// The `i`-th segment is one of a polyline's.
pub open spec fn has_segment(points: Seq<[i32; 2]>, i: int) -> bool {
    0 <= i && (i + 1 < points.len() || (i == 0 && points.len() == 1))
}

/// A fraction that is no more than another is no farther than what the other is no farther than.
proof fn lemma_no_farther_passes_on(
    d: Fraction,
    e: Fraction,
    p: [i32; 2],
    a: [i32; 2],
    b: [i32; 2],
    k: int,
    m: int,
)
    requires
        d.valid(),
        e.valid(),
        !e.below(d),
        no_farther(e, p, a, b, k, m),
        m > 0,
    ensures
        no_farther(d, p, a, b, k, m),
{
    let (o, w) = (offset_squared(p, a, b, k, m), m * m);
    assert(d.num * w <= d.den * o) by (nonlinear_arith)
        requires
            d.den > 0,
            e.den > 0,
            d.num * e.den <= e.num * d.den,
            e.num * w <= e.den * o,
            w >= 0,
    {
        assert((d.num * e.den) * w <= (e.num * d.den) * w);
        assert((e.num * w) * d.den <= (e.den * o) * d.den);
        assert((d.num * w) * e.den <= (d.den * o) * e.den);
    }
}

proof fn lemma_nearest_segment_is_least(
    points: Seq<[i32; 2]>,
    p: [i32; 2],
    n: nat,
    i: int,
    k: int,
    m: int,
)
    requires
        1 <= n < points.len(),
        0 <= i < n,
        0 <= k <= m,
        m > 0,
    ensures
        no_farther(nearest_segment(points, p, n), p, points[i], points[i + 1], k, m),
        exists|h: int, j: int, o: int|
            0 <= h < n && #[trigger] is_the_distance(
                nearest_segment(points, p, n),
                p,
                points[h],
                segment_end(points, h),
                j,
                o,
            ),
    decreases n,
{
    lemma_nearest_segment_valid(points, p, n);
    let d = nearest_segment(points, p, n);
    let last = segment_distance(p, points[n - 1], points[n as int]);
    the_segment_distance_is_the_least(p, points[n - 1], points[n as int], 0, 1);
    assert(m * m >= 0) by (nonlinear_arith);
    if n > 1 {
        let best = nearest_segment(points, p, (n - 1) as nat);
        lemma_nearest_segment_valid(points, p, (n - 1) as nat);
        lemma_below_is_an_order(last, best, best);
        lemma_below_is_an_order(d, d, d);
        if i < n - 1 {
            lemma_nearest_segment_is_least(points, p, (n - 1) as nat, i, k, m);
            lemma_no_farther_passes_on(d, best, p, points[i], points[i + 1], k, m);
        } else {
            lemma_nearest_segment_is_least(points, p, (n - 1) as nat, 0, 0, 1);
            the_segment_distance_is_the_least(p, points[i], points[i + 1], k, m);
            lemma_no_farther_passes_on(d, last, p, points[i], points[i + 1], k, m);
        }
        if !last.below(best) {
            let (h, j, o) = choose|h: int, j: int, o: int|
                0 <= h < n - 1 && #[trigger] is_the_distance(
                    best,
                    p,
                    points[h],
                    segment_end(points, h),
                    j,
                    o,
                );
            assert(is_the_distance(d, p, points[h], segment_end(points, h), j, o));
        }
    } else {
        the_segment_distance_is_the_least(p, points[0], points[1], k, m);
    }
    if n == 1 || d == last {
        let (j, o) = choose|j: int, o: int|
            #[trigger] is_the_distance(last, p, points[n - 1], points[n as int], j, o);
        assert(is_the_distance(d, p, points[n - 1], segment_end(points, n - 1), j, o));
    }
}

/// The distance to a polyline is the least distance to any point of any of its segments, and it
/// is the distance to one of them. Only an empty polyline has none.
pub proof fn the_polyline_distance_is_the_least(
    points: Seq<[i32; 2]>,
    p: [i32; 2],
    i: int,
    k: int,
    m: int,
)
    requires
        has_segment(points, i),
        0 <= k <= m,
        m > 0,
    ensures
        polyline_distance(points, p) is Some,
        polyline_distance(points, p)->0.valid(),
        no_farther(
            polyline_distance(points, p)->0,
            p,
            points[i],
            segment_end(points, i),
            k,
            m,
        ),
        exists|h: int, j: int, n: int|
            has_segment(points, h) && #[trigger] is_the_distance(
                polyline_distance(points, p)->0,
                p,
                points[h],
                segment_end(points, h),
                j,
                n,
            ),
{
    lemma_polyline_distance_valid(points, p);
    let d = polyline_distance(points, p)->0;
    if points.len() == 1 {
        let a = points[0];
        the_segment_distance_is_the_least(p, a, a, k, m);
        assert(d == segment_distance(p, a, a)) by {
            assert(a[0] - a[0] == 0 && a[1] - a[1] == 0);
            assert(0 * 0 + 0 * 0 == 0int) by (nonlinear_arith);
        }
        let (j, n) = choose|j: int, n: int|
            #[trigger] is_the_distance(segment_distance(p, a, a), p, a, a, j, n);
        assert(is_the_distance(d, p, points[0], segment_end(points, 0), j, n));
    } else {
        let n = (points.len() - 1) as nat;
        lemma_nearest_segment_is_least(points, p, n, i, k, m);
        let (h, j, o) = choose|h: int, j: int, o: int|
            0 <= h < n && #[trigger] is_the_distance(
                nearest_segment(points, p, n),
                p,
                points[h],
                segment_end(points, h),
                j,
                o,
            );
        assert(is_the_distance(d, p, points[h], segment_end(points, h), j, o));
    }
}

/// One point is no farther from `p` than another: the one `k / m` of the way from `a` to `b` than
/// the one `j / n` of the way from `c` to `d`.
pub open spec fn as_near(
    p: [i32; 2],
    a: [i32; 2],
    b: [i32; 2],
    k: int,
    m: int,
    c: [i32; 2],
    d: [i32; 2],
    j: int,
    n: int,
) -> bool {
    offset_squared(p, a, b, k, m) * (n * n) <= offset_squared(p, c, d, j, n) * (m * m)
}

/// Of two distances the smaller one is that of a point which is no farther than the other's.
pub proof fn lemma_as_near(
    d: Fraction,
    e: Fraction,
    p: [i32; 2],
    a: [i32; 2],
    b: [i32; 2],
    k: int,
    m: int,
    c: [i32; 2],
    f: [i32; 2],
    j: int,
    n: int,
)
    requires
        d.valid(),
        e.valid(),
        !e.below(d),
        is_the_distance(d, p, a, b, k, m),
        no_farther(e, p, c, f, j, n),
        n > 0,
    ensures
        as_near(p, a, b, k, m, c, f, j, n),
        d.below(e) ==> offset_squared(p, a, b, k, m) * (n * n) < offset_squared(p, c, f, j, n) * (m
            * m),
{
    let (x, y) = (offset_squared(p, a, b, k, m), offset_squared(p, c, f, j, n));
    let (u, v) = (m * m, n * n);
    assert(u > 0 && v > 0) by (nonlinear_arith)
        requires
            u == m * m,
            v == n * n,
            m > 0,
            n > 0,
    ;
    let (dn, dd, en, ed) = (d.num, d.den, e.num, e.den);
    assert((x * v) * (dd * ed) == (dn * ed) * (u * v)) by (nonlinear_arith)
        requires
            dn * u == dd * x,
    ;
    assert((en * dd) * (u * v) <= (y * u) * (dd * ed)) by (nonlinear_arith)
        requires
            en * v <= ed * y,
            dd > 0,
            u > 0,
    {
        assert((en * v) * (dd * u) <= (ed * y) * (dd * u)) by (nonlinear_arith)
            requires
                en * v <= ed * y,
                dd > 0,
                u > 0,
        ;
        assert((en * v) * (dd * u) == (en * dd) * (u * v));
        assert((ed * y) * (dd * u) == (y * u) * (dd * ed));
    }
    let (w, z) = (dd * ed, u * v);
    assert(w > 0 && z > 0) by (nonlinear_arith)
        requires
            w == dd * ed,
            z == u * v,
            dd > 0,
            ed > 0,
            u > 0,
            v > 0,
    ;
    let (l, r) = (dn * ed, en * dd);
    assert(l * z <= r * z) by (nonlinear_arith)
        requires
            l <= r,
            z > 0,
    ;
    let (xs, ys) = (x * v, y * u);
    assert(xs <= ys) by (nonlinear_arith)
        requires
            xs * w <= ys * w,
            w > 0,
    ;
    if d.below(e) {
        assert(l * z < r * z) by (nonlinear_arith)
            requires
                l < r,
                z > 0,
        ;
        assert(xs < ys) by (nonlinear_arith)
            requires
                xs * w < ys * w,
                w > 0,
        ;
    }
}

/// A distance is within a limit exactly where it is that of a point within the limit.
pub proof fn lemma_within(
    d: Fraction,
    limit: int,
    p: [i32; 2],
    a: [i32; 2],
    b: [i32; 2],
    k: int,
    m: int,
)
    requires
        d.valid(),
        m > 0,
    ensures
        is_the_distance(d, p, a, b, k, m) ==> (d.at_most(limit) <==> offset_squared(p, a, b, k, m)
            <= limit * (m * m)),
        no_farther(d, p, a, b, k, m) && offset_squared(p, a, b, k, m) <= limit * (m * m)
            ==> d.at_most(limit),
{
    let (x, u, n, e) = (offset_squared(p, a, b, k, m), m * m, d.num, d.den);
    assert(u > 0) by (nonlinear_arith)
        requires
            u == m * m,
            m > 0,
    ;
    if n * u <= e * x && x <= limit * u {
        assert(n <= limit * e) by (nonlinear_arith)
            requires
                n * u <= e * x,
                x <= limit * u,
                e > 0,
                u > 0,
        {
            assert(e * x <= e * (limit * u));
            assert(e * (limit * u) == (limit * e) * u);
            assert(n * u <= (limit * e) * u);
        }
    }
    if n * u == e * x && n <= limit * e {
        assert(x <= limit * u) by (nonlinear_arith)
            requires
                n * u == e * x,
                n <= limit * e,
                e > 0,
                u > 0,
        {
            assert(n * u <= (limit * e) * u);
            assert((limit * e) * u == e * (limit * u));
            assert(e * x <= e * (limit * u));
        }
    }
}

} // verus!
