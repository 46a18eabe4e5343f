//! Points of the integer lattice and the exact quantities derived from them.
//!
//! Coordinates are 32 bits wide so that every product below fits in 128
//! bits: no function here has a range restriction on its points.

use vstd::prelude::*;
use crate::isqrt::{floor_sqrt, is_floor_sqrt, isqrt};
use crate::planar::{norm2, wedge};

verus! {

/// A position on the integer lattice.
#[derive(Clone, Copy, Debug, PartialEq, Eq, Structural)]
pub struct Point {
    pub x: i32,
    pub y: i32,
}

/// Twice the signed area of the triangle `o`, `a`, `b`: positive when `b`
/// lies to the left of the ray from `o` through `a`, negative when it lies
/// to the right, zero when the three are on one line.
pub open spec fn cross_spec(o: Point, a: Point, b: Point) -> int {
    wedge(a.x - o.x, a.y - o.y, b.x - o.x, b.y - o.y)
}

/// The squared Euclidean distance between `a` and `b`.
pub open spec fn dist2_spec(a: Point, b: Point) -> int {
    norm2(b.x - a.x, b.y - a.y)
}

/// The Euclidean distance between `a` and `b`, rounded down to whole
/// lattice steps.
pub open spec fn distance_spec(a: Point, b: Point) -> int {
    floor_sqrt(dist2_spec(a, b))
}

/// `value * num / den`, rounded towards zero.
pub open spec fn scale_spec(value: int, num: int, den: int) -> int {
    if value >= 0 {
        (value * num) / den
    } else {
        -(((-value) * num) / den)
    }
}

/// The point `num / den` of the way from `a` to `b`, each coordinate rounded
/// towards `a`; `a` itself when `den` is zero.
pub open spec fn interpolate_spec(a: Point, b: Point, num: int, den: int) -> Point {
    if den == 0 {
        a
    } else {
        Point {
            x: (a.x + scale_spec(b.x - a.x, num, den)) as i32,
            y: (a.y + scale_spec(b.y - a.y, num, den)) as i32,
        }
    }
}

/// The largest absolute difference of two coordinates.
pub open spec fn span() -> int {
    0xffff_ffff
}

/// A product of two coordinate differences stays below 2^64 in size.
pub proof fn lemma_span_product(a: int, b: int)
    by (nonlinear_arith)
    requires
        -span() <= a <= span(),
        -span() <= b <= span(),
    ensures
        -0xffff_fffe_0000_0001 <= a * b <= 0xffff_fffe_0000_0001,
{
}

/// A scaled difference is no longer than the difference and has its sign.
pub proof fn lemma_scale_bounds(value: int, num: int, den: int)
    requires
        0 <= num <= den,
        0 < den,
    ensures
        value >= 0 ==> 0 <= scale_spec(value, num, den) <= value,
        value <= 0 ==> value <= scale_spec(value, num, den) <= 0,
        num == den ==> scale_spec(value, num, den) == value,
        num == 0 ==> scale_spec(value, num, den) == 0,
{
    let m = if value >= 0 { value } else { -value };
    assert(0 <= (m * num) / den <= m) by (nonlinear_arith)
        requires
            0 <= m,
            0 <= num <= den,
            0 < den,
    ;
    assert(num == den ==> (m * num) / den == m) by (nonlinear_arith)
        requires
            0 <= m,
            0 < den,
    ;
    assert(num == 0 ==> (m * num) / den == 0) by (nonlinear_arith)
        requires
            0 < den,
    ;
}

/// `value * num / den`, rounded towards zero.
pub fn scale(value: i64, num: u64, den: u64) -> (r: i128)
    requires
        den > 0,
    ensures
        r == scale_spec(value as int, num as int, den as int),
{
    let wide: i128 = value as i128;
    let m: u128 = if wide >= 0 { wide as u128 } else { (-wide) as u128 };
    assert(0 <= m * num <= 0x8000_0000_0000_0000 * 0xffff_ffff_ffff_ffff) by (nonlinear_arith)
        requires
            0 <= m <= 0x8000_0000_0000_0000,
            0 <= num <= 0xffff_ffff_ffff_ffff,
    ;
    let product: u128 = m * (num as u128);
    let q: u128 = product / (den as u128);
    assert(q <= product) by (nonlinear_arith)
        requires
            q == product / (den as u128),
            den > 0,
    ;
    if wide >= 0 {
        q as i128
    } else {
        -(q as i128)
    }
}

/// Twice the signed area of the triangle `o`, `a`, `b`.
pub fn cross(o: &Point, a: &Point, b: &Point) -> (c: i128)
    ensures
        c == cross_spec(*o, *a, *b),
{
    let ax: i128 = a.x as i128 - o.x as i128;
    let ay: i128 = a.y as i128 - o.y as i128;
    let bx: i128 = b.x as i128 - o.x as i128;
    let by: i128 = b.y as i128 - o.y as i128;
    proof {
        lemma_span_product(ax as int, by as int);
        lemma_span_product(ay as int, bx as int);
    }
    ax * by - ay * bx
}

impl Point {
    /// The squared Euclidean distance to `other`, exact.
    pub fn distance_squared(&self, other: &Point) -> (d: u128)
        ensures
            d == dist2_spec(*self, *other),
    {
        let dx: i128 = other.x as i128 - self.x as i128;
        let dy: i128 = other.y as i128 - self.y as i128;
        proof {
            lemma_span_product(dx as int, dx as int);
            lemma_span_product(dy as int, dy as int);
            crate::planar::lemma_norm2_zero(dx as int, dy as int);
            assert(dx * dx >= 0) by (nonlinear_arith);
            assert(dy * dy >= 0) by (nonlinear_arith);
        }
        (dx * dx + dy * dy) as u128
    }

    /// The Euclidean distance to `other`, rounded down to whole lattice
    /// steps.
    pub fn distance(&self, other: &Point) -> (d: u64)
        ensures
            d == distance_spec(*self, *other),
            is_floor_sqrt(dist2_spec(*self, *other), d as int),
    {
        isqrt(self.distance_squared(other))
    }

    /// The point `num / den` of the way from here to `other`. Each
    /// coordinate is rounded towards this point, so the result never leaves
    /// the box spanned by the two. With `den` zero the ratio has no value
    /// and the result is this point.
    pub fn interpolate(&self, other: &Point, num: u64, den: u64) -> (p: Point)
        requires
            num <= den,
        ensures
            p == interpolate_spec(*self, *other, num as int, den as int),
            within_box(*self, *other, p),
            num == den && den > 0 ==> p == *other,
            num == 0 ==> p == *self,
            den > 0 ==> in_proportion(*self, *other, p, num as int, den as int),
    {
        if den == 0 {
            return *self;
        }
        proof {
            lemma_interpolate_in_proportion(*self, *other, num as int, den as int);
        }
        let dx: i64 = other.x as i64 - self.x as i64;
        let dy: i64 = other.y as i64 - self.y as i64;
        proof {
            lemma_scale_bounds(dx as int, num as int, den as int);
            lemma_scale_bounds(dy as int, num as int, den as int);
        }
        let sx: i128 = scale(dx, num, den);
        let sy: i128 = scale(dy, num, den);
        Point { x: (self.x as i128 + sx) as i32, y: (self.y as i128 + sy) as i32 }
    }
}

/// `p` lies in the axis-parallel box spanned by `a` and `b`.
pub open spec fn within_box(a: Point, b: Point, p: Point) -> bool {
    &&& (a.x <= p.x <= b.x || b.x <= p.x <= a.x)
    &&& (a.y <= p.y <= b.y || b.y <= p.y <= a.y)
}

/// The absolute value of `v`.
pub open spec fn magnitude(v: int) -> int {
    if v >= 0 {
        v
    } else {
        -v
    }
}

/// The square of a scaled difference is the square of its magnitude
/// scaled.
pub proof fn lemma_scale_square(value: int, num: int, den: int)
    requires
        0 <= num,
        0 < den,
    ensures
        scale_spec(value, num, den) * scale_spec(value, num, den) == ((magnitude(value) * num)
            / den) * ((magnitude(value) * num) / den),
        value * value == magnitude(value) * magnitude(value),
{
    let q = (magnitude(value) * num) / den;
    assert((-q) * (-q) == q * q) by (nonlinear_arith);
    assert((-value) * (-value) == value * value) by (nonlinear_arith);
}

/// The quotient `q` of `x * r` by `d`, rounded down, squared and scaled
/// back, brackets `x * r` squared.
pub proof fn lemma_quotient_square(x: int, r: int, d: int, q: int)
    by (nonlinear_arith)
    requires
        0 <= x,
        0 <= r,
        0 < d,
        q == (x * r) / d,
    ensures
        0 <= q,
        (q * q) * (d * d) <= (x * x) * (r * r),
        (x * x) * (r * r) < ((q + 1) * (q + 1)) * (d * d),
{
    assert(q * d <= x * r < (q + 1) * d);
    assert((q * d) * (q * d) <= (x * r) * (x * r));
    assert((x * r) * (x * r) < ((q + 1) * d) * ((q + 1) * d));
}

/// A point put `r` steps along the way from `a` to `b` is found again at
/// `r` steps from `a`, or up to two steps nearer: so much is lost where
/// its coordinates and the distance are rounded down.
pub proof fn lemma_interpolate_distance(a: Point, b: Point, r: int)
    requires
        0 <= r <= distance_spec(a, b),
    ensures
        r - 2 <= distance_spec(a, interpolate_spec(a, b, r, distance_spec(a, b))) <= r,
        within_box(a, b, interpolate_spec(a, b, r, distance_spec(a, b))),
{
    let d = distance_spec(a, b);
    let s = interpolate_spec(a, b, r, d);
    let tx = b.x - a.x;
    let ty = b.y - a.y;
    let t2 = dist2_spec(a, b);
    crate::planar::lemma_norm2_zero(tx, ty);
    crate::isqrt::lemma_floor_sqrt_exists(t2);
    if d == 0 {
        assert(s == a);
        crate::planar::lemma_norm2_zero(0, 0);
        crate::isqrt::lemma_floor_sqrt_is(0, 0);
    } else {
        lemma_scale_bounds(tx, r, d);
        lemma_scale_bounds(ty, r, d);
        let sx = scale_spec(tx, r, d);
        let sy = scale_spec(ty, r, d);
        assert(s.x - a.x == sx);
        assert(s.y - a.y == sy);
        let big = dist2_spec(a, s);
        crate::planar::lemma_norm2_zero(sx, sy);
        crate::isqrt::lemma_floor_sqrt_exists(big);
        let m = distance_spec(a, s);
        let x = magnitude(tx);
        let y = magnitude(ty);
        let qx = (x * r) / d;
        let qy = (y * r) / d;
        lemma_scale_square(tx, r, d);
        lemma_scale_square(ty, r, d);
        lemma_quotient_square(x, r, d, qx);
        lemma_quotient_square(y, r, d, qy);
        assert(big == qx * qx + qy * qy);
        assert(t2 == x * x + y * y);
        // not farther than `r`
        assert(big < (r + 1) * (r + 1)) by (nonlinear_arith)
            requires
                big == qx * qx + qy * qy,
                t2 == x * x + y * y,
                (qx * qx) * (d * d) <= (x * x) * (r * r),
                (qy * qy) * (d * d) <= (y * y) * (r * r),
                t2 < (d + 1) * (d + 1),
                0 <= r <= d,
                0 < d,
        {
            assert(big * (d * d) <= t2 * (r * r));
            assert(t2 * (r * r) <= ((d + 1) * (d + 1)) * (r * r));
            assert((d + 1) * r <= (r + 1) * d);
            assert(((d + 1) * r) * ((d + 1) * r) <= ((r + 1) * d) * ((r + 1) * d));
            assert(big * (d * d) < ((r + 1) * (r + 1)) * (d * d) || r == 0);
        }
        assert(m <= r) by (nonlinear_arith)
            requires
                m * m <= big,
                big < (r + 1) * (r + 1),
                0 <= m,
                0 <= r,
        ;
        // not nearer than `r - 2`
        assert(qx <= m && qy <= m) by (nonlinear_arith)
            requires
                big == qx * qx + qy * qy,
                big < (m + 1) * (m + 1),
                0 <= qx,
                0 <= qy,
                0 <= m,
        ;
        assert(r * r < (m + 3) * (m + 3)) by (nonlinear_arith)
            requires
                big == qx * qx + qy * qy,
                t2 == x * x + y * y,
                (x * x) * (r * r) < ((qx + 1) * (qx + 1)) * (d * d),
                (y * y) * (r * r) < ((qy + 1) * (qy + 1)) * (d * d),
                d * d <= t2,
                big < (m + 1) * (m + 1),
                0 <= qx <= m,
                0 <= qy <= m,
                0 <= r,
                0 < d,
        {
            assert(t2 * (r * r) < ((qx + 1) * (qx + 1) + (qy + 1) * (qy + 1)) * (d * d));
            assert((d * d) * (r * r) <= t2 * (r * r));
            assert(r * r < (qx + 1) * (qx + 1) + (qy + 1) * (qy + 1));
            assert((qx + 1) * (qx + 1) + (qy + 1) * (qy + 1) == big + 2 * qx + 2 * qy + 2);
        }
        assert(r < m + 3) by (nonlinear_arith)
            requires
                r * r < (m + 3) * (m + 3),
                0 <= r,
                0 <= m,
        ;
    }
}

/// What is lost where a scaled difference is rounded is less than the
/// divisor.
pub proof fn lemma_scale_remainder(value: int, num: int, den: int)
    requires
        0 <= num,
        0 < den,
    ensures
        magnitude(value * num - scale_spec(value, num, den) * den) < den,
{
    let x = magnitude(value) * num;
    assert(0 <= x) by (nonlinear_arith)
        requires
            x == magnitude(value) * num,
            0 <= magnitude(value),
            0 <= num,
    ;
    assert(0 <= x - (x / den) * den < den) by (nonlinear_arith)
        requires
            0 <= x,
            0 < den,
    ;
    if value >= 0 {
        assert(value * num == x);
    } else {
        assert(value * num == -x) by (nonlinear_arith)
            requires
                x == (-value) * num,
        ;
        assert((-(x / den)) * den == -((x / den) * den)) by (nonlinear_arith);
    }
}

/// The sum of the sizes of the two coordinates of the step from `a` to
/// `b`. It is less than one and a half times the length of the step.
pub open spec fn taxicab(a: Point, b: Point) -> int {
    magnitude(b.x - a.x) + magnitude(b.y - a.y)
}

/// A point put on the way from `p` to `b` strays from the line through `a`
/// and `b` by no more than `p` does and one lattice step in each
/// coordinate more: the signed area that it spans with `a` and `b` grows in
/// size by the sum of the sizes of the coordinates of the step from `a` to
/// `b` at most.
pub proof fn lemma_interpolate_drift(a: Point, b: Point, p: Point, r: int, bound: int)
    requires
        0 <= r <= distance_spec(p, b),
        magnitude(cross_spec(a, b, p)) <= bound,
    ensures
        magnitude(cross_spec(a, b, interpolate_spec(p, b, r, distance_spec(p, b)))) <= bound
            + taxicab(a, b),
{
    let d = distance_spec(p, b);
    let s = interpolate_spec(p, b, r, d);
    let tx = b.x - a.x;
    let ty = b.y - a.y;
    let c = taxicab(a, b);
    if d == 0 {
        assert(s == p);
    } else {
        let ux = b.x - p.x;
        let uy = b.y - p.y;
        lemma_scale_bounds(ux, r, d);
        lemma_scale_bounds(uy, r, d);
        let sx = scale_spec(ux, r, d);
        let sy = scale_spec(uy, r, d);
        assert(s.x - p.x == sx);
        assert(s.y - p.y == sy);
        lemma_scale_remainder(ux, r, d);
        lemma_scale_remainder(uy, r, d);
        let ex = ux * r - sx * d;
        let ey = uy * r - sy * d;
        let dp = cross_spec(a, b, p);
        let ds = cross_spec(a, b, s);
        let px = p.x - a.x;
        let py = p.y - a.y;
        assert(ds == dp + (tx * sy - ty * sx)) by (nonlinear_arith)
            requires
                ds == tx * (py + sy) - ty * (px + sx),
                dp == tx * py - ty * px,
        ;
        assert(tx * uy - ty * ux == -dp) by (nonlinear_arith)
            requires
                ux == tx - px,
                uy == ty - py,
                dp == tx * py - ty * px,
        ;
        let w = tx * ey - ty * ex;
        assert(tx * (sy * d) == tx * (uy * r) - tx * ey) by (nonlinear_arith)
            requires
                sy * d == uy * r - ey,
        ;
        assert(ty * (sx * d) == ty * (ux * r) - ty * ex) by (nonlinear_arith)
            requires
                sx * d == ux * r - ex,
        ;
        assert(d * (tx * sy - ty * sx) == tx * (sy * d) - ty * (sx * d)) by (nonlinear_arith);
        assert(r * (tx * uy - ty * ux) == tx * (uy * r) - ty * (ux * r)) by (nonlinear_arith);
        assert(d * (tx * sy - ty * sx) == r * (tx * uy - ty * ux) - w);
        assert(d * ds == (d - r) * dp - w) by (nonlinear_arith)
            requires
                ds == dp + (tx * sy - ty * sx),
                d * (tx * sy - ty * sx) == r * (tx * uy - ty * ux) - w,
                tx * uy - ty * ux == -dp,
        ;
        assert(-(c * d) <= w <= c * d) by (nonlinear_arith)
            requires
                w == tx * ey - ty * ex,
                -d < ex < d,
                -d < ey < d,
                c == magnitude(tx) + magnitude(ty),
                magnitude(tx) >= tx,
                magnitude(tx) >= -tx,
                magnitude(ty) >= ty,
                magnitude(ty) >= -ty,
                d > 0,
        {
            assert(-(magnitude(tx) * d) <= tx * ey <= magnitude(tx) * d);
            assert(-(magnitude(ty) * d) <= ty * ex <= magnitude(ty) * d);
        }
        assert(-(bound + c) <= ds <= bound + c) by (nonlinear_arith)
            requires
                d * ds == (d - r) * dp - w,
                -(c * d) <= w <= c * d,
                -bound <= dp <= bound,
                0 <= r <= d,
                d > 0,
                c >= 0,
        {
            assert(-(d * bound) <= (d - r) * dp <= d * bound);
            assert(d * ds <= d * (bound + c));
            assert(d * ds >= -(d * (bound + c)));
        }
    }
}

/// The sum of the sizes of the coordinates of a step is less than one and
/// a half times its length: its square is at most twice the square of the
/// length.
pub proof fn lemma_taxicab_bound(a: Point, b: Point)
    ensures
        0 <= taxicab(a, b),
        taxicab(a, b) * taxicab(a, b) <= 2 * dist2_spec(a, b),
{
    let x = magnitude(b.x - a.x);
    let y = magnitude(b.y - a.y);
    let tx = b.x - a.x;
    let ty = b.y - a.y;
    assert(x * x == tx * tx) by (nonlinear_arith)
        requires
            x == tx || x == -tx,
    ;
    assert(y * y == ty * ty) by (nonlinear_arith)
        requires
            y == ty || y == -ty,
    ;
    assert((x + y) * (x + y) <= 2 * (tx * tx + ty * ty)) by (nonlinear_arith)
        requires
            x * x == tx * tx,
            y * y == ty * ty,
    {
        assert((x - y) * (x - y) >= 0);
        assert((x + y) * (x + y) + (x - y) * (x - y) == 2 * (x * x) + 2 * (y * y));
    }
}

/// The distance of `p` from `a` is in the proportion `num` to `den` to the
/// distance of `b` from `a`, as far as rounding lets it be: `p` is no
/// farther than that share of the distance and one, and less than three
/// steps nearer than that share.
pub open spec fn in_proportion(a: Point, b: Point, p: Point, num: int, den: int) -> bool {
    &&& distance_spec(a, p) * den <= (distance_spec(a, b) + 1) * num
    &&& distance_spec(a, b) * num < (distance_spec(a, p) + 3) * den
}

/// A point put `num / den` of the way from `a` to `b` is found at that
/// share of the distance from `a`, as far as rounding lets it be.
pub proof fn lemma_interpolate_in_proportion(a: Point, b: Point, num: int, den: int)
    requires
        0 <= num <= den,
        0 < den,
    ensures
        in_proportion(a, b, interpolate_spec(a, b, num, den), num, den),
        within_box(a, b, interpolate_spec(a, b, num, den)),
{
    let d = distance_spec(a, b);
    let s = interpolate_spec(a, b, num, den);
    let tx = b.x - a.x;
    let ty = b.y - a.y;
    let t2 = dist2_spec(a, b);
    crate::planar::lemma_norm2_zero(tx, ty);
    crate::isqrt::lemma_floor_sqrt_exists(t2);
    lemma_scale_bounds(tx, num, den);
    lemma_scale_bounds(ty, num, den);
    let sx = scale_spec(tx, num, den);
    let sy = scale_spec(ty, num, den);
    assert(s.x - a.x == sx);
    assert(s.y - a.y == sy);
    let big = dist2_spec(a, s);
    crate::planar::lemma_norm2_zero(sx, sy);
    crate::isqrt::lemma_floor_sqrt_exists(big);
    let m = distance_spec(a, s);
    let x = magnitude(tx);
    let y = magnitude(ty);
    let qx = (x * num) / den;
    let qy = (y * num) / den;
    lemma_scale_square(tx, num, den);
    lemma_scale_square(ty, num, den);
    lemma_quotient_square(x, num, den, qx);
    lemma_quotient_square(y, num, den, qy);
    assert(big == qx * qx + qy * qy);
    assert(t2 == x * x + y * y);
    // no farther than the share and one
    assert((m * den) * (m * den) <= ((d + 1) * num) * ((d + 1) * num)) by (nonlinear_arith)
        requires
            big == qx * qx + qy * qy,
            t2 == x * x + y * y,
            (qx * qx) * (den * den) <= (x * x) * (num * num),
            (qy * qy) * (den * den) <= (y * y) * (num * num),
            t2 < (d + 1) * (d + 1),
            m * m <= big,
            0 <= num,
            0 < den,
    {
        assert(big * (den * den) <= t2 * (num * num));
        assert(t2 * (num * num) <= ((d + 1) * (d + 1)) * (num * num));
        assert((m * m) * (den * den) <= big * (den * den));
    }
    assert(m * den <= (d + 1) * num) by (nonlinear_arith)
        requires
            (m * den) * (m * den) <= ((d + 1) * num) * ((d + 1) * num),
            0 <= m,
            0 <= d,
            0 <= num,
            0 < den,
    ;
    // less than three steps nearer than the share
    assert(qx <= m && qy <= m) by (nonlinear_arith)
        requires
            big == qx * qx + qy * qy,
            big < (m + 1) * (m + 1),
            0 <= qx,
            0 <= qy,
            0 <= m,
    ;
    let n2 = num * num;
    let d2 = den * den;
    let ax = (qx + 1) * (qx + 1);
    let ay = (qy + 1) * (qy + 1);
    assert(0 <= n2 && 0 < d2) by (nonlinear_arith)
        requires
            n2 == num * num,
            d2 == den * den,
            0 < den,
    ;
    assert(t2 * n2 < (ax + ay) * d2) by (nonlinear_arith)
        requires
            t2 == x * x + y * y,
            (x * x) * n2 < ax * d2,
            (y * y) * n2 < ay * d2,
    ;
    assert((d * d) * n2 <= t2 * n2) by (nonlinear_arith)
        requires
            d * d <= t2,
            0 <= n2,
    ;
    assert(ax + ay < (m + 3) * (m + 3)) by (nonlinear_arith)
        requires
            ax == (qx + 1) * (qx + 1),
            ay == (qy + 1) * (qy + 1),
            big == qx * qx + qy * qy,
            big < (m + 1) * (m + 1),
            0 <= qx <= m,
            0 <= qy <= m,
    ;
    assert((ax + ay) * d2 <= ((m + 3) * (m + 3)) * d2) by (nonlinear_arith)
        requires
            ax + ay < (m + 3) * (m + 3),
            0 < d2,
    ;
    assert((d * num) * (d * num) == (d * d) * n2) by (nonlinear_arith)
        requires
            n2 == num * num,
    ;
    assert(((m + 3) * den) * ((m + 3) * den) == ((m + 3) * (m + 3)) * d2) by (nonlinear_arith)
        requires
            d2 == den * den,
    ;
    assert((d * num) * (d * num) < ((m + 3) * den) * ((m + 3) * den));
    assert(d * num < (m + 3) * den) by (nonlinear_arith)
        requires
            (d * num) * (d * num) < ((m + 3) * den) * ((m + 3) * den),
            0 <= m,
            0 <= d,
            0 <= num,
            0 < den,
    ;
}

} // verus!
