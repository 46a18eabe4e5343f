//! Sign algebra of plane vectors with integer components.
//!
//! Everything the hull march needs to know about "left of", "right of" and
//! "farther along the same ray" is derived here from a few polynomial
//! identities, so that callers never reason about products themselves.

use vstd::prelude::*;

verus! {

/// The z-component of the cross product of `(ax, ay)` and `(bx, by)`:
/// positive when `b` points to the left of `a`.
pub open spec fn wedge(ax: int, ay: int, bx: int, by: int) -> int {
    ax * by - ay * bx
}

/// The dot product of `(ax, ay)` and `(bx, by)`.
pub open spec fn inner(ax: int, ay: int, bx: int, by: int) -> int {
    ax * bx + ay * by
}

/// The squared length of `(ax, ay)`.
pub open spec fn norm2(ax: int, ay: int) -> int {
    ax * ax + ay * ay
}

/// `v` is nowhere to the left of `w`, and where it points along `w` it does
/// not reach farther.
pub open spec fn covers(wx: int, wy: int, vx: int, vy: int) -> bool {
    &&& wedge(wx, wy, vx, vy) <= 0
    &&& (wedge(wx, wy, vx, vy) == 0 ==> norm2(vx, vy) <= norm2(wx, wy))
}

/// `v` lies in the half plane to the right of the direction `d`, the ray
/// along `d` itself left out: on the line through `d` it points backwards or
/// vanishes.
pub open spec fn behind(dx: int, dy: int, vx: int, vy: int) -> bool {
    &&& wedge(dx, dy, vx, vy) <= 0
    &&& (wedge(dx, dy, vx, vy) == 0 ==> inner(dx, dy, vx, vy) <= 0)
}

/// Only the zero vector has no length.
pub proof fn lemma_norm2_zero(ax: int, ay: int)
    by (nonlinear_arith)
    ensures
        norm2(ax, ay) >= 0,
        norm2(ax, ay) == 0 <==> (ax == 0 && ay == 0),
{
}

/// Product of two differences of atoms, multiplied out.
proof fn lemma_diff_times_diff(a: int, b: int, c: int, d: int)
    by (nonlinear_arith)
    ensures
        (a - b) * (c - d) == a * c - a * d - b * c + b * d,
{
}

/// Product of two sums of atoms, multiplied out.
proof fn lemma_sum_times_sum(a: int, b: int, c: int, d: int)
    by (nonlinear_arith)
    ensures
        (a + b) * (c + d) == a * c + a * d + b * c + b * d,
{
}

/// Product of a sum and a difference of atoms, multiplied out.
proof fn lemma_sum_times_diff(a: int, b: int, c: int, d: int)
    by (nonlinear_arith)
    ensures
        (a + b) * (c - d) == a * c - a * d + b * c - b * d,
{
}

/// Product of a difference and a sum of atoms, multiplied out.
proof fn lemma_diff_times_sum(a: int, b: int, c: int, d: int)
    by (nonlinear_arith)
    ensures
        (a - b) * (c + d) == a * c + a * d - b * c - b * d,
{
}

/// The factors of a product of two products may be paired the other way.
proof fn lemma_swap_inner(a: int, b: int, c: int, d: int)
    by (nonlinear_arith)
    ensures
        (a * b) * (c * d) == (a * c) * (b * d),
        (a * b) * (c * d) == (a * d) * (b * c),
        (a * b) * (c * d) == (c * b) * (a * d),
        (a * b) * (c * d) == (d * b) * (c * a),
{
}

/// Three-term exchange identity for the cross products of four vectors.
pub proof fn lemma_exchange(
    dx: int, dy: int, wx: int, wy: int, px: int, py: int, vx: int, vy: int,
)
    ensures
        wedge(dx, dy, wx, wy) * wedge(px, py, vx, vy)
            == wedge(dx, dy, px, py) * wedge(wx, wy, vx, vy)
            - wedge(dx, dy, vx, vy) * wedge(wx, wy, px, py),
{
    lemma_diff_times_diff(dx * wy, dy * wx, px * vy, py * vx);
    lemma_diff_times_diff(dx * py, dy * px, wx * vy, wy * vx);
    lemma_diff_times_diff(dx * vy, dy * vx, wx * py, wy * px);
    // the two terms that cancel
    lemma_swap_inner(dx, py, wx, vy);
    lemma_swap_inner(dy, px, wy, vx);
    // the four terms that survive
    lemma_swap_inner(dx, wy, px, vy);
    lemma_swap_inner(dx, wy, py, vx);
    lemma_swap_inner(dy, wx, px, vy);
    lemma_swap_inner(dy, wx, py, vx);
    lemma_swap_inner(dx, py, wy, vx);
    lemma_swap_inner(dy, px, wx, vy);
    lemma_swap_inner(dx, vy, wy, px);
    lemma_swap_inner(dy, vx, wx, py);
    lemma_swap_inner(dx, vy, wx, py);
    lemma_swap_inner(dy, vx, wy, px);
}

/// The cross product of `u` and `v`, resolved along and across a base `b`.
pub proof fn lemma_wedge_in_base(bx: int, by: int, ux: int, uy: int, vx: int, vy: int)
    ensures
        norm2(bx, by) * wedge(ux, uy, vx, vy)
            == inner(bx, by, ux, uy) * wedge(bx, by, vx, vy)
            - wedge(bx, by, ux, uy) * inner(bx, by, vx, vy),
{
    lemma_sum_times_diff(bx * bx, by * by, ux * vy, uy * vx);
    lemma_sum_times_diff(bx * ux, by * uy, bx * vy, by * vx);
    lemma_diff_times_sum(bx * uy, by * ux, bx * vx, by * vy);
    lemma_swap_inner(bx, bx, ux, vy);
    lemma_swap_inner(bx, bx, uy, vx);
    lemma_swap_inner(by, by, ux, vy);
    lemma_swap_inner(by, by, uy, vx);
    lemma_swap_inner(bx, ux, by, vx);
    lemma_swap_inner(by, uy, bx, vy);
    lemma_swap_inner(bx, uy, by, vy);
    lemma_swap_inner(by, ux, bx, vx);
    lemma_swap_inner(bx, uy, bx, vx);
    lemma_swap_inner(by, ux, by, vy);
    lemma_swap_inner(bx, ux, bx, vy);
    lemma_swap_inner(by, uy, by, vx);
}

/// The dot product of `u` and `v`, resolved along and across a base `b`.
pub proof fn lemma_inner_in_base(bx: int, by: int, ux: int, uy: int, vx: int, vy: int)
    ensures
        norm2(bx, by) * inner(ux, uy, vx, vy)
            == inner(bx, by, ux, uy) * inner(bx, by, vx, vy)
            + wedge(bx, by, ux, uy) * wedge(bx, by, vx, vy),
{
    lemma_sum_times_sum(bx * bx, by * by, ux * vx, uy * vy);
    lemma_sum_times_sum(bx * ux, by * uy, bx * vx, by * vy);
    lemma_diff_times_diff(bx * uy, by * ux, bx * vy, by * vx);
    lemma_swap_inner(bx, bx, ux, vx);
    lemma_swap_inner(bx, bx, uy, vy);
    lemma_swap_inner(by, by, ux, vx);
    lemma_swap_inner(by, by, uy, vy);
    lemma_swap_inner(bx, ux, by, vy);
    lemma_swap_inner(by, uy, bx, vx);
    lemma_swap_inner(bx, uy, by, vx);
    lemma_swap_inner(by, ux, bx, vy);
    lemma_swap_inner(bx, ux, bx, vx);
    lemma_swap_inner(by, uy, by, vy);
    lemma_swap_inner(bx, uy, bx, vy);
    lemma_swap_inner(by, ux, by, vx);
}

/// Lagrange's identity: the squares of the dot and the cross product add up
/// to the product of the squared lengths.
pub proof fn lemma_lagrange(wx: int, wy: int, vx: int, vy: int)
    ensures
        inner(wx, wy, vx, vy) * inner(wx, wy, vx, vy)
            + wedge(wx, wy, vx, vy) * wedge(wx, wy, vx, vy)
            == norm2(wx, wy) * norm2(vx, vy),
{
    lemma_sum_times_sum(wx * vx, wy * vy, wx * vx, wy * vy);
    lemma_diff_times_diff(wx * vy, wy * vx, wx * vy, wy * vx);
    lemma_sum_times_sum(wx * wx, wy * wy, vx * vx, vy * vy);
    lemma_swap_inner(wx, vx, wx, vx);
    lemma_swap_inner(wy, vy, wy, vy);
    lemma_swap_inner(wx, vy, wx, vy);
    lemma_swap_inner(wy, vx, wy, vx);
    lemma_swap_inner(wx, vx, wy, vy);
    lemma_swap_inner(wx, vy, wy, vx);
    lemma_swap_inner(wx, wx, vx, vx);
    lemma_swap_inner(wx, wx, vy, vy);
    lemma_swap_inner(wy, wy, vx, vx);
    lemma_swap_inner(wy, wy, vy, vy);
}

/// How the signs of two factors decide the sign of their product.
pub proof fn lemma_product_sign(a: int, b: int)
    by (nonlinear_arith)
    ensures
        a * b == b * a,
        (a <= 0 && b <= 0) ==> a * b >= 0,
        (a >= 0 && b >= 0) ==> a * b >= 0,
        (a <= 0 && b >= 0) ==> a * b <= 0,
        (a >= 0 && b <= 0) ==> a * b <= 0,
        (a < 0 && b < 0) ==> a * b > 0,
        (a > 0 && b > 0) ==> a * b > 0,
        (a < 0 && b > 0) ==> a * b < 0,
        (a > 0 && b < 0) ==> a * b < 0,
        (a == 0 || b == 0) ==> a * b == 0,
{
}

/// Swapping the arguments of the cross product flips its sign; a vector
/// crossed with itself or with the zero vector gives zero.
pub proof fn lemma_wedge_flip(ax: int, ay: int, bx: int, by: int)
    by (nonlinear_arith)
    ensures
        wedge(bx, by, ax, ay) == -wedge(ax, ay, bx, by),
        wedge(ax, ay, ax, ay) == 0,
        wedge(ax, ay, 0, 0) == 0,
        wedge(0, 0, ax, ay) == 0,
        inner(bx, by, ax, ay) == inner(ax, ay, bx, by),
{
}

/// Among vectors behind a common direction `d`, turning the candidate `w`
/// to a vector `p` strictly to its left keeps everything covered that `w`
/// covered.
pub proof fn lemma_left_turn_keeps_cover(
    dx: int, dy: int, wx: int, wy: int, px: int, py: int, vx: int, vy: int,
)
    requires
        norm2(dx, dy) > 0,
        behind(dx, dy, wx, wy),
        behind(dx, dy, px, py),
        behind(dx, dy, vx, vy),
        wedge(wx, wy, px, py) > 0,
        covers(wx, wy, vx, vy),
    ensures
        covers(px, py, vx, vy),
{
    let a = wedge(dx, dy, wx, wy);
    let b = wedge(dx, dy, px, py);
    let c = wedge(dx, dy, vx, vy);
    let e = wedge(wx, wy, vx, vy);
    let f = wedge(wx, wy, px, py);
    let x = wedge(px, py, vx, vy);
    let dw = inner(dx, dy, wx, wy);
    let dp = inner(dx, dy, px, py);
    let dv = inner(dx, dy, vx, vy);
    let n = norm2(dx, dy);
    lemma_exchange(dx, dy, wx, wy, px, py, vx, vy);
    lemma_wedge_in_base(dx, dy, wx, wy, px, py);
    lemma_wedge_in_base(dx, dy, wx, wy, vx, vy);
    lemma_wedge_in_base(dx, dy, px, py, vx, vy);
    assert(a * x == b * e - c * f);
    assert(n * f == dw * b - a * dp);
    assert(n * e == dw * c - a * dv);
    assert(n * x == dp * c - b * dv);
    lemma_product_sign(b, e);
    lemma_product_sign(c, f);
    lemma_product_sign(a, x);
    lemma_product_sign(n, f);
    lemma_product_sign(n, e);
    lemma_product_sign(n, x);
    lemma_product_sign(dw, b);
    lemma_product_sign(a, dp);
    lemma_product_sign(dw, c);
    lemma_product_sign(a, dv);
    lemma_product_sign(dp, c);
    lemma_product_sign(b, dv);
    // first: `v` is not to the left of `p`, and lies on the line of `d`
    // whenever it lies on the line of `p`
    if a < 0 {
        assert(x <= 0);
        assert(x == 0 ==> c == 0);
    } else {
        assert(dw < 0 && b < 0);
        assert(c == 0);
        assert(x <= 0);
    }
    // second: on the line of `p`, `v` can only be the zero vector
    if x == 0 {
        assert(c == 0);
        if norm2(vx, vy) > 0 {
            let m = norm2(vx, vy);
            lemma_wedge_in_base(vx, vy, dx, dy, px, py);
            lemma_wedge_flip(vx, vy, px, py);
            lemma_wedge_flip(vx, vy, dx, dy);
            let vd = inner(vx, vy, dx, dy);
            let vp = inner(vx, vy, px, py);
            assert(m * b == vd * wedge(vx, vy, px, py) - wedge(vx, vy, dx, dy) * vp);
            lemma_product_sign(vd, wedge(vx, vy, px, py));
            lemma_product_sign(wedge(vx, vy, dx, dy), vp);
            lemma_product_sign(m, b);
            assert(b == 0);
            assert(dp <= 0);
            assert(false);
        }
        lemma_norm2_zero(vx, vy);
        lemma_norm2_zero(px, py);
    }
}

/// Among vectors behind a common direction `d`, moving the candidate `w`
/// to a longer vector `p` on its line keeps everything covered that `w`
/// covered.
pub proof fn lemma_farther_keeps_cover(
    dx: int, dy: int, wx: int, wy: int, px: int, py: int, vx: int, vy: int,
)
    requires
        norm2(dx, dy) > 0,
        behind(dx, dy, wx, wy),
        behind(dx, dy, px, py),
        wedge(wx, wy, px, py) == 0,
        norm2(px, py) > norm2(wx, wy),
        covers(wx, wy, vx, vy),
    ensures
        covers(px, py, vx, vy),
{
    lemma_norm2_zero(wx, wy);
    lemma_norm2_zero(vx, vy);
    lemma_norm2_zero(px, py);
    if norm2(wx, wy) == 0 {
        lemma_wedge_flip(wx, wy, vx, vy);
        assert(wedge(wx, wy, vx, vy) == 0);
        assert(vx == 0 && vy == 0);
        lemma_wedge_flip(px, py, vx, vy);
    } else {
        let m = norm2(wx, wy);
        let e = wedge(wx, wy, vx, vy);
        let x = wedge(px, py, vx, vy);
        let wp = inner(wx, wy, px, py);
        // `p` points the same way as `w`
        lemma_lagrange(wx, wy, px, py);
        lemma_product_sign(wp, wp);
        lemma_product_sign(m, norm2(px, py));
        lemma_product_sign(wedge(wx, wy, px, py), wedge(wx, wy, px, py));
        lemma_behind_not_opposite(dx, dy, wx, wy, px, py);
        assert(wp > 0);
        lemma_wedge_in_base(wx, wy, px, py, vx, vy);
        let wv = inner(wx, wy, vx, vy);
        assert(m * x == wp * e - wedge(wx, wy, px, py) * wv);
        lemma_product_sign(wp, e);
        lemma_product_sign(wedge(wx, wy, px, py), wv);
        lemma_product_sign(m, x);
        assert(x <= 0);
        assert(x == 0 ==> e == 0);
    }
}

/// Seen from the tip of `w`, whatever `w` covers lies behind `w`.
pub proof fn lemma_cover_seen_from_tip(wx: int, wy: int, vx: int, vy: int)
    requires
        covers(wx, wy, vx, vy),
    ensures
        behind(wx, wy, vx - wx, vy - wy),
{
    let m = norm2(wx, wy);
    let wv = inner(wx, wy, vx, vy);
    assert(wedge(wx, wy, vx - wx, vy - wy) == wedge(wx, wy, vx, vy)) by (nonlinear_arith);
    assert(inner(wx, wy, vx - wx, vy - wy) == inner(wx, wy, vx, vy) - norm2(wx, wy))
        by (nonlinear_arith);
    if wedge(wx, wy, vx, vy) == 0 {
        lemma_lagrange(wx, wy, vx, vy);
        lemma_norm2_zero(wx, wy);
        lemma_norm2_zero(vx, vy);
        let k = norm2(vx, vy);
        assert(wv * wv == m * k);
        assert(wv <= m) by (nonlinear_arith)
            requires
                wv * wv == m * k,
                0 <= k <= m,
        ;
    }
}

/// Two vectors behind a common direction do not point in opposite
/// directions along one line.
pub proof fn lemma_behind_not_opposite(dx: int, dy: int, xx: int, xy: int, yx: int, yy: int)
    requires
        norm2(dx, dy) > 0,
        behind(dx, dy, xx, xy),
        behind(dx, dy, yx, yy),
        wedge(xx, xy, yx, yy) == 0,
    ensures
        inner(xx, xy, yx, yy) >= 0,
{
    let n = norm2(dx, dy);
    let m = norm2(xx, xy);
    let a = wedge(dx, dy, xx, xy);
    let b = wedge(dx, dy, yx, yy);
    let q = inner(xx, xy, yx, yy);
    let dxx = inner(dx, dy, xx, xy);
    let dyy = inner(dx, dy, yx, yy);
    if q < 0 {
        lemma_norm2_zero(xx, xy);
        assert(m > 0) by {
            if xx == 0 && xy == 0 {
                assert(inner(0, 0, yx, yy) == 0) by (nonlinear_arith);
            }
        }
        lemma_wedge_in_base(xx, xy, dx, dy, yx, yy);
        lemma_wedge_flip(xx, xy, dx, dy);
        let xd = inner(xx, xy, dx, dy);
        assert(m * b == xd * wedge(xx, xy, yx, yy) - wedge(xx, xy, dx, dy) * q);
        lemma_product_sign(xd, wedge(xx, xy, yx, yy));
        lemma_product_sign(wedge(xx, xy, dx, dy), q);
        lemma_product_sign(m, b);
        assert(b == 0);
        assert(a == 0);
        lemma_inner_in_base(dx, dy, xx, xy, yx, yy);
        assert(n * q == dxx * dyy + a * b);
        lemma_product_sign(dxx, dyy);
        lemma_product_sign(a, b);
        lemma_product_sign(n, q);
        assert(false);
    }
}

/// Two vectors along a common line are along one line.
pub proof fn lemma_parallel_to_base(ux: int, uy: int, xx: int, xy: int, yx: int, yy: int)
    requires
        norm2(ux, uy) > 0,
        wedge(ux, uy, xx, xy) == 0,
        wedge(ux, uy, yx, yy) == 0,
    ensures
        wedge(xx, xy, yx, yy) == 0,
{
    lemma_wedge_in_base(ux, uy, xx, xy, yx, yy);
    lemma_product_sign(inner(ux, uy, xx, xy), wedge(ux, uy, yx, yy));
    lemma_product_sign(wedge(ux, uy, xx, xy), inner(ux, uy, yx, yy));
    lemma_product_sign(norm2(ux, uy), wedge(xx, xy, yx, yy));
}

/// The cross and dot products of sums and differences of vectors.
pub proof fn lemma_wedge_linear(ux: int, uy: int, vx: int, vy: int)
    by (nonlinear_arith)
    ensures
        wedge(ux - vx, uy - vy, -vx, -vy) == -wedge(ux, uy, vx, vy),
        wedge(-vx, -vy, ux - vx, uy - vy) == wedge(ux, uy, vx, vy),
        inner(-vx, -vy, ux - vx, uy - vy) == norm2(vx, vy) - inner(ux, uy, vx, vy),
        norm2(ux - vx, uy - vy) == norm2(ux, uy) - 2 * inner(ux, uy, vx, vy) + norm2(vx, vy),
        norm2(-vx, -vy) == norm2(vx, vy),
        wedge(ux, uy, ux + vx, uy + vy) == wedge(ux, uy, vx, vy),
        inner(ux, uy, ux + vx, uy + vy) == norm2(ux, uy) + inner(ux, uy, vx, vy),
{
}

/// Where the step `u` covers `v` and, seen from the tip of `v`, the rest of
/// the step covers the way back, `v` lies on the line of `u`, and: along
/// `u`, the way back and the rest of the step point in opposite
/// directions; against `u`, `v` and `u` do; across, `v` vanishes.
pub proof fn lemma_shared_target(ux: int, uy: int, vx: int, vy: int)
    requires
        norm2(ux, uy) > 0,
        covers(ux, uy, vx, vy),
        covers(ux - vx, uy - vy, -vx, -vy),
    ensures
        wedge(ux, uy, vx, vy) == 0,
        inner(ux, uy, vx, vy) > 0 ==> inner(-vx, -vy, ux - vx, uy - vy) < 0,
        inner(ux, uy, vx, vy) == 0 ==> vx == 0 && vy == 0,
{
    lemma_wedge_linear(ux, uy, vx, vy);
    lemma_lagrange(ux, uy, vx, vy);
    lemma_norm2_zero(vx, vy);
    let q = inner(ux, uy, vx, vy);
    let big = norm2(ux, uy);
    let small = norm2(vx, vy);
    lemma_product_sign(wedge(ux, uy, vx, vy), wedge(ux, uy, vx, vy));
    assert(q * q == big * small);
    if q > 0 {
        assert(small < q) by (nonlinear_arith)
            requires
                q * q == big * small,
                2 * q <= big,
                q > 0,
                small >= 0,
        ;
    }
    if q == 0 {
        lemma_product_sign(q, q);
        lemma_product_sign(big, small);
    }
}

/// Two steps from one place that each leave the other nowhere to their
/// left are the same step, where both lie behind a common direction, the
/// first covers the second, and the path that goes on from the tip of the
/// second turns right there and has the tip of the first nowhere to its
/// left.
pub proof fn lemma_same_step(
    hx: int, hy: int, wx: int, wy: int, ux: int, uy: int, ex: int, ey: int,
)
    requires
        norm2(hx, hy) > 0,
        norm2(ux, uy) > 0,
        norm2(wx, wy) > 0,
        behind(hx, hy, ux, uy),
        behind(hx, hy, wx, wy),
        covers(wx, wy, ux, uy),
        wedge(ux, uy, wx, wy) <= 0,
        wedge(ux, uy, ex, ey) < 0,
        wedge(ex, ey, wx - ux, wy - uy) <= 0,
    ensures
        ux == wx,
        uy == wy,
{
    lemma_wedge_flip(ux, uy, wx, wy);
    assert(wedge(ux, uy, wx, wy) == 0);
    // the two steps point the same way
    lemma_behind_not_opposite(hx, hy, ux, uy, wx, wy);
    let q = inner(ux, uy, wx, wy);
    let small = norm2(ux, uy);
    let big = norm2(wx, wy);
    lemma_lagrange(ux, uy, wx, wy);
    lemma_product_sign(wedge(ux, uy, wx, wy), wedge(ux, uy, wx, wy));
    assert(q * q == small * big);
    assert(small <= big);
    // the first is not the longer one
    if small < big {
        assert(q > small) by (nonlinear_arith)
            requires
                q * q == small * big,
                0 < small < big,
                q >= 0,
        ;
        assert(inner(ux, uy, wx - ux, wy - uy) == q - small) by (nonlinear_arith)
            requires
                q == inner(ux, uy, wx, wy),
                small == norm2(ux, uy),
        ;
        assert(wedge(ux, uy, wx - ux, wy - uy) == wedge(ux, uy, wx, wy)) by (nonlinear_arith);
        lemma_wedge_in_base(ux, uy, ex, ey, wx - ux, wy - uy);
        let ue = inner(ux, uy, ex, ey);
        let turn = wedge(ux, uy, ex, ey);
        lemma_product_sign(ue, wedge(ux, uy, wx - ux, wy - uy));
        lemma_product_sign(turn, q - small);
        lemma_product_sign(small, wedge(ex, ey, wx - ux, wy - uy));
        assert(false);
    }
    // equally long and along one ray, they are one
    assert(q == small) by (nonlinear_arith)
        requires
            q * q == small * small,
            q >= 0,
            small > 0,
    ;
    lemma_wedge_linear(wx, wy, ux, uy);
    assert(inner(wx, wy, ux, uy) == q) by (nonlinear_arith)
        requires
            q == inner(ux, uy, wx, wy),
    ;
    assert(norm2(wx - ux, wy - uy) == 0);
    lemma_norm2_zero(wx - ux, wy - uy);
}

} // verus!
