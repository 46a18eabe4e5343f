//! When the march around a cloud closes: whenever the cloud spans an area,
//! and never otherwise.

use vstd::prelude::*;
use crate::geometry::{cross_spec, Point};
use crate::hull::{
    advances, closes_at, corner_after, has_hull, heading, hull_spec, hull_turn, is_hull_of,
    lemma_edge_covers_cloud, lemma_hull_advances, lemma_hull_corners_differ,
    lemma_hull_exists, lemma_hull_from_cloud, lemma_march_fans, lemma_scan_covers,
    lemma_scan_stuck, lemma_start_exists, march, next_index, turns_right, wrap_next_spec,
};
use crate::planar::{
    behind, covers, inner, lemma_behind_not_opposite, lemma_lagrange, lemma_norm2_zero,
    lemma_parallel_to_base, lemma_product_sign, lemma_shared_target, lemma_wedge_flip,
    lemma_wedge_in_base, lemma_wedge_linear, norm2, wedge,
};

verus! {

/// All points of the cloud lie on one line: no three of them span a
/// triangle.
pub open spec fn on_one_line(points: Seq<Point>) -> bool {
    forall|i: int, j: int, k: int|
        0 <= i < points.len() && 0 <= j < points.len() && 0 <= k < points.len()
            ==> #[trigger] cross_spec(points[i], points[j], points[k]) == 0
}

/// A cloud whose points all lie on the line through two different points
/// `a` and `b` lies on one line.
pub proof fn lemma_line_through(points: Seq<Point>, a: Point, b: Point)
    requires
        a != b,
        forall|j: int| 0 <= j < points.len() ==> cross_spec(a, b, #[trigger] points[j]) == 0,
    ensures
        on_one_line(points),
{
    let ux = b.x - a.x;
    let uy = b.y - a.y;
    lemma_norm2_zero(ux, uy);
    assert forall|i: int, j: int, k: int|
        0 <= i < points.len() && 0 <= j < points.len() && 0 <= k < points.len()
        implies #[trigger] cross_spec(points[i], points[j], points[k]) == 0 by {
        let p = points[i];
        let q = points[j];
        let r = points[k];
        assert(cross_spec(a, b, p) == 0);
        assert(cross_spec(a, b, q) == 0);
        assert(cross_spec(a, b, r) == 0);
        assert(wedge(ux, uy, q.x - p.x, q.y - p.y) == wedge(ux, uy, q.x - a.x, q.y - a.y) - wedge(
            ux,
            uy,
            p.x - a.x,
            p.y - a.y,
        )) by (nonlinear_arith);
        assert(wedge(ux, uy, r.x - p.x, r.y - p.y) == wedge(ux, uy, r.x - a.x, r.y - a.y) - wedge(
            ux,
            uy,
            p.x - a.x,
            p.y - a.y,
        )) by (nonlinear_arith);
        lemma_parallel_to_base(ux, uy, q.x - p.x, q.y - p.y, r.x - p.x, r.y - p.y);
    }
}

/// Around a cloud that spans an area, the march moves at every step.
pub proof fn lemma_march_moves(points: Seq<Point>, k: nat)
    requires
        points.len() > 0,
        !on_one_line(points),
    ensures
        advances(points, k),
{
    assert forall|j: nat| j < k implies #[trigger] march(points, j + 1) != march(points, j) by {
        let c = march(points, j);
        if march(points, j + 1) == c {
            lemma_scan_stuck(points, c, points.len());
            assert forall|i1: int, i2: int, i3: int|
                0 <= i1 < points.len() && 0 <= i2 < points.len() && 0 <= i3 < points.len()
                implies #[trigger] cross_spec(points[i1], points[i2], points[i3]) == 0 by {
                lemma_wedge_flip(0, 0, 0, 0);
            }
        }
    }
}

/// Two corners of the march from which it steps to the same point are the
/// same corner.
pub proof fn lemma_one_way_in(points: Seq<Point>, i: nat, j: nat)
    requires
        points.len() > 0,
        !on_one_line(points),
        march(points, i + 1) == march(points, j + 1),
    ensures
        march(points, i) == march(points, j),
{
    let n = points.len();
    let a = march(points, i);
    let b = march(points, j);
    let c = march(points, i + 1);
    lemma_start_exists(points);
    lemma_march_moves(points, i + 1);
    lemma_march_moves(points, j + 1);
    assert(advances(points, i)) by {
        lemma_march_moves(points, i);
    }
    assert(advances(points, j)) by {
        lemma_march_moves(points, j);
    }
    lemma_march_fans(points, i);
    lemma_march_fans(points, j);
    lemma_march_fans(points, i + 1);
    let (hix, hiy) = heading(points, i);
    let (hjx, hjy) = heading(points, j);
    lemma_scan_covers(points, a, hix, hiy, n);
    lemma_scan_covers(points, b, hjx, hjy, n);
    assert(c == wrap_next_spec(points, a));
    assert(c == wrap_next_spec(points, b));
    let ia = choose|k: int| 0 <= k < n && points[k] == a;
    let ib = choose|k: int| 0 <= k < n && points[k] == b;
    let ic = choose|k: int| 0 <= k < n && points[k] == c;
    let ux = c.x - a.x;
    let uy = c.y - a.y;
    let vx = b.x - a.x;
    let vy = b.y - a.y;
    // from `a` the step to `c` covers `b`; from `b` the step to `c` covers `a`
    assert(covers(ux, uy, points[ib].x - a.x, points[ib].y - a.y));
    assert(covers(c.x - b.x, c.y - b.y, points[ia].x - b.x, points[ia].y - b.y));
    assert(march(points, i + 1) != march(points, i));
    lemma_norm2_zero(ux, uy);
    lemma_shared_target(ux, uy, vx, vy);
    lemma_wedge_linear(ux, uy, vx, vy);
    lemma_wedge_flip(ux, uy, vx, vy);
    let q = inner(ux, uy, vx, vy);
    if q > 0 {
        // seen from `b`, `a` and `c` lie in opposite directions
        assert(behind(hjx, hjy, points[ia].x - b.x, points[ia].y - b.y));
        assert(behind(hjx, hjy, points[ic].x - b.x, points[ic].y - b.y));
        lemma_behind_not_opposite(hjx, hjy, -vx, -vy, ux - vx, uy - vy);
    } else if q < 0 {
        // seen from `a`, `b` and `c` lie in opposite directions
        assert(behind(hix, hiy, points[ib].x - a.x, points[ib].y - a.y));
        assert(behind(hix, hiy, points[ic].x - a.x, points[ic].y - a.y));
        lemma_behind_not_opposite(hix, hiy, vx, vy, ux, uy);
    }
}

/// A march that stands on the same point after `i` and after `j` steps was
/// back at its start after `j - i` steps.
pub proof fn lemma_rewind(points: Seq<Point>, i: nat, j: nat)
    requires
        points.len() > 0,
        !on_one_line(points),
        i <= j,
        march(points, i) == march(points, j),
    ensures
        march(points, (j - i) as nat) == march(points, 0),
    decreases i,
{
    if i > 0 {
        lemma_one_way_in(points, (i - 1) as nat, (j - 1) as nat);
        lemma_rewind(points, (i - 1) as nat, (j - 1) as nat);
    }
}

/// Of `n + 1` numbers below `n`, two are the same.
pub proof fn lemma_pigeonhole(places: Seq<int>, n: nat) -> (pair: (int, int))
    requires
        places.len() == n + 1,
        forall|k: int| 0 <= k <= n ==> 0 <= #[trigger] places[k] < n,
    ensures
        0 <= pair.0 < pair.1 <= n,
        places[pair.0] == places[pair.1],
    decreases n,
{
    if n == 0 {
        let first = places[0];
        assert(0 <= first < n);
        (0, 0)
    } else {
        let last = places[n as int];
        if exists|k: int| 0 <= k < n && places[k] == last {
            let k = choose|k: int| 0 <= k < n && places[k] == last;
            (k, n as int)
        } else {
            let squeezed = Seq::new(
                n,
                |k: int| if places[k] > last { places[k] - 1 } else { places[k] },
            );
            assert forall|k: int| 0 <= k <= n - 1 implies 0 <= #[trigger] squeezed[k] < n - 1 by {
                assert(places[k] != last);
                assert(0 <= places[k] < n);
            }
            let (p, q) = lemma_pigeonhole(squeezed, (n - 1) as nat);
            assert(places[p] != last && places[q] != last);
            (p, q)
        }
    }
}

/// The place in the cloud of the point on which the march stands after
/// each of its first steps.
spec fn march_places(points: Seq<Point>, count: nat) -> Seq<int> {
    Seq::new(count, |k: int| choose|i: int| 0 <= i < points.len() && points[i] == march(points, k as nat))
}

/// Around a cloud that spans an area, the march is back at its start within
/// as many steps as the cloud has points.
pub proof fn lemma_march_returns(points: Seq<Point>) -> (m: nat)
    requires
        points.len() > 0,
        !on_one_line(points),
    ensures
        1 <= m <= points.len(),
        march(points, m) == march(points, 0),
{
    let n = points.len();
    lemma_start_exists(points);
    let places = march_places(points, n + 1);
    assert forall|k: int| 0 <= k <= n implies 0 <= #[trigger] places[k] < n && points[places[k]]
        == march(points, k as nat) by {
        lemma_march_moves(points, k as nat);
        lemma_march_fans(points, k as nat);
    }
    let (i, j) = lemma_pigeonhole(places, n);
    assert(points[places[i]] == march(points, i as nat));
    assert(points[places[j]] == march(points, j as nat));
    lemma_rewind(points, i as nat, j as nat);
    (j - i) as nat
}

/// A march that is back at its start after `m` steps closes after `m`
/// steps or sooner.
pub proof fn lemma_first_return(points: Seq<Point>, m: nat) -> (k: nat)
    requires
        m >= 1,
        march(points, m) == march(points, 0),
    ensures
        1 <= k <= m,
        closes_at(points, k),
    decreases m,
{
    if forall|j: nat| 0 < j < m ==> #[trigger] march(points, j) != march(points, 0) {
        m
    } else {
        let j = choose|j: nat| 0 < j < m && #[trigger] march(points, j) == march(points, 0);
        lemma_first_return(points, j)
    }
}

/// A march that closes after two steps has gone there and back along a
/// line on which the whole cloud lies.
pub proof fn lemma_there_and_back(points: Seq<Point>)
    requires
        points.len() > 0,
        march(points, 1) != march(points, 0),
        march(points, 2) == march(points, 0),
    ensures
        on_one_line(points),
{
    let n = points.len();
    let a = march(points, 0);
    let b = march(points, 1);
    lemma_start_exists(points);
    assert(advances(points, 1)) by {
        assert forall|j: nat| j < 1 implies #[trigger] march(points, j + 1) != march(points, j) by {
            assert(j == 0);
        }
    }
    assert(advances(points, 0));
    lemma_march_fans(points, 0);
    lemma_march_fans(points, 1);
    let (h0x, h0y) = heading(points, 0);
    let (h1x, h1y) = heading(points, 1);
    lemma_scan_covers(points, a, h0x, h0y, n);
    lemma_scan_covers(points, b, h1x, h1y, n);
    assert(march(points, 2) == wrap_next_spec(points, march(points, 1)));
    assert forall|j: int| 0 <= j < n implies cross_spec(a, b, #[trigger] points[j]) == 0 by {
        let p = points[j];
        assert(covers(b.x - a.x, b.y - a.y, p.x - a.x, p.y - a.y));
        assert(covers(a.x - b.x, a.y - b.y, p.x - b.x, p.y - b.y));
        let ux = b.x - a.x;
        let uy = b.y - a.y;
        let vx = p.x - a.x;
        let vy = p.y - a.y;
        assert(wedge(-ux, -uy, vx - ux, vy - uy) == -wedge(ux, uy, vx, vy)) by (nonlinear_arith);
    }
    lemma_line_through(points, a, b);
}

/// Around a cloud that spans an area, the march closes: it is back at its
/// start, for the first time, after at least three steps and at most as
/// many as the cloud has points.
pub proof fn lemma_march_closes(points: Seq<Point>)
    requires
        !on_one_line(points),
    ensures
        points.len() >= 3,
        has_hull(points),
{
    if points.len() == 0 {
        assert(on_one_line(points));
    }
    let m = lemma_march_returns(points);
    let k = lemma_first_return(points, m);
    lemma_march_moves(points, 1);
    assert(march(points, 0 + 1) != march(points, 0));
    if k == 2 {
        lemma_there_and_back(points);
    }
    assert(closes_at(points, k));
}

/// A cloud round which the march closes spans an area.
pub proof fn lemma_hull_spans_area(points: Seq<Point>, hull: Seq<Point>)
    requires
        is_hull_of(points, hull),
    ensures
        !on_one_line(points),
{
    if on_one_line(points) {
        let n = points.len();
        lemma_start_exists(points);
        lemma_hull_advances(points, hull);
        lemma_hull_from_cloud(points, hull);
        lemma_hull_corners_differ(points, hull);
        lemma_edge_covers_cloud(points, hull, 0);
        lemma_edge_covers_cloud(points, hull, 1);
        let a = hull[0];
        let b = hull[1];
        let c = hull[2];
        assert(points.contains(hull[0]));
        assert(points.contains(hull[1]));
        assert(points.contains(hull[2]));
        let ia = choose|k: int| 0 <= k < n && points[k] == a;
        let ib = choose|k: int| 0 <= k < n && points[k] == b;
        let ic = choose|k: int| 0 <= k < n && points[k] == c;
        assert(cross_spec(points[ia], points[ib], points[ic]) == 0);
        let ux = b.x - a.x;
        let uy = b.y - a.y;
        let wx = c.x - b.x;
        let wy = c.y - b.y;
        // seen from the start, the third corner lies against the second
        assert(advances(points, 0));
        assert(advances(points, 1)) by {
            assert forall|j: nat| j < 1 implies #[trigger] march(points, j + 1) != march(
                points,
                j,
            ) by {
                assert(j < hull.len());
            }
        }
        lemma_march_fans(points, 0);
        lemma_march_fans(points, 1);
        let (h0x, h0y) = heading(points, 0);
        assert(heading(points, 1) == (ux, uy));
        assert(behind(ux, uy, points[ic].x - b.x, points[ic].y - b.y));
        assert(behind(h0x, h0y, points[ib].x - a.x, points[ib].y - a.y));
        assert(behind(h0x, h0y, points[ic].x - a.x, points[ic].y - a.y));
        // from the second corner the step to the third covers the start
        assert(covers(wx, wy, points[ia].x - b.x, points[ia].y - b.y));
        lemma_wedge_linear(ux, uy, wx, wy);
        assert(wedge(ux, uy, wx, wy) == 0);
        lemma_wedge_flip(ux, uy, wx, wy);
        assert(wedge(wx, wy, -ux, -uy) == wedge(ux, uy, wx, wy)) by (nonlinear_arith);
        assert(norm2(-ux, -uy) == norm2(ux, uy)) by (nonlinear_arith);
        lemma_lagrange(ux, uy, wx, wy);
        lemma_norm2_zero(ux, uy);
        lemma_norm2_zero(wx, wy);
        lemma_norm2_zero(ux + wx, uy + wy);
        let q = inner(ux, uy, wx, wy);
        let big = norm2(wx, wy);
        let small = norm2(ux, uy);
        lemma_product_sign(wedge(ux, uy, wx, wy), wedge(ux, uy, wx, wy));
        assert(q * q == small * big);
        assert(q <= 0);
        assert(small + q <= 0) by (nonlinear_arith)
            requires
                q * q == small * big,
                q <= 0,
                0 < small <= big,
        ;
        let s = inner(ux, uy, ux + wx, uy + wy);
        assert(s == small + q);
        lemma_behind_not_opposite(h0x, h0y, ux, uy, ux + wx, uy + wy);
        assert(s == 0);
        // the third corner is then the start itself
        lemma_lagrange(ux, uy, ux + wx, uy + wy);
        lemma_product_sign(s, s);
        lemma_product_sign(
            wedge(ux, uy, ux + wx, uy + wy),
            wedge(ux, uy, ux + wx, uy + wy),
        );
        lemma_product_sign(small, norm2(ux + wx, uy + wy));
        assert(c == a);
    }
}

/// Every corner of the hull is a true corner, at which the march turns to
/// the right and does not merely go straight on or back. The cross product
/// of the edge that arrives with the edge that leaves is negative at every
/// corner, the corners across the closing edge included.
pub proof fn lemma_hull_strictly_convex(points: Seq<Point>, hull: Seq<Point>)
    requires
        is_hull_of(points, hull),
    ensures
        turns_right(hull),
{
    let n = points.len();
    let len = hull.len();
    lemma_start_exists(points);
    lemma_hull_advances(points, hull);
    lemma_hull_from_cloud(points, hull);
    lemma_hull_spans_area(points, hull);
    assert forall|i: int| 0 <= i < len implies #[trigger] hull_turn(hull, i) < 0 by {
        let a = march(points, i as nat);
        let b = march(points, (i + 1) as nat);
        let c = march(points, (i + 2) as nat);
        lemma_edge_covers_cloud(points, hull, i);
        let i1 = next_index(len as int, i);
        lemma_edge_covers_cloud(points, hull, i1);
        assert(hull[i] == a);
        assert(corner_after(hull, i) == b);
        assert(c == wrap_next_spec(points, b));
        if i + 1 == len {
            assert(b == march(points, 0));
            assert(march(points, 1) == wrap_next_spec(points, march(points, 0)));
        }
        assert(corner_after(hull, i1) == c);
        let ux = b.x - a.x;
        let uy = b.y - a.y;
        let wx = c.x - b.x;
        let wy = c.y - b.y;
        assert(hull_turn(hull, i) == wedge(ux, uy, wx, wy));
        lemma_march_moves(points, (i + 2) as nat);
        lemma_march_fans(points, (i + 1) as nat);
        assert(heading(points, (i + 1) as nat) == (ux, uy));
        lemma_scan_covers(points, b, ux, uy, n);
        assert(march(points, ((i + 1) as nat) + 1) != march(points, (i + 1) as nat));
        assert(march(points, (i as nat) + 1) != march(points, i as nat));
        lemma_norm2_zero(ux, uy);
        lemma_norm2_zero(wx, wy);
        let ic = choose|k: int| 0 <= k < n && points[k] == c;
        assert(points.contains(c)) by {
            lemma_march_fans(points, (i + 2) as nat);
        }
        assert(behind(ux, uy, points[ic].x - b.x, points[ic].y - b.y));
        assert(wedge(ux, uy, wx, wy) <= 0);
        if wedge(ux, uy, wx, wy) == 0 {
            let q = inner(ux, uy, wx, wy);
            lemma_lagrange(ux, uy, wx, wy);
            lemma_product_sign(q, q);
            lemma_product_sign(wedge(ux, uy, wx, wy), wedge(ux, uy, wx, wy));
            lemma_product_sign(norm2(ux, uy), norm2(wx, wy));
            assert(q < 0);
            assert forall|j: int| 0 <= j < n implies cross_spec(a, b, #[trigger] points[j])
                == 0 by {
                let p = points[j];
                let px = p.x - b.x;
                let py = p.y - b.y;
                assert(behind(ux, uy, px, py));
                assert(covers(wx, wy, px, py));
                lemma_wedge_in_base(ux, uy, wx, wy, px, py);
                lemma_product_sign(q, wedge(ux, uy, px, py));
                lemma_product_sign(wedge(ux, uy, wx, wy), inner(ux, uy, px, py));
                lemma_product_sign(norm2(ux, uy), wedge(wx, wy, px, py));
                assert(wedge(ux, uy, px, py) == 0);
                lemma_wedge_linear(ux, uy, px, py);
            }
            lemma_line_through(points, a, b);
        }
    }
}

/// The march closes round exactly the clouds that span an area.
pub proof fn lemma_hull_iff_area(points: Seq<Point>)
    ensures
        has_hull(points) <==> !on_one_line(points),
{
    if has_hull(points) {
        lemma_hull_exists(points);
        lemma_hull_spans_area(points, hull_spec(points));
    }
    if !on_one_line(points) {
        lemma_march_closes(points);
    }
}

} // verus!
