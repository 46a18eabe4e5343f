//! What the hull of a cloud is, said without the march that finds it.

use vstd::prelude::*;
use crate::closure::{
    lemma_hull_strictly_convex, lemma_march_closes, lemma_march_moves, on_one_line,
};
use crate::geometry::{cross_spec, Point};
use crate::hull::{
    closes_at, corner_after, encloses, heading, hull_len, hull_spec, hull_turn, is_hull_of,
    is_left_end, is_leftmost, is_start, lemma_closes_once, lemma_hull_corners_differ, lemma_hull_encloses_cloud,
    lemma_hull_exists, lemma_hull_from_cloud, lemma_hull_unique, lemma_march_fans,
    lemma_scan_covers, lemma_start_exists, lemma_start_unique, march, next_index, turns_right,
};
use crate::planar::{behind, covers, lemma_norm2_zero, lemma_same_step, lemma_wedge_linear, wedge};

verus! {

/// `hull` is the convex hull of `points`, its corners listed clockwise
/// from the start of the march on: a polygon of three or more corners, all
/// of them points of the cloud and no two the same, that turns right at
/// every corner and has the whole cloud inside it or on its boundary. The
/// start is the first point of the cloud, in the order of the cloud, that
/// is an end of the left side.
pub open spec fn is_convex_hull(points: Seq<Point>, hull: Seq<Point>) -> bool {
    &&& hull.len() >= 3
    &&& is_start(points, hull[0])
    &&& forall|i: int| 0 <= i < hull.len() ==> points.contains(#[trigger] hull[i])
    &&& forall|i: int, j: int| 0 <= i < j < hull.len() ==> hull[i] != hull[j]
    &&& turns_right(hull)
    &&& encloses(hull, points)
}

/// What the march finds is the convex hull.
pub proof fn lemma_march_finds_the_hull(points: Seq<Point>, hull: Seq<Point>)
    requires
        is_hull_of(points, hull),
    ensures
        is_convex_hull(points, hull),
{
    lemma_hull_from_cloud(points, hull);
    lemma_hull_corners_differ(points, hull);
    lemma_hull_strictly_convex(points, hull);
    lemma_hull_encloses_cloud(points, hull);
}

/// A cloud with a convex hull spans an area.
pub proof fn lemma_convex_hull_spans_area(points: Seq<Point>, hull: Seq<Point>)
    requires
        is_convex_hull(points, hull),
    ensures
        !on_one_line(points),
{
    let a = hull[0];
    let b = hull[1];
    let c = hull[2];
    assert(hull_turn(hull, 0) < 0);
    assert(corner_after(hull, 0) == b);
    assert(corner_after(hull, 1) == c);
    lemma_wedge_linear(b.x - a.x, b.y - a.y, c.x - b.x, c.y - b.y);
    assert(cross_spec(a, b, c) < 0);
    assert(points.contains(hull[0]));
    assert(points.contains(hull[1]));
    assert(points.contains(hull[2]));
    let ia = choose|k: int| 0 <= k < points.len() && points[k] == a;
    let ib = choose|k: int| 0 <= k < points.len() && points[k] == b;
    let ic = choose|k: int| 0 <= k < points.len() && points[k] == c;
    assert(cross_spec(points[ia], points[ib], points[ic]) != 0);
}

/// The corners of a convex hull are the corners that the march visits, in
/// the order in which it visits them.
proof fn lemma_follows_march(points: Seq<Point>, hull: Seq<Point>, k: nat)
    requires
        is_convex_hull(points, hull),
        k < hull.len(),
    ensures
        hull[k as int] == march(points, k),
        corner_after(hull, k as int) == march(points, k + 1),
    decreases k,
{
    let n = points.len();
    let len = hull.len() as int;
    lemma_convex_hull_spans_area(points, hull);
    lemma_start_exists(points);
    if k == 0 {
        lemma_start_unique(points, hull[0], march(points, 0));
    } else {
        lemma_follows_march(points, hull, (k - 1) as nat);
        assert(corner_after(hull, k - 1) == hull[k as int]);
    }
    let c = hull[k as int];
    let a = corner_after(hull, k as int);
    let b = march(points, k + 1);
    let k1 = next_index(len, k as int);
    let a2 = corner_after(hull, k1);
    lemma_march_moves(points, k + 1);
    lemma_march_moves(points, k);
    lemma_march_fans(points, k);
    lemma_march_fans(points, k + 1);
    let (hx, hy) = heading(points, k);
    lemma_scan_covers(points, c, hx, hy, n);
    assert(points.contains(hull[k1]));
    let ia = choose|i: int| 0 <= i < n && points[i] == a;
    let ib = choose|i: int| 0 <= i < n && points[i] == b;
    let ux = a.x - c.x;
    let uy = a.y - c.y;
    let wx = b.x - c.x;
    let wy = b.y - c.y;
    let ex = a2.x - a.x;
    let ey = a2.y - a.y;
    assert(hull[k as int] != hull[k1]);
    assert(march(points, k + 1) != march(points, k));
    lemma_norm2_zero(ux, uy);
    lemma_norm2_zero(wx, wy);
    assert(behind(hx, hy, points[ia].x - c.x, points[ia].y - c.y));
    assert(behind(hx, hy, points[ib].x - c.x, points[ib].y - c.y));
    assert(covers(wx, wy, points[ia].x - c.x, points[ia].y - c.y));
    assert(cross_spec(hull[k as int], corner_after(hull, k as int), points[ib]) <= 0);
    assert(hull_turn(hull, k as int) < 0);
    assert(wedge(ux, uy, ex, ey) < 0);
    assert(cross_spec(hull[k1], corner_after(hull, k1), points[ib]) <= 0);
    assert(wedge(ex, ey, wx - ux, wy - uy) <= 0);
    lemma_same_step(hx, hy, wx, wy, ux, uy, ex, ey);
}

/// A cloud has one convex hull only, and the march finds it.
pub proof fn lemma_convex_hull_unique(points: Seq<Point>, hull: Seq<Point>)
    requires
        is_convex_hull(points, hull),
    ensures
        is_hull_of(points, hull),
        hull =~= hull_spec(points),
{
    let len = hull.len();
    lemma_convex_hull_spans_area(points, hull);
    lemma_march_closes(points);
    assert forall|k: int| 0 <= k < len implies #[trigger] hull[k] == march(points, k as nat) by {
        lemma_follows_march(points, hull, k as nat);
    }
    lemma_follows_march(points, hull, (len - 1) as nat);
    assert(march(points, len) == march(points, 0));
    assert forall|j: nat| 0 < j < len implies #[trigger] march(points, j) != march(points, 0) by {
        assert(hull[j as int] == march(points, j));
        assert(hull[0] == march(points, 0));
    }
    assert(closes_at(points, len));
    lemma_closes_once(points, len, hull_len(points));
    lemma_hull_unique(points, hull);
}

/// Whenever three points of a cloud are not on one line, the cloud has a
/// convex hull, and one only.
pub proof fn lemma_convex_hull_exists(points: Seq<Point>)
    requires
        !on_one_line(points),
    ensures
        is_convex_hull(points, hull_spec(points)),
        forall|other: Seq<Point>| #[trigger]
            is_convex_hull(points, other) ==> other =~= hull_spec(points),
{
    lemma_march_closes(points);
    lemma_hull_exists(points);
    lemma_march_finds_the_hull(points, hull_spec(points));
    assert forall|other: Seq<Point>| #[trigger] is_convex_hull(points, other) implies other
        =~= hull_spec(points) by {
        lemma_convex_hull_unique(points, other);
    }
}

/// The hull is the least of the polygons round the cloud: whatever polygon
/// has the cloud to the right of all its edges has the corners of the hull
/// there too.
pub proof fn lemma_hull_is_least(points: Seq<Point>, hull: Seq<Point>, other: Seq<Point>)
    requires
        is_convex_hull(points, hull),
        encloses(other, points),
    ensures
        encloses(other, hull),
{
    assert forall|i: int, j: int| 0 <= i < other.len() && 0 <= j < hull.len() implies
        #[trigger] cross_spec(other[i], corner_after(other, i), hull[j]) <= 0 by {
        assert(points.contains(hull[j]));
        let k = choose|k: int| 0 <= k < points.len() && points[k] == hull[j];
        assert(cross_spec(other[i], corner_after(other, i), points[k]) <= 0);
    }
}

/// A corner of the hull that has the least `x` of the cloud is an end of
/// the left side: a point with a higher and a lower point of the same `x`
/// beside it is no corner.
pub proof fn lemma_leftmost_corner_is_end(points: Seq<Point>, hull: Seq<Point>, i: int)
    requires
        is_convex_hull(points, hull),
        0 <= i < hull.len(),
        hull[i].x == hull[0].x,
    ensures
        is_left_end(points, hull[i]),
{
    let len = hull.len() as int;
    let c = hull[i];
    let before = if i == 0 { len - 1 } else { i - 1 };
    let a = hull[before];
    let b = corner_after(hull, i);
    assert(next_index(len, before) == i);
    assert(corner_after(hull, before) == c);
    assert(hull_turn(hull, before) < 0);
    assert(is_left_end(points, hull[0]));
    assert(points.contains(hull[i]));
    assert(is_leftmost(points, c));
    if !is_left_end(points, c) {
        let up = choose|j: int| 0 <= j < points.len() && points[j].x == c.x && points[j].y > c.y;
        let down = choose|j: int| 0 <= j < points.len() && points[j].x == c.x && points[j].y < c.y;
        let hu = points[up].y - c.y;
        let hd = c.y - points[down].y;
        let e0x = c.x - a.x;
        let e0y = c.y - a.y;
        let e1x = b.x - c.x;
        let e1y = b.y - c.y;
        assert(cross_spec(hull[before], corner_after(hull, before), points[up]) <= 0);
        assert(cross_spec(hull[before], corner_after(hull, before), points[down]) <= 0);
        assert(cross_spec(hull[i], corner_after(hull, i), points[up]) <= 0);
        assert(cross_spec(hull[i], corner_after(hull, i), points[down]) <= 0);
        assert(wedge(e0x, e0y, e0x, hu + e0y) == e0x * hu) by (nonlinear_arith);
        assert(wedge(e0x, e0y, e0x, e0y - hd) == -(e0x * hd)) by (nonlinear_arith);
        assert(wedge(e1x, e1y, 0, hu) == e1x * hu) by (nonlinear_arith);
        assert(wedge(e1x, e1y, 0, -hd) == -(e1x * hd)) by (nonlinear_arith);
        assert(e0x == 0) by (nonlinear_arith)
            requires
                e0x * hu <= 0,
                -(e0x * hd) <= 0,
                hu > 0,
                hd > 0,
        ;
        assert(e1x == 0) by (nonlinear_arith)
            requires
                e1x * hu <= 0,
                -(e1x * hd) <= 0,
                hu > 0,
                hd > 0,
        ;
        assert(wedge(e0x, e0y, e1x, e1y) == 0) by (nonlinear_arith)
            requires
                e0x == 0,
                e1x == 0,
        ;
        assert(false);
    }
}

/// The hull starts at the first point of the cloud, in the order of the
/// cloud, that has the least `x` and is a corner of the hull.
pub open spec fn starts_at_first_leftmost_corner(points: Seq<Point>, hull: Seq<Point>) -> bool {
    &&& forall|j: int| 0 <= j < points.len() ==> hull[0].x <= (#[trigger] points[j]).x
    &&& exists|k: int|
        0 <= k < points.len() && #[trigger] points[k] == hull[0] && forall|j: int|
            0 <= j < k ==> !((#[trigger] points[j]).x == hull[0].x && hull.contains(points[j]))
}

/// The hull starts at the first point of the cloud, in the order of the
/// cloud, that has the least `x` and is a corner of the hull.
pub proof fn lemma_hull_starts_at_first_corner(points: Seq<Point>, hull: Seq<Point>)
    requires
        is_convex_hull(points, hull),
    ensures
        starts_at_first_leftmost_corner(points, hull),
{
    let s = hull[0];
    assert(is_left_end(points, s));
    let k = choose|k: int|
        0 <= k < points.len() && #[trigger] points[k] == s && forall|j: int|
            0 <= j < k ==> !is_left_end(points, #[trigger] points[j]);
    assert forall|j: int| 0 <= j < k implies !((#[trigger] points[j]).x == s.x && hull.contains(
        points[j],
    )) by {
        if points[j].x == s.x && hull.contains(points[j]) {
            let i = choose|i: int| 0 <= i < hull.len() && hull[i] == points[j];
            lemma_leftmost_corner_is_end(points, hull, i);
            assert(!is_left_end(points, points[j]));
        }
    }
    assert(points[k] == hull[0]);
}

} // verus!
