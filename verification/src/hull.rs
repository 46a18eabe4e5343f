//! The convex hull of a point cloud by gift wrapping.
//!
//! The march starts at the first point of least `x` and repeatedly moves
//! to the point that has no other point of the cloud to the left of the
//! line towards it.
//! The cloud therefore lies to the right of every edge, in the order in
//! which the march visits the corners.

use vstd::prelude::*;
use crate::error::ChainError;
use crate::closure::{lemma_hull_spans_area, lemma_march_closes, on_one_line};
use crate::convex::{
    is_convex_hull, lemma_hull_starts_at_first_corner, lemma_march_finds_the_hull,
    starts_at_first_leftmost_corner,
};
use crate::geometry::{cross, cross_spec, dist2_spec, Point};
use crate::planar::{
    behind, covers, lemma_cover_seen_from_tip, lemma_farther_keeps_cover,
    lemma_left_turn_keeps_cover, lemma_norm2_zero, lemma_wedge_flip, norm2, wedge,
};

verus! {

/// `s` is a point of the cloud with the least `x`.
pub open spec fn is_leftmost(points: Seq<Point>, s: Point) -> bool {
    &&& points.contains(s)
    &&& forall|j: int| 0 <= j < points.len() ==> s.x <= (#[trigger] points[j]).x
}

/// `s` is the upper end of the left side of the cloud: of the points with
/// the least `x`, the one with the greatest `y`.
pub open spec fn is_top_left(points: Seq<Point>, s: Point) -> bool {
    &&& is_leftmost(points, s)
    &&& forall|j: int|
        0 <= j < points.len() && (#[trigger] points[j]).x == s.x ==> points[j].y <= s.y
}

/// `s` is the lower end of the left side of the cloud: of the points with
/// the least `x`, the one with the least `y`.
pub open spec fn is_bottom_left(points: Seq<Point>, s: Point) -> bool {
    &&& is_leftmost(points, s)
    &&& forall|j: int|
        0 <= j < points.len() && (#[trigger] points[j]).x == s.x ==> points[j].y >= s.y
}

/// `s` is an end of the left side of the cloud. These are the points of
/// least `x` that can be corners of a hull; a point of least `x` that lies
/// between them lies inside the left side.
pub open spec fn is_left_end(points: Seq<Point>, s: Point) -> bool {
    is_top_left(points, s) || is_bottom_left(points, s)
}

/// `s` is the first point of the cloud, in the order of the cloud, that
/// has the least `x`.
pub open spec fn is_first_leftmost(points: Seq<Point>, s: Point) -> bool {
    &&& forall|j: int| 0 <= j < points.len() ==> s.x <= (#[trigger] points[j]).x
    &&& exists|k: int|
        0 <= k < points.len() && #[trigger] points[k] == s && forall|j: int|
            0 <= j < k ==> s.x < (#[trigger] points[j]).x
}

/// `s` is the point of the cloud at which the march starts: the first
/// point, in the order of the cloud, that is an end of the left side. Where
/// the first point of least `x` is such an end, it is the start.
pub open spec fn is_start(points: Seq<Point>, s: Point) -> bool {
    &&& is_left_end(points, s)
    &&& exists|k: int|
        0 <= k < points.len() && #[trigger] points[k] == s && forall|j: int|
            0 <= j < k ==> !is_left_end(points, #[trigger] points[j])
}

/// The start of the march around `points`.
pub open spec fn start_spec(points: Seq<Point>) -> Point {
    choose|s: Point| is_start(points, s)
}

/// While standing at `cur` with `best` as the candidate for the next corner,
/// `p` is the better candidate: it lies strictly to the left of the line
/// from `cur` to `best`, or on that line and farther from `cur`.
pub open spec fn beats(cur: Point, best: Point, p: Point) -> bool {
    &&& p != cur
    &&& (cross_spec(cur, best, p) > 0 || (cross_spec(cur, best, p) == 0 && dist2_spec(cur, p)
        > dist2_spec(cur, best)))
}

/// The candidate for the corner after `cur` once the first `i` points have
/// been looked at. The first point of the cloud is the initial candidate.
pub open spec fn scan(points: Seq<Point>, cur: Point, i: nat) -> Point
    decreases i,
{
    if i == 0 {
        points[0]
    } else {
        let best = scan(points, cur, (i - 1) as nat);
        if beats(cur, best, points[i - 1]) {
            points[i - 1]
        } else {
            best
        }
    }
}

/// The corner that follows `cur` on the march around `points`.
pub open spec fn wrap_next_spec(points: Seq<Point>, cur: Point) -> Point {
    scan(points, cur, points.len())
}

/// The corner at which the march stands after `k` steps.
pub open spec fn march(points: Seq<Point>, k: nat) -> Point
    decreases k,
{
    if k == 0 {
        start_spec(points)
    } else {
        wrap_next_spec(points, march(points, (k - 1) as nat))
    }
}

/// The march is back at its start after `k` steps, for the first time.
pub open spec fn closes_at(points: Seq<Point>, k: nat) -> bool {
    &&& k >= 1
    &&& march(points, k) == march(points, 0)
    &&& forall|j: nat| 0 < j < k ==> #[trigger] march(points, j) != march(points, 0)
}

/// The march around `points` closes after at least three and at most as
/// many steps as there are points.
pub open spec fn has_hull(points: Seq<Point>) -> bool {
    exists|k: nat| 3 <= k <= points.len() && #[trigger] closes_at(points, k)
}

/// The number of corners of the hull of `points`.
pub open spec fn hull_len(points: Seq<Point>) -> nat {
    choose|k: nat| 3 <= k <= points.len() && #[trigger] closes_at(points, k)
}

/// The hull of `points`, where the march around them closes.
pub open spec fn hull_spec(points: Seq<Point>) -> Seq<Point> {
    Seq::new(hull_len(points), |i: int| march(points, i as nat))
}

/// `hull` lists the corners of one full march around `points`.
pub open spec fn is_hull_of(points: Seq<Point>, hull: Seq<Point>) -> bool {
    &&& 3 <= hull.len() <= points.len()
    &&& closes_at(points, hull.len())
    &&& forall|i: int| 0 <= i < hull.len() ==> #[trigger] hull[i] == march(points, i as nat)
}

/// A cloud has one start only.
pub proof fn lemma_start_unique(points: Seq<Point>, s: Point, t: Point)
    requires
        is_start(points, s),
        is_start(points, t),
    ensures
        s == t,
{
    let i = choose|k: int|
        0 <= k < points.len() && #[trigger] points[k] == s && forall|j: int|
            0 <= j < k ==> !is_left_end(points, #[trigger] points[j]);
    let j = choose|k: int|
        0 <= k < points.len() && #[trigger] points[k] == t && forall|j: int|
            0 <= j < k ==> !is_left_end(points, #[trigger] points[j]);
    if i < j {
        assert(!is_left_end(points, points[i]));
    } else if j < i {
        assert(!is_left_end(points, points[j]));
    }
}

/// Where the first point of least `x` is an end of the left side, the march
/// starts there.
pub proof fn lemma_first_leftmost_starts(points: Seq<Point>, s: Point)
    requires
        is_first_leftmost(points, s),
        is_left_end(points, s),
    ensures
        is_start(points, s),
{
    let k = choose|k: int|
        0 <= k < points.len() && #[trigger] points[k] == s && forall|j: int|
            0 <= j < k ==> s.x < (#[trigger] points[j]).x;
    assert forall|j: int| 0 <= j < k implies !is_left_end(points, #[trigger] points[j]) by {
        assert(s.x < points[j].x);
        assert(points[k] == s);
        if is_left_end(points, points[j]) {
            assert(points[j].x <= points[k].x);
        }
    }
}

/// The first point of the cloud that has the least `x`.
fn leftmost(points: &Vec<Point>) -> (s: Point)
    requires
        points.len() > 0,
    ensures
        is_first_leftmost(points@, s),
{
    let mut leftmost: Point = points[0];
    let ghost mut at: int = 0;
    let mut i: usize = 1;
    while i < points.len()
        invariant
            1 <= i <= points.len(),
            0 <= at < i,
            points@[at] == leftmost,
            forall|j: int| 0 <= j < i ==> leftmost.x <= (#[trigger] points@[j]).x,
            forall|j: int| 0 <= j < at ==> leftmost.x < (#[trigger] points@[j]).x,
        decreases points.len() - i,
    {
        let point: Point = points[i];
        if point.x < leftmost.x {
            leftmost = point;
            proof {
                at = i as int;
            }
        }
        i = i + 1;
    }
    leftmost
}

/// The start of the march: the first point of least `x`, or, where that
/// point lies inside the left side of the cloud and is no corner, the
/// first end of the left side in the order of the cloud.
fn march_start(points: &Vec<Point>) -> (s: Point)
    requires
        points.len() > 0,
    ensures
        is_start(points@, s),
        s == start_spec(points@),
        is_first_leftmost(points@, s) || forall|f: Point|
            is_first_leftmost(points@, f) ==> !is_left_end(points@, f),
{
    let first: Point = leftmost(points);
    let ghost first_at: int = choose|k: int|
        0 <= k < points.len() && #[trigger] points@[k] == first && forall|j: int|
            0 <= j < k ==> first.x < (#[trigger] points@[j]).x;
    // the two ends of the left side
    let mut top: i32 = first.y;
    let mut bottom: i32 = first.y;
    let ghost mut top_at: int = first_at;
    let ghost mut bottom_at: int = first_at;
    let mut i: usize = 0;
    while i < points.len()
        invariant
            i <= points.len(),
            0 <= top_at < points.len(),
            0 <= bottom_at < points.len(),
            points@[top_at].x == first.x,
            points@[top_at].y == top,
            points@[bottom_at].x == first.x,
            points@[bottom_at].y == bottom,
            forall|j: int| 0 <= j < i && (#[trigger] points@[j]).x == first.x ==> bottom <= points@[j].y <= top,
        decreases points.len() - i,
    {
        let point: Point = points[i];
        if point.x == first.x {
            if point.y > top {
                top = point.y;
                proof {
                    top_at = i as int;
                }
            }
            if point.y < bottom {
                bottom = point.y;
                proof {
                    bottom_at = i as int;
                }
            }
        }
        i = i + 1;
    }
    proof {
        assert forall|p: Point| points@.contains(p) implies (is_left_end(points@, p) <==> p.x
            == first.x && (p.y == top || p.y == bottom)) by {
            let k = choose|k: int| 0 <= k < points.len() && points@[k] == p;
            assert(points@[k] == p);
            assert(points@[first_at] == first);
            assert(points@.contains(points@[top_at]));
            assert(points@.contains(points@[bottom_at]));
            if is_left_end(points@, p) {
                assert(p.x <= points@[first_at].x);
                assert(first.x <= points@[k].x);
            }
        }
    }
    if first.y == top || first.y == bottom {
        proof {
            assert(points@.contains(points@[first_at]));
            lemma_first_leftmost_starts(points@, first);
            lemma_start_unique(points@, first, start_spec(points@));
        }
        return first;
    }
    // the first point of least `x` is no corner: the first end is the start
    proof {
        assert(points@.contains(points@[first_at]));
        assert forall|f: Point| is_first_leftmost(points@, f) implies !is_left_end(points@, f) by {
            let k = choose|k: int|
                0 <= k < points.len() && #[trigger] points@[k] == f && forall|j: int|
                    0 <= j < k ==> f.x < (#[trigger] points@[j]).x;
            assert(f.x <= points@[first_at].x);
            assert(first.x <= points@[k].x);
            if k < first_at {
                assert(first.x < points@[k].x);
            } else if first_at < k {
                assert(f.x < points@[first_at].x);
            }
            assert(f == first);
        }
    }
    let mut i: usize = 0;
    while i < points.len()
        invariant
            i <= points.len(),
            i <= top_at,
            forall|j: int| 0 <= j < i ==> !is_left_end(points@, #[trigger] points@[j]),
            0 <= top_at < points.len(),
            points@[top_at].x == first.x,
            points@[top_at].y == top,
            forall|p: Point|
                points@.contains(p) ==> (is_left_end(points@, p) <==> p.x == first.x && (p.y == top
                    || p.y == bottom)),
        decreases points.len() - i,
    {
        let point: Point = points[i];
        proof {
            assert(points@.contains(points@[i as int]));
        }
        if point.x == first.x && (point.y == top || point.y == bottom) {
            proof {
                assert(is_start(points@, point));
                lemma_start_unique(points@, point, start_spec(points@));
            }
            return point;
        }
        i = i + 1;
    }
    proof {
        assert(false);
    }
    first
}

/// The corner that follows `cur`: one pass over the cloud that keeps the
/// best candidate seen so far.
fn wrap_next(points: &Vec<Point>, cur: &Point) -> (next: Point)
    requires
        points.len() > 0,
    ensures
        next == wrap_next_spec(points@, *cur),
{
    let mut best: Point = points[0];
    let mut i: usize = 0;
    while i < points.len()
        invariant
            i <= points.len(),
            best == scan(points@, *cur, i as nat),
        decreases points.len() - i,
    {
        let p: Point = points[i];
        if p != *cur {
            let turn: i128 = cross(cur, &best, &p);
            if turn > 0 || (turn == 0 && cur.distance_squared(&p) > cur.distance_squared(&best)) {
                best = p;
            }
        }
        i = i + 1;
    }
    best
}

/// Seen from `cur`, every point of the cloud lies behind the direction
/// `(dx, dy)`.
pub open spec fn fans_behind(points: Seq<Point>, cur: Point, dx: int, dy: int) -> bool {
    forall|j: int|
        0 <= j < points.len() ==> behind(
            dx,
            dy,
            (#[trigger] points[j]).x - cur.x,
            points[j].y - cur.y,
        )
}

/// Seen from `cur`, the step to `next` covers the first `i` points of the
/// cloud: none of them lies to the left of it, nor farther along it.
pub open spec fn covers_prefix(points: Seq<Point>, cur: Point, next: Point, i: int) -> bool {
    forall|j: int|
        0 <= j < i ==> covers(
            next.x - cur.x,
            next.y - cur.y,
            (#[trigger] points[j]).x - cur.x,
            points[j].y - cur.y,
        )
}

/// The candidate of a scan is always a point of the cloud.
pub proof fn lemma_scan_in_cloud(points: Seq<Point>, cur: Point, i: nat)
    requires
        points.len() > 0,
        i <= points.len(),
    ensures
        points.contains(scan(points, cur, i)),
    decreases i,
{
    if i == 0 {
        assert(points[0] == scan(points, cur, 0));
    } else {
        lemma_scan_in_cloud(points, cur, (i - 1) as nat);
        assert(points[i - 1] == points[i - 1]);
    }
}

/// A scan whose candidate is `cur` itself has seen no other point.
pub proof fn lemma_scan_stuck(points: Seq<Point>, cur: Point, i: nat)
    requires
        points.len() > 0,
        i <= points.len(),
        scan(points, cur, i) == cur,
    ensures
        forall|j: int| 0 <= j < i ==> #[trigger] points[j] == cur,
    decreases i,
{
    if i > 0 {
        let best = scan(points, cur, (i - 1) as nat);
        let p = points[i - 1];
        assert(!beats(cur, best, p));
        assert(best == cur);
        lemma_scan_stuck(points, cur, (i - 1) as nat);
        lemma_wedge_flip(p.x - cur.x, p.y - cur.y, 0, 0);
        lemma_norm2_zero(p.x - cur.x, p.y - cur.y);
        lemma_norm2_zero(0, 0);
    }
}

/// Over a cloud that is all one point, every scan ends at that point.
pub proof fn lemma_scan_of_one_point(points: Seq<Point>, cur: Point, c: Point)
    requires
        points.len() > 0,
        forall|j: int| 0 <= j < points.len() ==> #[trigger] points[j] == c,
    ensures
        wrap_next_spec(points, cur) == c,
{
    lemma_scan_in_cloud(points, cur, points.len());
}

/// Where the whole cloud lies behind some direction as seen from `cur`, the
/// candidate of a scan covers every point that the scan has looked at.
pub proof fn lemma_scan_covers(points: Seq<Point>, cur: Point, dx: int, dy: int, i: nat)
    requires
        points.len() > 0,
        i <= points.len(),
        norm2(dx, dy) > 0,
        fans_behind(points, cur, dx, dy),
    ensures
        covers_prefix(points, cur, scan(points, cur, i), i as int),
    decreases i,
{
    if i > 0 {
        let best = scan(points, cur, (i - 1) as nat);
        let p = points[i - 1];
        lemma_scan_covers(points, cur, dx, dy, (i - 1) as nat);
        lemma_scan_in_cloud(points, cur, (i - 1) as nat);
        let b = choose|b: int| 0 <= b < points.len() && points[b] == best;
        assert(behind(dx, dy, points[b].x - cur.x, points[b].y - cur.y));
        let wx = best.x - cur.x;
        let wy = best.y - cur.y;
        let px = p.x - cur.x;
        let py = p.y - cur.y;
        lemma_wedge_flip(px, py, 0, 0);
        lemma_wedge_flip(wx, wy, 0, 0);
        lemma_norm2_zero(px, py);
        lemma_norm2_zero(wx, wy);
        lemma_norm2_zero(0, 0);
        if beats(cur, best, p) {
            assert forall|j: int| 0 <= j < i implies covers(
                px,
                py,
                (#[trigger] points[j]).x - cur.x,
                points[j].y - cur.y,
            ) by {
                let vx = points[j].x - cur.x;
                let vy = points[j].y - cur.y;
                if j < i - 1 {
                    if wedge(wx, wy, px, py) > 0 {
                        lemma_left_turn_keeps_cover(dx, dy, wx, wy, px, py, vx, vy);
                    } else {
                        lemma_farther_keeps_cover(dx, dy, wx, wy, px, py, vx, vy);
                    }
                }
            }
        } else {
            assert forall|j: int| 0 <= j < i implies covers(
                wx,
                wy,
                (#[trigger] points[j]).x - cur.x,
                points[j].y - cur.y,
            ) by {
                if j == i - 1 {
                    if p == cur {
                        assert(px == 0 && py == 0);
                    }
                }
            }
        }
    }
}

/// The direction in which the march arrives at its `k`-th corner. At the
/// start, where it arrives from nowhere, this is a direction that has the
/// whole cloud behind it: straight up at the upper end of the left side,
/// and at the lower end a direction so little to the left of straight up
/// that no point of the lattice lies between the two.
pub open spec fn heading(points: Seq<Point>, k: nat) -> (int, int) {
    if k == 0 {
        if is_top_left(points, march(points, 0)) {
            (0, 1)
        } else {
            (-1, 0x2_0000_0000)
        }
    } else {
        (
            march(points, k).x - march(points, (k - 1) as nat).x,
            march(points, k).y - march(points, (k - 1) as nat).y,
        )
    }
}

/// The first `k` steps of the march each lead to a different point.
pub open spec fn advances(points: Seq<Point>, k: nat) -> bool {
    forall|j: nat| j < k ==> #[trigger] march(points, j + 1) != march(points, j)
}

/// As long as the march advances, it stands on a point of the cloud and has
/// the whole cloud behind the direction in which it arrived.
pub proof fn lemma_march_fans(points: Seq<Point>, k: nat)
    requires
        points.len() > 0,
        is_start(points, start_spec(points)),
        advances(points, k),
    ensures
        points.contains(march(points, k)),
        norm2(heading(points, k).0, heading(points, k).1) > 0,
        fans_behind(points, march(points, k), heading(points, k).0, heading(points, k).1),
    decreases k,
{
    if k == 0 {
        let s = march(points, 0);
        assert(is_left_end(points, s));
        if is_top_left(points, s) {
            assert(norm2(0, 1) == 1) by (nonlinear_arith);
            assert forall|j: int| 0 <= j < points.len() implies behind(
                0,
                1,
                (#[trigger] points[j]).x - s.x,
                points[j].y - s.y,
            ) by {
                let vx = points[j].x - s.x;
                let vy = points[j].y - s.y;
                assert(wedge(0, 1, vx, vy) == -vx) by (nonlinear_arith);
                assert(crate::planar::inner(0, 1, vx, vy) == vy) by (nonlinear_arith);
            }
        } else {
            let far: int = 0x2_0000_0000;
            assert(norm2(-1, far) > 0) by (nonlinear_arith)
                requires
                    far == 0x2_0000_0000,
            ;
            assert forall|j: int| 0 <= j < points.len() implies behind(
                -1,
                far,
                (#[trigger] points[j]).x - s.x,
                points[j].y - s.y,
            ) by {
                let vx = points[j].x - s.x;
                let vy = points[j].y - s.y;
                assert(wedge(-1, far, vx, vy) == -vy - far * vx) by (nonlinear_arith);
                assert(crate::planar::inner(-1, far, vx, vy) == far * vy - vx)
                    by (nonlinear_arith);
                if vx >= 1 {
                    assert(far * vx >= far) by (nonlinear_arith)
                        requires
                            vx >= 1,
                            far == 0x2_0000_0000,
                    ;
                } else {
                    assert(vx == 0);
                    assert(vy >= 0);
                    assert(far * vx == 0) by (nonlinear_arith)
                        requires
                            vx == 0,
                    ;
                    if vy == 0 {
                        assert(far * vy == 0) by (nonlinear_arith)
                            requires
                                vy == 0,
                        ;
                    }
                }
            }
        }
    } else {
        let prev = march(points, (k - 1) as nat);
        let cur = march(points, k);
        assert(advances(points, (k - 1) as nat)) by {
            assert forall|j: nat| j < k - 1 implies #[trigger] march(points, j + 1) != march(
                points,
                j,
            ) by {
                assert(j < k);
            }
        }
        lemma_march_fans(points, (k - 1) as nat);
        let (dx, dy) = heading(points, (k - 1) as nat);
        lemma_scan_covers(points, prev, dx, dy, points.len());
        lemma_scan_in_cloud(points, prev, points.len());
        let wx = cur.x - prev.x;
        let wy = cur.y - prev.y;
        assert(march(points, ((k - 1) as nat) + 1) != march(points, (k - 1) as nat));
        lemma_norm2_zero(wx, wy);
        assert forall|j: int| 0 <= j < points.len() implies behind(
            wx,
            wy,
            (#[trigger] points[j]).x - cur.x,
            points[j].y - cur.y,
        ) by {
            lemma_cover_seen_from_tip(wx, wy, points[j].x - prev.x, points[j].y - prev.y);
        }
    }
}

/// The upper end of the left side of the first `i` points of the cloud.
proof fn lemma_prefix_top_left(points: Seq<Point>, i: nat) -> (s: Point)
    requires
        0 < i <= points.len(),
    ensures
        is_top_left(points.subrange(0, i as int), s),
    decreases i,
{
    let head = points.subrange(0, i as int);
    if i == 1 {
        assert(head[0] == points[0]);
        points[0]
    } else {
        let best = lemma_prefix_top_left(points, (i - 1) as nat);
        let before = points.subrange(0, i - 1);
        let p = points[i - 1];
        let k = choose|k: int| 0 <= k < before.len() && before[k] == best;
        assert(head[k] == best);
        assert(head[i - 1] == p);
        assert forall|j: int| 0 <= j < i - 1 implies head[j] == before[j] by {}
        if p.x < best.x || (p.x == best.x && p.y > best.y) {
            assert forall|j: int| 0 <= j < head.len() implies p.x <= (#[trigger] head[j]).x by {
                if j < i - 1 {
                    assert(before[j] == head[j]);
                }
            }
            assert forall|j: int|
                0 <= j < head.len() && (#[trigger] head[j]).x == p.x implies head[j].y <= p.y by {
                if j < i - 1 {
                    assert(before[j] == head[j]);
                }
            }
            p
        } else {
            assert forall|j: int| 0 <= j < head.len() implies best.x <= (#[trigger] head[j]).x by {
                if j < i - 1 {
                    assert(before[j] == head[j]);
                }
            }
            assert forall|j: int|
                0 <= j < head.len() && (#[trigger] head[j]).x == best.x implies head[j].y
                <= best.y by {
                if j < i - 1 {
                    assert(before[j] == head[j]);
                }
            }
            best
        }
    }
}

/// The first place in the cloud, at or before place `i`, of an end of the
/// left side.
proof fn lemma_first_left_end(points: Seq<Point>, i: int) -> (k: int)
    requires
        0 <= i < points.len(),
        is_left_end(points, points[i]),
    ensures
        0 <= k <= i,
        is_left_end(points, points[k]),
        forall|j: int| 0 <= j < k ==> !is_left_end(points, #[trigger] points[j]),
    decreases i,
{
    if forall|j: int| 0 <= j < i ==> !is_left_end(points, #[trigger] points[j]) {
        i
    } else {
        let j = choose|j: int| 0 <= j < i && is_left_end(points, #[trigger] points[j]);
        lemma_first_left_end(points, j)
    }
}

/// Every cloud with a point in it has a start.
pub proof fn lemma_start_exists(points: Seq<Point>)
    requires
        points.len() > 0,
    ensures
        is_start(points, start_spec(points)),
{
    let top = lemma_prefix_top_left(points, points.len());
    assert(points.subrange(0, points.len() as int) =~= points);
    let i = choose|i: int| 0 <= i < points.len() && points[i] == top;
    let k = lemma_first_left_end(points, i);
    assert(is_start(points, points[k]));
}

/// A march that closes after three or more steps has moved at every step.
pub proof fn lemma_hull_advances(points: Seq<Point>, hull: Seq<Point>)
    requires
        is_hull_of(points, hull),
    ensures
        advances(points, hull.len()),
{
    lemma_start_exists(points);
    assert forall|j: nat| j < hull.len() implies #[trigger] march(points, j + 1) != march(
        points,
        j,
    ) by {
        let c = march(points, j);
        if march(points, j + 1) == c {
            lemma_scan_stuck(points, c, points.len());
            let s = march(points, 0);
            assert(s == c);
            lemma_scan_of_one_point(points, s, c);
            assert(march(points, 1) == wrap_next_spec(points, march(points, 0)));
            assert(march(points, 1) != march(points, 0));
        }
    }
}

/// The corner that follows corner `i`, the first corner following the last.
pub open spec fn corner_after(hull: Seq<Point>, i: int) -> Point {
    hull[next_index(hull.len() as int, i)]
}

/// The index after `i` on a ring of `n` places.
pub open spec fn next_index(n: int, i: int) -> int {
    if i + 1 < n {
        i + 1
    } else {
        0
    }
}

/// The turn that the hull takes at the corner after corner `i`.
pub open spec fn hull_turn(hull: Seq<Point>, i: int) -> int {
    turn_spec(
        hull[i],
        corner_after(hull, i),
        corner_after(hull, next_index(hull.len() as int, i)),
    )
}

/// Every corner of the hull is a point of the cloud, and the first corner
/// is the start of the march, a point of least `x`.
pub proof fn lemma_hull_from_cloud(points: Seq<Point>, hull: Seq<Point>)
    requires
        is_hull_of(points, hull),
    ensures
        is_start(points, hull[0]),
        forall|j: int| 0 <= j < points.len() ==> hull[0].x <= (#[trigger] points[j]).x,
        forall|i: int| 0 <= i < hull.len() ==> points.contains(#[trigger] hull[i]),
{
    lemma_start_exists(points);
    lemma_hull_advances(points, hull);
    assert(hull[0] == march(points, 0));
    assert forall|j: int| 0 <= j < points.len() implies hull[0].x <= (#[trigger] points[j]).x by {
        assert(is_left_end(points, hull[0]));
    }
    assert forall|i: int| 0 <= i < hull.len() implies points.contains(#[trigger] hull[i]) by {
        assert(advances(points, i as nat)) by {
            assert forall|j: nat| j < i implies #[trigger] march(points, j + 1) != march(
                points,
                j,
            ) by {
                assert(j < hull.len());
            }
        }
        lemma_march_fans(points, i as nat);
    }
}

/// No point of `points` lies to the left of an edge of `hull`, the closing
/// edge from the last corner to the first included. For a polygon that
/// turns right at every corner this says that the points are inside it or
/// on its boundary.
pub open spec fn encloses(hull: Seq<Point>, points: Seq<Point>) -> bool {
    forall|i: int, j: int|
        0 <= i < hull.len() && 0 <= j < points.len() ==> #[trigger] cross_spec(
            hull[i],
            corner_after(hull, i),
            points[j],
        ) <= 0
}

/// Every point of the cloud is inside the hull or on its boundary.
pub proof fn lemma_hull_encloses_cloud(points: Seq<Point>, hull: Seq<Point>)
    requires
        is_hull_of(points, hull),
    ensures
        encloses(hull, points),
{
    assert forall|i: int, j: int| 0 <= i < hull.len() && 0 <= j < points.len() implies
        #[trigger] cross_spec(hull[i], corner_after(hull, i), points[j]) <= 0 by {
        lemma_edge_covers_cloud(points, hull, i);
    }
}

/// Seen from corner `i`, the step to the next corner covers the whole
/// cloud.
pub proof fn lemma_edge_covers_cloud(points: Seq<Point>, hull: Seq<Point>, i: int)
    requires
        is_hull_of(points, hull),
        0 <= i < hull.len(),
    ensures
        corner_after(hull, i) == march(points, (i + 1) as nat),
        covers_prefix(points, hull[i], corner_after(hull, i), points.len() as int),
{
    lemma_start_exists(points);
    lemma_hull_advances(points, hull);
    assert(advances(points, i as nat)) by {
        assert forall|j: nat| j < i implies #[trigger] march(points, j + 1) != march(points, j) by {
            assert(j < hull.len());
        }
    }
    lemma_march_fans(points, i as nat);
    let (dx, dy) = heading(points, i as nat);
    lemma_scan_covers(points, hull[i], dx, dy, points.len());
    if i + 1 == hull.len() {
        assert(hull[0] == march(points, 0));
    }
}

/// The turn that the path `a`, `b`, `c` takes at `b`: the cross product of
/// the edge vector from `a` to `b` with the edge vector from `b` to `c`.
/// Negative for a turn to the right.
pub open spec fn turn_spec(a: Point, b: Point, c: Point) -> int {
    wedge(b.x - a.x, b.y - a.y, c.x - b.x, c.y - b.y)
}

/// Two marches that stand on the same point keep standing on the same
/// points.
proof fn lemma_march_in_step(points: Seq<Point>, i: nat, j: nat, t: nat)
    requires
        march(points, i) == march(points, j),
    ensures
        march(points, i + t) == march(points, j + t),
    decreases t,
{
    if t > 0 {
        lemma_march_in_step(points, i, j, (t - 1) as nat);
        assert(march(points, i + t) == wrap_next_spec(points, march(points, (i + t - 1) as nat)));
        assert(march(points, j + t) == wrap_next_spec(points, march(points, (j + t - 1) as nat)));
    }
}

/// No point is a corner of the hull twice.
pub proof fn lemma_hull_corners_differ(points: Seq<Point>, hull: Seq<Point>)
    requires
        is_hull_of(points, hull),
    ensures
        forall|i: int, j: int| 0 <= i < j < hull.len() ==> hull[i] != hull[j],
{
    assert forall|i: int, j: int| 0 <= i < j < hull.len() implies hull[i] != hull[j] by {
        if hull[i] == hull[j] {
            let t = (hull.len() - j) as nat;
            lemma_march_in_step(points, i as nat, j as nat, t);
            assert(march(points, (j + t) as nat) == march(points, 0));
            let k = (i + t) as nat;
            assert(0 < k < hull.len());
            assert(march(points, k) != march(points, 0));
        }
    }
}

/// The polygon turns right at every corner, the corners across the closing
/// edge included: it is convex, and its corners are listed clockwise where
/// `x` points right and `y` points up.
pub open spec fn turns_right(hull: Seq<Point>) -> bool {
    forall|i: int| 0 <= i < hull.len() ==> #[trigger] hull_turn(hull, i) < 0
}

/// A cloud has one hull only.
pub proof fn lemma_hull_unique(points: Seq<Point>, hull: Seq<Point>)
    requires
        is_hull_of(points, hull),
    ensures
        has_hull(points),
        hull =~= hull_spec(points),
{
    assert(closes_at(points, hull.len()));
    lemma_closes_once(points, hull.len(), hull_len(points));
}

/// Where the march closes, the corners that it visits are the hull.
pub proof fn lemma_hull_exists(points: Seq<Point>)
    requires
        has_hull(points),
    ensures
        is_hull_of(points, hull_spec(points)),
{
}

/// A march that closes does so at one step count only.
pub proof fn lemma_closes_once(points: Seq<Point>, j: nat, k: nat)
    requires
        closes_at(points, j),
        closes_at(points, k),
    ensures
        j == k,
{
}

/// The convex hull of `points`, its corners listed clockwise.
///
/// The first corner is the first point of the cloud, in the order of the
/// cloud, that has the least `x`. Where that point lies inside the left
/// side of the cloud, between a higher and a lower point of the same `x`,
/// it is no corner; the hull then starts at the first end of the left side
/// in the order of the cloud.
///
/// Fewer than three points are `InsufficientInput`. Three or more points
/// that all lie on one line are a `DegenerateHull`. Every other cloud has
/// a hull, and one only.
///
/// The hull is found by a march around the cloud: from each corner to the
/// point that has no point of the cloud to the left of the line towards
/// it, and of several such points on one line to the farthest.
pub fn gift_wrapping(points: &Vec<Point>) -> (result: Result<Vec<Point>, ChainError>)
    ensures
        match result {
            Ok(hull) => {
                &&& !on_one_line(points@)
                &&& is_convex_hull(points@, hull@)
                &&& hull@ == hull_spec(points@)
                &&& 3 <= hull.len() <= points.len()
                &&& starts_at_first_leftmost_corner(points@, hull@)
                &&& forall|first: Point|
                    is_first_leftmost(points@, first) && is_left_end(points@, first) ==> hull@[0]
                        == first
            },
            Err(ChainError::InsufficientInput) => points.len() < 3,
            Err(ChainError::DegenerateHull) => points.len() >= 3 && on_one_line(points@),
            Err(ChainError::OutsideLattice) => false,
        },
{
    let n: usize = points.len();
    if n < 3 {
        return Err(ChainError::InsufficientInput);
    }
    let start: Point = march_start(points);
    let mut hull: Vec<Point> = Vec::new();
    let mut cur: Point = start;
    let mut closed: bool = false;
    while hull.len() < n && !closed
        invariant
            n == points.len(),
            n >= 3,
            hull.len() <= n,
            start == march(points@, 0),
            !closed ==> cur == march(points@, hull.len() as nat),
            !closed && hull.len() > 0 ==> cur != start,
            closed ==> hull.len() >= 1 && closes_at(points@, hull.len() as nat),
            forall|i: int| 0 <= i < hull.len() ==> #[trigger] hull@[i] == march(points@, i as nat),
            forall|j: nat| 0 < j < hull.len() ==> #[trigger] march(points@, j) != start,
        decreases n - hull.len() + (if closed { 0int } else { 1int }),
    {
        hull.push(cur);
        let next: Point = wrap_next(points, &cur);
        assert(next == march(points@, hull.len() as nat));
        if next == start {
            closed = true;
        } else {
            cur = next;
        }
    }
    if closed && hull.len() >= 3 {
        proof {
            lemma_hull_unique(points@, hull@);
            lemma_hull_spans_area(points@, hull@);
            lemma_march_finds_the_hull(points@, hull@);
            lemma_hull_starts_at_first_corner(points@, hull@);
            assert forall|first: Point|
                is_first_leftmost(points@, first) && is_left_end(points@, first) implies hull@[0]
                == first by {
                lemma_first_leftmost_starts(points@, first);
                lemma_start_unique(points@, first, hull@[0]);
            }
        }
        Ok(hull)
    } else {
        proof {
            if !on_one_line(points@) {
                lemma_march_closes(points@);
            }
            if has_hull(points@) {
                let k = choose|k: nat| 3 <= k <= points.len() && #[trigger] closes_at(points@, k);
                if closed {
                    lemma_closes_once(points@, k, hull.len() as nat);
                } else {
                    assert(hull.len() == n);
                    if k < n {
                        assert(march(points@, k) != start);
                    }
                }
            }
        }
        Err(ChainError::DegenerateHull)
    }
}

} // verus!
