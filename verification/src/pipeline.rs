//! From a point cloud to the places of the links: hull, then resampling.

use vstd::prelude::*;
use crate::chain::lemma_distance_bound;
use crate::closure::on_one_line;
use crate::convex::is_convex_hull;
use crate::error::ChainError;
use crate::geometry::{dist2_spec, distance_spec, Point};
use crate::hull::{corner_after, gift_wrapping, hull_spec};
use crate::isqrt::{is_floor_sqrt, lemma_floor_sqrt_exists};
use crate::planar::lemma_norm2_zero;
use crate::walk::keeps_to_the_outline;
use crate::resample::{
    boundary_prefix, edge_length, equidistant_points_on_polygon, near_outline, perimeter_spec,
    resample_spec,
};

verus! {

/// The number of links of the drive chain.
pub const LINK_COUNT: usize = 60;

/// The places of `n` links round `points`, or why there are none.
pub open spec fn link_points_spec(points: Seq<Point>, n: nat) -> Result<Seq<Point>, ChainError> {
    if points.len() < 3 {
        Err(ChainError::InsufficientInput)
    } else if on_one_line(points) {
        Err(ChainError::DegenerateHull)
    } else {
        Ok(resample_spec(hull_spec(points), n))
    }
}

/// Two different points are at least one lattice step apart.
pub proof fn lemma_apart(a: Point, b: Point)
    requires
        a != b,
    ensures
        distance_spec(a, b) >= 1,
{
    let dx = b.x - a.x;
    let dy = b.y - a.y;
    lemma_norm2_zero(dx, dy);
    let d2 = dist2_spec(a, b);
    assert(d2 >= 1);
    lemma_floor_sqrt_exists(d2);
    let r = distance_spec(a, b);
    assert(is_floor_sqrt(d2, r));
    if r < 1 {
        assert((r + 1) * (r + 1) == 1) by (nonlinear_arith)
            requires
                r == 0,
        ;
    }
}

/// The length of an outline is at least the length of its first edge.
pub proof fn lemma_prefix_grows(polygon: Seq<Point>, i: nat)
    ensures
        boundary_prefix(polygon, i) >= 0,
        i >= 1 ==> boundary_prefix(polygon, i) >= edge_length(polygon, 0),
    decreases i,
{
    if i > 0 {
        lemma_prefix_grows(polygon, (i - 1) as nat);
        let a = polygon[i - 1];
        let b = corner_after(polygon, i - 1);
        lemma_distance_bound(a, b);
    }
}

/// The outline of a hull has a length.
pub proof fn lemma_hull_has_length(points: Seq<Point>, hull: Seq<Point>)
    requires
        is_convex_hull(points, hull),
    ensures
        perimeter_spec(hull) >= 1,
{
    assert(hull[0] != hull[1]);
    lemma_apart(hull[0], hull[1]);
    lemma_prefix_grows(hull, hull.len());
}

/// The places of `n` links round the cloud `points`: `n` points at equal
/// steps of arc length along the convex hull of the cloud.
pub fn chain_link_points(points: &Vec<Point>, n: usize) -> (result: Result<Vec<Point>, ChainError>)
    ensures
        match result {
            Ok(path) => {
                &&& link_points_spec(points@, n as nat) == Ok::<Seq<Point>, ChainError>(path@)
                &&& path.len() == n
                &&& forall|k: int|
                    0 <= k < path.len() ==> near_outline(hull_spec(points@), #[trigger] path@[k])
                &&& keeps_to_the_outline(hull_spec(points@), n as nat, path@)
            },
            Err(e) => link_points_spec(points@, n as nat) == Err::<Seq<Point>, ChainError>(e),
        },
{
    match gift_wrapping(points) {
        Ok(hull) => {
            proof {
                lemma_hull_has_length(points@, hull@);
            }
            equidistant_points_on_polygon(&hull, n)
        },
        Err(e) => Err(e),
    }
}

/// The places of the links of the drive chain round the cloud `points`.
pub fn generate_chain_link_points_from_point_set(points: &Vec<Point>) -> (result: Result<
    Vec<Point>,
    ChainError,
>)
    ensures
        match result {
            Ok(path) => {
                &&& link_points_spec(points@, LINK_COUNT as nat) == Ok::<Seq<Point>, ChainError>(
                    path@,
                )
                &&& path.len() == LINK_COUNT
            },
            Err(e) => link_points_spec(points@, LINK_COUNT as nat) == Err::<Seq<Point>, ChainError>(
                e,
            ),
        },
{
    chain_link_points(points, LINK_COUNT)
}

} // verus!
