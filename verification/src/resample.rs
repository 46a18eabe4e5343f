//! Points at equal steps of arc length along a closed outline.
//!
//! Lengths are whole lattice steps: the length of an edge is its Euclidean
//! length rounded down, the outline's length is the sum of these, and the
//! step between two samples is that sum divided by the number of samples,
//! rounded down.

use vstd::prelude::*;
use crate::error::ChainError;
use crate::geometry::{
    distance_spec, interpolate_spec, lemma_interpolate_distance, within_box, Point,
};
use crate::hull::{corner_after, next_index};
use crate::walk::{keeps_to_the_outline, lemma_samples_keep_to_the_outline};

verus! {

/// The length of the edge that leaves corner `i`.
pub open spec fn edge_length(polygon: Seq<Point>, i: int) -> int {
    distance_spec(polygon[i], corner_after(polygon, i))
}

/// The length of the outline from corner 0 to corner `i`.
pub open spec fn boundary_prefix(polygon: Seq<Point>, i: nat) -> int
    decreases i,
{
    if i == 0 {
        0
    } else {
        boundary_prefix(polygon, (i - 1) as nat) + edge_length(polygon, i - 1)
    }
}

/// The length of the whole outline, the closing edge included.
pub open spec fn perimeter_spec(polygon: Seq<Point>) -> int {
    boundary_prefix(polygon, polygon.len())
}

/// The arc length between two neighbouring samples.
pub open spec fn spacing_spec(polygon: Seq<Point>, n: nat) -> int {
    perimeter_spec(polygon) / (n as int)
}

/// Where the walk along the outline stands: on the edge that leaves corner
/// `edge`, at the point `at`, with `remaining` still to go to the next
/// sample.
pub struct Walker {
    pub edge: int,
    pub at: Point,
    pub remaining: int,
}

/// The corner towards which the walker is heading.
pub open spec fn target(polygon: Seq<Point>, w: Walker) -> Point {
    corner_after(polygon, w.edge)
}

/// The next sample lies on what is left of the walker's edge.
pub open spec fn reaches(polygon: Seq<Point>, w: Walker) -> bool {
    w.remaining <= distance_spec(w.at, target(polygon, w))
}

/// The walker after it has gone on to the end of its edge.
pub open spec fn advance(polygon: Seq<Point>, w: Walker) -> Walker {
    Walker {
        edge: next_index(polygon.len() as int, w.edge),
        at: target(polygon, w),
        remaining: w.remaining - distance_spec(w.at, target(polygon, w)),
    }
}

/// The walker after it has put a sample on its edge, with `step` to go to
/// the one after.
pub open spec fn emit(polygon: Seq<Point>, step: int, w: Walker) -> Walker {
    Walker {
        edge: w.edge,
        at: interpolate_spec(
            w.at,
            target(polygon, w),
            w.remaining,
            distance_spec(w.at, target(polygon, w)),
        ),
        remaining: step,
    }
}

/// The walker after its next sample, going on over at most `fuel` corners
/// to get there.
pub open spec fn next_sample(polygon: Seq<Point>, step: int, w: Walker, fuel: nat) -> Walker
    decreases fuel,
{
    if reaches(polygon, w) || fuel == 0 {
        emit(polygon, step, w)
    } else {
        next_sample(polygon, step, advance(polygon, w), (fuel - 1) as nat)
    }
}

/// The walker after `k` samples. It sets out from corner 0.
pub open spec fn walker_after(polygon: Seq<Point>, step: int, k: nat) -> Walker
    decreases k,
{
    if k == 0 {
        Walker { edge: 0, at: polygon[0], remaining: step }
    } else {
        next_sample(polygon, step, walker_after(polygon, step, (k - 1) as nat), polygon.len())
    }
}

/// The way along the outline from where the walker stands to its next
/// sample, measured piece by piece as the walker goes: to the end of each
/// edge that it leaves, and at last to the sample.
pub open spec fn stride(polygon: Seq<Point>, step: int, w: Walker, fuel: nat) -> int
    decreases fuel,
{
    if reaches(polygon, w) || fuel == 0 {
        distance_spec(w.at, emit(polygon, step, w).at)
    } else {
        distance_spec(w.at, target(polygon, w)) + stride(
            polygon,
            step,
            advance(polygon, w),
            (fuel - 1) as nat,
        )
    }
}

/// The way along the outline from corner 0 through the first `k` samples,
/// measured piece by piece.
pub open spec fn way_along(polygon: Seq<Point>, step: int, k: nat) -> int
    decreases k,
{
    if k == 0 {
        0
    } else {
        way_along(polygon, step, (k - 1) as nat) + stride(
            polygon,
            step,
            walker_after(polygon, step, (k - 1) as nat),
            polygon.len(),
        )
    }
}

/// The `n` samples of the walk around `polygon`.
pub open spec fn resample_spec(polygon: Seq<Point>, n: nat) -> Seq<Point> {
    Seq::new(n, |k: int| walker_after(polygon, spacing_spec(polygon, n), (k + 1) as nat).at)
}

/// The length of the `m` edges from corner `base` on, around the ring.
pub open spec fn arc(polygon: Seq<Point>, base: int, m: int) -> int {
    if base + m <= polygon.len() {
        boundary_prefix(polygon, (base + m) as nat) - boundary_prefix(polygon, base as nat)
    } else {
        perimeter_spec(polygon) - boundary_prefix(polygon, base as nat) + boundary_prefix(
            polygon,
            (base + m - polygon.len()) as nat,
        )
    }
}

/// The corner `m` places after `base` on the ring.
pub open spec fn ring_index(n: int, base: int, m: int) -> int {
    if base + m < n {
        base + m
    } else {
        base + m - n
    }
}

/// An arc grows by the edge at its end; the arc once around is the whole
/// outline.
pub proof fn lemma_arc_step(polygon: Seq<Point>, base: int, m: int)
    requires
        0 <= base < polygon.len(),
        0 <= m < polygon.len(),
    ensures
        arc(polygon, base, 0) == 0,
        arc(polygon, base, m + 1) == arc(polygon, base, m) + edge_length(
            polygon,
            ring_index(polygon.len() as int, base, m),
        ),
        arc(polygon, base, polygon.len() as int) == perimeter_spec(polygon),
        ring_index(polygon.len() as int, base, m + 1) == next_index(
            polygon.len() as int,
            ring_index(polygon.len() as int, base, m),
        ) || m + 1 == polygon.len(),
{
    let n = polygon.len() as int;
    if base + m + 1 <= n {
        assert(boundary_prefix(polygon, (base + m + 1) as nat) == boundary_prefix(
            polygon,
            (base + m) as nat,
        ) + edge_length(polygon, base + m));
    } else {
        let h = base + m - n;
        assert(boundary_prefix(polygon, (h + 1) as nat) == boundary_prefix(polygon, h as nat)
            + edge_length(polygon, h));
    }
}

/// The steps between `n` samples add up to the length of the outline, less
/// what is lost in rounding the step down: less than one lattice step for
/// each sample.
pub proof fn lemma_spacing_covers_outline(polygon: Seq<Point>, n: nat)
    requires
        n > 0,
        perimeter_spec(polygon) >= 0,
    ensures
        n * spacing_spec(polygon, n) <= perimeter_spec(polygon),
        perimeter_spec(polygon) < n * spacing_spec(polygon, n) + n,
{
    let p = perimeter_spec(polygon);
    assert(n * (p / (n as int)) <= p < n * (p / (n as int)) + n) by (nonlinear_arith)
        requires
            n > 0,
            p >= 0,
    ;
}

/// An outline without corners has no length.
pub proof fn lemma_empty_outline(polygon: Seq<Point>)
    ensures
        boundary_prefix(polygon, 0) == 0,
        polygon.len() == 0 ==> perimeter_spec(polygon) == 0,
{
}

/// `p` lies in the box spanned by the two ends of some edge of the outline.
pub open spec fn near_outline(polygon: Seq<Point>, p: Point) -> bool {
    exists|i: int|
        0 <= i < polygon.len() && within_box(#[trigger] polygon[i], corner_after(polygon, i), p)
}

/// The length of the outline of `polygon`: the sum of the lengths of its
/// edges, each rounded down, the edge from the last corner back to the
/// first included.
pub fn polygon_perimeter(polygon: &Vec<Point>) -> (perimeter: u128)
    ensures
        perimeter == perimeter_spec(polygon@),
{
    let len: usize = polygon.len();
    let mut sum: u128 = 0;
    let mut i: usize = 0;
    while i < len
        invariant
            len == polygon.len(),
            i <= len,
            sum == boundary_prefix(polygon@, i as nat),
            sum <= i * 0xffff_ffff_ffff_ffff,
        decreases len - i,
    {
        let j: usize = if i + 1 < len { i + 1 } else { 0 };
        let d: u64 = polygon[i].distance(&polygon[j]);
        assert((i + 1) * 0xffff_ffff_ffff_ffff <= 0xffff_ffff_ffff_ffff_ffff_ffff_ffff_ffff)
            by (nonlinear_arith)
            requires
                0 <= i < 0xffff_ffff_ffff_ffff,
        ;
        assert((i + 1) * 0xffff_ffff_ffff_ffff == i * 0xffff_ffff_ffff_ffff
            + 0xffff_ffff_ffff_ffff) by (nonlinear_arith);
        sum = sum + d as u128;
        i = i + 1;
    }
    sum
}

/// `num_points` points around `polygon`, one every `perimeter / num_points`
/// lattice steps of arc length, the first of them one such step after
/// corner 0.
///
/// The walk keeps the distance that is left to the next sample. Where the
/// rest of the current edge is at least that long, the sample is put on it
/// in proportion, and the walk goes on from the sample; where it is
/// shorter, its length is taken off and the walk goes on from the next
/// corner.
///
/// An outline of length zero is a `DegenerateHull`.
pub fn equidistant_points_on_polygon(polygon: &Vec<Point>, num_points: usize) -> (result: Result<
    Vec<Point>,
    ChainError,
>)
    ensures
        match result {
            Ok(path) => {
                &&& perimeter_spec(polygon@) > 0
                &&& path.len() == num_points
                &&& path@ == resample_spec(polygon@, num_points as nat)
                &&& forall|k: int| 0 <= k < path.len() ==> near_outline(polygon@, #[trigger] path@[k])
                &&& keeps_to_the_outline(polygon@, num_points as nat, path@)
                &&& num_points > 0 ==> perimeter_spec(polygon@) - 3 * num_points < way_along(
                    polygon@,
                    spacing_spec(polygon@, num_points as nat),
                    num_points as nat,
                ) <= perimeter_spec(polygon@)
            },
            Err(e) => e == ChainError::DegenerateHull && perimeter_spec(polygon@) == 0,
        },
{
    let perimeter: u128 = polygon_perimeter(polygon);
    if perimeter == 0 {
        return Err(ChainError::DegenerateHull);
    }
    let mut path: Vec<Point> = Vec::new();
    if num_points == 0 {
        assert(path@ =~= resample_spec(polygon@, 0));
        proof {
            lemma_samples_keep_to_the_outline(polygon@, 0);
        }
        return Ok(path);
    }
    proof {
        lemma_empty_outline(polygon@);
    }
    let len: usize = polygon.len();
    let step: u128 = perimeter / (num_points as u128);
    let mut remaining: u128 = step;
    let mut edge: usize = 0;
    let mut at: Point = polygon[0];
    let ghost mut origin: Walker = Walker { edge: 0, at: polygon@[0], remaining: step as int };
    let ghost mut fuel: nat = len as nat;
    let ghost mut on_corner: bool = true;
    let ghost mut base: int = 0;
    let ghost mut m: int = 0;
    let ghost mut walked: int = 0;
    let ghost mut total: int = 0;
    proof {
        lemma_arc_step(polygon@, 0, 0);
        lemma_spacing_covers_outline(polygon@, num_points as nat);
        assert(0 * step == 0) by (nonlinear_arith);
    }
    while path.len() < num_points
        invariant
            len == polygon.len(),
            len > 0,
            perimeter == perimeter_spec(polygon@),
            step == spacing_spec(polygon@, num_points as nat),
            step <= perimeter,
            path.len() <= num_points,
            0 <= edge < len,
            remaining <= step,
            origin == walker_after(polygon@, step as int, path.len() as nat),
            next_sample(polygon@, step as int, origin, len as nat) == next_sample(
                polygon@,
                step as int,
                Walker { edge: edge as int, at: at, remaining: remaining as int },
                fuel,
            ),
            fuel <= len,
            stride(polygon@, step as int, origin, len as nat) == walked + stride(
                polygon@,
                step as int,
                Walker { edge: edge as int, at: at, remaining: remaining as int },
                fuel,
            ),
            walked + remaining == step,
            total == way_along(polygon@, step as int, path.len() as nat),
            path.len() * step - 2 * path.len() <= total <= path.len() * step,
            within_box(polygon@[edge as int], corner_after(polygon@, edge as int), at),
            !on_corner ==> fuel == len,
            on_corner ==> {
                &&& at == polygon@[edge as int]
                &&& 0 <= base < len
                &&& 0 <= m < len
                &&& edge == ring_index(len as int, base, m)
                &&& remaining + arc(polygon@, base, m) <= step
                &&& fuel + m + 1 >= len
            },
            forall|k: int|
                0 <= k < path.len() ==> #[trigger] path@[k] == walker_after(
                    polygon@,
                    step as int,
                    (k + 1) as nat,
                ).at,
            forall|k: int| 0 <= k < path.len() ==> near_outline(polygon@, #[trigger] path@[k]),
        decreases num_points - path.len(), fuel,
    {
        let next: usize = if edge + 1 < len { edge + 1 } else { 0 };
        let corner: Point = polygon[next];
        let d: u64 = at.distance(&corner);
        let ghost here = Walker { edge: edge as int, at: at, remaining: remaining as int };
        assert(corner == target(polygon@, here));
        if remaining <= d as u128 {
            let sample: Point = at.interpolate(&corner, remaining as u64, d);
            proof {
                assert(reaches(polygon@, here));
                assert(within_box(polygon@[edge as int], corner, sample));
                lemma_interpolate_distance(at, corner, remaining as int);
                assert(stride(polygon@, step as int, here, fuel) == distance_spec(at, sample));
                total = total + walked + distance_spec(at, sample);
                walked = 0;
                assert((path.len() + 1) * step == path.len() * step + step) by (nonlinear_arith);
                origin = emit(polygon@, step as int, here);
                fuel = len as nat;
                on_corner = false;
            }
            path.push(sample);
            remaining = step;
            at = sample;
        } else {
            proof {
                if on_corner {
                    lemma_arc_step(polygon@, base, m);
                    assert(d == edge_length(polygon@, edge as int));
                    m = m + 1;
                } else {
                    on_corner = true;
                    base = next as int;
                    m = 0;
                    lemma_arc_step(polygon@, base, 0);
                }
                assert(fuel >= 1);
                assert(!reaches(polygon@, here));
                walked = walked + d;
                fuel = (fuel - 1) as nat;
            }
            remaining = remaining - d as u128;
            edge = next;
            at = corner;
        }
    }
    assert(path@ =~= resample_spec(polygon@, num_points as nat));
    assert(num_points * step == (num_points as nat) * spacing_spec(polygon@, num_points as nat));
    proof {
        lemma_samples_keep_to_the_outline(polygon@, num_points as nat);
    }
    Ok(path)
}

} // verus!
