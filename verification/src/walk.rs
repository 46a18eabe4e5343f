//! What holds of the walk along an outline, said without walking it: how
//! long each step is, and how near each sample lies to its edge.

use vstd::prelude::*;
use crate::chain::lemma_distance_bound;
use crate::geometry::{
    cross_spec, distance_spec, lemma_interpolate_distance, lemma_interpolate_drift, magnitude,
    taxicab, within_box, Point,
};
use crate::hull::{corner_after, next_index};
use crate::planar::lemma_wedge_flip;
use crate::resample::{
    advance, arc, edge_length, emit, lemma_arc_step, lemma_empty_outline,
    lemma_spacing_covers_outline, next_sample, perimeter_spec, reaches, resample_spec,
    ring_index, spacing_spec, stride, target, walker_after, Walker,
};

verus! {

/// `p` lies near the edge that leaves corner `e`: in the box that the two
/// ends of the edge span, and so near the line through them that the area
/// it spans with them is at most `slack` times the sum of the sizes of the
/// edge's two coordinates. Its distance from the line is this area by the
/// length of the edge, which is less than one and a half times `slack`
/// lattice steps.
pub open spec fn near_edge(polygon: Seq<Point>, e: int, p: Point, slack: int) -> bool {
    &&& 0 <= e < polygon.len()
    &&& within_box(polygon[e], corner_after(polygon, e), p)
    &&& magnitude(cross_spec(polygon[e], corner_after(polygon, e), p)) <= slack * taxicab(
        polygon[e],
        corner_after(polygon, e),
    )
}

/// The walker stands near its edge and has no more than a step to go.
pub open spec fn placed(polygon: Seq<Point>, step: int, w: Walker, slack: int) -> bool {
    &&& near_edge(polygon, w.edge, w.at, slack)
    &&& 0 <= w.remaining <= step
}

/// A corner lies on its own edge.
proof fn lemma_corner_on_edge(a: Point, b: Point)
    ensures
        cross_spec(a, b, a) == 0,
        within_box(a, b, a),
        taxicab(a, b) >= 0,
{
    lemma_wedge_flip(b.x - a.x, b.y - a.y, 0, 0);
}

/// A walker that stands on a corner, with less to go than is left of the
/// outline once round, puts its next sample near an edge, one step or up
/// to two lattice steps less from where it stands.
proof fn lemma_from_corner(
    polygon: Seq<Point>,
    step: int,
    w: Walker,
    base: int,
    m: int,
    fuel: nat,
)
    requires
        polygon.len() > 0,
        0 <= w.edge < polygon.len(),
        w.at == polygon[w.edge],
        0 <= base < polygon.len(),
        0 <= m < polygon.len(),
        w.edge == ring_index(polygon.len() as int, base, m),
        0 <= w.remaining,
        w.remaining + arc(polygon, base, m) <= step,
        step <= perimeter_spec(polygon),
        fuel + m + 1 >= polygon.len(),
    ensures
        near_edge(
            polygon,
            next_sample(polygon, step, w, fuel).edge,
            next_sample(polygon, step, w, fuel).at,
            1,
        ),
        next_sample(polygon, step, w, fuel).remaining == step,
        w.remaining - 2 <= stride(polygon, step, w, fuel) <= w.remaining,
    decreases fuel,
{
    let len = polygon.len() as int;
    let a = polygon[w.edge];
    let b = target(polygon, w);
    let d = distance_spec(w.at, b);
    lemma_distance_bound(w.at, b);
    lemma_corner_on_edge(a, b);
    assert(d == edge_length(polygon, w.edge));
    if reaches(polygon, w) {
        lemma_interpolate_distance(w.at, b, w.remaining);
        lemma_interpolate_drift(a, b, w.at, w.remaining, 0);
        assert(1 * taxicab(a, b) == taxicab(a, b)) by (nonlinear_arith);
        assert(next_sample(polygon, step, w, fuel) == emit(polygon, step, w));
    } else {
        lemma_arc_step(polygon, base, m);
        assert(m + 1 < len);
        let onward = advance(polygon, w);
        assert(onward.edge == ring_index(len, base, m + 1));
        lemma_from_corner(polygon, step, onward, base, m + 1, (fuel - 1) as nat);
    }
}

/// A walker that stands near its edge puts its next sample near an edge,
/// one step or up to two lattice steps less from where it stands.
pub proof fn lemma_next_sample(polygon: Seq<Point>, step: int, w: Walker, slack: int)
    requires
        polygon.len() > 0,
        placed(polygon, step, w, slack),
        slack >= 0,
        step <= perimeter_spec(polygon),
    ensures
        near_edge(
            polygon,
            next_sample(polygon, step, w, polygon.len()).edge,
            next_sample(polygon, step, w, polygon.len()).at,
            slack + 1,
        ),
        next_sample(polygon, step, w, polygon.len()).remaining == step,
        w.remaining - 2 <= stride(polygon, step, w, polygon.len()) <= w.remaining,
{
    let len = polygon.len() as int;
    let a = polygon[w.edge];
    let b = target(polygon, w);
    let d = distance_spec(w.at, b);
    lemma_distance_bound(w.at, b);
    lemma_corner_on_edge(a, b);
    if reaches(polygon, w) {
        lemma_interpolate_distance(w.at, b, w.remaining);
        lemma_interpolate_drift(a, b, w.at, w.remaining, slack * taxicab(a, b));
        assert((slack + 1) * taxicab(a, b) == slack * taxicab(a, b) + taxicab(a, b))
            by (nonlinear_arith);
        assert(next_sample(polygon, step, w, polygon.len()) == emit(polygon, step, w));
    } else {
        let onward = advance(polygon, w);
        let base = next_index(len, w.edge);
        lemma_arc_step(polygon, base, 0);
        lemma_from_corner(polygon, step, onward, base, 0, (len - 1) as nat);
        let found = next_sample(polygon, step, onward, (len - 1) as nat);
        let side = taxicab(polygon[found.edge], corner_after(polygon, found.edge));
        lemma_corner_on_edge(polygon[found.edge], corner_after(polygon, found.edge));
        assert(1 * side <= (slack + 1) * side) by (nonlinear_arith)
            requires
                slack >= 0,
                side >= 0,
        ;
    }
}

/// After any number of samples the walker stands near its edge, with a
/// whole step to go.
pub proof fn lemma_walker_placed(polygon: Seq<Point>, step: int, k: nat)
    requires
        polygon.len() > 0,
        0 <= step <= perimeter_spec(polygon),
    ensures
        placed(polygon, step, walker_after(polygon, step, k), k as int),
        walker_after(polygon, step, k).remaining == step,
    decreases k,
{
    if k == 0 {
        lemma_corner_on_edge(polygon[0], corner_after(polygon, 0));
        assert(0 * taxicab(polygon[0], corner_after(polygon, 0)) == 0) by (nonlinear_arith);
    } else {
        lemma_walker_placed(polygon, step, (k - 1) as nat);
        lemma_next_sample(polygon, step, walker_after(polygon, step, (k - 1) as nat), k - 1);
    }
}

/// The way from sample `k - 1` of `n`, or from corner 0, to sample `k`,
/// measured piece by piece along the outline.
pub open spec fn sample_step(polygon: Seq<Point>, n: nat, k: int) -> int {
    stride(
        polygon,
        spacing_spec(polygon, n),
        walker_after(polygon, spacing_spec(polygon, n), k as nat),
        polygon.len(),
    )
}

/// The corner that the edge of sample `k` of `n` leaves.
pub open spec fn sample_edge(polygon: Seq<Point>, n: nat, k: int) -> int {
    walker_after(polygon, spacing_spec(polygon, n), (k + 1) as nat).edge
}

/// Every sample is a spacing, or up to two lattice steps less, along the
/// outline from the one before; and every sample lies near its edge: in
/// the box of the edge's ends, and within one and a half lattice steps of
/// the line through them for each sample up to and including itself.
pub open spec fn keeps_to_the_outline(polygon: Seq<Point>, n: nat, path: Seq<Point>) -> bool {
    &&& path.len() == n
    &&& forall|k: int|
        0 <= k < n ==> spacing_spec(polygon, n) - 2 <= #[trigger] sample_step(polygon, n, k)
            <= spacing_spec(polygon, n)
    &&& forall|k: int|
        0 <= k < n ==> near_edge(polygon, sample_edge(polygon, n, k), #[trigger] path[k], k + 1)
}

/// Sample `k` of `n` round an outline: the way to it from the sample
/// before, measured piece by piece along the outline, is the spacing or up
/// to two lattice steps less; and it lies near the edge on which the walk
/// has put it, the nearer the fewer samples have gone before.
pub proof fn lemma_sample_keeps_to_the_outline(polygon: Seq<Point>, n: nat, k: nat)
    requires
        perimeter_spec(polygon) > 0,
        k < n,
    ensures
        spacing_spec(polygon, n) - 2 <= sample_step(polygon, n, k as int) <= spacing_spec(
            polygon,
            n,
        ),
        near_edge(
            polygon,
            sample_edge(polygon, n, k as int),
            resample_spec(polygon, n)[k as int],
            k as int + 1,
        ),
{
    let step = spacing_spec(polygon, n);
    lemma_empty_outline(polygon);
    lemma_spacing_covers_outline(polygon, n);
    let p = perimeter_spec(polygon);
    assert(0 <= step <= p) by (nonlinear_arith)
        requires
            step == p / (n as int),
            n > 0,
            p > 0,
    ;
    lemma_walker_placed(polygon, step, k);
    lemma_next_sample(polygon, step, walker_after(polygon, step, k), k as int);
}

/// The samples round an outline that has a length keep to the outline.
pub proof fn lemma_samples_keep_to_the_outline(polygon: Seq<Point>, n: nat)
    requires
        perimeter_spec(polygon) > 0,
    ensures
        keeps_to_the_outline(polygon, n, resample_spec(polygon, n)),
{
    let path = resample_spec(polygon, n);
    assert forall|k: int| 0 <= k < n implies spacing_spec(polygon, n) - 2 <= #[trigger] sample_step(
        polygon,
        n,
        k,
    ) <= spacing_spec(polygon, n) by {
        lemma_sample_keeps_to_the_outline(polygon, n, k as nat);
    }
    assert forall|k: int| 0 <= k < n implies near_edge(
        polygon,
        sample_edge(polygon, n, k),
        #[trigger] path[k],
        k + 1,
    ) by {
        lemma_sample_keeps_to_the_outline(polygon, n, k as nat);
    }
}

} // verus!
