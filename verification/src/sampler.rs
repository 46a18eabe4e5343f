//! The boundary of each cog as a ring of lattice points.
//!
//! The directions in which the boundary is sampled are handed in: a list
//! of unit vectors, evenly spread round the circle, in fixed point. With
//! them the sampler needs no trigonometry of its own, and what it returns
//! is exact.

use vstd::prelude::*;
use crate::error::ChainError;
use crate::geometry::{
    dist2_spec, distance_spec, lemma_quotient_square, lemma_scale_square, magnitude, scale,
    scale_spec, Point,
};
use crate::isqrt::{is_floor_sqrt, lemma_floor_sqrt_exists};
use crate::planar::{lemma_norm2_zero, norm2};

verus! {

/// The length that stands for 1 in the components of a `Direction`.
pub const DIRECTION_SCALE: i32 = 1073741824;

/// The margin by which the chain clears the cogs.
pub const CHAIN_CLEARANCE: u32 = 1350;

/// The number of points taken from the boundary of one cog.
pub const SAMPLES_PER_COG: usize = 60;

/// A direction in the plane: the cosine and the sine of its angle, each
/// times `DIRECTION_SCALE`.
#[derive(Clone, Copy, Debug, PartialEq, Eq, Structural)]
pub struct Direction {
    pub cos: i32,
    pub sin: i32,
}

/// The direction is a unit vector, as far as its fixed point can tell: its
/// length is within one of `DIRECTION_SCALE`.
pub open spec fn is_unit(dir: Direction) -> bool {
    (DIRECTION_SCALE - 1) * (DIRECTION_SCALE - 1) <= norm2(dir.cos as int, dir.sin as int) <= (
    DIRECTION_SCALE + 1) * (DIRECTION_SCALE + 1)
}

impl Direction {
    /// Whether the direction is a unit vector, as far as its fixed point
    /// can tell.
    pub fn is_unit(&self) -> (unit: bool)
        ensures
            unit == is_unit(*self),
    {
        let c: i128 = self.cos as i128;
        let s: i128 = self.sin as i128;
        assert(0 <= c * c <= 0x4000_0000_0000_0000) by (nonlinear_arith)
            requires
                -0x8000_0000 <= c <= 0x8000_0000,
        ;
        assert(0 <= s * s <= 0x4000_0000_0000_0000) by (nonlinear_arith)
            requires
                -0x8000_0000 <= s <= 0x8000_0000,
        ;
        let length2: i128 = c * c + s * s;
        let low: i128 = DIRECTION_SCALE as i128 - 1;
        let high: i128 = DIRECTION_SCALE as i128 + 1;
        assert(low * low == 1152921502459363329 && high * high == 1152921506754330625)
            by (nonlinear_arith)
            requires
                low == 1073741823,
                high == 1073741825,
        ;
        assert((DIRECTION_SCALE - 1) * (DIRECTION_SCALE - 1) == low * low);
        assert((DIRECTION_SCALE + 1) * (DIRECTION_SCALE + 1) == high * high);
        low * low <= length2 && length2 <= high * high
    }
}

/// Every direction of the compass is a unit vector.
pub open spec fn all_unit(compass: Seq<Direction>) -> bool {
    forall|i: int| 0 <= i < compass.len() ==> is_unit(#[trigger] compass[i])
}

/// Whether every direction of `compass` is a unit vector, as far as its
/// fixed point can tell.
pub fn compass_is_unit(compass: &Vec<Direction>) -> (unit: bool)
    ensures
        unit == all_unit(compass@),
{
    let mut i: usize = 0;
    while i < compass.len()
        invariant
            i <= compass.len(),
            forall|k: int| 0 <= k < i ==> is_unit(#[trigger] compass@[k]),
        decreases compass.len() - i,
    {
        if !compass[i].is_unit() {
            return false;
        }
        i = i + 1;
    }
    true
}

/// A disc: the outline of a cog.
#[derive(Clone, Copy, Debug, PartialEq, Eq, Structural)]
pub struct Disc {
    pub center: Point,
    pub radius: u32,
}

/// The coordinate `reach` away from `origin` along a direction with the
/// component `component`.
pub open spec fn rim_coordinate(origin: int, reach: int, component: int) -> int {
    origin + scale_spec(component, reach, DIRECTION_SCALE as int)
}

/// The coordinate `v` is one of the lattice.
pub open spec fn on_lattice(v: int) -> bool {
    i32::MIN <= v <= i32::MAX
}

/// The point `reach` away from `center` in the direction `dir` is one of
/// the lattice.
pub open spec fn rim_fits(center: Point, reach: int, dir: Direction) -> bool {
    &&& on_lattice(rim_coordinate(center.x as int, reach, dir.cos as int))
    &&& on_lattice(rim_coordinate(center.y as int, reach, dir.sin as int))
}

/// The point `reach` away from `center` in the direction `dir`.
pub open spec fn rim_point(center: Point, reach: int, dir: Direction) -> Point {
    Point {
        x: rim_coordinate(center.x as int, reach, dir.cos as int) as i32,
        y: rim_coordinate(center.y as int, reach, dir.sin as int) as i32,
    }
}

/// The points `reach` away from `center`, one in each direction of
/// `compass`.
pub open spec fn rim_spec(center: Point, reach: int, compass: Seq<Direction>) -> Seq<Point> {
    Seq::new(compass.len(), |i: int| rim_point(center, reach, compass[i]))
}

/// All points `reach` away from `center` in the directions of `compass`
/// are of the lattice.
pub open spec fn rim_on_lattice(center: Point, reach: int, compass: Seq<Direction>) -> bool {
    forall|i: int| 0 <= i < compass.len() ==> rim_fits(center, reach, #[trigger] compass[i])
}

/// The point `reach` away from `center` in the direction `dir`, unless it
/// is off the lattice.
fn rim_point_at(center: &Point, reach: u64, dir: &Direction) -> (p: Option<Point>)
    ensures
        match p {
            Some(q) => rim_fits(*center, reach as int, *dir) && q == rim_point(
                *center,
                reach as int,
                *dir,
            ),
            None => !rim_fits(*center, reach as int, *dir),
        },
{
    let ox: i128 = scale(dir.cos as i64, reach, DIRECTION_SCALE as u64);
    let oy: i128 = scale(dir.sin as i64, reach, DIRECTION_SCALE as u64);
    proof {
        lemma_scale_range(dir.cos as int, reach as int);
        lemma_scale_range(dir.sin as int, reach as int);
    }
    let x: i128 = center.x as i128 + ox;
    let y: i128 = center.y as i128 + oy;
    if x < i32::MIN as i128 || x > i32::MAX as i128 || y < i32::MIN as i128 || y > i32::MAX as i128 {
        None
    } else {
        Some(Point { x: x as i32, y: y as i32 })
    }
}

/// A component of a direction, scaled by a reach of at most 64 bits, stays
/// well inside 128 bits.
proof fn lemma_scale_range(component: int, reach: int)
    requires
        i32::MIN <= component <= i32::MAX,
        0 <= reach <= u64::MAX,
    ensures
        -0x1_0000_0000_0000_0000_0000 <= scale_spec(component, reach, DIRECTION_SCALE as int)
            <= 0x1_0000_0000_0000_0000_0000,
{
    let m = if component >= 0 { component } else { -component };
    assert(0 <= (m * reach) / (DIRECTION_SCALE as int) <= 0x1_0000_0000_0000_0000_0000)
        by (nonlinear_arith)
        requires
            0 <= m <= 0x8000_0000,
            0 <= reach <= 0xffff_ffff_ffff_ffff,
            DIRECTION_SCALE == 1073741824,
    ;
}

/// The points `reach` away from `center`, one in each direction of
/// `compass`, in the order of `compass`.
fn rim(center: &Point, reach: u64, compass: &Vec<Direction>) -> (result: Result<
    Vec<Point>,
    ChainError,
>)
    ensures
        match result {
            Ok(ring) => rim_on_lattice(*center, reach as int, compass@) && ring@ == rim_spec(
                *center,
                reach as int,
                compass@,
            ),
            Err(e) => e == ChainError::OutsideLattice && !rim_on_lattice(
                *center,
                reach as int,
                compass@,
            ),
        },
{
    let mut ring: Vec<Point> = Vec::new();
    let mut i: usize = 0;
    while i < compass.len()
        invariant
            i <= compass.len(),
            ring@.len() == i,
            forall|k: int| 0 <= k < i ==> rim_fits(*center, reach as int, #[trigger] compass@[k]),
            forall|k: int|
                0 <= k < i ==> #[trigger] ring@[k] == rim_point(*center, reach as int, compass@[k]),
        decreases compass.len() - i,
    {
        match rim_point_at(center, reach, &compass[i]) {
            Some(p) => {
                ring.push(p);
            },
            None => {
                return Err(ChainError::OutsideLattice);
            },
        }
        i = i + 1;
    }
    assert(ring@ =~= rim_spec(*center, reach as int, compass@));
    Ok(ring)
}

impl Disc {
    /// The boundary of the disc as a polygon with one corner in each
    /// direction of `compass`, in the order of `compass`. A corner that
    /// falls off the lattice makes the disc `OutsideLattice`.
    pub fn simplify_disc_as_polygon(&self, compass: &Vec<Direction>) -> (result: Result<
        Vec<Point>,
        ChainError,
    >)
        ensures
            match result {
                Ok(polygon) => {
                    &&& rim_on_lattice(self.center, self.radius as int, compass@)
                    &&& polygon@ == rim_spec(self.center, self.radius as int, compass@)
                    &&& polygon.len() == compass.len()
                    &&& all_unit(compass@) && self.radius <= DIRECTION_SCALE ==> forall|i: int|
                        0 <= i < polygon.len() ==> near_circle(
                            self.center,
                            self.radius as int,
                            #[trigger] polygon@[i],
                        )
                },
                Err(e) => e == ChainError::OutsideLattice && !rim_on_lattice(
                    self.center,
                    self.radius as int,
                    compass@,
                ),
            },
    {
        let result = rim(&self.center, self.radius as u64, compass);
        proof {
            if result is Ok && all_unit(compass@) && self.radius <= DIRECTION_SCALE {
                let polygon = result->Ok_0;
                assert forall|i: int| 0 <= i < polygon.len() implies near_circle(
                    self.center,
                    self.radius as int,
                    #[trigger] polygon@[i],
                ) by {
                    assert(rim_fits(self.center, self.radius as int, compass@[i]));
                    lemma_rim_near_circle(self.center, self.radius as int, compass@[i]);
                }
            }
        }
        result
    }
}

/// The point cloud of the first `count` of `cogs`: the boundary of each,
/// `clearance` beyond its radius, one cog after the other.
pub open spec fn cloud_spec(
    cogs: Seq<Disc>,
    clearance: u32,
    compass: Seq<Direction>,
    count: nat,
) -> Seq<Point>
    decreases count,
{
    if count == 0 {
        Seq::empty()
    } else {
        cloud_spec(cogs, clearance, compass, (count - 1) as nat) + rim_spec(
            cogs[count - 1].center,
            cogs[count - 1].radius + clearance,
            compass,
        )
    }
}

/// The boundary of each of `cogs`, `clearance` beyond its radius, is on
/// the lattice.
pub open spec fn cogs_on_lattice(cogs: Seq<Disc>, clearance: u32, compass: Seq<Direction>) -> bool {
    forall|c: int|
        0 <= c < cogs.len() ==> rim_on_lattice(
            (#[trigger] cogs[c]).center,
            cogs[c].radius + clearance,
            compass,
        )
}

/// The cloud of `count` cogs has one point for each cog and direction.
pub proof fn lemma_cloud_len(cogs: Seq<Disc>, clearance: u32, compass: Seq<Direction>, count: nat)
    ensures
        cloud_spec(cogs, clearance, compass, count).len() == count * compass.len(),
    decreases count,
{
    if count > 0 {
        lemma_cloud_len(cogs, clearance, compass, (count - 1) as nat);
        assert(count * compass.len() == (count - 1) * compass.len() + compass.len())
            by (nonlinear_arith);
    } else {
        assert(0 * compass.len() == 0) by (nonlinear_arith);
    }
}

/// `p` lies on the circle of the radius `reach` round `center`, or up to
/// three lattice steps inside it, or one outside.
pub open spec fn near_circle(center: Point, reach: int, p: Point) -> bool {
    reach - 3 <= distance_spec(center, p) <= reach + 1
}

/// No cog, with the clearance round it, is wider than the fixed point of
/// the directions can tell.
pub open spec fn cogs_in_scale(cogs: Seq<Disc>, clearance: u32) -> bool {
    forall|c: int| 0 <= c < cogs.len() ==> (#[trigger] cogs[c]).radius + clearance <= DIRECTION_SCALE
}

/// The place in the cloud of the sample of cog `c` in direction `i`, where
/// each cog has `per_cog` samples.
pub open spec fn cloud_index(per_cog: nat, c: int, i: int) -> int {
    c * per_cog + i
}

/// The cloud holds, cog after cog, the sample of each cog in each
/// direction of the compass.
pub open spec fn cloud_on_the_compass(
    cogs: Seq<Disc>,
    clearance: u32,
    compass: Seq<Direction>,
    cloud: Seq<Point>,
) -> bool {
    &&& cloud.len() == cogs.len() * compass.len()
    &&& forall|c: int, i: int|
        0 <= c < cogs.len() && 0 <= i < compass.len() ==> {
            &&& 0 <= cloud_index(compass.len(), c, i) < cloud.len()
            &&& cloud[#[trigger] cloud_index(compass.len(), c, i)] == rim_point(
                cogs[c].center,
                cogs[c].radius + clearance,
                compass[i],
            )
        }
}

/// Every point of the cloud lies on the circle of its cog, the clearance
/// beyond the cog's radius, or up to three lattice steps inside it, or one
/// outside.
pub open spec fn cloud_near_circles(
    cogs: Seq<Disc>,
    clearance: u32,
    per_cog: nat,
    cloud: Seq<Point>,
) -> bool {
    forall|c: int, i: int|
        0 <= c < cogs.len() && 0 <= i < per_cog ==> near_circle(
            cogs[c].center,
            cogs[c].radius + clearance,
            cloud[#[trigger] cloud_index(per_cog, c, i)],
        )
}

/// The place of a sample in the cloud lies among the samples of its cog.
pub proof fn lemma_cloud_index(per_cog: nat, count: int, c: int, i: int)
    by (nonlinear_arith)
    requires
        0 <= c < count,
        0 <= i < per_cog,
    ensures
        0 <= cloud_index(per_cog, c, i) < count * per_cog,
        c < count - 1 ==> cloud_index(per_cog, c, i) < (count - 1) * per_cog,
        c == count - 1 ==> cloud_index(per_cog, c, i) - (count - 1) * per_cog == i,
{
}

/// The cloud of the first `count` cogs holds their samples cog after cog.
proof fn lemma_cloud_prefix_on_the_compass(
    cogs: Seq<Disc>,
    clearance: u32,
    compass: Seq<Direction>,
    count: nat,
    c: int,
    i: int,
)
    requires
        count <= cogs.len(),
        0 <= c < count,
        0 <= i < compass.len(),
    ensures
        0 <= cloud_index(compass.len(), c, i) < cloud_spec(cogs, clearance, compass, count).len(),
        cloud_spec(cogs, clearance, compass, count)[cloud_index(compass.len(), c, i)] == rim_point(
            cogs[c].center,
            cogs[c].radius + clearance,
            compass[i],
        ),
    decreases count,
{
    let m = compass.len();
    lemma_cloud_len(cogs, clearance, compass, count);
    lemma_cloud_len(cogs, clearance, compass, (count - 1) as nat);
    lemma_cloud_index(m, count as int, c, i);
    let before = cloud_spec(cogs, clearance, compass, (count - 1) as nat);
    let ring = rim_spec(cogs[count - 1].center, cogs[count - 1].radius + clearance, compass);
    assert(cloud_spec(cogs, clearance, compass, count) == before + ring);
    if c < count - 1 {
        lemma_cloud_prefix_on_the_compass(cogs, clearance, compass, (count - 1) as nat, c, i);
    }
}

/// The cloud holds, cog after cog, the sample of each cog in each
/// direction of the compass.
pub proof fn lemma_cloud_on_the_compass(cogs: Seq<Disc>, clearance: u32, compass: Seq<Direction>)
    ensures
        cloud_on_the_compass(
            cogs,
            clearance,
            compass,
            cloud_spec(cogs, clearance, compass, cogs.len()),
        ),
{
    let cloud = cloud_spec(cogs, clearance, compass, cogs.len());
    lemma_cloud_len(cogs, clearance, compass, cogs.len());
    assert forall|c: int, i: int| 0 <= c < cogs.len() && 0 <= i < compass.len() implies {
        &&& 0 <= cloud_index(compass.len(), c, i) < cloud.len()
        &&& cloud[#[trigger] cloud_index(compass.len(), c, i)] == rim_point(
            cogs[c].center,
            cogs[c].radius + clearance,
            compass[i],
        )
    } by {
        lemma_cloud_prefix_on_the_compass(cogs, clearance, compass, cogs.len(), c, i);
    }
}

/// With unit directions, every point of the cloud lies on the circle of
/// its cog, the clearance beyond the cog's radius, or up to three lattice
/// steps inside it, or one outside.
pub proof fn lemma_cloud_near_circles(cogs: Seq<Disc>, clearance: u32, compass: Seq<Direction>)
    requires
        all_unit(compass),
        cogs_in_scale(cogs, clearance),
        cogs_on_lattice(cogs, clearance, compass),
    ensures
        cloud_near_circles(
            cogs,
            clearance,
            compass.len(),
            cloud_spec(cogs, clearance, compass, cogs.len()),
        ),
{
    let cloud = cloud_spec(cogs, clearance, compass, cogs.len());
    lemma_cloud_on_the_compass(cogs, clearance, compass);
    assert forall|c: int, i: int| 0 <= c < cogs.len() && 0 <= i < compass.len() implies near_circle(
        cogs[c].center,
        cogs[c].radius + clearance,
        cloud[#[trigger] cloud_index(compass.len(), c, i)],
    ) by {
        assert(rim_on_lattice(cogs[c].center, cogs[c].radius + clearance, compass));
        assert(rim_fits(cogs[c].center, cogs[c].radius + clearance, compass[i]));
        lemma_rim_near_circle(cogs[c].center, cogs[c].radius + clearance, compass[i]);
    }
}

/// The point cloud of `cogs`: for each cog in turn, the points at its
/// radius plus `clearance` from its centre, one in each direction of
/// `compass`. A point that falls off the lattice makes the whole cloud
/// `OutsideLattice`.
pub fn sample_profiles(cogs: &Vec<Disc>, clearance: u32, compass: &Vec<Direction>) -> (result:
    Result<Vec<Point>, ChainError>)
    ensures
        match result {
            Ok(cloud) => {
                &&& cogs_on_lattice(cogs@, clearance, compass@)
                &&& cloud@ == cloud_spec(cogs@, clearance, compass@, cogs.len() as nat)
                &&& cloud.len() == cogs.len() * compass.len()
                &&& cloud_on_the_compass(cogs@, clearance, compass@, cloud@)
                &&& all_unit(compass@) && cogs_in_scale(cogs@, clearance) ==> cloud_near_circles(
                    cogs@,
                    clearance,
                    compass@.len(),
                    cloud@,
                )
            },
            Err(e) => e == ChainError::OutsideLattice && !cogs_on_lattice(
                cogs@,
                clearance,
                compass@,
            ),
        },
{
    let mut cloud: Vec<Point> = Vec::new();
    let mut c: usize = 0;
    while c < cogs.len()
        invariant
            c <= cogs.len(),
            cloud@ == cloud_spec(cogs@, clearance, compass@, c as nat),
            forall|k: int|
                0 <= k < c ==> rim_on_lattice(
                    (#[trigger] cogs@[k]).center,
                    cogs@[k].radius + clearance,
                    compass@,
                ),
        decreases cogs.len() - c,
    {
        let reach: u64 = cogs[c].radius as u64 + clearance as u64;
        match rim(&cogs[c].center, reach, compass) {
            Ok(mut ring) => {
                cloud.append(&mut ring);
            },
            Err(_) => {
                return Err(ChainError::OutsideLattice);
            },
        }
        c = c + 1;
    }
    proof {
        lemma_cloud_len(cogs@, clearance, compass@, cogs.len() as nat);
        lemma_cloud_on_the_compass(cogs@, clearance, compass@);
        if all_unit(compass@) && cogs_in_scale(cogs@, clearance) {
            lemma_cloud_near_circles(cogs@, clearance, compass@);
        }
    }
    Ok(cloud)
}

/// A sample taken in a unit direction lies on the circle of the radius
/// `reach` round `center`, or up to three lattice steps inside it, or one
/// outside: so much is lost where the direction is given in fixed point
/// and the coordinates and the distance are rounded down.
pub proof fn lemma_rim_near_circle(center: Point, reach: int, dir: Direction)
    requires
        is_unit(dir),
        0 <= reach <= DIRECTION_SCALE,
        rim_fits(center, reach, dir),
    ensures
        reach - 3 <= distance_spec(center, rim_point(center, reach, dir)) <= reach + 1,
{
    let unit = DIRECTION_SCALE as int;
    let p = rim_point(center, reach, dir);
    let ox = scale_spec(dir.cos as int, reach, unit);
    let oy = scale_spec(dir.sin as int, reach, unit);
    assert(p.x - center.x == ox);
    assert(p.y - center.y == oy);
    let big = dist2_spec(center, p);
    lemma_norm2_zero(ox, oy);
    lemma_floor_sqrt_exists(big);
    let m = distance_spec(center, p);
    assert(is_floor_sqrt(big, m));
    let c = magnitude(dir.cos as int);
    let s = magnitude(dir.sin as int);
    let qx = (c * reach) / unit;
    let qy = (s * reach) / unit;
    lemma_scale_square(dir.cos as int, reach, unit);
    lemma_scale_square(dir.sin as int, reach, unit);
    lemma_quotient_square(c, reach, unit, qx);
    lemma_quotient_square(s, reach, unit, qy);
    let length2 = norm2(dir.cos as int, dir.sin as int);
    assert(length2 == c * c + s * s);
    assert(big == qx * qx + qy * qy);
    // not farther than `reach + 1`
    assert(big <= (reach + 1) * (reach + 1)) by (nonlinear_arith)
        requires
            big == qx * qx + qy * qy,
            length2 == c * c + s * s,
            (qx * qx) * (unit * unit) <= (c * c) * (reach * reach),
            (qy * qy) * (unit * unit) <= (s * s) * (reach * reach),
            length2 <= (unit + 1) * (unit + 1),
            0 <= reach <= unit,
            0 < unit,
    {
        assert(big * (unit * unit) <= length2 * (reach * reach));
        assert(length2 * (reach * reach) <= ((unit + 1) * (unit + 1)) * (reach * reach));
        assert((unit + 1) * reach <= (reach + 1) * unit);
        assert(((unit + 1) * reach) * ((unit + 1) * reach) <= ((reach + 1) * unit) * ((reach + 1)
            * unit));
        assert(big * (unit * unit) <= ((reach + 1) * (reach + 1)) * (unit * unit));
    }
    assert(m <= reach + 1) by (nonlinear_arith)
        requires
            m * m <= big,
            big <= (reach + 1) * (reach + 1),
            0 <= m,
            0 <= reach,
    ;
    // not nearer than `reach - 3`
    assert(qx <= m && qy <= m) by (nonlinear_arith)
        requires
            big == qx * qx + qy * qy,
            big < (m + 1) * (m + 1),
            0 <= qx,
            0 <= qy,
            0 <= m,
    ;
    if reach >= 1 {
        assert((reach - 1) * (reach - 1) < (m + 3) * (m + 3)) by (nonlinear_arith)
            requires
                big == qx * qx + qy * qy,
                length2 == c * c + s * s,
                (c * c) * (reach * reach) < ((qx + 1) * (qx + 1)) * (unit * unit),
                (s * s) * (reach * reach) < ((qy + 1) * (qy + 1)) * (unit * unit),
                (unit - 1) * (unit - 1) <= length2,
                big < (m + 1) * (m + 1),
                0 <= qx <= m,
                0 <= qy <= m,
                1 <= reach <= unit,
                0 < unit,
        {
            assert(length2 * (reach * reach) < ((qx + 1) * (qx + 1) + (qy + 1) * (qy + 1)) * (unit
                * unit));
            assert(((unit - 1) * (unit - 1)) * (reach * reach) <= length2 * (reach * reach));
            assert((reach - 1) * unit <= (unit - 1) * reach);
            assert(((reach - 1) * unit) * ((reach - 1) * unit) <= ((unit - 1) * reach) * ((unit
                - 1) * reach));
            assert(((reach - 1) * (reach - 1)) * (unit * unit) < ((qx + 1) * (qx + 1) + (qy + 1)
                * (qy + 1)) * (unit * unit));
            assert((reach - 1) * (reach - 1) < (qx + 1) * (qx + 1) + (qy + 1) * (qy + 1));
            assert((qx + 1) * (qx + 1) + (qy + 1) * (qy + 1) == big + 2 * qx + 2 * qy + 2);
        }
        assert(reach - 1 < m + 3) by (nonlinear_arith)
            requires
                (reach - 1) * (reach - 1) < (m + 3) * (m + 3),
                1 <= reach,
                0 <= m,
        ;
    }
}

/// The compass holds the directions straight to the right, straight up and
/// straight to the left.
pub open spec fn has_three_axes(compass: Seq<Direction>) -> bool {
    &&& compass.contains(Direction { cos: DIRECTION_SCALE, sin: 0 })
    &&& compass.contains(Direction { cos: 0, sin: DIRECTION_SCALE })
    &&& compass.contains(Direction { cos: -1073741824i32, sin: 0i32 })
}

/// A sample straight along an axis lies the whole reach from the centre.
proof fn lemma_axis_offset(reach: int)
    requires
        0 <= reach,
    ensures
        scale_spec(DIRECTION_SCALE as int, reach, DIRECTION_SCALE as int) == reach,
        scale_spec(-DIRECTION_SCALE as int, reach, DIRECTION_SCALE as int) == -reach,
        scale_spec(0, reach, DIRECTION_SCALE as int) == 0,
{
    let unit = DIRECTION_SCALE as int;
    assert((unit * reach) / unit == reach) by (nonlinear_arith)
        requires
            unit == 1073741824,
            0 <= reach,
    ;
    assert((0 * reach) / unit == 0) by (nonlinear_arith)
        requires
            unit == 1073741824,
    ;
}

/// Where the compass holds three of the four directions along the axes and
/// the first cog, with the clearance round it, has any size, the cloud
/// spans an area: it has three points and more that are not on one line.
pub proof fn lemma_cloud_spans_area(cogs: Seq<Disc>, clearance: u32, compass: Seq<Direction>)
    requires
        cogs.len() >= 1,
        has_three_axes(compass),
        cogs_on_lattice(cogs, clearance, compass),
        cogs[0].radius + clearance >= 1,
    ensures
        cloud_spec(cogs, clearance, compass, cogs.len()).len() >= 3,
        !crate::closure::on_one_line(cloud_spec(cogs, clearance, compass, cogs.len())),
{
    let cloud = cloud_spec(cogs, clearance, compass, cogs.len());
    let m = compass.len();
    let center = cogs[0].center;
    let reach = cogs[0].radius + clearance;
    let east = Direction { cos: DIRECTION_SCALE, sin: 0 };
    let north = Direction { cos: 0, sin: DIRECTION_SCALE };
    let west = Direction { cos: -1073741824i32, sin: 0i32 };
    let ie = choose|i: int| 0 <= i < m && compass[i] == east;
    let inorth = choose|i: int| 0 <= i < m && compass[i] == north;
    let iw = choose|i: int| 0 <= i < m && compass[i] == west;
    lemma_cloud_on_the_compass(cogs, clearance, compass);
    lemma_axis_offset(reach);
    assert(rim_on_lattice(center, reach, compass));
    assert(rim_fits(center, reach, compass[ie]));
    assert(rim_fits(center, reach, compass[inorth]));
    assert(rim_fits(center, reach, compass[iw]));
    let pe = cloud[cloud_index(m, 0, ie)];
    let pn = cloud[cloud_index(m, 0, inorth)];
    let pw = cloud[cloud_index(m, 0, iw)];
    assert(cloud_index(m, 0, ie) == ie && cloud_index(m, 0, inorth) == inorth && cloud_index(
        m,
        0,
        iw,
    ) == iw) by (nonlinear_arith);
    assert(pe == rim_point(center, reach, east));
    assert(pn == rim_point(center, reach, north));
    assert(pw == rim_point(center, reach, west));
    assert(pe.x == center.x + reach && pe.y == center.y);
    assert(pn.x == center.x && pn.y == center.y + reach);
    assert(pw.x == center.x - reach && pw.y == center.y);
    assert(crate::geometry::cross_spec(pw, pe, pn) == 2 * (reach * reach)) by (nonlinear_arith)
        requires
            pe.x - pw.x == 2 * reach,
            pe.y - pw.y == 0,
            pn.x - pw.x == reach,
            pn.y - pw.y == reach,
            crate::geometry::cross_spec(pw, pe, pn) == (pe.x - pw.x) * (pn.y - pw.y) - (pe.y
                - pw.y) * (pn.x - pw.x),
    ;
    assert(reach * reach >= 1) by (nonlinear_arith)
        requires
            reach >= 1,
    ;
    assert(m >= 3);
    assert(cloud.len() >= 3) by (nonlinear_arith)
        requires
            cloud.len() == cogs.len() * m,
            cogs.len() >= 1,
            m >= 3,
    ;
    assert(crate::geometry::cross_spec(cloud[iw], cloud[ie], cloud[inorth]) != 0);
}

} // verus!
