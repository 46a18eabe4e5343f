//! The chain itself: one link per point of the path, one distance
//! constraint per pair of neighbours, the last link joined to the first.
//!
//! Links and constraints are kept in two arrays. A constraint names its two
//! links by their index, so the ring has no owner of its own.
//!
//! Lengths are lattice steps, a thousand of which make one unit of the
//! world. Mass, friction and compliance are thousandths as well.

use vstd::prelude::*;
use crate::geometry::{distance_spec, Point};
use crate::hull::next_index;

verus! {

/// The collision layers of the world, one bit each in the order given.
#[derive(Clone, Copy, Debug, PartialEq, Eq, Structural)]
pub enum GameLayer {
    Default,
    World,
    Frame,
    Wheels,
    AttachmentPoints,
    Groupset,
    Chain,
}

/// The place of a layer in the order of the layers.
pub open spec fn layer_index(layer: GameLayer) -> nat {
    match layer {
        GameLayer::Default => 0,
        GameLayer::World => 1,
        GameLayer::Frame => 2,
        GameLayer::Wheels => 3,
        GameLayer::AttachmentPoints => 4,
        GameLayer::Groupset => 5,
        GameLayer::Chain => 6,
    }
}

/// The bit that stands for a layer in a mask.
pub open spec fn layer_bit(layer: GameLayer) -> u32 {
    match layer {
        GameLayer::Default => 1,
        GameLayer::World => 2,
        GameLayer::Frame => 4,
        GameLayer::Wheels => 8,
        GameLayer::AttachmentPoints => 16,
        GameLayer::Groupset => 32,
        GameLayer::Chain => 64,
    }
}

impl GameLayer {
    /// The mask with only the bit of this layer set.
    pub fn to_bits(&self) -> (bits: u32)
        ensures
            bits == layer_bit(*self),
            bits == 1u32 << (layer_index(*self) as u32),
    {
        assert(1u32 << 0u32 == 1 && 1u32 << 1u32 == 2 && 1u32 << 2u32 == 4 && 1u32 << 3u32 == 8
            && 1u32 << 4u32 == 16 && 1u32 << 5u32 == 32 && 1u32 << 6u32 == 64) by (bit_vector);
        match self {
            GameLayer::Default => 1,
            GameLayer::World => 2,
            GameLayer::Frame => 4,
            GameLayer::Wheels => 8,
            GameLayer::AttachmentPoints => 16,
            GameLayer::Groupset => 32,
            GameLayer::Chain => 64,
        }
    }
}

/// The layers a body belongs to and the layers it takes notice of.
#[derive(Clone, Copy, Debug, PartialEq, Eq, Structural)]
pub struct CollisionFilter {
    pub memberships: u32,
    pub filters: u32,
}

/// Two bodies collide when each belongs to a layer that the other takes
/// notice of.
pub open spec fn interacts_spec(a: CollisionFilter, b: CollisionFilter) -> bool {
    (a.memberships & b.filters) != 0 && (b.memberships & a.filters) != 0
}

impl CollisionFilter {
    /// Whether a body with this filter and a body with the filter `other`
    /// collide.
    pub fn interacts_with(&self, other: &CollisionFilter) -> (hit: bool)
        ensures
            hit == interacts_spec(*self, *other),
    {
        (self.memberships & other.filters) != 0 && (other.memberships & self.filters) != 0
    }
}

/// The filter of a chain link: a member of the chain layer, taking notice
/// of the groupset and of the chain.
pub open spec fn link_filter_spec() -> CollisionFilter {
    CollisionFilter { memberships: 64, filters: 96 }
}

/// The filter of a cog: a member of the groupset layer, taking notice of
/// the groupset, the world and the chain.
pub open spec fn cog_filter_spec() -> CollisionFilter {
    CollisionFilter { memberships: 32, filters: 98 }
}

/// The filter of a chain link.
pub fn link_filter() -> (f: CollisionFilter)
    ensures
        f == link_filter_spec(),
        f.memberships == layer_bit(GameLayer::Chain),
        f.filters == layer_bit(GameLayer::Groupset) | layer_bit(GameLayer::Chain),
{
    assert(32u32 | 64u32 == 96u32) by (bit_vector);
    CollisionFilter {
        memberships: GameLayer::Chain.to_bits(),
        filters: GameLayer::Groupset.to_bits() | GameLayer::Chain.to_bits(),
    }
}

/// The filter of a cog.
pub fn cog_filter() -> (f: CollisionFilter)
    ensures
        f == cog_filter_spec(),
        f.memberships == layer_bit(GameLayer::Groupset),
        f.filters == layer_bit(GameLayer::Groupset) | layer_bit(GameLayer::World) | layer_bit(
            GameLayer::Chain,
        ),
{
    assert(32u32 | 2u32 | 64u32 == 98u32) by (bit_vector);
    CollisionFilter {
        memberships: GameLayer::Groupset.to_bits(),
        filters: GameLayer::Groupset.to_bits() | GameLayer::World.to_bits()
            | GameLayer::Chain.to_bits(),
    }
}

/// A chain link collides with the cogs and with the other links, and with
/// nothing that belongs to neither the groupset nor the chain.
pub proof fn lemma_link_collisions()
    ensures
        interacts_spec(link_filter_spec(), cog_filter_spec()),
        interacts_spec(link_filter_spec(), link_filter_spec()),
        forall|other: CollisionFilter|
            other.memberships & 96 == 0 ==> !#[trigger] interacts_spec(link_filter_spec(), other),
{
    assert(64u32 & 98u32 != 0 && 32u32 & 96u32 != 0 && 64u32 & 96u32 != 0) by (bit_vector);
}

/// The radius of a link.
pub const LINK_RADIUS: u32 = 500;

/// The margin around a link within which contacts are found.
pub const LINK_COLLISION_MARGIN: u32 = 50;

/// The mass of a link.
pub const LINK_MASS: u32 = 10;

/// The friction of a link.
pub const LINK_FRICTION: u32 = 1000;

/// The compliance of a constraint of the chain: none, the chain does not
/// stretch.
pub const CHAIN_COMPLIANCE: u32 = 0;

/// The physical properties that all links of a chain share.
#[derive(Clone, Copy, Debug, PartialEq, Eq, Structural)]
pub struct LinkParams {
    pub radius: u32,
    pub collision_margin: u32,
    pub mass: u32,
    pub friction: u32,
    /// Whether a link is kept from rotating about itself.
    pub rotation_locked: bool,
    pub layers: CollisionFilter,
}

/// The properties of the links of the drive chain.
pub open spec fn default_link_params() -> LinkParams {
    LinkParams {
        radius: LINK_RADIUS,
        collision_margin: LINK_COLLISION_MARGIN,
        mass: LINK_MASS,
        friction: LINK_FRICTION,
        rotation_locked: true,
        layers: link_filter_spec(),
    }
}

impl LinkParams {
    /// The properties of the links of the drive chain.
    pub fn standard() -> (params: LinkParams)
        ensures
            params == default_link_params(),
    {
        LinkParams {
            radius: LINK_RADIUS,
            collision_margin: LINK_COLLISION_MARGIN,
            mass: LINK_MASS,
            friction: LINK_FRICTION,
            rotation_locked: true,
            layers: link_filter(),
        }
    }
}

/// One link of the chain: a small round body.
#[derive(Clone, Copy, Debug, PartialEq, Eq, Structural)]
pub struct ChainLink {
    pub position: Point,
    pub params: LinkParams,
}

/// A distance constraint between the links `first` and `second`.
#[derive(Clone, Copy, Debug, PartialEq, Eq, Structural)]
pub struct Constraint {
    pub first: usize,
    pub second: usize,
    pub rest_length: u64,
    pub compliance: u32,
}

/// The links of a chain and the constraints that hold them together.
#[derive(Debug)]
pub struct Chain {
    pub links: Vec<ChainLink>,
    pub constraints: Vec<Constraint>,
}

/// The constraint that joins link `i` of a chain along `path` to the link
/// after it.
pub open spec fn constraint_spec(path: Seq<Point>, i: int, compliance: u32) -> Constraint {
    Constraint {
        first: i as usize,
        second: next_index(path.len() as int, i) as usize,
        rest_length: distance_spec(path[i], path[next_index(path.len() as int, i)]) as u64,
        compliance,
    }
}

impl Chain {
    /// The chain is a closed ring: as many constraints as links, constraint
    /// `i` joining link `i` to the link after it, the last to the first,
    /// each at rest at the distance at which its two links were placed.
    pub open spec fn is_ring(&self) -> bool {
        &&& self.constraints@.len() == self.links@.len()
        &&& forall|i: int|
            0 <= i < self.links@.len() ==> {
                &&& (#[trigger] self.constraints@[i]).first == i
                &&& self.constraints@[i].second == next_index(self.links@.len() as int, i)
                &&& self.constraints@[i].rest_length == distance_spec(
                    self.links@[i].position,
                    self.links@[next_index(self.links@.len() as int, i)].position,
                )
            }
    }

    /// The chain is the one laid along `path`, with links of the properties
    /// `params` and constraints of the compliance `compliance`.
    pub open spec fn is_laid_along(
        &self,
        path: Seq<Point>,
        params: LinkParams,
        compliance: u32,
    ) -> bool {
        &&& self.links@ =~= Seq::new(
            path.len(),
            |i: int| ChainLink { position: path[i], params },
        )
        &&& self.constraints@ =~= Seq::new(
            path.len(),
            |i: int| constraint_spec(path, i, compliance),
        )
    }

    /// The link reached from link 0 by following `k` constraints, each from
    /// its first link to its second.
    pub open spec fn reached(&self, k: nat) -> int
        decreases k,
    {
        if k == 0 {
            0
        } else {
            self.constraints@[self.reached((k - 1) as nat)].second as int
        }
    }
}

/// The distance between two lattice points is less than 2^33.
pub proof fn lemma_distance_bound(a: Point, b: Point)
    ensures
        0 <= distance_spec(a, b) < 0x2_0000_0000,
{
    let d2 = crate::geometry::dist2_spec(a, b);
    let dx = b.x - a.x;
    let dy = b.y - a.y;
    crate::geometry::lemma_span_product(dx, dx);
    crate::geometry::lemma_span_product(dy, dy);
    crate::planar::lemma_norm2_zero(dx, dy);
    assert(exists|r: int| crate::isqrt::is_floor_sqrt(d2, r)) by {
        crate::isqrt::lemma_floor_sqrt_exists(d2);
    }
    let r = distance_spec(a, b);
    assert(crate::isqrt::is_floor_sqrt(d2, r));
    if r >= 0x2_0000_0000 {
        assert(r * r >= 0x2_0000_0000 * 0x2_0000_0000) by (nonlinear_arith)
            requires
                r >= 0x2_0000_0000,
        ;
    }
}

/// A link of the drive chain at `pos`.
pub fn generate_link(pos: &Point) -> (link: ChainLink)
    ensures
        link == (ChainLink { position: *pos, params: default_link_params() }),
{
    ChainLink { position: *pos, params: LinkParams::standard() }
}

/// The chain along `path`: a link with the properties `params` at every
/// point, and between every point and the next, and between the last and
/// the first, a constraint of the compliance `compliance` that is at rest
/// at the distance of the two points.
pub fn assemble_chain(path: &Vec<Point>, params: LinkParams, compliance: u32) -> (chain: Chain)
    ensures
        chain.links@.len() == path.len(),
        chain.constraints@.len() == path.len(),
        chain.is_laid_along(path@, params, compliance),
        chain.is_ring(),
{
    let n: usize = path.len();
    let mut links: Vec<ChainLink> = Vec::new();
    let mut constraints: Vec<Constraint> = Vec::new();
    let mut i: usize = 0;
    while i < n
        invariant
            n == path.len(),
            i <= n,
            links@.len() == i,
            forall|k: int|
                0 <= k < i ==> #[trigger] links@[k] == (ChainLink { position: path@[k], params }),
        decreases n - i,
    {
        links.push(ChainLink { position: path[i], params });
        i = i + 1;
    }
    let mut i: usize = 0;
    while i < n
        invariant
            n == path.len(),
            i <= n,
            constraints@.len() == i,
            forall|k: int|
                0 <= k < i ==> #[trigger] constraints@[k] == constraint_spec(path@, k, compliance),
        decreases n - i,
    {
        let j: usize = if i + 1 < n { i + 1 } else { 0 };
        let rest_length: u64 = path[i].distance(&path[j]);
        constraints.push(Constraint { first: i, second: j, rest_length, compliance });
        i = i + 1;
    }
    let chain = Chain { links, constraints };
    proof {
        lemma_laid_chain_is_ring(chain, path@, params, compliance);
    }
    chain
}

/// The drive chain along `links`: standard links, rigid constraints.
pub fn setup_chain(links: Vec<Point>) -> (chain: Chain)
    ensures
        chain.links@.len() == links.len(),
        chain.constraints@.len() == links.len(),
        chain.is_laid_along(links@, default_link_params(), CHAIN_COMPLIANCE),
        chain.is_ring(),
{
    assemble_chain(&links, LinkParams::standard(), CHAIN_COMPLIANCE)
}

/// A chain laid along a path is a closed ring with one link and one
/// constraint for each point of the path.
pub proof fn lemma_laid_chain_is_ring(
    chain: Chain,
    path: Seq<Point>,
    params: LinkParams,
    compliance: u32,
)
    requires
        chain.is_laid_along(path, params, compliance),
    ensures
        chain.links@.len() == path.len(),
        chain.constraints@.len() == path.len(),
        chain.is_ring(),
{
    let n = path.len() as int;
    assert(n == chain.links.len());
    assert forall|i: int| 0 <= i < chain.links@.len() implies {
        &&& (#[trigger] chain.constraints@[i]).first == i
        &&& chain.constraints@[i].second == next_index(n, i)
        &&& chain.constraints@[i].rest_length == distance_spec(
            chain.links@[i].position,
            chain.links@[next_index(n, i)].position,
        )
    } by {
        let j = next_index(n, i);
        lemma_distance_bound(path[i], path[j]);
        assert(chain.constraints@[i] == constraint_spec(path, i, compliance));
        assert(chain.links@[j].position == path[j]);
        assert(chain.links@[i].position == path[i]);
    }
}

/// The constraints of a ring of `n` links, followed from link 0, lead
/// through the links in order, reach every link once within `n` steps, and
/// are back at link 0 after exactly `n`.
pub proof fn lemma_ring_is_one_cycle(chain: Chain)
    requires
        chain.is_ring(),
        chain.links@.len() > 0,
    ensures
        chain.constraints@.len() == chain.links@.len(),
        forall|k: nat| k < chain.links@.len() ==> #[trigger] chain.reached(k) == k,
        chain.reached(chain.links@.len()) == 0,
        forall|i: int|
            0 <= i < chain.constraints@.len() ==> 0 <= (#[trigger] chain.constraints@[i]).first
                < chain.links@.len() && 0 <= chain.constraints@[i].second < chain.links@.len(),
{
    let n = chain.links@.len();
    assert forall|k: nat| k < n implies #[trigger] chain.reached(k) == k by {
        lemma_reached_in_order(chain, k);
    }
    lemma_reached_in_order(chain, (n - 1) as nat);
    assert(chain.constraints@[n - 1].second == next_index(n as int, n - 1));
}

/// Following `k` constraints of a ring from link 0 leads to link `k`.
proof fn lemma_reached_in_order(chain: Chain, k: nat)
    requires
        chain.is_ring(),
        k < chain.links@.len(),
    ensures
        chain.reached(k) == k,
    decreases k,
{
    if k > 0 {
        lemma_reached_in_order(chain, (k - 1) as nat);
        assert(chain.constraints@[k - 1].second == next_index(chain.links@.len() as int, k - 1));
    }
}

} // verus!
