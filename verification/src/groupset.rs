//! The cogs of the drivetrain and the messages about them.

use vstd::prelude::*;
use crate::controller::RebuildTrigger;
use crate::geometry::Point;
use crate::sampler::Disc;

verus! {

/// Marks the drivetrain as a whole.
#[derive(Clone, Copy, Debug, PartialEq, Eq, Structural)]
pub struct Groupset;

/// The two axles of the bicycle.
#[derive(Clone, Copy, Debug, PartialEq, Eq, Structural)]
pub enum Axle {
    FRONT,
    REAR,
}

/// The two toothed wheels that the chain runs on.
#[derive(Clone, Copy, Debug, PartialEq, Eq, Structural)]
pub enum Cog {
    FrontChainring,
    RearCassette,
}

/// The radius of a cog, in lattice steps.
#[derive(Clone, Copy, Debug, PartialEq, Eq, Structural)]
pub struct Radius(pub u32);

/// The radius that the rider has chosen for the chainring.
#[derive(Clone, Copy, Debug, PartialEq, Eq, Structural)]
pub struct ChainringRadius(pub u32);

/// The radius that the rider has chosen for the cassette.
#[derive(Clone, Copy, Debug, PartialEq, Eq, Structural)]
pub struct CassetteRadius(pub u32);

/// The radius with which both cogs start out.
pub const INITIAL_COG_RADIUS: u32 = 5000;

impl Default for ChainringRadius {
    /// The radius with which the chainring starts out.
    fn default() -> (radius: Self)
        ensures
            radius == ChainringRadius(INITIAL_COG_RADIUS),
    {
        ChainringRadius(INITIAL_COG_RADIUS)
    }
}

impl Default for CassetteRadius {
    /// The radius with which the cassette starts out.
    fn default() -> (radius: Self)
        ensures
            radius == CassetteRadius(INITIAL_COG_RADIUS),
    {
        CassetteRadius(INITIAL_COG_RADIUS)
    }
}

/// Asks for the drivetrain to be put on the frame.
#[derive(Clone, Copy, Debug, PartialEq, Eq, Structural)]
pub struct SpawnGroupsetEvent;

/// Asks for one cog to be put on the frame.
#[derive(Clone, Copy, Debug, PartialEq, Eq, Structural)]
pub struct SpawnAttachedEvent {
    pub cog: Cog,
}

/// The outline of a cog of the radius `radius` at `position`.
pub fn cog_profile(radius: Radius, position: Point) -> (disc: Disc)
    ensures
        disc == (Disc { center: position, radius: radius.0 }),
{
    Disc { center: position, radius: radius.0 }
}

/// What follows when the rider's choice of a radius is looked at: a cog
/// takes the chosen radius, and the chain is built anew, when the choice
/// has changed since it was last looked at and was not made just now for
/// the first time. Otherwise nothing follows.
pub fn radius_update(chosen: u32, changed: bool, added: bool) -> (update: Option<
    (Radius, RebuildTrigger),
>)
    ensures
        update == if changed && !added {
            Some((Radius(chosen), RebuildTrigger::RadiusChanged))
        } else {
            None::<(Radius, RebuildTrigger)>
        },
{
    if changed && !added {
        Some((Radius(chosen), RebuildTrigger::RadiusChanged))
    } else {
        None
    }
}

} // verus!
