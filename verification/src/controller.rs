//! The one place that owns the chain, and replaces it when the cogs change.
//!
//! A rebuild first works out the new chain from the cogs as they are. Only
//! when that has succeeded does the old chain leave the controller, whole,
//! and the new one take its place: no caller ever sees two chains, half a
//! chain, or a constraint whose link is gone. When the cogs admit no chain
//! the controller keeps what it had.

use vstd::prelude::*;
use crate::chain::{
    assemble_chain, default_link_params, Chain, LinkParams, CHAIN_COMPLIANCE,
};
use crate::error::ChainError;
use crate::geometry::Point;
use crate::pipeline::{chain_link_points, link_points_spec, LINK_COUNT};
use crate::sampler::{
    cloud_spec, cogs_on_lattice, has_three_axes, lemma_cloud_spans_area, sample_profiles,
    Direction, Disc, CHAIN_CLEARANCE,
};

verus! {

/// What makes the controller build the chain anew.
#[derive(Clone, Copy, Debug, PartialEq, Eq, Structural)]
pub enum RebuildTrigger {
    /// The radius of a cog has changed.
    RadiusChanged,
    /// A cog has moved, or the number of cogs has changed.
    CogsMoved,
    /// A rebuild was asked for.
    ManualReset,
}

/// How a chain is to be built.
#[derive(Clone, Copy, Debug, PartialEq, Eq, Structural)]
pub struct ChainSettings {
    /// The margin by which the chain clears the cogs.
    pub clearance: u32,
    /// The number of links.
    pub link_count: usize,
    /// The properties of each link.
    pub link_params: LinkParams,
    /// The compliance of each constraint; zero for a rigid chain.
    pub compliance: u32,
}

/// The settings of the drive chain.
pub open spec fn default_settings() -> ChainSettings {
    ChainSettings {
        clearance: CHAIN_CLEARANCE,
        link_count: LINK_COUNT,
        link_params: default_link_params(),
        compliance: CHAIN_COMPLIANCE,
    }
}

impl ChainSettings {
    /// The settings of the drive chain.
    pub fn standard() -> (settings: ChainSettings)
        ensures
            settings == default_settings(),
    {
        ChainSettings {
            clearance: CHAIN_CLEARANCE,
            link_count: LINK_COUNT,
            link_params: LinkParams::standard(),
            compliance: CHAIN_COMPLIANCE,
        }
    }
}

/// The places of the links of the chain round `cogs`, or why there is no
/// such chain.
pub open spec fn plan_spec(
    cogs: Seq<Disc>,
    compass: Seq<Direction>,
    settings: ChainSettings,
) -> Result<Seq<Point>, ChainError> {
    if !cogs_on_lattice(cogs, settings.clearance, compass) {
        Err(ChainError::OutsideLattice)
    } else {
        link_points_spec(
            cloud_spec(cogs, settings.clearance, compass, cogs.len()),
            settings.link_count as nat,
        )
    }
}

/// When a chain is owed: where the cogs are on the lattice, the compass
/// holds three of the four directions along the axes, and the first cog,
/// with the clearance round it, has any size, there is a plan.
pub proof fn lemma_plan_succeeds(cogs: Seq<Disc>, compass: Seq<Direction>, settings: ChainSettings)
    requires
        cogs.len() >= 1,
        has_three_axes(compass),
        cogs_on_lattice(cogs, settings.clearance, compass),
        cogs[0].radius + settings.clearance >= 1,
    ensures
        plan_spec(cogs, compass, settings) is Ok,
{
    lemma_cloud_spans_area(cogs, settings.clearance, compass);
}

/// The chain round `cogs`: the boundary of every cog is sampled in the
/// directions of `compass`, the hull of all samples is resampled to the
/// number of links, and the links are joined into a ring.
pub fn plan_chain(cogs: &Vec<Disc>, compass: &Vec<Direction>, settings: &ChainSettings) -> (result:
    Result<Chain, ChainError>)
    ensures
        match result {
            Ok(chain) => {
                &&& plan_spec(cogs@, compass@, *settings) is Ok
                &&& chain.is_laid_along(
                    plan_spec(cogs@, compass@, *settings)->Ok_0,
                    settings.link_params,
                    settings.compliance,
                )
                &&& chain.is_ring()
                &&& chain.links@.len() == settings.link_count
                &&& chain.constraints@.len() == settings.link_count
            },
            Err(e) => plan_spec(cogs@, compass@, *settings) == Err::<Seq<Point>, ChainError>(e),
        },
{
    let cloud = match sample_profiles(cogs, settings.clearance, compass) {
        Ok(cloud) => cloud,
        Err(e) => {
            return Err(e);
        },
    };
    let path = match chain_link_points(&cloud, settings.link_count) {
        Ok(path) => path,
        Err(e) => {
            return Err(e);
        },
    };
    Ok(assemble_chain(&path, settings.link_params, settings.compliance))
}

/// The owner of the chain. It holds one chain or none, and the triggers
/// that have come in since its last step.
pub struct RebuildController {
    chain: Option<Chain>,
    pending: Vec<RebuildTrigger>,
}

/// What a step of the controller came to.
#[derive(Debug)]
pub enum StepOutcome {
    /// Nothing asked for a rebuild; the controller is as it was.
    Idle,
    /// The chain was built anew. The chain that it replaced, if there was
    /// one, is handed back for the caller to take out of the world.
    Rebuilt(Option<Chain>),
    /// The cogs admit no chain; the controller is as it was.
    Kept(ChainError),
}

/// `after` is the state of a controller after a rebuild from the state
/// `before`: it holds the chain along the planned path, or is `before`
/// where there is no plan.
pub open spec fn rebuilt_spec(
    before: Option<Chain>,
    after: Option<Chain>,
    cogs: Seq<Disc>,
    compass: Seq<Direction>,
    settings: ChainSettings,
) -> bool {
    match plan_spec(cogs, compass, settings) {
        Ok(path) => after is Some && after->Some_0.is_laid_along(
            path,
            settings.link_params,
            settings.compliance,
        ),
        Err(_) => after == before,
    }
}

impl RebuildController {
    /// Whatever chain the controller holds is a closed ring.
    #[verifier::type_invariant]
    spec fn holds_a_ring(self) -> bool {
        self.chain is Some ==> self.chain->Some_0.is_ring()
    }

    /// The chain that the controller holds, if any.
    pub closed spec fn view(&self) -> Option<Chain> {
        self.chain
    }

    /// The triggers that have come in since the last step, oldest first.
    pub closed spec fn pending(&self) -> Seq<RebuildTrigger> {
        self.pending@
    }

    /// A controller without a chain, and with nothing asked of it.
    pub fn new() -> (controller: RebuildController)
        ensures
            controller@ is None,
            controller.pending() == Seq::<RebuildTrigger>::empty(),
    {
        RebuildController { chain: None, pending: Vec::new() }
    }

    /// The chain, if there is one. It is always a closed ring: every
    /// constraint joins two links of this same chain.
    pub fn chain(&self) -> (chain: Option<&Chain>)
        ensures
            chain is Some <==> self@ is Some,
            chain is Some ==> *chain->Some_0 == self@->Some_0 && chain->Some_0.is_ring(),
    {
        proof {
            use_type_invariant(self);
        }
        self.chain.as_ref()
    }

    /// The triggers that have come in since the last step, oldest first.
    pub fn pending_triggers(&self) -> (triggers: &Vec<RebuildTrigger>)
        ensures
            triggers@ == self.pending(),
    {
        &self.pending
    }

    /// Takes note of a trigger. The chain is built anew at the next step,
    /// not now.
    pub fn notify(&mut self, trigger: RebuildTrigger)
        ensures
            final(self).pending() == old(self).pending().push(trigger),
            final(self)@ == old(self)@,
    {
        proof {
            use_type_invariant(&*self);
        }
        let mut queue: Vec<RebuildTrigger> = Vec::new();
        core::mem::swap(&mut self.pending, &mut queue);
        queue.push(trigger);
        core::mem::swap(&mut self.pending, &mut queue);
    }

    /// Builds the chain anew from the cogs as they are.
    ///
    /// Where the cogs admit a chain, it replaces the one held so far, which
    /// is handed back whole, all its links and constraints with it, for the
    /// caller to take out of the world. Where they admit none, the error
    /// says why, and the controller is left as it was.
    pub fn rebuild(
        &mut self,
        cogs: &Vec<Disc>,
        compass: &Vec<Direction>,
        settings: &ChainSettings,
    ) -> (result: Result<Option<Chain>, ChainError>)
        ensures
            rebuilt_spec(old(self)@, final(self)@, cogs@, compass@, *settings),
            final(self)@ is Some ==> final(self)@->Some_0.is_ring(),
            final(self).pending() == old(self).pending(),
            match result {
                Ok(replaced) => {
                    &&& plan_spec(cogs@, compass@, *settings) is Ok
                    &&& replaced == old(self)@
                    &&& final(self)@ is Some
                    &&& final(self)@->Some_0.links@.len() == settings.link_count
                    &&& final(self)@->Some_0.constraints@.len() == settings.link_count
                },
                Err(e) => {
                    &&& plan_spec(cogs@, compass@, *settings) == Err::<Seq<Point>, ChainError>(e)
                    &&& final(self)@ == old(self)@
                },
            },
    {
        proof {
            use_type_invariant(&*self);
        }
        match plan_chain(cogs, compass, settings) {
            Ok(chain) => {
                let mut slot: Option<Chain> = Some(chain);
                core::mem::swap(&mut self.chain, &mut slot);
                Ok(slot)
            },
            Err(e) => Err(e),
        }
    }

    /// One step of the simulation. Where triggers have come in since the
    /// last step, the chain is built anew, once, however many they are;
    /// where none has, nothing happens. Either way no trigger is left.
    pub fn step(&mut self, cogs: &Vec<Disc>, compass: &Vec<Direction>, settings: &ChainSettings) -> (outcome:
        StepOutcome)
        ensures
            final(self).pending() == Seq::<RebuildTrigger>::empty(),
            final(self)@ is Some ==> final(self)@->Some_0.is_ring(),
            old(self).pending().len() == 0 ==> outcome is Idle && final(self)@ == old(self)@,
            old(self).pending().len() > 0 ==> rebuilt_spec(
                old(self)@,
                final(self)@,
                cogs@,
                compass@,
                *settings,
            ),
            old(self).pending().len() > 0 ==> match outcome {
                StepOutcome::Idle => false,
                StepOutcome::Rebuilt(replaced) => {
                    &&& plan_spec(cogs@, compass@, *settings) is Ok
                    &&& replaced == old(self)@
                    &&& final(self)@ is Some
                },
                StepOutcome::Kept(e) => {
                    &&& plan_spec(cogs@, compass@, *settings) == Err::<Seq<Point>, ChainError>(e)
                    &&& final(self)@ == old(self)@
                },
            },
    {
        if self.pending.len() == 0 {
            proof {
                use_type_invariant(&*self);
                assert(self.pending@ =~= Seq::<RebuildTrigger>::empty());
            }
            return StepOutcome::Idle;
        }
        proof {
            use_type_invariant(&*self);
        }
        let mut queue: Vec<RebuildTrigger> = Vec::new();
        core::mem::swap(&mut self.pending, &mut queue);
        match self.rebuild(cogs, compass, settings) {
            Ok(replaced) => StepOutcome::Rebuilt(replaced),
            Err(e) => StepOutcome::Kept(e),
        }
    }

    /// A step of the simulation in which the cogs cannot be read: the
    /// triggers that have come in are dropped, and the chain stays as it
    /// is.
    pub fn skip_step(&mut self)
        ensures
            final(self).pending() == Seq::<RebuildTrigger>::empty(),
            final(self)@ == old(self)@,
    {
        proof {
            use_type_invariant(&*self);
        }
        let mut queue: Vec<RebuildTrigger> = Vec::new();
        core::mem::swap(&mut self.pending, &mut queue);
    }

    /// Takes the chain out of the controller, whole, for the caller to take
    /// out of the world, and forgets the triggers that have come in.
    pub fn teardown(&mut self) -> (removed: Option<Chain>)
        ensures
            removed == old(self)@,
            removed is Some ==> removed->Some_0.is_ring(),
            final(self)@ is None,
            final(self).pending() == Seq::<RebuildTrigger>::empty(),
    {
        proof {
            use_type_invariant(&*self);
        }
        let mut queue: Vec<RebuildTrigger> = Vec::new();
        core::mem::swap(&mut self.pending, &mut queue);
        let mut slot: Option<Chain> = None;
        core::mem::swap(&mut self.chain, &mut slot);
        slot
    }
}

/// A second rebuild from the same cogs, directions and settings leaves the
/// controller with the chain that the first one gave it, link for link and
/// constraint for constraint, whatever it held before the first. Where the
/// cogs admit no chain, neither rebuild changes anything.
pub proof fn lemma_rebuild_idempotent(
    before: Option<Chain>,
    once: Option<Chain>,
    twice: Option<Chain>,
    cogs: Seq<Disc>,
    compass: Seq<Direction>,
    settings: ChainSettings,
)
    requires
        rebuilt_spec(before, once, cogs, compass, settings),
        rebuilt_spec(once, twice, cogs, compass, settings),
    ensures
        once is Some <==> twice is Some,
        once is Some ==> {
            &&& once->Some_0.links@ == twice->Some_0.links@
            &&& once->Some_0.constraints@ == twice->Some_0.constraints@
        },
        plan_spec(cogs, compass, settings) is Err ==> twice == before,
{
}

/// A rebuild does not look at what the controller held before: from any two
/// states, the same cogs, directions and settings give the same chain.
pub proof fn lemma_rebuild_forgets(
    first: Option<Chain>,
    second: Option<Chain>,
    first_after: Option<Chain>,
    second_after: Option<Chain>,
    cogs: Seq<Disc>,
    compass: Seq<Direction>,
    settings: ChainSettings,
)
    requires
        rebuilt_spec(first, first_after, cogs, compass, settings),
        rebuilt_spec(second, second_after, cogs, compass, settings),
        plan_spec(cogs, compass, settings) is Ok,
    ensures
        first_after is Some,
        second_after is Some,
        first_after->Some_0.links@ == second_after->Some_0.links@,
        first_after->Some_0.constraints@ == second_after->Some_0.constraints@,
{
}

} // verus!
