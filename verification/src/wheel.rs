//! The bicycle and its wheels.

use vstd::prelude::*;

verus! {

/// Marks the bicycle as a whole.
#[derive(Clone, Copy, Debug, PartialEq, Eq, Structural)]
pub struct Bicycle;

/// The two wheels of the bicycle.
#[derive(Clone, Copy, Debug, PartialEq, Eq, Structural)]
pub enum BicycleWheel {
    Front,
    Back,
}

/// The radius of a wheel, in lattice steps.
pub const WHEEL_SIZE: u32 = 20000;

impl BicycleWheel {
    /// The radius of a wheel, in lattice steps.
    pub fn size() -> (radius: u32)
        ensures
            radius == WHEEL_SIZE,
    {
        WHEEL_SIZE
    }
}

/// Asks for one wheel to be put on the frame.
#[derive(Clone, Copy, Debug, PartialEq, Eq, Structural)]
pub struct SpawnWheelEvent {
    pub wheel: BicycleWheel,
}

/// The places on the frame at which something is mounted, in the order in
/// which the frame keeps them.
#[derive(Clone, Copy, Debug, PartialEq, Eq, PartialOrd, Ord, Hash)]
pub enum FrameGeometry {
    RearHub,
    FrontHub,
    BottomBracket,
    SeatClamp,
    StemClamp,
}

/// The wheels as a whole.
pub struct WheelPlugin;

/// The place on the frame at which a wheel is mounted.
pub open spec fn mounting_point_spec(wheel: BicycleWheel) -> FrameGeometry {
    match wheel {
        BicycleWheel::Front => FrameGeometry::FrontHub,
        BicycleWheel::Back => FrameGeometry::RearHub,
    }
}

impl WheelPlugin {
    /// The place on the frame at which `wheel` is mounted: the front wheel
    /// at the front hub, the back wheel at the rear hub.
    pub fn mounting_point(wheel: BicycleWheel) -> (place: FrameGeometry)
        ensures
            place == mounting_point_spec(wheel),
    {
        match wheel {
            BicycleWheel::Front => FrameGeometry::FrontHub,
            BicycleWheel::Back => FrameGeometry::RearHub,
        }
    }
}

} // verus!
