//! The messages that steer the camera, and the camera's two modes.

use vstd::prelude::*;

verus! {

/// Asks the camera to zoom one step.
#[derive(Clone, Copy, Debug, PartialEq, Eq, Structural)]
pub struct CameraZoomEvent(pub CameraZoomDirection);

/// The two ways to zoom.
#[derive(Clone, Copy, Debug, PartialEq, Eq, Structural)]
pub enum CameraZoomDirection {
    In,
    Out,
}

/// Asks the camera to move one step.
#[derive(Clone, Copy, Debug, PartialEq, Eq, Structural)]
pub struct CameraPanEvent(pub CameraPanDirection);

/// The four ways to move.
#[derive(Clone, Copy, Debug, PartialEq, Eq, Structural)]
pub enum CameraPanDirection {
    Up,
    Down,
    Left,
    Right,
}

/// The step of one lattice unit in a direction, `y` pointing up.
pub open spec fn pan_step(direction: CameraPanDirection) -> (i32, i32) {
    match direction {
        CameraPanDirection::Up => (0i32, 1i32),
        CameraPanDirection::Down => (0i32, -1i32),
        CameraPanDirection::Left => (-1i32, 0i32),
        CameraPanDirection::Right => (1i32, 0i32),
    }
}

impl CameraPanDirection {
    /// The unit vector of the direction, `y` pointing up.
    pub fn as_dvec2(&self) -> (step: (i32, i32))
        ensures
            step == pan_step(*self),
    {
        match self {
            CameraPanDirection::Up => (0, 1),
            CameraPanDirection::Down => (0, -1),
            CameraPanDirection::Left => (-1, 0),
            CameraPanDirection::Right => (1, 0),
        }
    }
}

/// Asks the camera to change its mode.
#[derive(Clone, Copy, Debug, PartialEq, Eq, Structural)]
pub struct CycleCameraModeEvent;

/// The camera follows the bicycle, or moves freely.
#[derive(Clone, Copy, Debug, PartialEq, Eq, Structural)]
pub enum CameraState {
    Follow,
    Free,
}

impl CameraState {
    /// The mode that follows this one when the camera is asked to change
    /// its mode.
    pub fn cycled(&self) -> (next: CameraState)
        ensures
            next == match *self {
                CameraState::Follow => CameraState::Free,
                CameraState::Free => CameraState::Follow,
            },
    {
        match self {
            CameraState::Follow => CameraState::Free,
            CameraState::Free => CameraState::Follow,
        }
    }
}

impl Default for CameraState {
    /// The camera starts out following the bicycle.
    fn default() -> (state: Self)
        ensures
            state == CameraState::Follow,
    {
        CameraState::Follow
    }
}

} // verus!
