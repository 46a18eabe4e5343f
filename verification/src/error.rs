//! Why a chain could not be laid out.

use vstd::prelude::*;

verus! {

/// The ways in which the layout of a chain can fail. None of them is fatal:
/// the caller keeps whatever chain it had.
#[derive(Clone, Copy, Debug, PartialEq, Eq, Structural)]
pub enum ChainError {
    /// The point cloud holds fewer than three points.
    InsufficientInput,
    /// The cloud spans no area: the march around it closes with fewer than
    /// three corners, or the outline has no length.
    DegenerateHull,
    /// A cog reaches beyond the lattice.
    OutsideLattice,
}

/// What an error says of itself, for a log.
pub open spec fn message_spec(error: ChainError) -> Seq<char> {
    match error {
        ChainError::InsufficientInput => "fewer than three points to lay the chain round"@,
        ChainError::DegenerateHull => "the points to lay the chain round span no area"@,
        ChainError::OutsideLattice => "a cog reaches beyond the lattice"@,
    }
}

impl ChainError {
    /// What the error says of itself, for a log.
    pub fn message(&self) -> (text: &'static str)
        ensures
            text@ == message_spec(*self),
    {
        match self {
            ChainError::InsufficientInput => "fewer than three points to lay the chain round",
            ChainError::DegenerateHull => "the points to lay the chain round span no area",
            ChainError::OutsideLattice => "a cog reaches beyond the lattice",
        }
    }
}

} // verus!
