//! The drive chain of a bicycle, laid round its cogs.
//!
//! From the cogs as circles the library works out where the links of the
//! chain go: it samples each circle, wraps the samples in their convex
//! hull, walks the hull in equal steps, and joins the link at each step to
//! the next with a distance constraint, the last link to the first. A
//! controller owns the chain and replaces it when the cogs change.
//!
//! All geometry is done on the integer lattice and is exact. One step of
//! the lattice is a thousandth of a unit of the world; the lattice reaches
//! as far as 32 bits do. Where a length is not a whole number of steps, it
//! is rounded down.

pub mod camera;
pub mod chain;
pub mod closure;
pub mod controller;
pub mod convex;
pub mod error;
pub mod geometry;
pub mod groupset;
pub mod hull;
pub mod isqrt;
pub mod pipeline;
pub mod planar;
pub mod queue;
pub mod resample;
pub mod sampler;
pub mod walk;
pub mod wheel;
pub mod world;
