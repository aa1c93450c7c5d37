//! Rigid-body classification.
use vstd::prelude::*;

verus! {

/// How a rigid body takes part in the simulation.
#[derive(Debug, Clone, Copy, PartialEq, Eq, Structural)]
pub enum BodyType {
    /// Immovable world geometry with infinite mass.
    Static,
    /// Moved only by its own velocity; infinite mass.
    Kinematic,
    /// Fully simulated.
    Dynamic,
}

/// What a force applied to a body stands for.
#[derive(Debug, Clone, Copy, PartialEq, Eq, Structural)]
pub enum ForceType {
    /// The pull of gravity.
    Gravity,
    /// A force from outside the simulation, such as drag or user input.
    External,
    /// A force from a collision response.
    Collision,
}

} // verus!
