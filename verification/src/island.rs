//! One connected component of the contact and joint graph.
use vstd::prelude::*;
use crate::handle::JointHandle;

verus! {

/// Bodies, contacts and joints that share constraints and are solved
/// together; bodies of different islands share no constraint.
#[derive(Debug, Clone)]
pub struct Island {
    /// Body slots of all bodies in this island (its moving bodies and the
    /// static bodies they touch).
    pub bodies: Vec<u32>,
    /// Indices of the contacts of this island.
    pub contacts: Vec<usize>,
    /// Handles of the joints of this island.
    pub joints: Vec<JointHandle>,
    /// Whether every body of the island has been still long enough to sleep.
    pub is_sleeping: bool,
}

impl Island {
    /// An awake island with the given members.
    pub fn new(bodies: Vec<u32>, contacts: Vec<usize>, joints: Vec<JointHandle>) -> (r: Self)
        ensures
            r.bodies@ == bodies@,
            r.contacts@ == contacts@,
            r.joints@ == joints@,
            !r.is_sleeping,
    {
        Island { bodies, contacts, joints, is_sleeping: false }
    }
}

impl Default for Island {
    /// An empty, awake island.
    fn default() -> (r: Self)
        ensures
            r.bodies@.len() == 0,
            r.contacts@.len() == 0,
            r.joints@.len() == 0,
            !r.is_sleeping,
    {
        Island::new(Vec::new(), Vec::new(), Vec::new())
    }
}

} // verus!
