//! Group- and bitmask-based collision filtering.
use vstd::prelude::*;

verus! {

/// Which collisions a collider takes part in.
pub struct CollisionFilter {
    /// The categories this collider belongs to.
    pub category_bits: u32,
    /// The categories this collider collides with.
    pub mask_bits: u32,
    /// Group override: two colliders of the same positive group always
    /// collide, two of the same negative group never do, and zero defers to
    /// the category and mask bits.
    pub group_index: i32,
}

/// Whether filters `a` and `b` let their colliders collide.
pub open spec fn filters_collide(a: CollisionFilter, b: CollisionFilter) -> bool {
    if a.group_index != 0 && a.group_index == b.group_index {
        a.group_index > 0
    } else {
        (a.category_bits & b.mask_bits) != 0 && (b.category_bits & a.mask_bits) != 0
    }
}

impl CollisionFilter {
    /// Whether the two filters allow a collision between their colliders.
    pub fn should_collide(a: &CollisionFilter, b: &CollisionFilter) -> (r: bool)
        ensures
            r == filters_collide(*a, *b),
    {
        if a.group_index != 0 && a.group_index == b.group_index {
            return a.group_index > 0;
        }
        (a.category_bits & b.mask_bits) != 0 && (b.category_bits & a.mask_bits) != 0
    }
}

/// The filter relation is symmetric: `a` collides with `b` exactly when `b`
/// collides with `a`.
pub proof fn lemma_should_collide_symmetric(a: CollisionFilter, b: CollisionFilter)
    ensures
        filters_collide(a, b) == filters_collide(b, a),
{
}

/// A shared non-zero group decides alone: a positive group always collides
/// and a negative group never does, whatever the bits say.
pub proof fn lemma_group_overrides_bits(a: CollisionFilter, b: CollisionFilter)
    requires
        a.group_index != 0,
        a.group_index == b.group_index,
    ensures
        filters_collide(a, b) == (a.group_index > 0),
{
}

/// Without a shared non-zero group, the filters collide exactly when each
/// one's category bits meet the other one's mask bits.
pub proof fn lemma_bits_decide_without_group(a: CollisionFilter, b: CollisionFilter)
    requires
        a.group_index == 0 || a.group_index != b.group_index,
    ensures
        filters_collide(a, b) == ((a.category_bits & b.mask_bits) != 0 && (b.category_bits
            & a.mask_bits) != 0),
{
}

} // verus!
