use ironphysics::filter::CollisionFilter;
use ironphysics::handle::{BodyHandle, ColliderHandle, JointHandle};

#[test]
fn body_handle_packs_slot_low_generation_high() {
    let h = BodyHandle::new(5, 3);
    assert_eq!(h.0, (3u64 << 32) | 5);
    assert_eq!(h.slot(), 5);
    assert_eq!(h.generation(), 3);
    assert!(h.is_valid());
}

#[test]
fn body_handle_roundtrip_extremes() {
    let h = BodyHandle::new(u32::MAX, 0);
    assert_eq!(h.slot(), u32::MAX);
    assert_eq!(h.generation(), 0);
    let h = BodyHandle::new(0, u32::MAX);
    assert_eq!(h.slot(), 0);
    assert_eq!(h.generation(), u32::MAX);
}

#[test]
fn body_handle_null_is_invalid_and_default() {
    assert!(!BodyHandle::null().is_valid());
    assert_eq!(BodyHandle::default(), BodyHandle::null());
    assert_eq!(BodyHandle::null().0, u64::MAX);
    // the packing of the largest slot and generation is the null handle
    assert_eq!(BodyHandle::new(u32::MAX, u32::MAX), BodyHandle::null());
}

#[test]
fn collider_handle_slot_and_null() {
    let h = ColliderHandle::from_slot(17);
    assert_eq!(h.slot(), 17);
    assert!(!h.is_null());
    assert!(ColliderHandle::null().is_null());
    assert_eq!(ColliderHandle::from_slot((1usize << 32) + 2).0, 2);
}

#[test]
fn joint_handle_roundtrip() {
    let h = JointHandle::new(9, 4);
    assert_eq!(h.slot(), 9);
    assert_eq!(h.generation(), 4);
    assert_eq!(JointHandle::new(9, 4), h);
    assert_ne!(JointHandle::new(4, 9), h);
}

fn filter(category_bits: u32, mask_bits: u32, group_index: i32) -> CollisionFilter {
    CollisionFilter { category_bits, mask_bits, group_index }
}

#[test]
fn filter_bits_must_match_both_ways() {
    let a = filter(0b01, 0b10, 0);
    let b = filter(0b10, 0b01, 0);
    assert!(CollisionFilter::should_collide(&a, &b));
    assert!(CollisionFilter::should_collide(&b, &a));
    let c = filter(0b10, 0b00, 0);
    assert!(!CollisionFilter::should_collide(&a, &c));
    assert!(!CollisionFilter::should_collide(&c, &a));
}

#[test]
fn filter_same_positive_group_always_collides() {
    let a = filter(0, 0, 3);
    let b = filter(0, 0, 3);
    assert!(CollisionFilter::should_collide(&a, &b));
}

#[test]
fn filter_same_negative_group_never_collides() {
    let a = filter(u32::MAX, u32::MAX, -2);
    let b = filter(u32::MAX, u32::MAX, -2);
    assert!(!CollisionFilter::should_collide(&a, &b));
}

#[test]
fn filter_different_groups_fall_back_to_bits() {
    let a = filter(1, 1, -2);
    let b = filter(1, 1, -3);
    assert!(CollisionFilter::should_collide(&a, &b));
    let c = filter(1, 0, 4);
    let d = filter(1, 1, 5);
    assert!(!CollisionFilter::should_collide(&c, &d));
}
