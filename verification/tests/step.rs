use ironphysics::body::BodyType;
use ironphysics::filter::CollisionFilter;
use ironphysics::handle::{BodyHandle, ColliderHandle, JointHandle};
use ironphysics::island::Island;
use ironphysics::pool::{ContactFeatureId, ContactFeatureKind, ContactPool};
use ironphysics::shape::{narrowphase_route, ContactAlgorithm, ShapeType};
use ironphysics::step::{
    body_counts, contact_constraint_map, filter_candidate_pairs, island_counts, island_local_index,
    new_contact_bodies_of, sleep_ready_islands, wake_bodies,
};

fn open_filter() -> CollisionFilter {
    CollisionFilter { category_bits: 1, mask_bits: u32::MAX, group_index: 0 }
}

#[test]
fn candidate_pairs_drop_same_body_and_filtered() {
    let collider_body = vec![BodyHandle::new(0, 0), BodyHandle::new(0, 0), BodyHandle::new(1, 0), BodyHandle::new(2, 0)];
    let filters = vec![
        open_filter(),
        open_filter(),
        open_filter(),
        CollisionFilter { category_bits: 2, mask_bits: 2, group_index: 0 },
    ];
    let mut pairs = vec![
        (ColliderHandle(0), ColliderHandle(1)),
        (ColliderHandle(0), ColliderHandle(2)),
        (ColliderHandle(2), ColliderHandle(3)),
        (ColliderHandle(1), ColliderHandle(2)),
    ];
    filter_candidate_pairs(&mut pairs, &collider_body, &filters);
    assert_eq!(pairs, vec![(ColliderHandle(0), ColliderHandle(2)), (ColliderHandle(1), ColliderHandle(2))]);
}

#[test]
fn candidate_pairs_same_positive_group_overrides_mask() {
    let collider_body = vec![BodyHandle::new(0, 0), BodyHandle::new(1, 0)];
    let filters = vec![
        CollisionFilter { category_bits: 1, mask_bits: 0, group_index: 3 },
        CollisionFilter { category_bits: 1, mask_bits: 0, group_index: 3 },
    ];
    let mut pairs = vec![(ColliderHandle(0), ColliderHandle(1))];
    filter_candidate_pairs(&mut pairs, &collider_body, &filters);
    assert_eq!(pairs.len(), 1);
}

#[test]
fn new_contacts_wake_their_bodies() {
    let mut previous: ContactPool<u8> = ContactPool::new(4);
    previous.insert(ColliderHandle(0), ColliderHandle(1), 0);
    let mut current: ContactPool<u8> = ContactPool::new(4);
    current.insert(ColliderHandle(1), ColliderHandle(0), 0);
    current.insert(ColliderHandle(2), ColliderHandle(3), 0);
    let bodies = vec![(0u32, 1u32), (2u32, 3u32)];
    let woken = new_contact_bodies_of(&current, &previous, &bodies);
    assert_eq!(woken, vec![(2, 3)]);
    let mut is_awake = vec![false, false, false, false, true];
    wake_bodies(&mut is_awake, &woken);
    assert_eq!(is_awake, vec![false, false, true, true, true]);
}

#[test]
fn counts_of_islands_and_bodies() {
    let mut a = Island::new(vec![0], vec![], vec![]);
    a.is_sleeping = true;
    let b = Island::new(vec![1], vec![], vec![]);
    let c = Island::new(vec![2], vec![], vec![]);
    assert_eq!(island_counts(&[a, b, c]), (2, 1));
    let types = [BodyType::Dynamic, BodyType::Dynamic, BodyType::Static, BodyType::Kinematic, BodyType::Dynamic];
    let awake = [true, false, false, true, true];
    assert_eq!(body_counts(&types, &awake), (2, 1, 1));
}

#[test]
fn local_index_finds_first_occurrence() {
    let isl = Island::new(vec![7, 3, 9, 3], vec![], vec![JointHandle::new(0, 0)]);
    assert_eq!(island_local_index(&isl, 3), 1);
    assert_eq!(island_local_index(&isl, 9), 2);
}

#[test]
fn constraint_map_numbers_normals_two_apart() {
    let counts = vec![2usize, 1, 2];
    let map = contact_constraint_map(&[2, 0, 1], &counts);
    assert_eq!(map, vec![(2, 0, 0), (2, 1, 2), (0, 0, 4), (0, 1, 6), (1, 0, 8)]);
}

#[test]
fn ready_awake_islands_fall_asleep() {
    let mut asleep = Island::new(vec![4], vec![], vec![]);
    asleep.is_sleeping = true;
    let mut islands = vec![Island::new(vec![0, 1], vec![0], vec![]), Island::new(vec![2], vec![], vec![]), asleep];
    let mut is_awake = vec![true, true, true, true, false];
    let stopped = sleep_ready_islands(&mut islands, &[true, false, true], &mut is_awake);
    assert_eq!(stopped, vec![0, 1]);
    assert_eq!(is_awake, vec![false, false, true, true, false]);
    assert!(islands[0].is_sleeping);
    assert!(!islands[1].is_sleeping);
    assert!(islands[2].is_sleeping);
    assert_eq!(islands[0].contacts, vec![0]);
}

#[test]
fn route_orders_pair_before_choosing() {
    assert_eq!(narrowphase_route(ShapeType::Box, ShapeType::Circle), (true, ContactAlgorithm::CircleBox));
    assert_eq!(narrowphase_route(ShapeType::Circle, ShapeType::Box), (false, ContactAlgorithm::CircleBox));
    assert_eq!(narrowphase_route(ShapeType::Circle, ShapeType::Circle), (false, ContactAlgorithm::CircleCircle));
    assert_eq!(narrowphase_route(ShapeType::Box, ShapeType::Box), (false, ContactAlgorithm::BoxBox));
    assert_eq!(narrowphase_route(ShapeType::Polygon, ShapeType::Capsule), (true, ContactAlgorithm::GjkEpa));
    assert_eq!(narrowphase_route(ShapeType::Circle, ShapeType::Capsule), (false, ContactAlgorithm::GjkEpa));
}

#[test]
fn feature_id_swap_trades_indices() {
    let id = ContactFeatureId { index_a: 1, index_b: 4, kind: ContactFeatureKind::Face };
    assert_eq!(id.swapped(), ContactFeatureId { index_a: 4, index_b: 1, kind: ContactFeatureKind::Face });
}

#[test]
fn filtering_twice_changes_nothing() {
    let collider_body = vec![BodyHandle::new(0, 0), BodyHandle::new(0, 0), BodyHandle::new(1, 0)];
    let filters = vec![open_filter(), open_filter(), open_filter()];
    let mut pairs = vec![
        (ColliderHandle(0), ColliderHandle(1)),
        (ColliderHandle(1), ColliderHandle(2)),
        (ColliderHandle(0), ColliderHandle(2)),
    ];
    filter_candidate_pairs(&mut pairs, &collider_body, &filters);
    let once = pairs.clone();
    filter_candidate_pairs(&mut pairs, &collider_body, &filters);
    assert_eq!(pairs, once);
    assert_eq!(once.len(), 2);
}

#[test]
fn sleeping_settles_after_one_call() {
    let mut islands = vec![Island::new(vec![0], vec![], vec![]), Island::new(vec![1], vec![], vec![])];
    let mut is_awake = vec![true, true];
    let ready = [true, true];
    assert_eq!(sleep_ready_islands(&mut islands, &ready, &mut is_awake), vec![0, 1]);
    assert!(sleep_ready_islands(&mut islands, &ready, &mut is_awake).is_empty());
    assert_eq!(is_awake, vec![false, false]);
}

#[test]
fn known_contacts_wake_nobody() {
    let mut pool: ContactPool<u8> = ContactPool::new(4);
    pool.insert(ColliderHandle(3), ColliderHandle(1), 0);
    pool.insert(ColliderHandle(2), ColliderHandle(5), 0);
    let bodies = vec![(0u32, 1u32), (2u32, 3u32)];
    assert!(new_contact_bodies_of(&pool, &pool, &bodies).is_empty());
}

#[test]
fn feature_swap_twice_is_identity() {
    let id = ContactFeatureId { index_a: 7, index_b: 2, kind: ContactFeatureKind::Vertex };
    assert_eq!(id.swapped().swapped(), id);
}
