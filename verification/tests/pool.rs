use ironphysics::handle::{BodyHandle, ColliderHandle};
use ironphysics::pool::{match_features, ColliderPair, ContactFeatureId, ContactFeatureKind, ContactPool};
use ironphysics::position_solver::assign_contact_colours;

fn id(a: u8, b: u8, kind: ContactFeatureKind) -> ContactFeatureId {
    ContactFeatureId { index_a: a, index_b: b, kind }
}

#[test]
fn pool_begin_frame_clears_manifolds() {
    let mut pool: ContactPool<&str> = ContactPool::new(10);
    pool.insert(ColliderHandle(1), ColliderHandle(2), "m");
    assert_eq!(pool.manifolds().len(), 1);
    pool.begin_frame();
    assert!(pool.manifolds().is_empty());
    assert!(ContactPool::get_previous(&pool, ColliderHandle(1), ColliderHandle(2)).is_none());
}

#[test]
fn pool_lookup_ignores_collider_order() {
    let mut pool: ContactPool<u32> = ContactPool::new(4);
    pool.insert(ColliderHandle(7), ColliderHandle(3), 70);
    assert_eq!(ContactPool::get_previous(&pool, ColliderHandle(3), ColliderHandle(7)), Some(&70));
    assert_eq!(ContactPool::get_previous(&pool, ColliderHandle(7), ColliderHandle(3)), Some(&70));
    assert_eq!(ContactPool::get_previous(&pool, ColliderHandle(7), ColliderHandle(4)), None);
}

#[test]
fn pool_insert_same_pair_overwrites_in_place() {
    let mut pool: ContactPool<u32> = ContactPool::new(4);
    pool.insert(ColliderHandle(1), ColliderHandle(2), 10);
    pool.insert(ColliderHandle(3), ColliderHandle(4), 30);
    pool.insert(ColliderHandle(2), ColliderHandle(1), 11);
    assert_eq!(pool.manifolds(), &[11, 30]);
}

#[test]
fn collider_pair_is_canonical() {
    let p = ColliderPair::new(ColliderHandle(9), ColliderHandle(2));
    assert_eq!(p, ColliderPair(ColliderHandle(2), ColliderHandle(9)));
    assert_eq!(p, ColliderPair::new(ColliderHandle(2), ColliderHandle(9)));
}

#[test]
fn match_features_finds_first_equal_previous_point() {
    let v = ContactFeatureKind::Vertex;
    let f = ContactFeatureKind::Face;
    let previous = [id(1, 2, v), id(0, 3, f), id(1, 2, v)];
    let current = [id(1, 2, v), id(0, 3, v), id(0, 3, f)];
    assert_eq!(match_features(&current, &previous), vec![Some(0), None, Some(1)]);
    assert_eq!(match_features(&current, &[]), vec![None, None, None]);
    assert!(match_features(&[], &previous).is_empty());
}

#[test]
fn feature_kind_defaults_to_vertex() {
    let d: ContactFeatureId = Default::default();
    assert_eq!(d, id(0, 0, ContactFeatureKind::Vertex));
}

fn bh(slot: u32) -> BodyHandle {
    BodyHandle::new(slot, 0)
}

#[test]
fn colours_separate_contacts_sharing_a_body() {
    // A-B, B-C, C-D: consecutive contacts share a body
    let a = assign_contact_colours(&[(bh(0), bh(1)), (bh(1), bh(2)), (bh(2), bh(3))]);
    assert_eq!(a.colours, vec![vec![0, 2], vec![1]]);
}

#[test]
fn colours_use_only_last_colour_of_each_body() {
    // body 0 touches 1, 2 and 3 in turn: colours 0, 1, 0 (the colour of the
    // first contact is no longer remembered for body 0)
    let a = assign_contact_colours(&[(bh(0), bh(1)), (bh(0), bh(2)), (bh(0), bh(3))]);
    assert_eq!(a.colours, vec![vec![0, 2], vec![1]]);
}

#[test]
fn colours_need_a_third_when_both_bodies_differ() {
    let a = assign_contact_colours(&[(bh(0), bh(1)), (bh(2), bh(3)), (bh(2), bh(4)), (bh(0), bh(2))]);
    assert_eq!(a.colours, vec![vec![0, 1], vec![2], vec![3]]);
    assert!(assign_contact_colours(&[]).colours.is_empty());
}

#[test]
fn pool_manifolds_mut_rewrites_in_place() {
    let mut pool: ContactPool<u32> = ContactPool::new(4);
    pool.insert(ColliderHandle(1), ColliderHandle(2), 10);
    pool.insert(ColliderHandle(3), ColliderHandle(4), 30);
    for m in pool.manifolds_mut() {
        *m += 1;
    }
    assert_eq!(pool.manifolds(), &[11, 31]);
    assert_eq!(ContactPool::get_previous(&pool, ColliderHandle(4), ColliderHandle(3)), Some(&31));
}

#[derive(Debug, Clone, Copy, Default)]
struct Point {
    depth: f32,
    normal_impulse: f32,
    tangent_impulse: f32,
    id: ContactFeatureId,
}

#[derive(Debug, Clone)]
struct Manifold {
    points: [Point; 2],
    count: usize,
    collider_a: ColliderHandle,
    collider_b: ColliderHandle,
}

fn store(pool: &mut ContactPool<Manifold>, m: Manifold) {
    pool.insert(m.collider_a, m.collider_b, m);
}

fn persist_contacts(previous: &ContactPool<Manifold>, current: &mut Manifold) {
    if let Some(old) = ContactPool::get_previous(previous, current.collider_a, current.collider_b) {
        let cur_ids: Vec<ContactFeatureId> = current.points[..current.count].iter().map(|p| p.id).collect();
        let old_ids: Vec<ContactFeatureId> = old.points[..old.count].iter().map(|p| p.id).collect();
        for (k, m) in match_features(&cur_ids, &old_ids).into_iter().enumerate() {
            if let Some(j) = m {
                current.points[k].normal_impulse = old.points[j].normal_impulse;
                current.points[k].tangent_impulse = old.points[j].tangent_impulse;
            }
        }
    }
}

#[test]
fn pool_begin_frame_clears() {
    let mut pool = ContactPool::new(10);
    let manifold = Manifold {
        points: [Point::default(); 2],
        count: 1,
        collider_a: ColliderHandle(1),
        collider_b: ColliderHandle(2),
    };
    store(&mut pool, manifold);
    pool.begin_frame();
    assert!(pool.manifolds().is_empty(), "Expected manifolds to be cleared");
}

#[test]
fn pool_warm_start_copies_impulse() {
    let mut prev_pool = ContactPool::new(10);
    let id = ContactFeatureId { index_a: 1, index_b: 2, kind: Default::default() };
    let prev_manifold = Manifold {
        points: [Point { depth: 0.1, normal_impulse: 5.0, tangent_impulse: 1.0, id }, Point::default()],
        count: 1,
        collider_a: ColliderHandle(1),
        collider_b: ColliderHandle(2),
    };
    store(&mut prev_pool, prev_manifold);
    let mut current_manifold = Manifold {
        points: [Point { depth: 0.1, normal_impulse: 0.0, tangent_impulse: 0.0, id }, Point::default()],
        count: 1,
        collider_a: ColliderHandle(1),
        collider_b: ColliderHandle(2),
    };
    persist_contacts(&prev_pool, &mut current_manifold);
    assert_eq!(current_manifold.points[0].normal_impulse, 5.0);
    assert_eq!(current_manifold.points[0].tangent_impulse, 1.0);
    assert_eq!(current_manifold.points[0].depth, 0.1);
}

#[test]
fn pool_no_warm_start_for_new_pair() {
    let prev_pool = ContactPool::new(10);
    let mut current_manifold = Manifold {
        points: [
            Point {
                depth: 0.1,
                normal_impulse: 0.0,
                tangent_impulse: 0.0,
                id: ContactFeatureId { index_a: 1, index_b: 2, kind: Default::default() },
            },
            Point::default(),
        ],
        count: 1,
        collider_a: ColliderHandle(1),
        collider_b: ColliderHandle(2),
    };
    persist_contacts(&prev_pool, &mut current_manifold);
    assert_eq!(current_manifold.points[0].normal_impulse, 0.0);
    assert_eq!(current_manifold.points[0].tangent_impulse, 0.0);
}

#[test]
fn consecutive_contacts_of_a_body_never_share_a_colour() {
    let bodies: Vec<(u32, u32)> = vec![(0, 1), (1, 2), (0, 2), (2, 3), (0, 3), (1, 3), (0, 1), (3, 4), (4, 0), (2, 4)];
    let contacts: Vec<_> = bodies.iter().map(|&(a, b)| (bh(a), bh(b))).collect();
    let a = assign_contact_colours(&contacts);
    let colour_of = |i: usize| a.colours.iter().position(|g| g.contains(&i)).unwrap();
    for body in 0..5u32 {
        let touching: Vec<usize> = (0..bodies.len()).filter(|&i| bodies[i].0 == body || bodies[i].1 == body).collect();
        for w in touching.windows(2) {
            assert_ne!(colour_of(w[0]), colour_of(w[1]));
        }
    }
}
