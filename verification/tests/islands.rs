use ironphysics::body::BodyType;
use ironphysics::body::BodyType::{Dynamic, Kinematic, Static};
use ironphysics::handle::JointHandle;
use ironphysics::island::Island;
use ironphysics::island_manager::{IslandManager, JointStorage};
use ironphysics::sleeping::wake_body;

fn build(
    types: &[BodyType],
    awake: &[bool],
    contacts: &[(u32, u32)],
    joints: &JointStorage<()>,
) -> IslandManager {
    let mut m = IslandManager::new();
    m.build_islands(&types.to_vec(), &awake.to_vec(), &contacts.to_vec(), joints);
    m
}

fn sorted(v: &[u32]) -> Vec<u32> {
    let mut v = v.to_vec();
    v.sort();
    v
}

#[test]
fn island_construction_two_separate_stacks() {
    // A-B and C-D touch, the two stacks do not
    let m = build(&[Dynamic; 4], &[true; 4], &[(0, 1), (2, 3)], &JointStorage::new());
    let islands = m.islands();
    let num_islands = islands.len();
    let island_0_bodies = islands[0].bodies.len();
    let island_1_bodies = islands[1].bodies.len();
    assert_eq!(num_islands, 2);
    assert_eq!(island_0_bodies + island_1_bodies, 4);
    assert_eq!(sorted(&islands[0].bodies), vec![0, 1]);
    assert_eq!(sorted(&islands[1].bodies), vec![2, 3]);
}

#[test]
fn island_construction_chain() {
    // A-B, B-C, C-D
    let m = build(&[Dynamic; 4], &[true; 4], &[(0, 1), (1, 2), (2, 3)], &JointStorage::new());
    let islands = m.islands();
    let num_islands = islands.len();
    let island_0_bodies = islands[0].bodies.len();
    let island_0_contacts = islands[0].contacts.len();
    assert_eq!(num_islands, 1);
    assert_eq!(island_0_bodies, 4);
    assert_eq!(island_0_contacts, 3);
}

#[test]
fn static_body_does_not_create_own_island() {
    // static ground (slot 0) under dynamic A (slot 1)
    let m = build(&[Static, Dynamic], &[true, true], &[(0, 1)], &JointStorage::new());
    let islands = m.islands();
    let num_islands = islands.len();
    let island_0_has_static = islands[0].bodies.contains(&0);
    let num_dynamic_bodies = islands[0].bodies.iter().filter(|&&b| b == 1).count();
    assert_eq!(num_islands, 1);
    assert!(island_0_has_static);
    assert_eq!(num_dynamic_bodies, 1);
    assert_eq!(islands[0].bodies[0], 1);
    assert_eq!(m.island_of(0), usize::MAX - 1);
    assert_eq!(m.island_of(1), 0);
}

#[test]
fn joint_connects_two_islands_into_one() {
    let mut joints: JointStorage<()> = JointStorage::new();
    let slot = joints.push((), 0, 1);
    assert_eq!(slot, 0);
    let m = build(&[Dynamic, Dynamic], &[true, true], &[], &joints);
    let islands = m.islands();
    let num_islands = islands.len();
    let island_0_bodies = islands[0].bodies.len();
    let island_0_joints = islands[0].joints.len();
    assert_eq!(num_islands, 1);
    assert_eq!(island_0_bodies, 2);
    assert_eq!(island_0_joints, 1);
    assert_eq!(islands[0].joints[0], JointHandle::new(0, 0));
}

#[test]
fn islands_shared_static_is_listed_in_each_island() {
    // bodies 1 and 2 both rest on static ground 0 but do not touch each other
    let m = build(&[Static, Dynamic, Dynamic], &[true; 3], &[(1, 0), (0, 2)], &JointStorage::new());
    let islands = m.islands();
    assert_eq!(islands.len(), 2);
    assert_eq!(sorted(&islands[0].bodies), vec![0, 1]);
    assert_eq!(sorted(&islands[1].bodies), vec![0, 2]);
    assert_eq!(islands[0].contacts, vec![0]);
    assert_eq!(islands[1].contacts, vec![1]);
}

#[test]
fn islands_sleeping_body_joins_through_contact_but_seeds_nothing() {
    // 0 asleep alone; 1 awake touching 2 (asleep)
    let m = build(&[Dynamic; 3], &[false, true, false], &[(1, 2)], &JointStorage::new());
    let islands = m.islands();
    assert_eq!(islands.len(), 1);
    assert_eq!(islands[0].bodies, vec![1, 2]);
    assert_eq!(m.island_of(0), usize::MAX);
    assert_eq!(m.island_of(2), 0);
    assert!(!islands[0].is_sleeping);
}

#[test]
fn islands_seeded_in_slot_order_with_kinematic_bodies_moving() {
    let m = build(&[Kinematic, Dynamic, Dynamic], &[true; 3], &[(2, 0)], &JointStorage::new());
    let islands = m.islands();
    assert_eq!(islands.len(), 2);
    assert_eq!(islands[0].bodies, vec![0, 2]);
    assert_eq!(islands[1].bodies, vec![1]);
    assert!(islands[1].contacts.is_empty());
}

#[test]
fn islands_rebuild_replaces_previous_result() {
    let mut m = IslandManager::new();
    m.build_islands(&vec![Dynamic; 2], &vec![true; 2], &vec![], &JointStorage::<()>::new());
    assert_eq!(m.islands().len(), 2);
    m.build_islands(&vec![Dynamic; 2], &vec![true; 2], &vec![(0, 1)], &JointStorage::<()>::new());
    assert_eq!(m.islands().len(), 1);
}

#[test]
fn wake_body_wakes_whole_island() {
    let m = build(&[Dynamic; 3], &[true, false, false], &[(0, 1)], &JointStorage::new());
    let mut islands: Vec<Island> = Vec::new();
    for isl in m.islands() {
        islands.push(Island { bodies: isl.bodies.clone(), contacts: isl.contacts.clone(), joints: isl.joints.clone(), is_sleeping: true });
    }
    let mut awake = vec![false, false, false];
    wake_body(1, &mut awake, &mut islands, &m);
    assert_eq!(awake, vec![true, true, false]);
    assert!(!islands[0].is_sleeping);
    // a body in no island wakes alone
    wake_body(2, &mut awake, &mut islands, &m);
    assert_eq!(awake, vec![true, true, true]);
}

#[test]
fn islands_static_body_reached_by_no_island_stays_unmarked() {
    // static 0 touches only sleeping 1; static 2 touches awake 3
    let m = build(&[Static, Dynamic, Static, Dynamic], &[true, false, true, true], &[(0, 1), (3, 2)], &JointStorage::new());
    assert_eq!(m.islands().len(), 1);
    assert_eq!(m.island_of(0), usize::MAX);
    assert_eq!(m.island_of(1), usize::MAX);
    assert_eq!(m.island_of(2), usize::MAX - 1);
    assert_eq!(m.island_of(3), 0);
}

#[test]
fn islands_list_members_in_breadth_first_order() {
    // seed 0 reaches 3 and 2 (in contact order) and static 4; 3 then reaches
    // 1; the joint (1, 2) is listed when 2 is expanded
    let mut joints: JointStorage<()> = JointStorage::new();
    joints.push((), 1, 2);
    let m = build(
        &[Dynamic, Dynamic, Dynamic, Dynamic, Static],
        &[true; 5],
        &[(0, 3), (2, 0), (3, 1), (4, 0)],
        &joints,
    );
    let islands = m.islands();
    assert_eq!(islands.len(), 1);
    assert_eq!(islands[0].bodies, vec![0, 4, 3, 2, 1]);
    assert_eq!(islands[0].contacts, vec![0, 1, 3, 2]);
    assert_eq!(islands[0].joints, vec![JointHandle::new(0, 0)]);
    assert_eq!(m.island_of(4), usize::MAX - 1);
}
