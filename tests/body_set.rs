use rapier::rigid_body::{BodyStatus, RigidBody};
use rapier::rigid_body_set::{RigidBodyHandle, RigidBodySet};

fn graph(set: &RigidBodySet, pairs: &[(RigidBodyHandle, RigidBodyHandle)]) -> Vec<Vec<RigidBodyHandle>> {
    let n = set.iter().iter().map(|h| h.index() + 1).max().unwrap_or(0);
    let mut g = vec![Vec::new(); n];
    for (a, b) in pairs {
        g[a.index()].push(*b);
        g[b.index()].push(*a);
    }
    g
}

fn flags(set: &RigidBodySet, on: &[RigidBodyHandle]) -> Vec<bool> {
    let n = set.iter().iter().map(|h| h.index() + 1).max().unwrap_or(0);
    let mut f = vec![false; n];
    for h in on {
        f[h.index()] = true;
    }
    f
}

fn assert_consistent(set: &RigidBodySet) {
    for (k, h) in set.iter_active_dynamic().iter().enumerate() {
        assert_eq!(set.get(*h).unwrap().active_set_id(), k);
    }
    for (k, h) in set.iter_active_kinematic().iter().enumerate() {
        assert_eq!(set.get(*h).unwrap().active_set_id(), k);
    }
}

fn step(
    set: &mut RigidBodySet,
    contacts: &[(RigidBodyHandle, RigidBodyHandle)],
    low: &[RigidBodyHandle],
    min_island_size: usize,
) -> Vec<RigidBodyHandle> {
    let c = graph(set, contacts);
    let j = graph(set, &[]);
    let l = flags(set, low);
    let m = flags(set, &[]);
    set.update_active_set_with_contacts(&c, &j, &l, &m, min_island_size)
}

#[test]
fn new_set_is_empty() {
    let set = RigidBodySet::new();
    assert_eq!(set.len(), 0);
    assert!(set.is_empty());
    assert!(set.iter_active_dynamic().is_empty());
    assert!(!set.contains(RigidBodyHandle::invalid()));
    assert_eq!(set.num_islands(), 0);
    assert!(set.active_island(0).is_empty());
}

#[test]
fn insert_registers_kinematic_and_modified() {
    let mut set = RigidBodySet::new();
    let d = set.insert(RigidBody::new(BodyStatus::Dynamic));
    let k = set.insert(RigidBody::new(BodyStatus::Kinematic));
    let s = set.insert(RigidBody::new(BodyStatus::Static));
    assert_eq!(set.len(), 3);
    assert!(set.contains(d) && set.contains(k) && set.contains(s));
    assert_eq!(set.iter_active_kinematic(), vec![k]);
    assert!(set.iter_active_dynamic().is_empty());
    let updated = set.handle_user_changes();
    assert_eq!(updated.len(), 3);
    assert_eq!(set.iter_active_dynamic(), vec![d]);
    assert_eq!(set.iter_active_kinematic(), vec![k]);
    assert_eq!(set.get(d).unwrap().changes().bits, 0);
    assert_consistent(&set);
}

#[test]
fn handle_reuse_is_protected_from_aba() {
    let mut set = RigidBodySet::new();
    let first = set.insert(RigidBody::new(BodyStatus::Dynamic));
    assert!(set.remove(first).is_some());
    assert!(set.get(first).is_none());
    let second = set.insert(RigidBody::new(BodyStatus::Dynamic));
    assert!(set.get(first).is_none());
    assert!(!set.contains(first));
    assert!(set.contains(second));
    assert_ne!(first, second);
    assert_eq!(first.index(), second.index());
    assert_eq!(first.into_raw_parts().1 + 1, second.into_raw_parts().1);
    assert!(set.remove(first).is_none());
    let (_, h) = set.get_unknown_gen(first.index()).unwrap();
    assert_eq!(h, second);
}

#[test]
fn remove_swaps_last_body_into_place() {
    let mut set = RigidBodySet::new();
    let a = set.insert(RigidBody::new(BodyStatus::Dynamic));
    let b = set.insert(RigidBody::new(BodyStatus::Dynamic));
    let c = set.insert(RigidBody::new(BodyStatus::Dynamic));
    set.handle_user_changes();
    assert_eq!(set.iter_active_dynamic(), vec![a, b, c]);
    let removed = set.remove(a).unwrap();
    assert_eq!(removed.active_set_id(), 0);
    assert_eq!(set.iter_active_dynamic(), vec![c, b]);
    assert_eq!(set.len(), 2);
    assert_consistent(&set);
}

#[test]
fn wake_up_appends_sleeping_dynamic_body() {
    let mut set = RigidBodySet::new();
    let a = set.insert(RigidBody::new(BodyStatus::Dynamic));
    let k = set.insert(RigidBody::new(BodyStatus::Kinematic));
    set.handle_user_changes();
    // A new body is woken strongly: it survives its first sleep test.
    assert!(step(&mut set, &[], &[a], 1).is_empty());
    let asleep = step(&mut set, &[], &[a], 1);
    assert_eq!(asleep, vec![a]);
    assert!(set.get(a).unwrap().is_sleeping());
    set.wake_up(a, true);
    assert!(!set.get(a).unwrap().is_sleeping());
    assert_eq!(set.iter_active_dynamic(), vec![a]);
    set.wake_up(a, false);
    assert_eq!(set.iter_active_dynamic(), vec![a]);
    // A strong wake-up survives the next sleep test.
    let asleep = step(&mut set, &[], &[a], 1);
    assert!(asleep.is_empty());
    assert_eq!(set.iter_active_dynamic(), vec![a]);
    // Kinematic bodies are not woken.
    set.wake_up(k, true);
    assert_eq!(set.iter_active_dynamic(), vec![a]);
    assert_consistent(&set);
}

#[test]
fn status_change_moves_body_between_active_sets() {
    let mut set = RigidBodySet::new();
    let a = set.insert(RigidBody::new(BodyStatus::Dynamic));
    let b = set.insert(RigidBody::new(BodyStatus::Dynamic));
    set.handle_user_changes();
    set.get_mut(a).unwrap().set_body_status(BodyStatus::Kinematic);
    set.handle_user_changes();
    assert_eq!(set.iter_active_dynamic(), vec![b]);
    assert_eq!(set.iter_active_kinematic(), vec![a]);
    assert_consistent(&set);
    set.get_mut(a).unwrap().set_body_status(BodyStatus::Static);
    set.get_mut(b).unwrap().set_body_status(BodyStatus::Static);
    set.handle_user_changes();
    assert!(set.iter_active_dynamic().is_empty());
    assert!(set.iter_active_kinematic().is_empty());
    set.get_mut(a).unwrap().set_body_status(BodyStatus::Dynamic);
    set.handle_user_changes();
    assert_eq!(set.iter_active_dynamic(), vec![a]);
    assert!(!set.get(a).unwrap().is_sleeping());
    assert_consistent(&set);
}

#[test]
fn get_mut_records_body_once_per_cycle() {
    let mut set = RigidBodySet::new();
    let a = set.insert(RigidBody::new(BodyStatus::Static));
    set.handle_user_changes();
    set.get_mut(a).unwrap().mark_position_changed();
    set.get_mut(a).unwrap();
    let updated = set.handle_user_changes();
    assert_eq!(updated, vec![a]);
    let updated = set.handle_user_changes();
    assert!(updated.is_empty());
}

#[test]
fn two_disjoint_stacks_make_two_islands() {
    let mut set = RigidBodySet::new();
    let g1 = set.insert(RigidBody::new(BodyStatus::Static));
    let a1 = set.insert(RigidBody::new(BodyStatus::Dynamic));
    let a2 = set.insert(RigidBody::new(BodyStatus::Dynamic));
    let g2 = set.insert(RigidBody::new(BodyStatus::Static));
    let b1 = set.insert(RigidBody::new(BodyStatus::Dynamic));
    let b2 = set.insert(RigidBody::new(BodyStatus::Dynamic));
    let b3 = set.insert(RigidBody::new(BodyStatus::Dynamic));
    set.handle_user_changes();
    let contacts = [(g1, a1), (a1, a2), (g2, b1), (b1, b2), (b2, b3)];
    step(&mut set, &contacts, &[], 1);
    assert_eq!(set.num_islands(), 2);
    let mut sizes: Vec<usize> = (0..2).map(|i| set.active_island(i).len()).collect();
    sizes.sort();
    assert_eq!(sizes, vec![2, 3]);
    let island_a = set.get(a1).unwrap().active_island_id();
    assert_eq!(set.get(a2).unwrap().active_island_id(), island_a);
    let island_b = set.get(b1).unwrap().active_island_id();
    assert_ne!(island_a, island_b);
    assert_eq!(set.get(b3).unwrap().active_island_id(), island_b);
    for i in 0..2 {
        let (start, end) = set.active_island_range(i);
        for (offset, h) in set.active_island(i).iter().enumerate() {
            let rb = set.get(*h).unwrap();
            assert_eq!(rb.active_island_id(), i);
            assert_eq!(rb.active_set_offset(), offset);
            assert_eq!(rb.active_set_id(), start + offset);
        }
        assert!(start < end);
    }
    assert_consistent(&set);
}

#[test]
fn min_island_size_coalesces_small_islands() {
    let mut set = RigidBodySet::new();
    let a = set.insert(RigidBody::new(BodyStatus::Dynamic));
    let b = set.insert(RigidBody::new(BodyStatus::Dynamic));
    let c = set.insert(RigidBody::new(BodyStatus::Dynamic));
    let d = set.insert(RigidBody::new(BodyStatus::Dynamic));
    set.handle_user_changes();
    step(&mut set, &[(a, b), (c, d)], &[], 8);
    assert_eq!(set.num_islands(), 1);
    let mut island = set.active_island(0);
    island.sort_by_key(|h| h.index());
    assert_eq!(island, vec![a, b, c, d]);
    assert_eq!(set.active_island_range(0), (0, 4));
}

#[test]
fn island_boundaries_partition_active_set() {
    let mut set = RigidBodySet::new();
    let hs: Vec<RigidBodyHandle> = (0..6).map(|_| set.insert(RigidBody::new(BodyStatus::Dynamic))).collect();
    set.handle_user_changes();
    step(&mut set, &[(hs[0], hs[1]), (hs[2], hs[3])], &[], 1);
    let n = set.num_islands();
    assert_eq!(n, 4);
    let mut prev_end = 0;
    for i in 0..n {
        let (start, end) = set.active_island_range(i);
        assert_eq!(start, prev_end);
        assert!(start < end);
        prev_end = end;
    }
    assert_eq!(prev_end, set.iter_active_dynamic().len());
    assert_eq!(prev_end, 6);
}

#[test]
fn resting_cube_falls_asleep() {
    let mut set = RigidBodySet::new();
    let ground = set.insert(RigidBody::new(BodyStatus::Static));
    let cube = set.insert(RigidBody::new(BodyStatus::Dynamic));
    set.handle_user_changes();
    let asleep = step(&mut set, &[(ground, cube)], &[], 1);
    assert!(asleep.is_empty());
    assert_eq!(set.iter_active_dynamic(), vec![cube]);
    let asleep = step(&mut set, &[(ground, cube)], &[cube], 1);
    assert_eq!(asleep, vec![cube]);
    assert!(set.get(cube).unwrap().is_sleeping());
    assert!(set.iter_active_dynamic().is_empty());
    assert!(set.iter_active_kinematic().is_empty());
}

#[test]
fn sleeping_world_is_left_unchanged() {
    let mut set = RigidBodySet::new();
    let ground = set.insert(RigidBody::new(BodyStatus::Static));
    let a = set.insert(RigidBody::new(BodyStatus::Dynamic));
    let b = set.insert(RigidBody::new(BodyStatus::Dynamic));
    set.handle_user_changes();
    step(&mut set, &[(ground, a), (a, b)], &[], 1);
    step(&mut set, &[(ground, a), (a, b)], &[a, b], 1);
    let before: Vec<(bool, usize, usize, usize)> = [a, b]
        .iter()
        .map(|h| {
            let rb = set.get(*h).unwrap();
            (rb.is_sleeping(), rb.active_set_id(), rb.active_island_id(), rb.active_set_offset())
        })
        .collect();
    for _ in 0..3 {
        let asleep = step(&mut set, &[(ground, a), (a, b)], &[a, b], 1);
        assert!(asleep.is_empty());
        let after: Vec<(bool, usize, usize, usize)> = [a, b]
            .iter()
            .map(|h| {
                let rb = set.get(*h).unwrap();
                (rb.is_sleeping(), rb.active_set_id(), rb.active_island_id(), rb.active_set_offset())
            })
            .collect();
        assert_eq!(before, after);
        assert!(set.iter_active_dynamic().is_empty());
        assert_eq!(set.num_islands(), 1);
        assert_eq!(set.active_island_range(0), (0, 0));
    }
}

#[test]
fn waking_one_body_wakes_its_contact_chain() {
    let mut set = RigidBodySet::new();
    let a = set.insert(RigidBody::new(BodyStatus::Dynamic));
    let b = set.insert(RigidBody::new(BodyStatus::Dynamic));
    let c = set.insert(RigidBody::new(BodyStatus::Dynamic));
    set.handle_user_changes();
    step(&mut set, &[], &[], 1);
    step(&mut set, &[], &[a, b, c], 1);
    assert!(set.iter_active_dynamic().is_empty());
    set.wake_up(a, true);
    step(&mut set, &[(a, b), (b, c)], &[a, b, c], 1);
    for h in [a, b, c] {
        assert!(!set.get(h).unwrap().is_sleeping());
    }
    assert_eq!(set.iter_active_dynamic().len(), 3);
    let island = set.get(a).unwrap().active_island_id();
    assert_eq!(set.get(b).unwrap().active_island_id(), island);
    assert_eq!(set.get(c).unwrap().active_island_id(), island);
}

#[test]
fn moving_kinematic_body_wakes_its_contacts() {
    let mut set = RigidBodySet::new();
    let k = set.insert(RigidBody::new(BodyStatus::Kinematic));
    let a = set.insert(RigidBody::new(BodyStatus::Dynamic));
    set.handle_user_changes();
    step(&mut set, &[], &[], 1);
    step(&mut set, &[], &[a], 1);
    assert!(set.get(a).unwrap().is_sleeping());
    // Not moving: nothing wakes.
    step(&mut set, &[(k, a)], &[a], 1);
    assert!(set.get(a).unwrap().is_sleeping());
    let c = graph(&set, &[(k, a)]);
    let j = graph(&set, &[]);
    let l = flags(&set, &[a]);
    let m = flags(&set, &[k]);
    set.update_active_set_with_contacts(&c, &j, &l, &m, 1);
    assert!(!set.get(a).unwrap().is_sleeping());
    assert_eq!(set.iter_active_dynamic(), vec![a]);
    assert_eq!(set.iter_active_kinematic(), vec![k]);
}

#[test]
fn iter_mut_marks_all_bodies_modified() {
    let mut set = RigidBodySet::new();
    let a = set.insert(RigidBody::new(BodyStatus::Dynamic));
    let b = set.insert(RigidBody::new(BodyStatus::Static));
    set.handle_user_changes();
    let all = set.iter_mut();
    assert_eq!(all, vec![a, b]);
    assert_eq!(set.iter(), vec![a, b]);
    set.get_mut(b).unwrap().mark_position_changed();
    let updated = set.handle_user_changes();
    assert_eq!(updated, vec![b]);
}

#[test]
fn stale_and_invalid_handles_reach_nothing() {
    let mut set = RigidBodySet::new();
    let a = set.insert(RigidBody::new(BodyStatus::Dynamic));
    assert!(set.get_mut(RigidBodyHandle::invalid()).is_none());
    assert!(set.get_unknown_gen_mut(5).is_none());
    let (_, h) = set.get_unknown_gen_mut(a.index()).unwrap();
    assert_eq!(h, a);
    set.remove(a);
    assert!(set.get_mut(a).is_none());
    assert!(set.get_unknown_gen(a.index()).is_none());
    set.wake_up(a, true);
    assert!(set.iter_active_dynamic().is_empty());
    assert_eq!(set.len(), 0);
}

#[test]
fn second_maintenance_pass_changes_nothing() {
    let mut set = RigidBodySet::new();
    let hs: Vec<RigidBodyHandle> = (0..4).map(|_| set.insert(RigidBody::new(BodyStatus::Dynamic))).collect();
    let k = set.insert(RigidBody::new(BodyStatus::Kinematic));
    set.handle_user_changes();
    set.remove(hs[0]);
    let dyn_before = set.iter_active_dynamic();
    let kin_before = set.iter_active_kinematic();
    assert!(set.handle_user_changes().is_empty());
    assert_eq!(set.iter_active_dynamic(), dyn_before);
    assert_eq!(set.iter_active_kinematic(), kin_before);
    assert_eq!(kin_before, vec![k]);
}

#[test]
fn closed_islands_hold_min_island_size_bodies() {
    let mut set = RigidBodySet::new();
    let hs: Vec<RigidBodyHandle> = (0..7).map(|_| set.insert(RigidBody::new(BodyStatus::Dynamic))).collect();
    let k = set.insert(RigidBody::new(BodyStatus::Kinematic));
    set.handle_user_changes();
    step(&mut set, &[(hs[0], hs[1]), (hs[2], hs[3]), (hs[4], hs[5])], &[], 3);
    let n = set.num_islands();
    for i in 0..n - 1 {
        let (start, end) = set.active_island_range(i);
        assert!(end - start >= 3);
    }
    assert_eq!(set.iter_active_dynamic().len(), 7);
    assert_eq!(set.iter_active_kinematic(), vec![k]);
    assert_eq!(set.get(k).unwrap().active_set_id(), 0);
}
