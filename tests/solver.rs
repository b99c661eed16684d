use rapier::coefficient_combine_rule::CoefficientCombineRule;
use rapier::interaction_groups::{bundle_group, group_interactions, Interaction, SIMD_WIDTH};
use rapier::parallel_island_solver::ThreadContext;
use rapier::revolute_position_constraint_wide::{
    RevolutePositionLane, WRevolutePositionConstraint, WRevolutePositionGroundConstraint,
};
use rapier::rigid_body::{BodyStatus, RigidBody};
use rapier::rigid_body_set::RigidBodySet;
use std::sync::atomic::{AtomicUsize, Ordering};

fn apply(rule: CoefficientCombineRule, c1: f32, c2: f32) -> f32 {
    match rule {
        CoefficientCombineRule::Average => (c1 + c2) / 2.0,
        CoefficientCombineRule::Min => c1.min(c2),
        CoefficientCombineRule::Multiply => c1 * c2,
        CoefficientCombineRule::Max => c1.max(c2),
    }
}

#[test]
fn combine_rule_uses_larger_identifier() {
    for r1 in 0u8..4 {
        for r2 in 0u8..4 {
            let rule = CoefficientCombineRule::effective_rule(r1, r2);
            assert_eq!(rule, CoefficientCombineRule::from_value(r1.max(r2)));
            assert_eq!(rule.as_value(), r1.max(r2));
            assert_eq!(rule, CoefficientCombineRule::effective_rule(r2, r1));
        }
    }
    let avg = CoefficientCombineRule::effective_rule(0, 0);
    assert_eq!(apply(avg, 0.2, 0.6), 0.4);
    let min = CoefficientCombineRule::effective_rule(1, 0);
    assert_eq!(apply(min, 0.2, 0.6), 0.2);
    let mul = CoefficientCombineRule::effective_rule(0, 2);
    assert_eq!(apply(mul, 0.5, 0.6), 0.3);
    let max = CoefficientCombineRule::effective_rule(3, 1);
    assert_eq!(apply(max, 0.2, 0.6), 0.6);
}

#[test]
fn combine_rule_from_value_round_trips() {
    assert_eq!(CoefficientCombineRule::from_value(0), CoefficientCombineRule::Average);
    assert_eq!(CoefficientCombineRule::from_value(1), CoefficientCombineRule::Min);
    assert_eq!(CoefficientCombineRule::from_value(2), CoefficientCombineRule::Multiply);
    assert_eq!(CoefficientCombineRule::from_value(3), CoefficientCombineRule::Max);
    assert_eq!(CoefficientCombineRule::effective_rule(7, 0), CoefficientCombineRule::Max);
}

fn dyn_pair(a: usize, b: usize) -> Interaction {
    Interaction { body1: a, dynamic1: true, body2: b, dynamic2: true }
}

fn check_groups(interactions: &Vec<Interaction>, groups: &Vec<Vec<usize>>) {
    let mut seen = vec![0; interactions.len()];
    for g in groups {
        assert!(!g.is_empty());
        let mut slots = Vec::new();
        for &i in g {
            seen[i] += 1;
            let a = interactions[i];
            if a.dynamic1 {
                slots.push(a.body1);
            }
            if a.dynamic2 {
                slots.push(a.body2);
            }
        }
        let n = slots.len();
        slots.sort();
        slots.dedup();
        assert_eq!(slots.len(), n, "a body appears twice in a group");
    }
    assert!(seen.iter().all(|&c| c == 1));
}

#[test]
fn coloring_keeps_bodies_distinct_within_groups() {
    let interactions = vec![dyn_pair(0, 1), dyn_pair(1, 2), dyn_pair(2, 3), dyn_pair(3, 0)];
    let groups = group_interactions(&interactions);
    assert_eq!(groups, vec![vec![0, 2], vec![1, 3]]);
    check_groups(&interactions, &groups);
}

#[test]
fn coloring_ignores_ground_sides() {
    let ground = |a: usize| Interaction { body1: a, dynamic1: true, body2: 99, dynamic2: false };
    let interactions = vec![ground(0), ground(1), ground(2), dyn_pair(0, 1)];
    let groups = group_interactions(&interactions);
    assert_eq!(groups, vec![vec![0, 1, 2], vec![3]]);
    check_groups(&interactions, &groups);
}

#[test]
fn coloring_of_nothing_is_empty() {
    let groups = group_interactions(&Vec::new());
    assert!(groups.is_empty());
}

#[test]
fn coloring_of_a_star_needs_one_group_per_edge() {
    let interactions: Vec<Interaction> = (1..6).map(|i| dyn_pair(0, i)).collect();
    let groups = group_interactions(&interactions);
    assert_eq!(groups.len(), 5);
    check_groups(&interactions, &groups);
}

#[test]
fn bundles_take_full_lanes_then_leftovers() {
    let group: Vec<usize> = (10..19).collect();
    let (wide, scalar) = bundle_group(&group);
    assert_eq!(SIMD_WIDTH, 4);
    assert_eq!(wide, vec![[10, 11, 12, 13], [14, 15, 16, 17]]);
    assert_eq!(scalar, vec![18]);
    let (wide, scalar) = bundle_group(&vec![1, 2, 3]);
    assert!(wide.is_empty());
    assert_eq!(scalar, vec![1, 2, 3]);
}

#[test]
fn batches_cover_a_phase_without_overlap() {
    let ctx = ThreadContext::new(8);
    assert_eq!(ctx.batch_size, 8);
    let mut got = Vec::new();
    while let Some((s, e)) = ThreadContext::claim_batch(&ctx.solve_interaction_index, ctx.batch_size, 20) {
        got.push((s, e));
        ThreadContext::complete_batch(&ctx.num_solved_interactions, s, e);
    }
    assert_eq!(got, vec![(0, 8), (8, 16), (16, 20)]);
    let done = ctx.num_solved_interactions.load(Ordering::SeqCst);
    assert_eq!(done, 20);
    assert!(ThreadContext::phase_done(done, 20));
    assert!(!ThreadContext::phase_done(19, 20));
    assert!(ThreadContext::phase_done(0, 0));
}

#[test]
fn batch_bounds_stop_at_the_end() {
    assert_eq!(ThreadContext::batch_bounds(0, 8, 5), Some((0, 5)));
    assert_eq!(ThreadContext::batch_bounds(5, 8, 5), None);
    assert_eq!(ThreadContext::batch_bounds(9, 8, 5), None);
    assert_eq!(ThreadContext::batch_bounds(8, 8, 20), Some((8, 16)));
    let cursor = AtomicUsize::new(0);
    assert_eq!(ThreadContext::claim_batch(&cursor, 4, 0), None);
}

#[derive(Clone, Copy)]
struct Shift(f32);

impl RevolutePositionLane<f32> for Shift {
    fn corrected(&self, position1: f32, position2: f32) -> (f32, f32) {
        (position1 + self.0, position2 - self.0)
    }

    fn corrected_ground(&self, position: f32, flipped: bool) -> f32 {
        if flipped { position - self.0 } else { position + self.0 }
    }

    fn correct(&self, position1: f32, position2: f32) -> (f32, f32) {
        self.corrected(position1, position2)
    }

    fn correct_ground(&self, position: f32, flipped: bool) -> f32 {
        self.corrected_ground(position, flipped)
    }
}

#[test]
fn wide_revolute_constraint_moves_only_its_bodies() {
    let mut set = RigidBodySet::new();
    let hs: Vec<_> = (0..10).map(|_| set.insert(RigidBody::new(BodyStatus::Dynamic))).collect();
    set.handle_user_changes();
    let n = set.len();
    let contacts = vec![Vec::new(); n];
    set.update_active_set_with_contacts(&contacts, &contacts, &vec![false; n], &vec![false; n], 100);
    let b: Vec<&RigidBody> = hs.iter().map(|h| set.get(*h).unwrap()).collect();
    let c = WRevolutePositionConstraint::from_params(
        [b[0], b[2], b[4], b[6]],
        [b[1], b[3], b[5], b[7]],
        [Shift(1.0), Shift(2.0), Shift(3.0), Shift(4.0)],
    );
    for k in 0..4 {
        assert_eq!(c.position1[k], b[2 * k].active_set_offset());
        assert_eq!(c.position2[k], b[2 * k + 1].active_set_offset());
    }
    let mut positions = vec![0.0f32; 10];
    c.solve(&mut positions);
    for k in 0..4 {
        assert_eq!(positions[c.position1[k]], (k + 1) as f32);
        assert_eq!(positions[c.position2[k]], -((k + 1) as f32));
    }
    assert_eq!(positions[b[8].active_set_offset()], 0.0);
    assert_eq!(positions[b[9].active_set_offset()], 0.0);

    let g = WRevolutePositionGroundConstraint::from_params(
        [b[0], b[2], b[4], b[6]],
        [b[1], b[3], b[5], b[7]],
        [Shift(1.0), Shift(1.0), Shift(1.0), Shift(1.0)],
        [true, false, true, false],
    );
    assert_eq!(g.position[0], b[0].active_set_offset());
    assert_eq!(g.position[1], b[3].active_set_offset());
    let mut positions = vec![0.0f32; 10];
    g.solve(&mut positions);
    assert_eq!(positions[b[0].active_set_offset()], -1.0);
    assert_eq!(positions[b[3].active_set_offset()], 1.0);
    assert_eq!(positions[b[1].active_set_offset()], 0.0);
}

#[test]
fn wide_revolute_lanes_apply_in_order() {
    let mut set = RigidBodySet::new();
    let hs: Vec<_> = (0..3).map(|_| set.insert(RigidBody::new(BodyStatus::Dynamic))).collect();
    set.handle_user_changes();
    let n = set.len();
    let empty = vec![Vec::new(); n];
    set.update_active_set_with_contacts(&empty, &empty, &vec![false; n], &vec![false; n], 100);
    let b: Vec<&RigidBody> = hs.iter().map(|h| set.get(*h).unwrap()).collect();
    let c = WRevolutePositionConstraint::from_params(
        [b[0], b[1], b[0], b[1]],
        [b[1], b[2], b[2], b[0]],
        [Shift(1.0), Shift(10.0), Shift(100.0), Shift(1000.0)],
    );
    let mut positions = vec![0.0f32; 3];
    c.solve(&mut positions);
    let (o0, o1, o2) = (b[0].active_set_offset(), b[1].active_set_offset(), b[2].active_set_offset());
    // Lane by lane: (0,1) +1/-1, (1,2) +10/-10, (0,2) +100/-100, (1,0) +1000/-1000.
    assert_eq!(positions[o0], 1.0 + 100.0 - 1000.0);
    assert_eq!(positions[o1], -1.0 + 10.0 + 1000.0);
    assert_eq!(positions[o2], -10.0 - 100.0);
}
