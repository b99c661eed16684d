use rapier::constraint_layout::{constraint_offsets, contact_chunks, num_active_constraints, MAX_MANIFOLD_POINTS};

#[test]
fn manifold_needs_rounded_up_constraints() {
    assert_eq!(MAX_MANIFOLD_POINTS, 4);
    assert_eq!(num_active_constraints(0), 0);
    assert_eq!(num_active_constraints(1), 1);
    assert_eq!(num_active_constraints(4), 1);
    assert_eq!(num_active_constraints(5), 2);
    assert_eq!(num_active_constraints(8), 2);
    assert_eq!(num_active_constraints(9), 3);
    assert_eq!(num_active_constraints(usize::MAX), usize::MAX / 4 + 1);
}

#[test]
fn contact_chunks_split_points_in_order() {
    assert_eq!(contact_chunks(0), vec![]);
    assert_eq!(contact_chunks(3), vec![(0, 3)]);
    assert_eq!(contact_chunks(4), vec![(0, 4)]);
    assert_eq!(contact_chunks(10), vec![(0, 4), (4, 8), (8, 10)]);
}

#[test]
fn constraint_offsets_are_prefix_sums() {
    assert_eq!(constraint_offsets(&vec![]), Some(vec![0]));
    assert_eq!(constraint_offsets(&vec![2, 0, 3, 1]), Some(vec![0, 2, 2, 5, 6]));
    assert_eq!(constraint_offsets(&vec![usize::MAX, 1]), None);
    assert_eq!(constraint_offsets(&vec![usize::MAX, 0]), Some(vec![0, usize::MAX, usize::MAX]));
}
