use std::sync::atomic::{AtomicUsize, Ordering};
use vstd::prelude::*;

verus! {

/// The counters through which the workers solving one island share its
/// phases. For each phase, a cursor says where the next worker picks up, and
/// a completion counter how many items are finished; a worker waits for the
/// completion counter of a phase to reach the phase's item count before it
/// starts the next phase.
pub struct ThreadContext {
    pub batch_size: usize,
    // Velocity solver.
    pub constraint_initialization_index: AtomicUsize,
    pub num_initialized_constraints: AtomicUsize,
    pub joint_constraint_initialization_index: AtomicUsize,
    pub num_initialized_joint_constraints: AtomicUsize,
    pub warmstart_contact_index: AtomicUsize,
    pub num_warmstarted_contacts: AtomicUsize,
    pub warmstart_joint_index: AtomicUsize,
    pub num_warmstarted_joints: AtomicUsize,
    pub solve_interaction_index: AtomicUsize,
    pub num_solved_interactions: AtomicUsize,
    pub impulse_writeback_index: AtomicUsize,
    pub joint_writeback_index: AtomicUsize,
    pub body_integration_index: AtomicUsize,
    pub body_force_integration_index: AtomicUsize,
    pub num_force_integrated_bodies: AtomicUsize,
    pub num_integrated_bodies: AtomicUsize,
    // Position solver.
    pub position_constraint_initialization_index: AtomicUsize,
    pub num_initialized_position_constraints: AtomicUsize,
    pub position_joint_constraint_initialization_index: AtomicUsize,
    pub num_initialized_position_joint_constraints: AtomicUsize,
    pub solve_position_interaction_index: AtomicUsize,
    pub num_solved_position_interactions: AtomicUsize,
    pub position_writeback_index: AtomicUsize,
}

impl ThreadContext {
    /// A context whose workers take `batch_size` items at a time, with every
    /// counter at zero.
    pub fn new(batch_size: usize) -> (r: Self)
        ensures
            r.batch_size == batch_size,
    {
        ThreadContext {
            batch_size,
            constraint_initialization_index: AtomicUsize::new(0),
            num_initialized_constraints: AtomicUsize::new(0),
            joint_constraint_initialization_index: AtomicUsize::new(0),
            num_initialized_joint_constraints: AtomicUsize::new(0),
            num_warmstarted_contacts: AtomicUsize::new(0),
            warmstart_contact_index: AtomicUsize::new(0),
            num_warmstarted_joints: AtomicUsize::new(0),
            warmstart_joint_index: AtomicUsize::new(0),
            solve_interaction_index: AtomicUsize::new(0),
            num_solved_interactions: AtomicUsize::new(0),
            impulse_writeback_index: AtomicUsize::new(0),
            joint_writeback_index: AtomicUsize::new(0),
            body_force_integration_index: AtomicUsize::new(0),
            num_force_integrated_bodies: AtomicUsize::new(0),
            body_integration_index: AtomicUsize::new(0),
            num_integrated_bodies: AtomicUsize::new(0),
            position_constraint_initialization_index: AtomicUsize::new(0),
            num_initialized_position_constraints: AtomicUsize::new(0),
            position_joint_constraint_initialization_index: AtomicUsize::new(0),
            num_initialized_position_joint_constraints: AtomicUsize::new(0),
            solve_position_interaction_index: AtomicUsize::new(0),
            num_solved_position_interactions: AtomicUsize::new(0),
            position_writeback_index: AtomicUsize::new(0),
        }
    }

    /// The items `[start, end)` of a phase of `num_items` items that a worker
    /// handles when its cursor read `start`, or `None` when the phase has no
    /// item left.
    pub fn batch_bounds(start: usize, batch_size: usize, num_items: usize) -> (r: Option<(usize, usize)>)
        ensures
            start >= num_items ==> r is None,
            start < num_items ==> r == Some((start, if start + batch_size <= num_items {
                (start + batch_size) as usize
            } else {
                num_items
            })),
    {
        if start >= num_items {
            None
        } else if batch_size <= num_items - start {
            Some((start, start + batch_size))
        } else {
            Some((start, num_items))
        }
    }

    /// Moves `cursor` forward by `batch_size` and returns the items that this
    /// worker is to handle, or `None` when the phase has no item left. The
    /// range handed out starts where the cursor stood and holds at most
    /// `batch_size` items, all within the phase.
    pub fn claim_batch(cursor: &AtomicUsize, batch_size: usize, num_items: usize) -> (r: Option<(usize, usize)>)
        ensures
            r matches Some((s, e)) ==> s < num_items && s <= e && e <= num_items && e - s <= batch_size,
    {
        let start = cursor.fetch_add(batch_size, Ordering::SeqCst);
        Self::batch_bounds(start, batch_size, num_items)
    }

    /// Records that the items `[start, end)` of a phase are finished.
    pub fn complete_batch(completed: &AtomicUsize, start: usize, end: usize)
        requires
            start <= end,
    {
        completed.fetch_add(end - start, Ordering::SeqCst);
    }

    /// Has the phase whose completion counter read `completed` finished all
    /// its `target` items?
    pub fn phase_done(completed: usize, target: usize) -> (r: bool)
        ensures
            r == (target == 0 || completed >= target),
    {
        target == 0 || completed >= target
    }
}

} // verus!
