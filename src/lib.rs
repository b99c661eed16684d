//! Island bookkeeping and constraint scheduling for a rigid-body solver.
//!
//! The library holds the integer side of an island-based constrained-dynamics
//! step: generational body storage with its active sets, the island
//! extraction walk, the coloring of interactions into conflict-free groups,
//! the phase cursors of the parallel solver, the coefficient-combination
//! rule and the one-way-platform contact state machine.
pub mod arena;
pub mod coefficient_combine_rule;
pub mod constraint_layout;
pub mod interaction_groups;
pub mod parallel_island_solver;
pub mod physics_hooks;
pub mod revolute_position_constraint_wide;
pub mod rigid_body;
pub mod rigid_body_set;
