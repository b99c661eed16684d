use rapier::arena::Index;
use rapier::physics_hooks::{
    ContactModificationContext, PairFilterContext, PhysicsHooks, PhysicsHooksFlags, SolverFlags,
    CONTACT_CONFIGURATION_UNKNOWN, CONTACT_CURRENTLY_ALLOWED, CONTACT_CURRENTLY_FORBIDDEN,
    FILTER_CONTACT_PAIR, MODIFY_SOLVER_CONTACTS,
};
use rapier::rigid_body::ColliderHandle;
use rapier::rigid_body_set::RigidBodyHandle;

fn context(dists: Vec<f32>) -> ContactModificationContext<f32> {
    ContactModificationContext {
        rigid_body1: RigidBodyHandle::from_raw_parts(0, 0),
        rigid_body2: RigidBodyHandle::from_raw_parts(1, 0),
        collider_handle1: ColliderHandle(Index::from_raw_parts(0, 0)),
        collider_handle2: ColliderHandle(Index::from_raw_parts(1, 0)),
        solver_contacts: dists,
        user_data: CONTACT_CONFIGURATION_UNKNOWN,
    }
}

fn update(ctx: &mut ContactModificationContext<f32>, normal_dot_allowed: f32, normal_norm2: f32) {
    let ok = normal_dot_allowed >= 0.9;
    let significant = normal_norm2 > 0.1;
    let separated = ctx.solver_contacts.iter().all(|d| *d > 0.0);
    ctx.update_as_oneway_platform(ok, significant, separated);
}

#[test]
fn oneway_platform_forbids_from_below_then_allows_from_above() {
    let mut ctx = context(vec![-0.01, -0.02]);
    // Approach from below: the normal points away from the allowed direction.
    update(&mut ctx, -1.0, 1.0);
    assert_eq!(ctx.user_data, CONTACT_CURRENTLY_FORBIDDEN);
    assert!(ctx.solver_contacts.is_empty());
    // Still penetrating while passing through: keep discarding.
    ctx.solver_contacts = vec![-0.01];
    update(&mut ctx, 1.0, 1.0);
    assert_eq!(ctx.user_data, CONTACT_CURRENTLY_FORBIDDEN);
    assert!(ctx.solver_contacts.is_empty());
    // No contacts at all: stay forbidden until contacts reappear.
    update(&mut ctx, 1.0, 1.0);
    assert_eq!(ctx.user_data, CONTACT_CURRENTLY_FORBIDDEN);
    // From above, separated: allowed, and the contacts are kept.
    ctx.solver_contacts = vec![0.01, 0.02];
    update(&mut ctx, 1.0, 1.0);
    assert_eq!(ctx.user_data, CONTACT_CURRENTLY_ALLOWED);
    assert_eq!(ctx.solver_contacts, vec![0.01, 0.02]);
    // Contact lost: back to unknown.
    ctx.solver_contacts.clear();
    update(&mut ctx, 1.0, 1.0);
    assert_eq!(ctx.user_data, CONTACT_CONFIGURATION_UNKNOWN);
}

#[test]
fn oneway_platform_allows_resting_from_above() {
    let mut ctx = context(vec![-0.001]);
    update(&mut ctx, 1.0, 1.0);
    assert_eq!(ctx.user_data, CONTACT_CURRENTLY_ALLOWED);
    assert_eq!(ctx.solver_contacts, vec![-0.001]);
    update(&mut ctx, 1.0, 1.0);
    assert_eq!(ctx.user_data, CONTACT_CURRENTLY_ALLOWED);
}

#[test]
fn oneway_platform_waits_on_degenerate_normal() {
    let mut ctx = context(vec![0.0]);
    update(&mut ctx, 0.0, 0.0);
    assert_eq!(ctx.user_data, CONTACT_CONFIGURATION_UNKNOWN);
    assert!(ctx.solver_contacts.is_empty());
}

#[test]
fn unit_hooks_do_nothing() {
    let hooks = ();
    assert_eq!(hooks.active_hooks(), PhysicsHooksFlags::empty());
    let pair = PairFilterContext {
        rigid_body1: RigidBodyHandle::from_raw_parts(0, 0),
        rigid_body2: RigidBodyHandle::from_raw_parts(1, 0),
        collider_handle1: ColliderHandle(Index::from_raw_parts(0, 0)),
        collider_handle2: ColliderHandle(Index::from_raw_parts(1, 0)),
    };
    assert_eq!(hooks.filter_contact_pair(&pair), None);
    assert!(!hooks.filter_intersection_pair(&pair));
    let mut ctx = context(vec![0.5]);
    hooks.modify_solver_contacts(&mut ctx);
    assert_eq!(ctx.solver_contacts, vec![0.5]);
    assert_eq!(ctx.user_data, CONTACT_CONFIGURATION_UNKNOWN);
}

#[test]
fn hook_flags_hold_their_bits() {
    let f = PhysicsHooksFlags::from_bits(FILTER_CONTACT_PAIR | MODIFY_SOLVER_CONTACTS);
    assert!(f.contains(FILTER_CONTACT_PAIR));
    assert!(f.contains(MODIFY_SOLVER_CONTACTS));
    assert!(!f.contains(2));
    assert_eq!(SolverFlags::compute_impulses().bits, 1);
    assert_eq!(SolverFlags::empty().bits, 0);
}
