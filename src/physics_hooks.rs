use crate::rigid_body::ColliderHandle;
use crate::rigid_body_set::RigidBodyHandle;
use vstd::prelude::*;

verus! {

/// Flags affecting the behavior of the constraints solver for a given
/// contact manifold.
#[derive(Copy, Clone, Debug, PartialEq, Eq, Structural, Hash)]
pub struct SolverFlags {
    pub bits: u32,
}

/// The contacts of the manifold are taken into account by the solver.
pub const SOLVER_COMPUTE_IMPULSES: u32 = 1;

impl SolverFlags {
    /// No flag: the solver ignores the contacts.
    pub fn empty() -> (r: Self)
        ensures
            r.bits == 0,
    {
        SolverFlags { bits: 0 }
    }

    /// The contacts are solved.
    pub fn compute_impulses() -> (r: Self)
        ensures
            r.bits == SOLVER_COMPUTE_IMPULSES,
    {
        SolverFlags { bits: SOLVER_COMPUTE_IMPULSES }
    }
}

/// The set of hooks that a [`PhysicsHooks`] implementation asks to be called.
#[derive(Copy, Clone, Debug, PartialEq, Eq, Structural, Hash)]
pub struct PhysicsHooksFlags {
    pub bits: u32,
}

/// `PhysicsHooks::filter_contact_pair` is to be called.
pub const FILTER_CONTACT_PAIR: u32 = 1;
/// `PhysicsHooks::filter_intersection_pair` is to be called.
pub const FILTER_INTERSECTION_PAIR: u32 = 2;
/// `PhysicsHooks::modify_solver_contacts` is to be called.
pub const MODIFY_SOLVER_CONTACTS: u32 = 4;

impl PhysicsHooksFlags {
    /// No hook.
    pub fn empty() -> (r: Self)
        ensures
            r.bits == 0,
    {
        PhysicsHooksFlags { bits: 0 }
    }

    /// The flags whose bits are `bits`.
    pub fn from_bits(bits: u32) -> (r: Self)
        ensures
            r.bits == bits,
    {
        PhysicsHooksFlags { bits }
    }

    /// Does this set hold every bit of `flag`?
    pub fn contains(&self, flag: u32) -> (r: bool)
        ensures
            r == (self.bits & flag == flag),
    {
        self.bits & flag == flag
    }
}

/// Context given to custom collision filters to filter out collisions.
#[derive(Copy, Clone, Debug, PartialEq, Eq, Structural)]
pub struct PairFilterContext {
    /// The first rigid body involved in the potential collision.
    pub rigid_body1: RigidBodyHandle,
    /// The second rigid body involved in the potential collision.
    pub rigid_body2: RigidBodyHandle,
    /// The handle of the first collider involved in the potential collision.
    pub collider_handle1: ColliderHandle,
    /// The handle of the second collider involved in the potential collision.
    pub collider_handle2: ColliderHandle,
}

/// The state of a one-way platform contact, kept in the manifold's user data.
pub const CONTACT_CONFIGURATION_UNKNOWN: u32 = 0;
/// Contacts are let through.
pub const CONTACT_CURRENTLY_ALLOWED: u32 = 1;
/// Contacts are discarded until the bodies separate.
pub const CONTACT_CURRENTLY_FORBIDDEN: u32 = 2;

/// One step of the one-way platform state machine, from `state`, where
/// `contact_is_ok` says that the contact normal is close enough to the
/// allowed direction, `normal_is_significant` that the normal is long enough
/// to conclude anything, `has_contacts` that the manifold holds contacts and
/// `all_separated` that all of them have a positive distance. Returns the
/// next state and whether the contacts are to be discarded.
pub open spec fn oneway_step(
    state: u32,
    contact_is_ok: bool,
    normal_is_significant: bool,
    has_contacts: bool,
    all_separated: bool,
) -> (u32, bool) {
    if state == CONTACT_CONFIGURATION_UNKNOWN {
        if contact_is_ok {
            (CONTACT_CURRENTLY_ALLOWED, false)
        } else if normal_is_significant {
            (CONTACT_CURRENTLY_FORBIDDEN, true)
        } else {
            (CONTACT_CONFIGURATION_UNKNOWN, true)
        }
    } else if state == CONTACT_CURRENTLY_FORBIDDEN {
        if contact_is_ok && has_contacts && all_separated {
            (CONTACT_CURRENTLY_ALLOWED, false)
        } else {
            (CONTACT_CURRENTLY_FORBIDDEN, true)
        }
    } else {
        if has_contacts {
            (CONTACT_CURRENTLY_ALLOWED, false)
        } else {
            (CONTACT_CONFIGURATION_UNKNOWN, false)
        }
    }
}

/// Context given to custom contact modifiers to modify the contacts seen by
/// the constraints solver. `C` is the type of a solver contact.
pub struct ContactModificationContext<C> {
    /// The first rigid body involved in the contact.
    pub rigid_body1: RigidBodyHandle,
    /// The second rigid body involved in the contact.
    pub rigid_body2: RigidBodyHandle,
    /// The handle of the first collider involved in the contact.
    pub collider_handle1: ColliderHandle,
    /// The handle of the second collider involved in the contact.
    pub collider_handle2: ColliderHandle,
    /// The solver contacts that can be modified.
    pub solver_contacts: Vec<C>,
    /// User-defined data attached to the manifold, kept across timesteps.
    pub user_data: u32,
}

impl<C> ContactModificationContext<C> {
    /// Makes the contact behave as a one-way platform.
    ///
    /// Contacts between the two colliders are only let through when the
    /// local contact normal of the first collider is close enough to the
    /// allowed direction (`contact_is_ok`: its dot product with the allowed
    /// direction is at least the cosine of the allowed angle). Once a
    /// contact was refused while the normal was long enough to conclude
    /// (`normal_is_significant`), contacts stay refused until the bodies
    /// separate (`all_separated`: every solver contact has a positive
    /// distance) and contacts reappear. The state lives in `user_data`,
    /// which must not be modified elsewhere.
    pub fn update_as_oneway_platform(
        &mut self,
        contact_is_ok: bool,
        normal_is_significant: bool,
        all_separated: bool,
    )
        requires
            old(self).user_data <= CONTACT_CURRENTLY_FORBIDDEN,
        ensures
            ({
                let (next, discard) = oneway_step(
                    old(self).user_data,
                    contact_is_ok,
                    normal_is_significant,
                    old(self).solver_contacts@.len() > 0,
                    all_separated,
                );
                &&& final(self).user_data == next
                &&& final(self).solver_contacts@ == if discard {
                    Seq::<C>::empty()
                } else {
                    old(self).solver_contacts@
                }
            }),
            final(self).user_data <= CONTACT_CURRENTLY_FORBIDDEN,
            final(self).rigid_body1 == old(self).rigid_body1,
            final(self).rigid_body2 == old(self).rigid_body2,
            final(self).collider_handle1 == old(self).collider_handle1,
            final(self).collider_handle2 == old(self).collider_handle2,
    {
        let has_contacts = self.solver_contacts.len() > 0;
        if self.user_data == CONTACT_CONFIGURATION_UNKNOWN {
            if contact_is_ok {
                self.user_data = CONTACT_CURRENTLY_ALLOWED;
            } else {
                self.solver_contacts.clear();
                if normal_is_significant {
                    self.user_data = CONTACT_CURRENTLY_FORBIDDEN;
                }
            }
        } else if self.user_data == CONTACT_CURRENTLY_FORBIDDEN {
            if contact_is_ok && has_contacts && all_separated {
                self.user_data = CONTACT_CURRENTLY_ALLOWED;
            } else {
                self.solver_contacts.clear();
            }
        } else {
            if !has_contacts {
                self.user_data = CONTACT_CONFIGURATION_UNKNOWN;
            }
        }
    }
}

/// User-defined functions called by the physics engine during a timestep to
/// customize its behavior.
pub trait PhysicsHooks {
    /// The hooks that must be called.
    fn active_hooks(&self) -> PhysicsHooksFlags;

    /// Decides whether the narrow phase computes contacts for this pair of
    /// colliders (`Some`) and with which solver flags, or ignores it (`None`).
    /// Called only when `active_hooks` holds `FILTER_CONTACT_PAIR`.
    fn filter_contact_pair(&self, context: &PairFilterContext) -> Option<SolverFlags>;

    /// Decides whether the narrow phase computes intersections for this pair
    /// of colliders. Called only when `active_hooks` holds
    /// `FILTER_INTERSECTION_PAIR`.
    fn filter_intersection_pair(&self, context: &PairFilterContext) -> bool;

    /// Modifies the contacts seen by the constraints solver for one manifold.
    /// Called only when `active_hooks` holds `MODIFY_SOLVER_CONTACTS`.
    fn modify_solver_contacts<C>(&self, context: &mut ContactModificationContext<C>);
}

/// No hook: every pair is left to the default filtering and no contact is
/// modified.
impl PhysicsHooks for () {
    fn active_hooks(&self) -> (r: PhysicsHooksFlags)
        ensures
            r.bits == 0,
    {
        PhysicsHooksFlags::empty()
    }

    fn filter_contact_pair(&self, context: &PairFilterContext) -> (r: Option<SolverFlags>)
        ensures
            r is None,
    {
        None
    }

    fn filter_intersection_pair(&self, context: &PairFilterContext) -> (r: bool)
        ensures
            !r,
    {
        false
    }

    fn modify_solver_contacts<C>(&self, context: &mut ContactModificationContext<C>)
        ensures
            *final(context) == *old(context),
    {
    }
}

} // verus!
