use crate::arena::Index;
use vstd::prelude::*;

verus! {

/// The handle of a collider attached to a rigid body.
#[derive(Copy, Clone, Debug, PartialEq, Eq, Structural, Hash)]
pub struct ColliderHandle(pub Index);

/// How a body takes part in the simulation.
#[derive(Copy, Clone, Debug, PartialEq, Eq, Structural, Hash)]
pub enum BodyStatus {
    /// Moved by forces and contacts.
    Dynamic,
    /// Moved by the user only; it pushes dynamic bodies but is not pushed.
    Kinematic,
    /// Never moves.
    Static,
}

/// The set of changes made to a body since the last maintenance pass,
/// one bit per kind of change.
#[derive(Copy, Clone, Debug, PartialEq, Eq, Structural, Hash)]
pub struct RigidBodyChanges {
    pub bits: u32,
}

/// The body was handed out mutably and recorded as modified.
pub const CHANGE_MODIFIED: u32 = 1;
/// The pose changed.
pub const CHANGE_POSITION: u32 = 2;
/// The sleep state changed.
pub const CHANGE_SLEEP: u32 = 4;
/// The set of attached colliders changed.
pub const CHANGE_COLLIDERS: u32 = 8;
/// The body status (dynamic, kinematic, static) changed.
pub const CHANGE_BODY_STATUS: u32 = 16;
/// Every change bit.
pub const CHANGE_ALL: u32 = 31;

/// `bits` holds every bit of `flag`.
pub open spec fn has_bits(bits: u32, flag: u32) -> bool {
    bits & flag == flag
}

impl RigidBodyChanges {
    /// No change.
    pub fn empty() -> (r: Self)
        ensures
            r.bits == 0,
    {
        RigidBodyChanges { bits: 0 }
    }

    /// Every change.
    pub fn all() -> (r: Self)
        ensures
            r.bits == CHANGE_ALL,
    {
        RigidBodyChanges { bits: CHANGE_ALL }
    }

    /// Does this set hold every bit of `flag`?
    pub fn contains(&self, flag: u32) -> (r: bool)
        ensures
            r == has_bits(self.bits, flag),
    {
        self.bits & flag == flag
    }

    /// Adds the bits of `flag` to this set.
    pub fn insert(&mut self, flag: u32)
        ensures
            final(self).bits == old(self).bits | flag,
            has_bits(final(self).bits, flag),
    {
        let b = self.bits;
        assert(has_bits(b | flag, flag)) by (bit_vector);
        self.bits = b | flag;
    }
}

/// The sleep state of a body.
#[derive(Copy, Clone, Debug, PartialEq, Eq, Structural)]
pub struct ActivationStatus {
    /// The body is asleep: it is not simulated until something wakes it.
    pub sleeping: bool,
    /// A strong wake-up reset the energy accumulator: the next sleep test
    /// keeps the body awake whatever its measured energy.
    pub energy_reset: bool,
}

/// The bookkeeping of one rigid body: its status, its attachments, its sleep
/// state, the changes made to it since the last maintenance pass, and where
/// it stands in the active sets and islands of its set.
///
/// The body's pose, velocities and mass properties are kept by the caller,
/// keyed by the body's handle; this record holds what the island and
/// activation logic reads. The position fields (`active_set_id`,
/// `active_island_id`, `active_set_offset`, `active_set_timestamp`) are
/// written by the body's set only.
pub struct RigidBody {
    pub body_status: BodyStatus,
    pub changes: RigidBodyChanges,
    pub activation: ActivationStatus,
    pub colliders: Vec<ColliderHandle>,
    pub joint_graph_index: usize,
    pub active_set_id: usize,
    pub active_island_id: usize,
    pub active_set_offset: usize,
    pub active_set_timestamp: u32,
}

impl RigidBody {
    /// A body of the given status, awake, with no collider attached.
    pub fn new(body_status: BodyStatus) -> (r: Self)
        ensures
            r.body_status == body_status,
            !r.activation.sleeping,
            r.colliders@.len() == 0,
    {
        RigidBody {
            body_status,
            changes: RigidBodyChanges::all(),
            activation: ActivationStatus { sleeping: false, energy_reset: false },
            colliders: Vec::new(),
            joint_graph_index: usize::MAX,
            active_set_id: 0,
            active_island_id: 0,
            active_set_offset: 0,
            active_set_timestamp: 0,
        }
    }

    /// The status of this body.
    pub fn body_status(&self) -> (r: BodyStatus)
        ensures
            r == self.body_status,
    {
        self.body_status
    }

    /// Changes the status of this body; the change is taken into account by
    /// the next maintenance pass of its set.
    pub fn set_body_status(&mut self, status: BodyStatus)
        ensures
            final(self).body_status == status,
            has_bits(final(self).changes.bits, CHANGE_BODY_STATUS),
            final(self).active_set_id == old(self).active_set_id,
            final(self).activation == old(self).activation,
            final(self).colliders == old(self).colliders,
            final(self).joint_graph_index == old(self).joint_graph_index,
            final(self).active_set_timestamp == old(self).active_set_timestamp,
            final(self).active_island_id == old(self).active_island_id,
            final(self).active_set_offset == old(self).active_set_offset,
    {
        self.changes.insert(CHANGE_BODY_STATUS);
        self.body_status = status;
    }

    /// Records that the pose of this body was changed by the user.
    pub fn mark_position_changed(&mut self)
        ensures
            has_bits(final(self).changes.bits, CHANGE_POSITION),
            final(self).body_status == old(self).body_status,
            final(self).active_set_id == old(self).active_set_id,
            final(self).activation == old(self).activation,
            final(self).colliders == old(self).colliders,
            final(self).joint_graph_index == old(self).joint_graph_index,
            final(self).active_set_timestamp == old(self).active_set_timestamp,
            final(self).active_island_id == old(self).active_island_id,
            final(self).active_set_offset == old(self).active_set_offset,
    {
        self.changes.insert(CHANGE_POSITION);
    }

    /// Attaches a collider to this body.
    pub fn add_collider(&mut self, collider: ColliderHandle)
        ensures
            final(self).colliders@ == old(self).colliders@.push(collider),
            has_bits(final(self).changes.bits, CHANGE_COLLIDERS),
            final(self).body_status == old(self).body_status,
            final(self).active_set_id == old(self).active_set_id,
            final(self).activation == old(self).activation,
            final(self).joint_graph_index == old(self).joint_graph_index,
            final(self).active_set_timestamp == old(self).active_set_timestamp,
            final(self).active_island_id == old(self).active_island_id,
            final(self).active_set_offset == old(self).active_set_offset,
    {
        self.colliders.push(collider);
        self.changes.insert(CHANGE_COLLIDERS);
    }

    /// The colliders attached to this body.
    pub fn colliders(&self) -> (r: &Vec<ColliderHandle>)
        ensures
            r == &self.colliders,
    {
        &self.colliders
    }

    /// The vertex of this body in the joint graph (`usize::MAX` for none).
    pub fn joint_graph_index(&self) -> (r: usize)
        ensures
            r == self.joint_graph_index,
    {
        self.joint_graph_index
    }

    /// Sets the vertex of this body in the joint graph.
    pub fn set_joint_graph_index(&mut self, index: usize)
        ensures
            final(self).joint_graph_index == index,
            final(self).body_status == old(self).body_status,
            final(self).changes == old(self).changes,
            final(self).active_set_id == old(self).active_set_id,
            final(self).activation == old(self).activation,
            final(self).colliders == old(self).colliders,
            final(self).active_set_timestamp == old(self).active_set_timestamp,
            final(self).active_island_id == old(self).active_island_id,
            final(self).active_set_offset == old(self).active_set_offset,
    {
        self.joint_graph_index = index;
    }

    /// The changes recorded since the last maintenance pass.
    pub fn changes(&self) -> (r: RigidBodyChanges)
        ensures
            r == self.changes,
    {
        self.changes
    }

    /// Is this body dynamic?
    pub fn is_dynamic(&self) -> (r: bool)
        ensures
            r == (self.body_status == BodyStatus::Dynamic),
    {
        matches!(self.body_status, BodyStatus::Dynamic)
    }

    /// Is this body kinematic?
    pub fn is_kinematic(&self) -> (r: bool)
        ensures
            r == (self.body_status == BodyStatus::Kinematic),
    {
        matches!(self.body_status, BodyStatus::Kinematic)
    }

    /// Is this body static?
    pub fn is_static(&self) -> (r: bool)
        ensures
            r == (self.body_status == BodyStatus::Static),
    {
        matches!(self.body_status, BodyStatus::Static)
    }

    /// Is this body asleep?
    pub fn is_sleeping(&self) -> (r: bool)
        ensures
            r == self.activation.sleeping,
    {
        self.activation.sleeping
    }

    /// The position of this body in the active set that holds it.
    pub fn active_set_id(&self) -> (r: usize)
        ensures
            r == self.active_set_id,
    {
        self.active_set_id
    }

    /// The island this body was put in by the last island extraction.
    pub fn active_island_id(&self) -> (r: usize)
        ensures
            r == self.active_island_id,
    {
        self.active_island_id
    }

    /// The position of this body within its island.
    pub fn active_set_offset(&self) -> (r: usize)
        ensures
            r == self.active_set_offset,
    {
        self.active_set_offset
    }

    /// Wakes this body up. A strong wake-up also resets the energy
    /// accumulator so that the body stays awake at the next sleep test.
    pub fn wake_up(&mut self, strong: bool)
        ensures
            !final(self).activation.sleeping,
            final(self).activation.energy_reset == (old(self).activation.energy_reset || strong),
            final(self).body_status == old(self).body_status,
            final(self).changes == old(self).changes,
            final(self).active_set_id == old(self).active_set_id,
            final(self).colliders == old(self).colliders,
            final(self).joint_graph_index == old(self).joint_graph_index,
            final(self).active_set_timestamp == old(self).active_set_timestamp,
            final(self).active_island_id == old(self).active_island_id,
            final(self).active_set_offset == old(self).active_set_offset,
    {
        self.activation.sleeping = false;
        if strong {
            self.activation.energy_reset = true;
        }
    }

    /// Puts this body to sleep. Its velocities, kept by the caller, are to
    /// be zeroed along with it.
    pub fn sleep(&mut self)
        ensures
            final(self).activation.sleeping,
            !final(self).activation.energy_reset,
            final(self).body_status == old(self).body_status,
            final(self).changes == old(self).changes,
            final(self).active_set_id == old(self).active_set_id,
            final(self).colliders == old(self).colliders,
            final(self).joint_graph_index == old(self).joint_graph_index,
            final(self).active_set_timestamp == old(self).active_set_timestamp,
            final(self).active_island_id == old(self).active_island_id,
            final(self).active_set_offset == old(self).active_set_offset,
    {
        self.activation.sleeping = true;
        self.activation.energy_reset = false;
    }

    /// Clears the cross-references a body may carry when it was obtained by
    /// cloning a body of some set.
    pub fn reset_internal_references(&mut self)
        ensures
            final(self).active_set_id == 0,
            final(self).active_island_id == 0,
            final(self).active_set_offset == 0,
            final(self).active_set_timestamp == 0,
            final(self).joint_graph_index == usize::MAX,
            final(self).body_status == old(self).body_status,
            final(self).activation == old(self).activation,
            final(self).colliders@.len() == 0,
    {
        self.colliders = Vec::new();
        self.joint_graph_index = usize::MAX;
        self.active_set_id = 0;
        self.active_island_id = 0;
        self.active_set_offset = 0;
        self.active_set_timestamp = 0;
    }
}

} // verus!
