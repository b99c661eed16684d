use crate::arena::{Arena, Index};
use crate::rigid_body::{
    has_bits, BodyStatus, RigidBody, RigidBodyChanges, CHANGE_ALL, CHANGE_BODY_STATUS,
    CHANGE_COLLIDERS, CHANGE_MODIFIED, CHANGE_POSITION, CHANGE_SLEEP,
};
use vstd::prelude::*;

verus! {

/// The unique handle of a rigid body added to a [`RigidBodySet`].
#[derive(Copy, Clone, Debug, PartialEq, Eq, Structural, Hash)]
pub struct RigidBodyHandle(pub Index);

impl RigidBodyHandle {
    /// Converts this handle into its (index, generation) components.
    pub fn into_raw_parts(self) -> (r: (usize, u64))
        ensures
            r == (self.0.index, self.0.generation),
    {
        self.0.into_raw_parts()
    }

    /// Reconstructs a handle from its (index, generation) components.
    pub fn from_raw_parts(id: usize, generation: u64) -> (r: Self)
        ensures
            r.0.index == id,
            r.0.generation == generation,
    {
        RigidBodyHandle(Index::from_raw_parts(id, generation))
    }

    /// An always-invalid rigid-body handle.
    pub fn invalid() -> (r: Self)
        ensures
            r.0.index == usize::MAX,
            r.0.generation == u64::MAX,
    {
        RigidBodyHandle(Index::from_raw_parts(usize::MAX, u64::MAX))
    }

    /// The slot of this handle.
    pub fn index(&self) -> (r: usize)
        ensures
            r == self.0.index,
    {
        self.0.index
    }
}

/// A pair of rigid body handles.
#[derive(Copy, Clone, Debug, PartialEq, Eq, Structural)]
pub struct BodyPair {
    /// The first rigid body handle.
    pub body1: RigidBodyHandle,
    /// The second rigid body handle.
    pub body2: RigidBodyHandle,
}

impl BodyPair {
    /// Builds a new pair of rigid-body handles.
    pub fn new(body1: RigidBodyHandle, body2: RigidBodyHandle) -> (r: Self)
        ensures
            r.body1 == body1,
            r.body2 == body2,
    {
        BodyPair { body1, body2 }
    }
}

/// `a` and `b` agree on everything but their position in an active set.
pub open spec fn same_except_set_id(a: RigidBody, b: RigidBody) -> bool {
    &&& a.body_status == b.body_status
    &&& a.changes == b.changes
    &&& a.activation == b.activation
    &&& a.colliders == b.colliders
    &&& a.joint_graph_index == b.joint_graph_index
    &&& a.active_island_id == b.active_island_id
    &&& a.active_set_offset == b.active_set_offset
    &&& a.active_set_timestamp == b.active_set_timestamp
}

/// `s` with its element at `i` replaced by its last one, then shortened.
pub open spec fn swap_removed(s: Seq<RigidBodyHandle>, i: int) -> Seq<RigidBodyHandle> {
    s.update(i, s.last()).drop_last()
}

/// Every handle of `list` reaches a body of `bodies` whose active-set
/// position is its position in `list`.
pub open spec fn list_consistent(bodies: Arena<RigidBody>, list: Seq<RigidBodyHandle>) -> bool {
    forall|k: int|
        0 <= k < list.len() ==> match bodies.spec_get((#[trigger] list[k]).0) {
            Some(b) => b.active_set_id == k,
            None => false,
        }
}

/// The two arenas hold bodies under the same handles, which agree on
/// everything but their active-set positions.
pub open spec fn agree_except_ids(a: Arena<RigidBody>, b: Arena<RigidBody>) -> bool {
    forall|i: Index|
        match (#[trigger] a.spec_get(i), b.spec_get(i)) {
            (Some(x), Some(y)) => same_except_set_id(x, y),
            (None, None) => true,
            _ => false,
        }
}

/// `h` occurs at index `id` of `list`.
pub open spec fn listed_at(list: Seq<RigidBodyHandle>, id: int, h: RigidBodyHandle) -> bool {
    0 <= id < list.len() && list[id] == h
}

/// No handle occurs twice in a consistent list.
pub proof fn lemma_consistent_no_dup(bodies: Arena<RigidBody>, list: Seq<RigidBodyHandle>, j: int, k: int)
    requires
        list_consistent(bodies, list),
        0 <= j < list.len(),
        0 <= k < list.len(),
        list[j] == list[k],
    ensures
        j == k,
{
    assert(bodies.spec_get(list[j].0) == bodies.spec_get(list[k].0));
}

/// A handle of a consistent list stands at the active-set position of its body.
pub proof fn lemma_consistent_position(bodies: Arena<RigidBody>, list: Seq<RigidBodyHandle>, h: RigidBodyHandle)
    requires
        list_consistent(bodies, list),
        list.contains(h),
    ensures
        bodies.spec_get(h.0) is Some,
        listed_at(list, bodies.spec_get(h.0)->Some_0.active_set_id as int, h),
{
    let k = choose|k: int| 0 <= k < list.len() && list[k] == h;
    assert(bodies.spec_get(list[k].0) is Some);
}

/// A list stays consistent when the only bodies that change are outside it.
proof fn lemma_untouched_list_consistent(
    b0: Arena<RigidBody>,
    b1: Arena<RigidBody>,
    changed: Seq<RigidBodyHandle>,
    list: Seq<RigidBodyHandle>,
)
    requires
        list_consistent(b0, list),
        forall|i: Index| !changed.contains(RigidBodyHandle(i)) ==> b1.spec_get(i) == b0.spec_get(i),
        forall|j: int, k: int|
            0 <= j < list.len() && 0 <= k < changed.len() ==> #[trigger] list[j] != #[trigger] changed[k],
    ensures
        list_consistent(b1, list),
{
    assert forall|k: int| 0 <= k < list.len() implies match b1.spec_get((#[trigger] list[k]).0) {
        Some(b) => b.active_set_id == k,
        None => false,
    } by {
        if changed.contains(RigidBodyHandle(list[k].0)) {
            let m = choose|m: int| 0 <= m < changed.len() && changed[m] == RigidBodyHandle(list[k].0);
            assert(list[k] != changed[m]);
        }
    }
}

/// Every element of a swap-removed list comes from the original list.
proof fn lemma_swap_removed_from(s: Seq<RigidBodyHandle>, i: int)
    requires
        0 <= i < s.len(),
    ensures
        forall|k: int|
            0 <= k < swap_removed(s, i).len() ==> #[trigger] swap_removed(s, i)[k] == s[k] || swap_removed(s, i)[k] == s[s.len() - 1],
        forall|k: int| 0 <= k < swap_removed(s, i).len() && k != i ==> #[trigger] swap_removed(s, i)[k] == s[k],
        swap_removed(s, i).len() == s.len() - 1,
{
}

/// A list stays consistent when one body changes but keeps its position.
proof fn lemma_consistent_if_id_kept(b0: Arena<RigidBody>, list: Seq<RigidBodyHandle>, h: Index)
    requires
        list_consistent(b0, list),
        b0.spec_get(h) is Some,
    ensures
        forall|b1: Arena<RigidBody>|
            (b1.spec_get(h) matches Some(x) && x.active_set_id == b0.spec_get(h)->Some_0.active_set_id)
                && (forall|i: Index| i != h ==> b1.spec_get(i) == b0.spec_get(i))
                ==> #[trigger] list_consistent(b1, list),
{
    assert forall|b1: Arena<RigidBody>|
        (b1.spec_get(h) matches Some(x) && x.active_set_id == b0.spec_get(h)->Some_0.active_set_id)
            && (forall|i: Index| i != h ==> b1.spec_get(i) == b0.spec_get(i))
            implies #[trigger] list_consistent(b1, list) by {
        assert forall|k: int| 0 <= k < list.len() implies match b1.spec_get((#[trigger] list[k]).0) {
            Some(b) => b.active_set_id == k,
            None => false,
        } by {
            assert(match b0.spec_get(list[k].0) {
                Some(b) => b.active_set_id == k,
                None => false,
            });
        }
    }
}

/// No handle is in both lists.
pub open spec fn disjoint(a: Seq<RigidBodyHandle>, b: Seq<RigidBodyHandle>) -> bool {
    forall|g: RigidBodyHandle| #[trigger] a.contains(g) ==> !b.contains(g)
}

proof fn lemma_disjoint_by_index(a: Seq<RigidBodyHandle>, b: Seq<RigidBodyHandle>)
    ensures
        disjoint(a, b) <==> (forall|j: int, k: int|
            0 <= j < a.len() && 0 <= k < b.len() ==> #[trigger] a[j] != #[trigger] b[k]),
{
    if disjoint(a, b) {
        assert forall|j: int, k: int| 0 <= j < a.len() && 0 <= k < b.len() implies #[trigger] a[j] != #[trigger] b[k] by {
            assert(a.contains(a[j]));
        }
    }
    if forall|j: int, k: int| 0 <= j < a.len() && 0 <= k < b.len() ==> #[trigger] a[j] != #[trigger] b[k] {
        assert forall|g: RigidBodyHandle| #[trigger] a.contains(g) implies !b.contains(g) by {
            if b.contains(g) {
                let j = choose|j: int| 0 <= j < a.len() && a[j] == g;
                let k = choose|k: int| 0 <= k < b.len() && b[k] == g;
                assert(a[j] == b[k]);
            }
        }
    }
}

/// The active sets `dyn_set` and `kin_set` match the changes recorded in `b`,
/// the state of the body `h` before a maintenance pass: a kinematic body
/// whose status, pose or colliders changed is in the kinematic set only; a
/// body that became static is in neither set; a dynamic body whose status
/// changed, or that was woken, is in the dynamic set only.
pub open spec fn maintained(
    b: RigidBody,
    h: RigidBodyHandle,
    dyn_set: Seq<RigidBodyHandle>,
    kin_set: Seq<RigidBodyHandle>,
) -> bool {
    let c = b.changes.bits;
    &&& b.body_status == BodyStatus::Kinematic && (has_bits(c, CHANGE_BODY_STATUS) || has_bits(
        c,
        CHANGE_POSITION,
    ) || has_bits(c, CHANGE_COLLIDERS)) ==> kin_set.contains(h) && !dyn_set.contains(h)
    &&& b.body_status == BodyStatus::Static && has_bits(c, CHANGE_BODY_STATUS) ==> !kin_set.contains(h)
        && !dyn_set.contains(h)
    &&& b.body_status == BodyStatus::Dynamic && (has_bits(c, CHANGE_BODY_STATUS) || (has_bits(
        c,
        CHANGE_SLEEP,
    ) && !b.activation.sleeping)) ==> dyn_set.contains(h) && !kin_set.contains(h)
}

/// The pose, or the colliders, of a body with these changes must be updated.
pub open spec fn needs_collider_update(b: RigidBody) -> bool {
    has_bits(b.changes.bits, CHANGE_POSITION) || has_bits(b.changes.bits, CHANGE_COLLIDERS)
}

/// Both are absent, or both are present and agree on everything but their
/// active-set position.
pub open spec fn same_state(x: Option<RigidBody>, y: Option<RigidBody>) -> bool {
    match (x, y) {
        (Some(a), Some(b)) => same_except_set_id(a, b),
        (None, None) => true,
        _ => false,
    }
}

/// After a maintenance pass, the body `h` whose state before the pass was
/// `b` is now `cur`: its changes are cleared, its status kept, a body that
/// became dynamic is woken strongly, and the active sets match what changed.
pub open spec fn processed_ok(
    b: RigidBody,
    h: RigidBodyHandle,
    cur: Option<RigidBody>,
    dyn_set: Seq<RigidBodyHandle>,
    kin_set: Seq<RigidBodyHandle>,
) -> bool {
    &&& cur matches Some(nb) && nb.changes.bits == 0 && nb.body_status == b.body_status
    &&& b.body_status == BodyStatus::Dynamic && has_bits(b.changes.bits, CHANGE_BODY_STATUS) ==> (cur is Some
        && !cur->Some_0.activation.sleeping && cur->Some_0.activation.energy_reset)
    &&& maintained(b, h, dyn_set, kin_set)
}

/// A consistent list is no longer than the number of slots of the storage.
proof fn lemma_consistent_len_bound(bodies: Arena<RigidBody>, list: Seq<RigidBodyHandle>)
    requires
        list_consistent(bodies, list),
    ensures
        list.len() <= bodies.num_slots(),
{
    let slots = Seq::new(list.len(), |k: int| list[k].0.index as int);
    assert forall|j: int, k: int| 0 <= j < slots.len() && 0 <= k < slots.len() && j != k implies slots[j] != slots[k] by {
        assert(bodies.spec_get(list[j].0) is Some);
        assert(bodies.spec_get(list[k].0) is Some);
        if slots[j] == slots[k] {
            bodies.lemma_live_slot_unique(list[j].0, list[k].0);
            lemma_consistent_no_dup(bodies, list, j, k);
        }
    }
    assert(slots.no_duplicates());
    slots.unique_seq_to_set();
    vstd::set_lib::lemma_int_range(0, bodies.num_slots() as int);
    assert forall|x: int| slots.to_set().contains(x) implies vstd::set_lib::set_int_range(0, bodies.num_slots() as int).contains(x) by {
        let k = choose|k: int| 0 <= k < slots.len() && slots[k] == x;
        assert(bodies.spec_get(list[k].0) is Some);
        bodies.lemma_live_slot_unique(list[k].0, list[k].0);
    }
    vstd::set_lib::lemma_len_subset(slots.to_set(), vstd::set_lib::set_int_range(0, bodies.num_slots() as int));
}

/// `flags[h.0.index]`, or `false` when `flags` is too short.
pub open spec fn flag_at(flags: Seq<bool>, h: RigidBodyHandle) -> bool {
    h.0.index < flags.len() && flags[h.0.index as int]
}

/// `g` is listed among the neighbours of `h` in `graph`, whose entry at a
/// body's slot lists the bodies it interacts with.
pub open spec fn listed_neighbor(graph: Seq<Vec<RigidBodyHandle>>, h: RigidBodyHandle, g: RigidBodyHandle) -> bool {
    h.0.index < graph.len() && graph[h.0.index as int]@.contains(g)
}

/// `g` touches `h` through a contact or a joint.
pub open spec fn neighbor(
    contacts: Seq<Vec<RigidBodyHandle>>,
    joints: Seq<Vec<RigidBodyHandle>>,
    h: RigidBodyHandle,
    g: RigidBodyHandle,
) -> bool {
    listed_neighbor(contacts, h, g) || listed_neighbor(joints, h, g)
}

/// The body may fall asleep at this step: its energy is below its sleep
/// threshold and no strong wake-up reset its energy since the last test.
pub open spec fn may_sleep(b: RigidBody, low_energy: Seq<bool>, h: RigidBodyHandle) -> bool {
    flag_at(low_energy, h) && !b.activation.energy_reset
}

/// The body `b`, of handle `h`, after the sleep test of an island extraction.
pub open spec fn sleep_tested(b: RigidBody, low_energy: Seq<bool>, h: RigidBodyHandle) -> RigidBody {
    RigidBody {
        activation: crate::rigid_body::ActivationStatus {
            sleeping: if may_sleep(b, low_energy, h) {
                true
            } else {
                b.activation.sleeping
            },
            energy_reset: false,
        },
        ..b
    }
}

/// `a` and `b` agree on status, recorded changes, colliders and joint vertex.
pub open spec fn same_core(a: RigidBody, b: RigidBody) -> bool {
    &&& a.body_status == b.body_status
    &&& a.changes == b.changes
    &&& a.colliders == b.colliders
    &&& a.joint_graph_index == b.joint_graph_index
}

/// The island boundaries `islands` split `0..n` into islands: they start at
/// 0, end at `n`, and, unless `n` is 0 (one empty island), strictly increase.
pub open spec fn island_partition(islands: Seq<usize>, n: nat) -> bool {
    &&& islands.len() >= 2
    &&& islands[0] == 0
    &&& islands[islands.len() - 1] == n
    &&& n == 0 ==> islands.len() == 2
    &&& forall|i: int, j: int| 0 <= i < j < islands.len() ==> n > 0 ==> #[trigger] islands[i] < #[trigger] islands[j]
}

/// `h` reaches a dynamic body of `bodies`.
pub open spec fn live_dynamic(bodies: Arena<RigidBody>, h: RigidBodyHandle) -> bool {
    bodies.spec_get(h.0) matches Some(b) && b.body_status == BodyStatus::Dynamic
}

/// The body at position `k` of the active dynamic set lies in island
/// `b.active_island_id` of the boundaries `islands` (the last of which may
/// still be open), at offset `b.active_set_offset` from the island's start.
pub open spec fn in_island(b: RigidBody, islands: Seq<usize>, k: int) -> bool {
    let i = b.active_island_id as int;
    &&& i < islands.len()
    &&& islands[i] <= k
    &&& i + 1 < islands.len() ==> k < islands[i + 1]
    &&& b.active_set_offset == k - islands[i]
}

/// `b` was woken and placed by the island walk stamped `ts`.
pub open spec fn awake_in_island(b: RigidBody, islands: Seq<usize>, k: int, ts: u32) -> bool {
    &&& b.body_status == BodyStatus::Dynamic
    &&& !b.activation.sleeping
    &&& b.active_set_timestamp == ts
    &&& in_island(b, islands, k)
}

/// Nothing can wake a body at this step: no dynamic body is awake, and no
/// moving kinematic body touches anything.
pub open spec fn quiescent(
    dyn_set: Seq<RigidBodyHandle>,
    kin_set: Seq<RigidBodyHandle>,
    contacts: Seq<Vec<RigidBodyHandle>>,
    moving: Seq<bool>,
) -> bool {
    &&& dyn_set.len() == 0
    &&& forall|k: int, g: RigidBodyHandle|
        0 <= k < kin_set.len() && flag_at(moving, #[trigger] kin_set[k]) ==> !#[trigger] listed_neighbor(contacts, kin_set[k], g)
}

/// `g` stands on `stack` at or above position `marker`.
pub open spec fn pending(stack: Seq<RigidBodyHandle>, marker: int, g: RigidBodyHandle) -> bool {
    exists|m: int| marker <= m < stack.len() && stack[m] == g
}

/// The contact and joint graphs are undirected: when `b` touches `a`, `a`
/// touches `b`.
pub open spec fn symmetric(contacts: Seq<Vec<RigidBodyHandle>>, joints: Seq<Vec<RigidBodyHandle>>) -> bool {
    forall|a: RigidBodyHandle, b: RigidBodyHandle| #[trigger] neighbor(contacts, joints, a, b) ==> neighbor(contacts, joints, b, a)
}

/// The island of the body reached by `h`.
pub open spec fn island_of(bodies: Arena<RigidBody>, h: RigidBodyHandle) -> usize {
    bodies.spec_get(h.0)->Some_0.active_island_id
}

/// The body at position `k` of `d` is a seed, or touches a body placed
/// before it.
pub open spec fn reached_from(
    seeds: Seq<RigidBodyHandle>,
    d: Seq<RigidBodyHandle>,
    contacts: Seq<Vec<RigidBodyHandle>>,
    joints: Seq<Vec<RigidBodyHandle>>,
    k: int,
) -> bool {
    seeds.contains(d[k]) || exists|i: int| 0 <= i < k && #[trigger] neighbor(contacts, joints, d[i], d[k])
}

/// `g` is a seed, or touches a body of `d`.
pub open spec fn pushed_by(
    seeds: Seq<RigidBodyHandle>,
    d: Seq<RigidBodyHandle>,
    contacts: Seq<Vec<RigidBodyHandle>>,
    joints: Seq<Vec<RigidBodyHandle>>,
    g: RigidBodyHandle,
) -> bool {
    seeds.contains(g) || exists|i: int| 0 <= i < d.len() && #[trigger] neighbor(contacts, joints, d[i], g)
}

/// Every body of `d` was reached from `seeds`, and every handle of `stack`
/// is a seed or touches a body of `d`.
#[verifier::opaque]
pub open spec fn walk_reach(
    seeds: Seq<RigidBodyHandle>,
    d: Seq<RigidBodyHandle>,
    stack: Seq<RigidBodyHandle>,
    contacts: Seq<Vec<RigidBodyHandle>>,
    joints: Seq<Vec<RigidBodyHandle>>,
) -> bool {
    &&& forall|k: int| 0 <= k < d.len() ==> #[trigger] reached_from(seeds, d, contacts, joints, k)
    &&& forall|m: int| 0 <= m < stack.len() ==> #[trigger] pushed_by(seeds, d, contacts, joints, stack[m])
}

/// No body of `kin_set` is dynamic.
pub open spec fn none_dynamic(bodies: Arena<RigidBody>, kin_set: Seq<RigidBodyHandle>) -> bool {
    forall|k: int| 0 <= k < kin_set.len() ==> !live_dynamic(bodies, #[trigger] kin_set[k])
}

/// Every island of `islands` but the last holds at least `min` bodies.
pub open spec fn closed_islands_at_least(islands: Seq<usize>, min: usize) -> bool {
    forall|i: int| 0 <= i && i + 2 < islands.len() ==> #[trigger] islands[i + 1] - islands[i] >= min
}

/// `x` starts the island walk of a step on `s`: an awake body of `s` that
/// passes the sleep test, or a body touching a moving kinematic body of `s`.
pub open spec fn step_seed(
    s: RigidBodySet,
    contacts: Seq<Vec<RigidBodyHandle>>,
    low_energy: Seq<bool>,
    moving: Seq<bool>,
    x: RigidBodyHandle,
) -> bool {
    (s.active_dynamic().contains(x) && !may_sleep(s.body(x)->Some_0, low_energy, x)) || exists|i: int|
        0 <= i < s.active_kinematic().len() && flag_at(moving, #[trigger] s.active_kinematic()[i])
            && listed_neighbor(contacts, s.active_kinematic()[i], x)
}

/// A set of rigid bodies, with the active sets and islands that a physics
/// step works on.
pub struct RigidBodySet {
    bodies: Arena<RigidBody>,
    active_dynamic_set: Vec<RigidBodyHandle>,
    active_kinematic_set: Vec<RigidBodyHandle>,
    modified_inactive_set: Vec<RigidBodyHandle>,
    active_islands: Vec<usize>,
    active_set_timestamp: u32,
    modified_bodies: Vec<RigidBodyHandle>,
    modified_all_bodies: bool,
    can_sleep: Vec<RigidBodyHandle>,
    stack: Vec<RigidBodyHandle>,
}

impl RigidBodySet {
    /// The body reached by `h`, if any.
    pub closed spec fn body(&self, h: RigidBodyHandle) -> Option<RigidBody> {
        self.bodies.spec_get(h.0)
    }

    /// The storage of the bodies.
    pub closed spec fn arena(&self) -> Arena<RigidBody> {
        self.bodies
    }

    /// `h` was handed out by this set and its body removed since.
    pub open spec fn is_stale(&self, h: RigidBodyHandle) -> bool {
        self.arena().is_stale(h.0)
    }

    /// The awake dynamic bodies, grouped by island.
    pub closed spec fn active_dynamic(&self) -> Seq<RigidBodyHandle> {
        self.active_dynamic_set@
    }

    /// The kinematic bodies.
    pub closed spec fn active_kinematic(&self) -> Seq<RigidBodyHandle> {
        self.active_kinematic_set@
    }

    /// The island boundaries: island `i` is `active_dynamic()[islands()[i]..islands()[i + 1]]`.
    pub closed spec fn islands(&self) -> Seq<usize> {
        self.active_islands@
    }

    /// The bodies recorded as modified since the last maintenance pass.
    pub closed spec fn modified(&self) -> Seq<RigidBodyHandle> {
        self.modified_bodies@
    }

    /// Every body counts as modified.
    pub closed spec fn modified_all(&self) -> bool {
        self.modified_all_bodies
    }

    /// The static bodies whose pose changed.
    pub closed spec fn modified_inactive(&self) -> Seq<RigidBodyHandle> {
        self.modified_inactive_set@
    }

    /// The stamp of the last island extraction.
    pub closed spec fn timestamp(&self) -> u32 {
        self.active_set_timestamp
    }

    /// The number of slots of the body storage.
    pub open spec fn num_slots(&self) -> nat {
        self.arena().num_slots()
    }

    /// The number of bodies.
    pub open spec fn len_spec(&self) -> nat {
        self.arena().len_spec()
    }

    /// The invariant of the set: the storage is sound, each handle of an
    /// active set reaches a body whose `active_set_id` is its position there,
    /// and no handle is in both active sets.
    pub closed spec fn wf(&self) -> bool {
        &&& self.bodies.wf()
        &&& list_consistent(self.bodies, self.active_dynamic_set@)
        &&& list_consistent(self.bodies, self.active_kinematic_set@)
        &&& forall|j: int, k: int|
            0 <= j < self.active_dynamic_set@.len() && 0 <= k < self.active_kinematic_set@.len()
                ==> #[trigger] self.active_dynamic_set@[j] != #[trigger] self.active_kinematic_set@[k]
    }

    /// An empty set of rigid bodies.
    pub fn new() -> (r: Self)
        ensures
            r.wf(),
            r.len_spec() == 0,
            forall|h: RigidBodyHandle| r.body(h) is None,
            r.active_dynamic().len() == 0,
            r.active_kinematic().len() == 0,
            r.modified().len() == 0,
            !r.modified_all(),
            r.num_slots() == 0,
    {
        let bodies = Arena::new();
        proof {
            assert forall|h: RigidBodyHandle| bodies.spec_get(h.0) is None by {
                assert(!bodies.contains_spec(h.0));
            }
        }
        RigidBodySet {
            bodies,
            active_dynamic_set: Vec::new(),
            active_kinematic_set: Vec::new(),
            modified_inactive_set: Vec::new(),
            active_islands: Vec::new(),
            active_set_timestamp: 0,
            modified_bodies: Vec::new(),
            modified_all_bodies: false,
            can_sleep: Vec::new(),
            stack: Vec::new(),
        }
    }

    /// The number of rigid bodies in this set.
    pub fn len(&self) -> (r: usize)
        requires
            self.wf(),
        ensures
            r == self.len_spec(),
    {
        self.bodies.len()
    }

    /// `true` if there are no rigid bodies in this set.
    pub fn is_empty(&self) -> (r: bool)
        requires
            self.wf(),
        ensures
            r == (self.len_spec() == 0),
    {
        self.bodies.is_empty()
    }

    /// Is the given body handle valid?
    pub fn contains(&self, handle: RigidBodyHandle) -> (r: bool)
        ensures
            r == self.body(handle) is Some,
    {
        self.bodies.contains(handle.0)
    }

    /// Inserts a rigid body into this set and returns its handle.
    ///
    /// The body's cross-references are reset and all its change flags set;
    /// the handle is recorded as modified, and a kinematic body joins the
    /// active kinematic set.
    pub fn insert(&mut self, rb: RigidBody) -> (r: RigidBodyHandle)
        requires
            old(self).wf(),
            old(self).num_slots() < usize::MAX,
        ensures
            final(self).wf(),
            old(self).body(r) is None,
            !old(self).is_stale(r),
            final(self).body(r) matches Some(b) && b.body_status == rb.body_status
                && b.activation == rb.activation && b.changes.bits == CHANGE_ALL
                && b.colliders@.len() == 0,
            forall|h: RigidBodyHandle| h != r ==> final(self).body(h) == old(self).body(h),
            forall|h: RigidBodyHandle| old(self).is_stale(h) ==> final(self).is_stale(h),
            final(self).len_spec() == old(self).len_spec() + 1,
            final(self).modified() == old(self).modified().push(r),
            final(self).active_dynamic() == old(self).active_dynamic(),
            final(self).active_kinematic() == if rb.body_status == BodyStatus::Kinematic {
                old(self).active_kinematic().push(r)
            } else {
                old(self).active_kinematic()
            },
            final(self).modified_all() == old(self).modified_all(),
    {
        let mut rb = rb;
        rb.reset_internal_references();
        rb.changes = RigidBodyChanges::all();
        let kinematic = rb.is_kinematic();
        if kinematic {
            rb.active_set_id = self.active_kinematic_set.len();
        }
        let index = self.bodies.insert(rb);
        let handle = RigidBodyHandle(index);
        self.modified_bodies.push(handle);
        if kinematic {
            self.active_kinematic_set.push(handle);
        }
        proof {
            assert forall|k: int| 0 <= k < self.active_dynamic_set@.len() implies #[trigger] self.active_dynamic_set@[k] != handle by {
                assert(old(self).bodies.spec_get(self.active_dynamic_set@[k].0) is Some);
            }
            assert forall|k: int| 0 <= k < old(self).active_kinematic_set@.len() implies #[trigger] old(self).active_kinematic_set@[k] != handle by {
                assert(old(self).bodies.spec_get(old(self).active_kinematic_set@[k].0) is Some);
            }
            assert(list_consistent(self.bodies, self.active_dynamic_set@));
            assert(list_consistent(self.bodies, self.active_kinematic_set@)) by {
                assert forall|k: int| 0 <= k < self.active_kinematic_set@.len() implies match self.bodies.spec_get((#[trigger] self.active_kinematic_set@[k]).0) {
                    Some(b) => b.active_set_id == k,
                    None => false,
                } by {
                    if k < old(self).active_kinematic_set@.len() {
                        assert(self.active_kinematic_set@[k] == old(self).active_kinematic_set@[k]);
                    }
                }
            }
            assert forall|j: int, k: int|
                0 <= j < self.active_dynamic_set@.len() && 0 <= k < self.active_kinematic_set@.len()
                    implies #[trigger] self.active_dynamic_set@[j] != #[trigger] self.active_kinematic_set@[k] by {
                if k < old(self).active_kinematic_set@.len() {
                    assert(self.active_kinematic_set@[k] == old(self).active_kinematic_set@[k]);
                }
            }
        }
        handle
    }

    /// Removes a rigid body from this set and returns it.
    ///
    /// The body leaves the active set that held it: the last handle of that
    /// set takes its place, and the moved body's position is updated. The
    /// returned body lists the colliders attached to it and its joint-graph
    /// vertex, which the caller detaches from the collider and joint sets.
    /// Afterwards `handle` is stale: it never reaches a body again.
    pub fn remove(&mut self, handle: RigidBodyHandle) -> (r: Option<RigidBody>)
        requires
            old(self).wf(),
        ensures
            final(self).wf(),
            r == old(self).body(handle),
            final(self).body(handle) is None,
            r is Some ==> final(self).is_stale(handle),
            r is None ==> *final(self) == *old(self),
            final(self).num_slots() == old(self).num_slots(),
            forall|h: RigidBodyHandle|
                h != handle ==> match (#[trigger] old(self).body(h), final(self).body(h)) {
                    (Some(x), Some(y)) => same_except_set_id(x, y),
                    (None, None) => true,
                    _ => false,
                },
            forall|h: RigidBodyHandle| old(self).is_stale(h) ==> final(self).is_stale(h),
            !final(self).active_dynamic().contains(handle),
            !final(self).active_kinematic().contains(handle),
            final(self).active_dynamic() == match r {
                Some(b) => if listed_at(old(self).active_dynamic(), b.active_set_id as int, handle) {
                    swap_removed(old(self).active_dynamic(), b.active_set_id as int)
                } else {
                    old(self).active_dynamic()
                },
                None => old(self).active_dynamic(),
            },
            final(self).active_kinematic() == match r {
                Some(b) => if listed_at(old(self).active_kinematic(), b.active_set_id as int, handle) {
                    swap_removed(old(self).active_kinematic(), b.active_set_id as int)
                } else {
                    old(self).active_kinematic()
                },
                None => old(self).active_kinematic(),
            },
            final(self).len_spec() == old(self).len_spec() - (if r is Some {
                1int
            } else {
                0int
            }),
            final(self).modified() == old(self).modified(),
    {
        let id = match self.bodies.get(handle.0) {
            Some(rb) => rb.active_set_id,
            None => {
                return None;
            },
        };
        let ghost b0 = self.bodies;
        let ghost kin0 = self.active_kinematic_set@;
        let ghost dyn0 = self.active_dynamic_set@;
        Self::remove_from_active_list(&mut self.bodies, &mut self.active_kinematic_set, handle, id);
        proof {
            lemma_untouched_list_consistent(b0, self.bodies, kin0, dyn0);
        }
        let ghost b1 = self.bodies;
        let ghost kin1 = self.active_kinematic_set@;
        proof {
            if listed_at(kin0, id as int, handle) {
                lemma_swap_removed_from(kin0, id as int);
            }
            assert forall|j: int, k: int| 0 <= j < kin1.len() && 0 <= k < dyn0.len() implies #[trigger] kin1[j] != #[trigger] dyn0[k] by {
                if listed_at(kin0, id as int, handle) {
                    if j == id {
                        assert(kin1[j] == kin0[kin0.len() - 1]);
                    } else {
                        assert(kin1[j] == kin0[j]);
                    }
                }
            }
            assert(b1.spec_get(handle.0) == b0.spec_get(handle.0)) by {
                if kin0.contains(handle) {
                    lemma_consistent_position(b0, kin0, handle);
                }
            }
        }
        Self::remove_from_active_list(&mut self.bodies, &mut self.active_dynamic_set, handle, id);
        proof {
            lemma_untouched_list_consistent(b1, self.bodies, dyn0, kin1);
            if listed_at(dyn0, id as int, handle) {
                lemma_swap_removed_from(dyn0, id as int);
            }
            assert(self.bodies.spec_get(handle.0) == b0.spec_get(handle.0)) by {
                if dyn0.contains(handle) {
                    lemma_consistent_position(b1, dyn0, handle);
                }
            }
            // The removed handle is in neither list any more.
            assert forall|k: int| 0 <= k < self.active_dynamic_set@.len() implies #[trigger] self.active_dynamic_set@[k] != handle by {
                if listed_at(dyn0, id as int, handle) {
                    if k == id {
                        if dyn0[dyn0.len() - 1] == handle {
                            lemma_consistent_no_dup(b1, dyn0, id as int, dyn0.len() - 1);
                        }
                    } else {
                        if dyn0[k] == handle {
                            lemma_consistent_no_dup(b1, dyn0, id as int, k);
                        }
                    }
                } else if dyn0[k] == handle {
                    lemma_consistent_position(b1, dyn0, handle);
                }
            }
            assert forall|k: int| 0 <= k < self.active_kinematic_set@.len() implies #[trigger] self.active_kinematic_set@[k] != handle by {
                if listed_at(kin0, id as int, handle) {
                    if k == id {
                        if kin0[kin0.len() - 1] == handle {
                            lemma_consistent_no_dup(b0, kin0, id as int, kin0.len() - 1);
                        }
                    } else {
                        if kin0[k] == handle {
                            lemma_consistent_no_dup(b0, kin0, id as int, k);
                        }
                    }
                } else if kin0[k] == handle {
                    assert(kin1[k] == handle);
                    lemma_consistent_position(b0, kin0, handle);
                }
            }
            assert forall|j: int, k: int|
                0 <= j < self.active_dynamic_set@.len() && 0 <= k < self.active_kinematic_set@.len()
                    implies #[trigger] self.active_dynamic_set@[j] != #[trigger] self.active_kinematic_set@[k] by {
                if listed_at(dyn0, id as int, handle) {
                    if j == id {
                        assert(self.active_dynamic_set@[j] == dyn0[dyn0.len() - 1]);
                    } else {
                        assert(self.active_dynamic_set@[j] == dyn0[j]);
                    }
                }
            }
        }
        let ghost b2 = self.bodies;
        let ghost kin2 = self.active_kinematic_set@;
        let ghost dyn2 = self.active_dynamic_set@;
        let r = self.bodies.remove(handle.0);
        proof {
            assert forall|k: int| 0 <= k < dyn2.len() implies (#[trigger] dyn2[k]).0 != handle.0 by {
                if dyn2[k].0 == handle.0 {
                    assert(dyn2[k] == handle);
                }
            }
            assert forall|k: int| 0 <= k < kin2.len() implies (#[trigger] kin2[k]).0 != handle.0 by {
                if kin2[k].0 == handle.0 {
                    assert(kin2[k] == handle);
                }
            }
            assert(list_consistent(self.bodies, dyn2));
            assert(list_consistent(self.bodies, kin2));
            assert forall|h: RigidBodyHandle|
                h != handle implies match (#[trigger] old(self).body(h), self.body(h)) {
                    (Some(x), Some(y)) => same_except_set_id(x, y),
                    (None, None) => true,
                    _ => false,
                } by {
                assert(b0.spec_get(h.0) == old(self).body(h));
                if h.0 != handle.0 {
                    assert(b2.spec_get(h.0) == self.bodies.spec_get(h.0));
                } else {
                    assert(h.0.index == handle.0.index);
                    assert(h.0.generation != handle.0.generation) by {
                        if h.0.generation == handle.0.generation {
                            assert(h == handle);
                        }
                    }
                }
            }
        }
        r
    }

    /// Forces the given rigid body to wake up if it is dynamic.
    ///
    /// If `strong` is `true`, its energy accumulator is reset so that it stays
    /// awake for the next timesteps. A dynamic body not yet in the active
    /// dynamic set is appended to it.
    pub fn wake_up(&mut self, handle: RigidBodyHandle, strong: bool)
        requires
            old(self).wf(),
        ensures
            final(self).wf(),
            match old(self).body(handle) {
                Some(b) => if b.body_status == BodyStatus::Dynamic {
                    &&& final(self).body(handle) matches Some(nb) && !nb.activation.sleeping
                        && nb.activation.energy_reset == (b.activation.energy_reset || strong)
                        && nb.body_status == b.body_status && nb.changes == b.changes
                    &&& final(self).active_dynamic().contains(handle)
                    &&& final(self).active_dynamic() == if listed_at(old(self).active_dynamic(), b.active_set_id as int, handle) {
                        old(self).active_dynamic()
                    } else {
                        old(self).active_dynamic().push(handle)
                    }
                    &&& !final(self).active_kinematic().contains(handle)
                } else {
                    *final(self) == *old(self)
                },
                None => *final(self) == *old(self),
            },
            forall|h: RigidBodyHandle| h != handle ==> match (#[trigger] old(self).body(h), final(self).body(h)) {
                (Some(x), Some(y)) => same_except_set_id(x, y),
                (None, None) => true,
                _ => false,
            },
            forall|h: RigidBodyHandle| old(self).is_stale(h) <==> final(self).is_stale(h),
            final(self).len_spec() == old(self).len_spec(),
            final(self).num_slots() == old(self).num_slots(),
            final(self).modified() == old(self).modified(),
            final(self).modified_all() == old(self).modified_all(),
            final(self).islands() == old(self).islands(),
    {
        let ghost b0 = self.bodies;
        match self.bodies.get(handle.0) {
            Some(rb) => {
                if !rb.is_dynamic() {
                    return;
                }
            },
            None => {
                return;
            },
        }
        let id = match self.bodies.get_mut(handle.0) {
            Some(rb) => {
                rb.wake_up(strong);
                rb.active_set_id
            },
            None => {
                return;
            },
        };
        let ghost b1 = self.bodies;
        proof {
            assert(list_consistent(b1, self.active_dynamic_set@));
            assert(list_consistent(b1, self.active_kinematic_set@));
        }
        if !(id < self.active_dynamic_set.len() && self.active_dynamic_set[id] == handle) {
            let ghost kin0 = self.active_kinematic_set@;
            let ghost dyn0 = self.active_dynamic_set@;
            proof {
                if dyn0.contains(handle) {
                    lemma_consistent_position(b1, dyn0, handle);
                }
            }
            Self::remove_from_active_list(&mut self.bodies, &mut self.active_kinematic_set, handle, id);
            let ghost b2 = self.bodies;
            let ghost kin1 = self.active_kinematic_set@;
            proof {
                lemma_untouched_list_consistent(b1, b2, kin0, dyn0);
                if listed_at(kin0, id as int, handle) {
                    lemma_swap_removed_from(kin0, id as int);
                }
                assert(b2.spec_get(handle.0) == b1.spec_get(handle.0)) by {
                    if kin0.contains(handle) {
                        lemma_consistent_position(b1, kin0, handle);
                    }
                }
                assert forall|k: int| 0 <= k < kin1.len() implies #[trigger] kin1[k] != handle by {
                    if listed_at(kin0, id as int, handle) {
                        if k == id {
                            if kin0[kin0.len() - 1] == handle {
                                lemma_consistent_no_dup(b1, kin0, id as int, kin0.len() - 1);
                            }
                        } else if kin0[k] == handle {
                            lemma_consistent_no_dup(b1, kin0, id as int, k);
                        }
                    } else if kin0[k] == handle {
                        assert(kin1[k] == handle);
                        lemma_consistent_position(b1, kin0, handle);
                    }
                }
            }
            Self::push_to_active_list(&mut self.bodies, &mut self.active_dynamic_set, handle);
            proof {
                let dyn1 = self.active_dynamic_set@;
                assert forall|i: Index| !seq![handle].contains(RigidBodyHandle(i)) implies self.bodies.spec_get(i) == b2.spec_get(i) by {
                    if i == handle.0 {
                        assert(seq![handle][0] == RigidBodyHandle(i));
                    }
                }
                assert forall|j: int, k: int| 0 <= j < kin1.len() && 0 <= k < 1 implies #[trigger] kin1[j] != #[trigger] seq![handle][k] by {
                    assert(seq![handle][k] == handle);
                }
                lemma_untouched_list_consistent(b2, self.bodies, seq![handle], kin1);
                assert(dyn1[dyn1.len() - 1] == handle);
                assert forall|j: int, k: int|
                    0 <= j < dyn1.len() && 0 <= k < kin1.len()
                        implies #[trigger] dyn1[j] != #[trigger] kin1[k] by {
                    if j < dyn0.len() {
                        assert(dyn1[j] == dyn0[j]);
                        if listed_at(kin0, id as int, handle) {
                            if k == id {
                                assert(kin1[k] == kin0[kin0.len() - 1]);
                            } else {
                                assert(kin1[k] == kin0[k]);
                            }
                        }
                    }
                }
            }
        } else {
            proof {
                assert(self.active_dynamic_set@[id as int] == handle);
                assert forall|k: int| 0 <= k < self.active_kinematic_set@.len() implies #[trigger] self.active_kinematic_set@[k] != handle by {
                    assert(self.active_dynamic_set@[id as int] != self.active_kinematic_set@[k]);
                }
            }
        }
    }

    /// Gets the rigid body with the given handle.
    pub fn get(&self, handle: RigidBodyHandle) -> (r: Option<&RigidBody>)
        ensures
            match r {
                Some(b) => self.body(handle) == Some(*b),
                None => self.body(handle) is None,
            },
    {
        self.bodies.get(handle.0)
    }

    /// Gets the rigid body in slot `i` together with its handle, whatever its
    /// generation. Prefer `get`, which is protected from the ABA problem.
    pub fn get_unknown_gen(&self, i: usize) -> (r: Option<(&RigidBody, RigidBodyHandle)>)
        ensures
            match r {
                Some((b, h)) => h.0.index == i && self.body(h) == Some(*b),
                None => forall|h: RigidBodyHandle| h.0.index == i ==> self.body(h) is None,
            },
    {
        match self.bodies.get_unknown_gen(i) {
            Some((b, index)) => Some((b, RigidBodyHandle(index))),
            None => {
                proof {
                    assert forall|h: RigidBodyHandle| h.0.index == i implies self.body(h) is None by {
                        assert(self.bodies.spec_get(h.0) is None);
                    }
                }
                None
            },
        }
    }

    /// The body `rb` as it is after being handed out mutably: the first time
    /// in a cycle its changes are replaced by the single `MODIFIED` bit.
    pub open spec fn marked(rb: RigidBody, modified_all: bool) -> RigidBody {
        if !modified_all && !has_bits(rb.changes.bits, CHANGE_MODIFIED) {
            RigidBody { changes: RigidBodyChanges { bits: CHANGE_MODIFIED }, ..rb }
        } else {
            rb
        }
    }

    /// Records `handle` as modified, the first time only in each cycle.
    fn mark_as_modified(
        handle: RigidBodyHandle,
        rb: &mut RigidBody,
        modified_bodies: &mut Vec<RigidBodyHandle>,
        modified_all_bodies: bool,
    )
        ensures
            *final(rb) == Self::marked(*old(rb), modified_all_bodies),
            final(modified_bodies)@ == if !modified_all_bodies && !has_bits(old(rb).changes.bits, CHANGE_MODIFIED) {
                old(modified_bodies)@.push(handle)
            } else {
                old(modified_bodies)@
            },
    {
        if !modified_all_bodies && !rb.changes.contains(CHANGE_MODIFIED) {
            rb.changes = RigidBodyChanges { bits: CHANGE_MODIFIED };
            modified_bodies.push(handle);
        }
    }

    /// Gets a mutable reference to the rigid body with the given handle, and
    /// records it as modified the first time in each cycle.
    ///
    /// The set stays sound as long as the caller leaves `active_set_id` as it
    /// found it.
    pub fn get_mut(&mut self, handle: RigidBodyHandle) -> (r: Option<&mut RigidBody>)
        requires
            old(self).wf(),
        ensures
            match r {
                Some(b) => {
                    &&& old(self).body(handle) matches Some(ob) && *b == Self::marked(ob, old(self).modified_all())
                    &&& final(self).body(handle) == Some(*final(b))
                    &&& final(self).modified() == if !old(self).modified_all() && !has_bits(old(self).body(handle)->Some_0.changes.bits, CHANGE_MODIFIED) {
                        old(self).modified().push(handle)
                    } else {
                        old(self).modified()
                    }
                    &&& final(b).active_set_id == b.active_set_id ==> final(self).wf()
                    &&& forall|h: RigidBodyHandle| h.0 != handle.0 ==> final(self).body(h) == old(self).body(h)
                    &&& forall|h: RigidBodyHandle| old(self).is_stale(h) <==> final(self).is_stale(h)
                    &&& final(self).len_spec() == old(self).len_spec()
                    &&& final(self).num_slots() == old(self).num_slots()
                    &&& final(self).active_dynamic() == old(self).active_dynamic()
                    &&& final(self).active_kinematic() == old(self).active_kinematic()
                    &&& final(self).islands() == old(self).islands()
                    &&& final(self).modified_all() == old(self).modified_all()
                },
                None => {
                    &&& old(self).body(handle) is None
                    &&& *final(self) == *old(self)
                },
            },
    {
        let all = self.modified_all_bodies;
        match self.bodies.get_mut(handle.0) {
            Some(rb) => {
                Self::mark_as_modified(handle, rb, &mut self.modified_bodies, all);
                proof {
                    lemma_consistent_if_id_kept(old(self).bodies, self.active_dynamic_set@, handle.0);
                    lemma_consistent_if_id_kept(old(self).bodies, self.active_kinematic_set@, handle.0);
                }
                Some(rb)
            },
            None => None,
        }
    }

    /// Gets a mutable reference to the rigid body in slot `i` together with
    /// its handle, whatever its generation, and records it as modified.
    /// Prefer `get_mut`, which is protected from the ABA problem.
    pub fn get_unknown_gen_mut(&mut self, i: usize) -> (r: Option<(&mut RigidBody, RigidBodyHandle)>)
        requires
            old(self).wf(),
        ensures
            match r {
                Some((b, h)) => {
                    &&& h.0.index == i
                    &&& old(self).body(h) matches Some(ob) && *b == Self::marked(ob, old(self).modified_all())
                    &&& final(self).body(h) == Some(*final(b))
                    &&& final(b).active_set_id == b.active_set_id ==> final(self).wf()
                    &&& forall|g: RigidBodyHandle| g.0 != h.0 ==> final(self).body(g) == old(self).body(g)
                },
                None => {
                    &&& forall|h: RigidBodyHandle| h.0.index == i ==> old(self).body(h) is None
                    &&& *final(self) == *old(self)
                },
            },
    {
        let handle = match self.get_unknown_gen(i) {
            Some((_, h)) => h,
            None => {
                return None;
            },
        };
        match self.get_mut(handle) {
            Some(rb) => Some((rb, handle)),
            None => None,
        }
    }

    /// The handles of all the rigid bodies of this set, by increasing slot.
    pub fn iter(&self) -> (r: Vec<RigidBodyHandle>)
        ensures
            forall|k: int| 0 <= k < r@.len() ==> self.body(#[trigger] r@[k]) is Some,
            forall|h: RigidBodyHandle| self.body(h) is Some ==> r@.contains(h),
            forall|j: int, k: int| 0 <= j < k < r@.len() ==> (#[trigger] r@[j]).0.index < (#[trigger] r@[k]).0.index,
    {
        let indices = self.bodies.indices();
        let mut r: Vec<RigidBodyHandle> = Vec::new();
        let mut k: usize = 0;
        while k < indices.len()
            invariant
                k <= indices@.len(),
                r@.len() == k,
                forall|m: int| 0 <= m < k ==> (#[trigger] r@[m]).0 == indices@[m],
                forall|m: int| 0 <= m < indices@.len() ==> self.bodies.contains_spec(#[trigger] indices@[m]),
                forall|i: Index| self.bodies.contains_spec(i) ==> indices@.contains(i),
                forall|j: int, m: int| 0 <= j < m < indices@.len() ==> (#[trigger] indices@[j]).index < (#[trigger] indices@[m]).index,
            decreases indices@.len() - k,
        {
            r.push(RigidBodyHandle(indices[k]));
            k = k + 1;
        }
        proof {
            assert forall|h: RigidBodyHandle| self.body(h) is Some implies r@.contains(h) by {
                assert(self.bodies.contains_spec(h.0));
                let m = choose|m: int| 0 <= m < indices@.len() && indices@[m] == h.0;
                assert(r@[m] == h);
            }
            assert forall|m: int| 0 <= m < r@.len() implies self.body(#[trigger] r@[m]) is Some by {
                assert(self.bodies.contains_spec(indices@[m]));
            }
        }
        r
    }

    /// Marks every body as modified for this cycle and returns the handles
    /// of all the bodies; `get_mut` on them then records nothing more.
    pub fn iter_mut(&mut self) -> (r: Vec<RigidBodyHandle>)
        requires
            old(self).wf(),
        ensures
            final(self).wf(),
            final(self).modified_all(),
            final(self).modified().len() == 0,
            forall|h: RigidBodyHandle| final(self).body(h) == old(self).body(h),
            final(self).active_dynamic() == old(self).active_dynamic(),
            final(self).active_kinematic() == old(self).active_kinematic(),
            forall|k: int| 0 <= k < r@.len() ==> final(self).body(#[trigger] r@[k]) is Some,
            forall|h: RigidBodyHandle| final(self).body(h) is Some ==> r@.contains(h),
    {
        self.modified_bodies.clear();
        self.modified_all_bodies = true;
        self.iter()
    }

    /// The handles of `list` that reach a body, in order.
    fn live_handles(&self, list: &Vec<RigidBodyHandle>) -> (r: Vec<RigidBodyHandle>)
        ensures
            list_consistent(self.bodies, list@) ==> r@ == list@,
            forall|k: int| 0 <= k < r@.len() ==> self.body(#[trigger] r@[k]) is Some,
    {
        let mut r: Vec<RigidBodyHandle> = Vec::new();
        let mut k: usize = 0;
        while k < list.len()
            invariant
                k <= list@.len(),
                forall|m: int| 0 <= m < r@.len() ==> self.body(#[trigger] r@[m]) is Some,
                list_consistent(self.bodies, list@) ==> r@ == list@.subrange(0, k as int),
            decreases list@.len() - k,
        {
            let h = list[k];
            if self.bodies.contains(h.0) {
                r.push(h);
            }
            proof {
                if list_consistent(self.bodies, list@) {
                    assert(self.bodies.spec_get(list@[k as int].0) is Some);
                    assert(list@.subrange(0, k + 1) =~= list@.subrange(0, k as int).push(h));
                }
            }
            k = k + 1;
        }
        proof {
            assert(list@.subrange(0, list@.len() as int) =~= list@);
        }
        r
    }

    /// The handles of the active kinematic bodies.
    pub fn iter_active_kinematic(&self) -> (r: Vec<RigidBodyHandle>)
        requires
            self.wf(),
        ensures
            r@ == self.active_kinematic(),
    {
        self.live_handles(&self.active_kinematic_set)
    }

    /// The handles of the awake dynamic bodies, island by island.
    pub fn iter_active_dynamic(&self) -> (r: Vec<RigidBodyHandle>)
        requires
            self.wf(),
        ensures
            r@ == self.active_dynamic(),
    {
        self.live_handles(&self.active_dynamic_set)
    }

    /// Removes `h` from `list` if it stands at position `id`, moving the
    /// last handle of `list` into its place and updating the position of the
    /// body so moved.
    fn remove_from_active_list(
        bodies: &mut Arena<RigidBody>,
        list: &mut Vec<RigidBodyHandle>,
        h: RigidBodyHandle,
        id: usize,
    )
        requires
            old(bodies).wf(),
            list_consistent(*old(bodies), old(list)@),
            old(bodies).spec_get(h.0) is Some ==> old(bodies).spec_get(h.0)->Some_0.active_set_id == id,
        ensures
            final(bodies).wf(),
            list_consistent(*final(bodies), final(list)@),
            final(list)@ == if listed_at(old(list)@, id as int, h) {
                swap_removed(old(list)@, id as int)
            } else {
                old(list)@
            },
            agree_except_ids(*old(bodies), *final(bodies)),
            forall|i: Index|
                !old(list)@.contains(RigidBodyHandle(i)) ==> final(bodies).spec_get(i)
                    == old(bodies).spec_get(i),
            final(bodies).spec_get(h.0) == old(bodies).spec_get(h.0),
            forall|g: RigidBodyHandle| #[trigger] final(list)@.contains(g) <==> (old(list)@.contains(g) && g != h),
            forall|i: Index| old(bodies).is_stale(i) <==> final(bodies).is_stale(i),
            final(bodies).len_spec() == old(bodies).len_spec(),
            final(bodies).num_slots() == old(bodies).num_slots(),
    {
        let ghost l0 = list@;
        proof {
            if l0.contains(h) {
                lemma_consistent_position(*old(bodies), l0, h);
            }
        }
        if id < list.len() && list[id] == h {
            let ghost old_list = list@;
            list.swap_remove(id);
            if id < list.len() {
                let moved = list[id];
                proof {
                    assert(old_list[old_list.len() - 1] == moved);
                    if moved == h {
                        lemma_consistent_no_dup(*old(bodies), old_list, id as int, old_list.len() - 1);
                    }
                    assert(moved.0 != h.0) by {
                        if moved.0 == h.0 {
                            assert(moved == h);
                        }
                    }
                }
                match bodies.get_mut(moved.0) {
                    Some(rb2) => {
                        rb2.active_set_id = id;
                    },
                    None => {},
                }
                proof {
                    assert forall|k: int| 0 <= k < list@.len() implies match bodies.spec_get((#[trigger] list@[k]).0) {
                        Some(b) => b.active_set_id == k,
                        None => false,
                    } by {
                        if k != id {
                            assert(list@[k] == old_list[k]);
                            assert(old_list[k] != moved) by {
                                assert(old_list[old_list.len() - 1] == moved);
                            }
                            assert(list@[k].0 != moved.0) by {
                                if list@[k].0 == moved.0 {
                                    assert(list@[k] == moved);
                                }
                            }
                        }
                    }
                    assert forall|i: Index|
                        !old_list.contains(RigidBodyHandle(i)) implies bodies.spec_get(i)
                            == old(bodies).spec_get(i) by {
                        if i == moved.0 {
                            assert(old_list[old_list.len() - 1] == RigidBodyHandle(i));
                        }
                    }
                }
            } else {
                proof {
                    assert forall|k: int| 0 <= k < list@.len() implies match bodies.spec_get((#[trigger] list@[k]).0) {
                        Some(b) => b.active_set_id == k,
                        None => false,
                    } by {
                        assert(list@[k] == old_list[k]);
                    }
                }
            }
        }
        proof {
            if listed_at(l0, id as int, h) {
                lemma_swap_removed_from(l0, id as int);
                assert forall|g: RigidBodyHandle| #[trigger] list@.contains(g) <==> (l0.contains(g) && g != h) by {
                    if list@.contains(g) {
                        let k = choose|k: int| 0 <= k < list@.len() && list@[k] == g;
                        if k == id {
                            assert(l0[l0.len() - 1] == g);
                            if g == h {
                                lemma_consistent_no_dup(*old(bodies), l0, id as int, l0.len() - 1);
                            }
                        } else {
                            assert(l0[k] == g);
                            if g == h {
                                lemma_consistent_no_dup(*old(bodies), l0, id as int, k);
                            }
                        }
                    }
                    if l0.contains(g) && g != h {
                        let k = choose|k: int| 0 <= k < l0.len() && l0[k] == g;
                        if k == l0.len() - 1 {
                            assert(list@[id as int] == g);
                        } else {
                            assert(k != id);
                            assert(list@[k] == g);
                        }
                    }
                }
            }
        }
    }

    /// Reconciles the active sets with the changes made by the user since the
    /// last call: each body recorded as modified (every body, when all were
    /// handed out mutably) moves to the active set that matches its status
    /// and sleep state, and its changes are cleared.
    ///
    /// Returns the handles of the bodies whose pose or colliders changed: the
    /// world poses of their colliders are to be recomputed. Those that are
    /// static are also recorded as modified inactive bodies.
    pub fn handle_user_changes(&mut self) -> (updated: Vec<RigidBodyHandle>)
        requires
            old(self).wf(),
        ensures
            final(self).wf(),
            final(self).modified().len() == 0,
            !final(self).modified_all(),
            forall|h: RigidBodyHandle|
                #![trigger old(self).body(h)]
                (old(self).modified_all() || old(self).modified().contains(h)) ==> match old(self).body(h) {
                    Some(b) => processed_ok(b, h, final(self).body(h), final(self).active_dynamic(), final(self).active_kinematic()),
                    None => final(self).body(h) is None,
                },
            forall|h: RigidBodyHandle|
                !(old(self).modified_all() || old(self).modified().contains(h)) ==> {
                    &&& same_state(old(self).body(h), final(self).body(h))
                    &&& (final(self).active_dynamic().contains(h) <==> old(self).active_dynamic().contains(h))
                    &&& (final(self).active_kinematic().contains(h) <==> old(self).active_kinematic().contains(h))
                },
            forall|h: RigidBodyHandle|
                #[trigger] updated@.contains(h) <==> ((old(self).modified_all() || old(self).modified().contains(h))
                    && (old(self).body(h) is Some && needs_collider_update(old(self).body(h)->Some_0))),
            forall|h: RigidBodyHandle|
                #[trigger] final(self).modified_inactive().contains(h) <==> (old(self).modified_inactive().contains(h)
                    || ((old(self).modified_all() || old(self).modified().contains(h)) && old(self).body(h) is Some
                    && needs_collider_update(old(self).body(h)->Some_0) && old(self).body(h)->Some_0.body_status == BodyStatus::Static)),
            forall|h: RigidBodyHandle| old(self).is_stale(h) <==> final(self).is_stale(h),
            final(self).len_spec() == old(self).len_spec(),
            final(self).num_slots() == old(self).num_slots(),
            !old(self).modified_all() && old(self).modified().len() == 0 ==> {
                &&& forall|h: RigidBodyHandle| #[trigger] final(self).body(h) == old(self).body(h)
                &&& final(self).active_dynamic() == old(self).active_dynamic()
                &&& final(self).active_kinematic() == old(self).active_kinematic()
                &&& final(self).modified_inactive() == old(self).modified_inactive()
                &&& updated@.len() == 0
            },
    {
        if self.modified_all_bodies {
            let all = self.iter();
            let mut k: usize = 0;
            while k < all.len()
                invariant
                    k <= all@.len(),
                    self.bodies == old(self).bodies,
                    self.active_dynamic_set == old(self).active_dynamic_set,
                    self.active_kinematic_set == old(self).active_kinematic_set,
                    self.modified_all_bodies,
                    self.modified_inactive_set == old(self).modified_inactive_set,
                    self.modified_bodies@ == old(self).modified_bodies@ + all@.subrange(0, k as int),
                    forall|h: RigidBodyHandle| old(self).body(h) is Some ==> all@.contains(h),
                decreases all@.len() - k,
            {
                self.modified_bodies.push(all[k]);
                proof {
                    assert(old(self).modified_bodies@ + all@.subrange(0, k + 1) =~= old(self).modified_bodies@ + all@.subrange(0, k as int) + seq![all@[k as int]]);
                }
                k = k + 1;
            }
            proof {
                assert(all@.subrange(0, all@.len() as int) =~= all@);
                assert(self.modified_bodies@ =~= old(self).modified_bodies@ + all@);
                assert forall|h: RigidBodyHandle| old(self).body(h) is Some implies self.modified_bodies@.contains(h) by {
                    assert(all@.contains(h));
                    let m = choose|m: int| 0 <= m < all@.len() && all@[m] == h;
                    let n = old(self).modified_bodies@.len();
                    assert((old(self).modified_bodies@ + all@)[n + m] == all@[m]);
                    assert(self.modified_bodies@[n + m] == h);
                }
            }
        }
        let mut list: Vec<RigidBodyHandle> = Vec::new();
        std::mem::swap(&mut list, &mut self.modified_bodies);
        proof {
            assert forall|h: RigidBodyHandle| (old(self).modified_all() || old(self).modified().contains(h)) && old(self).body(h) is Some implies list@.contains(h) by {
                if old(self).modified().contains(h) {
                    let m = choose|m: int| 0 <= m < old(self).modified_bodies@.len() && old(self).modified_bodies@[m] == h;
                    assert(list@[m] == h);
                }
            }
            assert forall|h: RigidBodyHandle| list@.contains(h) && old(self).body(h) is Some implies (old(self).modified_all() || old(self).modified().contains(h)) by {
                if !old(self).modified_all() {
                    assert(list@ == old(self).modified_bodies@);
                }
            }
        }
        proof {
            assert(self.bodies == old(self).bodies);
            assert forall|h: RigidBodyHandle| !(old(self).modified_all() || old(self).modified().contains(h)) implies !list@.contains(h) by {
                assert(list@ == old(self).modified_bodies@);
            }
        }
        let ghost orig = *self;
        let ghost mut done: Set<RigidBodyHandle> = Set::empty();
        let mut updated: Vec<RigidBodyHandle> = Vec::new();
        let mut k: usize = 0;
        while k < list.len()
            invariant
                self.wf(),
                k <= list@.len(),
                self.modified_bodies@.len() == 0,
                self.modified_all_bodies == old(self).modified_all_bodies,
                forall|m: int| 0 <= m < k ==> done.contains(#[trigger] list@[m]),
                forall|h: RigidBodyHandle| #[trigger] done.contains(h) ==> list@.contains(h),
                forall|h: RigidBodyHandle| #[trigger] done.contains(h) ==> match orig.body(h) {
                    Some(b) => processed_ok(b, h, self.body(h), self.active_dynamic(), self.active_kinematic()),
                    None => self.body(h) is None,
                },
                forall|h: RigidBodyHandle| !#[trigger] done.contains(h) ==> {
                    &&& same_state(orig.body(h), self.body(h))
                    &&& (self.active_dynamic().contains(h) <==> orig.active_dynamic().contains(h))
                    &&& (self.active_kinematic().contains(h) <==> orig.active_kinematic().contains(h))
                },
                forall|h: RigidBodyHandle| #[trigger] updated@.contains(h) <==> (done.contains(h) && (orig.body(h) is Some && needs_collider_update(orig.body(h)->Some_0))),
                forall|h: RigidBodyHandle| #[trigger] self.modified_inactive_set@.contains(h) <==> (orig.modified_inactive_set@.contains(h)
                    || (done.contains(h) && orig.body(h) is Some && needs_collider_update(orig.body(h)->Some_0)
                    && orig.body(h)->Some_0.body_status == BodyStatus::Static)),
                forall|h: RigidBodyHandle| orig.is_stale(h) <==> self.is_stale(h),
                self.len_spec() == orig.len_spec(),
                self.num_slots() == orig.num_slots(),
                list@.len() == 0 ==> self.bodies == orig.bodies && self.active_dynamic_set == orig.active_dynamic_set
                    && self.active_kinematic_set == orig.active_kinematic_set
                    && self.modified_inactive_set == orig.modified_inactive_set && updated@.len() == 0,
            decreases list@.len() - k,
        {
            let h = list[k];
            let ghost pre = *self;
            let ghost upd0 = updated@;
            let ghost mi0 = self.modified_inactive_set@;
            let ghost done0 = done;
            proof {
                if done0.contains(h) {
                    assert(pre.body(h) is Some ==> pre.body(h)->Some_0.changes.bits == 0);
                } else {
                    assert(same_state(orig.body(h), pre.body(h)));
                }
            }
            self.maintain_one(h, &mut updated);
            proof {
                done = done.insert(h);
                assert forall|g: RigidBodyHandle| done.contains(g) implies match orig.body(g) {
                    Some(b) => processed_ok(b, g, self.body(g), self.active_dynamic(), self.active_kinematic()),
                    None => self.body(g) is None,
                } by {
                    if g != h {
                        assert(done0.contains(g));
                        assert(self.active_dynamic().contains(g) <==> pre.active_dynamic().contains(g));
                        assert(self.active_kinematic().contains(g) <==> pre.active_kinematic().contains(g));
                        assert(same_state(pre.body(g), self.body(g)));
                    }
                }
                assert forall|g: RigidBodyHandle| !done.contains(g) implies {
                    &&& same_state(orig.body(g), self.body(g))
                    &&& (self.active_dynamic().contains(g) <==> orig.active_dynamic().contains(g))
                    &&& (self.active_kinematic().contains(g) <==> orig.active_kinematic().contains(g))
                } by {
                    assert(!done0.contains(g));
                    assert(g != h);
                    assert(self.active_dynamic().contains(g) <==> pre.active_dynamic().contains(g));
                    assert(self.active_kinematic().contains(g) <==> pre.active_kinematic().contains(g));
                    assert(same_state(pre.body(g), self.body(g)));
                }
                assert forall|m: int| 0 <= m < k + 1 implies done.contains(#[trigger] list@[m]) by {
                    if m < k {
                        assert(done0.contains(list@[m]));
                    }
                }
                assert forall|g: RigidBodyHandle| #[trigger] done.contains(g) implies list@.contains(g) by {
                    if g == h {
                        assert(list@[k as int] == h);
                    } else {
                        assert(done0.contains(g));
                    }
                }
                assert forall|g: RigidBodyHandle| #[trigger] updated@.contains(g) <==> (done.contains(g) && (orig.body(g) is Some && needs_collider_update(orig.body(g)->Some_0))) by {
                    if g != h {
                        assert(updated@.contains(g) <==> upd0.contains(g)) by {
                            if updated@.contains(g) && !upd0.contains(g) {
                                assert(updated@ == upd0.push(h));
                                let m = choose|m: int| 0 <= m < updated@.len() && updated@[m] == g;
                                assert(upd0[m] == g);
                            }
                            if upd0.contains(g) && updated@ != upd0 {
                                let m = choose|m: int| 0 <= m < upd0.len() && upd0[m] == g;
                                assert(updated@[m] == g);
                            }
                        }
                    } else {
                        if !done0.contains(h) && orig.body(h) is Some && needs_collider_update(orig.body(h)->Some_0) {
                            assert(updated@[updated@.len() - 1] == h);
                        }
                    }
                }
                assert forall|g: RigidBodyHandle| #[trigger] self.modified_inactive_set@.contains(g) <==> (orig.modified_inactive_set@.contains(g)
                    || (done.contains(g) && orig.body(g) is Some && needs_collider_update(orig.body(g)->Some_0)
                    && orig.body(g)->Some_0.body_status == BodyStatus::Static)) by {
                    let mi = self.modified_inactive_set@;
                    if mi != mi0 {
                        assert(mi == mi0.push(h));
                        if mi.contains(g) && g != h {
                            let m = choose|m: int| 0 <= m < mi.len() && mi[m] == g;
                            assert(mi0[m] == g);
                        }
                        if mi0.contains(g) {
                            let m = choose|m: int| 0 <= m < mi0.len() && mi0[m] == g;
                            assert(mi[m] == g);
                        }
                        if g == h {
                            assert(mi[mi.len() - 1] == h);
                        }
                    }
                    if g == h && !done0.contains(h) && orig.body(h) is Some && needs_collider_update(orig.body(h)->Some_0)
                        && orig.body(h)->Some_0.body_status == BodyStatus::Static {
                        assert(mi[mi.len() - 1] == h);
                    }
                }
            }
            k = k + 1;
        }
        self.modified_all_bodies = false;
        proof {
            if !old(self).modified_all() && old(self).modified().len() == 0 {
                assert(list@ == old(self).modified_bodies@);
                assert(list@.len() == 0);
                assert forall|h: RigidBodyHandle| #[trigger] self.body(h) == old(self).body(h) by {
                    assert(orig.body(h) == old(self).body(h));
                }
            }
            assert forall|h: RigidBodyHandle| #[trigger] done.contains(h) <==> list@.contains(h) by {
                if list@.contains(h) {
                    let m = choose|m: int| 0 <= m < list@.len() && list@[m] == h;
                    assert(done.contains(list@[m]));
                }
            }
            assert forall|h: RigidBodyHandle| !(old(self).modified_all() || old(self).modified().contains(h)) implies {
                &&& same_state(old(self).body(h), self.body(h))
                &&& (self.active_dynamic().contains(h) <==> old(self).active_dynamic().contains(h))
                &&& (self.active_kinematic().contains(h) <==> old(self).active_kinematic().contains(h))
            } by {
                assert(!done.contains(h));
                assert(orig.body(h) == old(self).body(h));
            }
            assert forall|h: RigidBodyHandle|
                #![trigger old(self).body(h)]
                (old(self).modified_all() || old(self).modified().contains(h)) implies match old(self).body(h) {
                Some(b) => processed_ok(b, h, self.body(h), self.active_dynamic(), self.active_kinematic()),
                None => self.body(h) is None,
            } by {
                assert(orig.body(h) == old(self).body(h));
                if old(self).body(h) is Some {
                    assert(list@.contains(h));
                    assert(done.contains(h));
                } else if !done.contains(h) {
                    assert(same_state(orig.body(h), self.body(h)));
                } else {
                    assert(orig.body(h) is None);
                }
            }
            assert forall|h: RigidBodyHandle| #[trigger] updated@.contains(h) <==> ((old(self).modified_all() || old(self).modified().contains(h))
                    && (old(self).body(h) is Some && needs_collider_update(old(self).body(h)->Some_0))) by {
                if old(self).body(h) is Some && (old(self).modified_all() || old(self).modified().contains(h)) {
                    assert(list@.contains(h));
                }
                if done.contains(h) && old(self).body(h) is Some {
                    assert(list@.contains(h));
                }
            }
            assert forall|h: RigidBodyHandle| old(self).is_stale(h) <==> self.is_stale(h) by {
                assert(orig.is_stale(h) == old(self).is_stale(h));
            }
            assert forall|h: RigidBodyHandle|
                #[trigger] self.modified_inactive().contains(h) <==> (old(self).modified_inactive().contains(h)
                    || ((old(self).modified_all() || old(self).modified().contains(h)) && old(self).body(h) is Some
                    && needs_collider_update(old(self).body(h)->Some_0) && old(self).body(h)->Some_0.body_status == BodyStatus::Static)) by {
                assert(orig.body(h) == old(self).body(h));
                assert(orig.modified_inactive_set@ == old(self).modified_inactive_set@);
                if old(self).body(h) is Some && (old(self).modified_all() || old(self).modified().contains(h)) {
                    assert(list@.contains(h));
                }
                if done.contains(h) && old(self).body(h) is Some {
                    assert(list@.contains(h));
                }
            }
        }
        updated
    }

    /// Empties the active dynamic set: each of its bodies goes through the
    /// sleep test and lands either on the wake-up stack or, marked as
    /// sleeping for now, in `can_sleep`.
    fn drain_active_dynamic(&mut self, low_energy: &Vec<bool>)
        requires
            old(self).wf(),
        ensures
            final(self).wf(),
            final(self).active_dynamic_set@.len() == 0,
            final(self).active_kinematic_set == old(self).active_kinematic_set,
            forall|h: RigidBodyHandle| #[trigger] final(self).stack@.contains(h) ==> old(self).active_dynamic_set@.contains(h)
                && !may_sleep(old(self).body(h)->Some_0, low_energy@, h),
            forall|h: RigidBodyHandle| #[trigger] final(self).can_sleep@.contains(h) ==> old(self).active_dynamic_set@.contains(h)
                && may_sleep(old(self).body(h)->Some_0, low_energy@, h),
            forall|h: RigidBodyHandle| #[trigger] old(self).active_dynamic_set@.contains(h) ==> {
                &&& old(self).body(h) is Some
                &&& final(self).body(h) == Some(sleep_tested(old(self).body(h)->Some_0, low_energy@, h))
                &&& if may_sleep(old(self).body(h)->Some_0, low_energy@, h) {
                    final(self).can_sleep@.contains(h)
                } else {
                    final(self).stack@.contains(h)
                }
            },
            forall|h: RigidBodyHandle| !old(self).active_dynamic_set@.contains(h) ==> #[trigger] final(self).body(h) == old(self).body(h),
            forall|h: RigidBodyHandle| old(self).is_stale(h) <==> final(self).is_stale(h),
            final(self).len_spec() == old(self).len_spec(),
            final(self).num_slots() == old(self).num_slots(),
            final(self).modified() == old(self).modified(),
            final(self).modified_all() == old(self).modified_all(),
            final(self).modified_inactive() == old(self).modified_inactive(),
            final(self).timestamp() == old(self).timestamp(),
    {
        self.stack.clear();
        self.can_sleep.clear();
        let ghost dyn0 = self.active_dynamic_set@;
        let ghost b0 = self.bodies;
        proof {
            lemma_disjoint_by_index(dyn0, self.active_kinematic_set@);
        }
        while self.active_dynamic_set.len() > 0
            invariant
                self.bodies.wf(),
                self.active_dynamic_set@.len() <= dyn0.len(),
                self.active_dynamic_set@ == dyn0.subrange(0, self.active_dynamic_set@.len() as int),
                self.active_kinematic_set == old(self).active_kinematic_set,
                list_consistent(b0, dyn0),
                list_consistent(self.bodies, self.active_dynamic_set@),
                list_consistent(self.bodies, self.active_kinematic_set@),
                disjoint(dyn0, self.active_kinematic_set@),
                forall|h: RigidBodyHandle| #[trigger] self.stack@.contains(h) ==> dyn0.contains(h) && !may_sleep(b0.spec_get(h.0)->Some_0, low_energy@, h),
                forall|h: RigidBodyHandle| #[trigger] self.can_sleep@.contains(h) ==> dyn0.contains(h) && may_sleep(b0.spec_get(h.0)->Some_0, low_energy@, h),
                forall|k: int| self.active_dynamic_set@.len() <= k < dyn0.len() ==> {
                    let h = #[trigger] dyn0[k];
                    &&& self.bodies.spec_get(h.0) == Some(sleep_tested(b0.spec_get(h.0)->Some_0, low_energy@, h))
                    &&& if may_sleep(b0.spec_get(h.0)->Some_0, low_energy@, h) {
                        self.can_sleep@.contains(h)
                    } else {
                        self.stack@.contains(h)
                    }
                },
                forall|i: Index| !dyn0.subrange(self.active_dynamic_set@.len() as int, dyn0.len() as int).contains(RigidBodyHandle(i)) ==> #[trigger] self.bodies.spec_get(i) == b0.spec_get(i),
                forall|i: Index| b0.is_stale(i) <==> self.bodies.is_stale(i),
                self.bodies.len_spec() == b0.len_spec(),
                self.bodies.num_slots() == b0.num_slots(),
                self.modified_bodies == old(self).modified_bodies,
                self.modified_all_bodies == old(self).modified_all_bodies,
                self.modified_inactive_set == old(self).modified_inactive_set,
                self.active_set_timestamp == old(self).active_set_timestamp,
            decreases self.active_dynamic_set@.len(),
        {
            let ghost n = self.active_dynamic_set@.len();
            let ghost bpre = self.bodies;
            let ghost stack0 = self.stack@;
            let ghost sleep0 = self.can_sleep@;
            let h = self.active_dynamic_set.pop().unwrap();
            proof {
                assert(dyn0[n - 1] == h);
                assert(self.active_dynamic_set@ =~= dyn0.subrange(0, n - 1));
                assert(!self.active_dynamic_set@.contains(h)) by {
                    if self.active_dynamic_set@.contains(h) {
                        let j = choose|j: int| 0 <= j < n - 1 && self.active_dynamic_set@[j] == h;
                        assert(dyn0[j] == h);
                        lemma_consistent_no_dup(b0, dyn0, j, n - 1);
                    }
                }
                assert(!dyn0.subrange(n as int, dyn0.len() as int).contains(h)) by {
                    if dyn0.subrange(n as int, dyn0.len() as int).contains(h) {
                        let j = choose|j: int| 0 <= j < dyn0.len() - n && dyn0.subrange(n as int, dyn0.len() as int)[j] == h;
                        assert(dyn0[n + j] == h);
                        lemma_consistent_no_dup(b0, dyn0, n + j, n - 1);
                    }
                }
                assert(bpre.spec_get(h.0) == b0.spec_get(h.0));
                assert(b0.spec_get(dyn0[n - 1].0) is Some);
                assert(dyn0.contains(h));
                assert(!self.active_kinematic_set@.contains(h));
            }
            let flag = h.0.index < low_energy.len() && low_energy[h.0.index];
            let mut low = false;
            match self.bodies.get_mut(h.0) {
                Some(rb) => {
                    low = flag && !rb.activation.energy_reset;
                    rb.activation.energy_reset = false;
                    if low {
                        rb.activation.sleeping = true;
                    }
                },
                None => {},
            }
            proof {
                lemma_consistent_if_id_kept(bpre, self.active_dynamic_set@, h.0);
                lemma_consistent_if_id_kept(bpre, self.active_kinematic_set@, h.0);
            }
            if low {
                self.can_sleep.push(h);
            } else {
                self.stack.push(h);
            }
            proof {
                assert(self.bodies.spec_get(h.0) == Some(sleep_tested(b0.spec_get(h.0)->Some_0, low_energy@, h)));
                assert forall|g: RigidBodyHandle| #[trigger] self.stack@.contains(g) implies dyn0.contains(g) && !may_sleep(b0.spec_get(g.0)->Some_0, low_energy@, g) by {
                    if g == h {
                        assert(dyn0[n - 1] == h);
                    } else {
                        if !low {
                            let j = choose|j: int| 0 <= j < self.stack@.len() && self.stack@[j] == g;
                            assert(stack0[j] == g);
                        }
                        assert(stack0.contains(g));
                    }
                }
                assert forall|g: RigidBodyHandle| #[trigger] self.can_sleep@.contains(g) implies dyn0.contains(g) && may_sleep(b0.spec_get(g.0)->Some_0, low_energy@, g) by {
                    if g == h {
                        assert(dyn0[n - 1] == h);
                    } else {
                        if low {
                            let j = choose|j: int| 0 <= j < self.can_sleep@.len() && self.can_sleep@[j] == g;
                            assert(sleep0[j] == g);
                        }
                        assert(sleep0.contains(g));
                    }
                }
                assert forall|k: int| n - 1 <= k < dyn0.len() implies {
                    let g = #[trigger] dyn0[k];
                    &&& self.bodies.spec_get(g.0) == Some(sleep_tested(b0.spec_get(g.0)->Some_0, low_energy@, g))
                    &&& if may_sleep(b0.spec_get(g.0)->Some_0, low_energy@, g) {
                        self.can_sleep@.contains(g)
                    } else {
                        self.stack@.contains(g)
                    }
                } by {
                    let g = dyn0[k];
                    if k == n - 1 {
                        if low {
                            assert(self.can_sleep@[self.can_sleep@.len() - 1] == h);
                        } else {
                            assert(self.stack@[self.stack@.len() - 1] == h);
                        }
                    } else {
                        if g == h {
                            lemma_consistent_no_dup(b0, dyn0, k, n - 1);
                        }
                        assert(g.0 != h.0) by {
                            if g.0 == h.0 {
                                assert(g == h);
                            }
                        }
                        if stack0.contains(g) {
                            let j = choose|j: int| 0 <= j < stack0.len() && stack0[j] == g;
                            assert(self.stack@[j] == g);
                        }
                        if sleep0.contains(g) {
                            let j = choose|j: int| 0 <= j < sleep0.len() && sleep0[j] == g;
                            assert(self.can_sleep@[j] == g);
                        }
                    }
                }
                assert forall|i: Index| !dyn0.subrange(n - 1, dyn0.len() as int).contains(RigidBodyHandle(i)) implies #[trigger] self.bodies.spec_get(i) == b0.spec_get(i) by {
                    assert(dyn0.subrange(n - 1, dyn0.len() as int)[0] == h);
                    if dyn0.subrange(n as int, dyn0.len() as int).contains(RigidBodyHandle(i)) {
                        let j = choose|j: int| 0 <= j < dyn0.len() - n && dyn0.subrange(n as int, dyn0.len() as int)[j] == RigidBodyHandle(i);
                        assert(dyn0.subrange(n - 1, dyn0.len() as int)[j + 1] == RigidBodyHandle(i));
                    }
                    assert(RigidBodyHandle(i) != h);
                }
            }
        }
        proof {
            assert(dyn0.subrange(0, dyn0.len() as int) =~= dyn0);
            assert forall|h: RigidBodyHandle| #[trigger] dyn0.contains(h) implies {
                &&& b0.spec_get(h.0) is Some
                &&& self.bodies.spec_get(h.0) == Some(sleep_tested(b0.spec_get(h.0)->Some_0, low_energy@, h))
                &&& if may_sleep(b0.spec_get(h.0)->Some_0, low_energy@, h) {
                    self.can_sleep@.contains(h)
                } else {
                    self.stack@.contains(h)
                }
            } by {
                let k = choose|k: int| 0 <= k < dyn0.len() && dyn0[k] == h;
                assert(b0.spec_get(dyn0[k].0) is Some);
            }
            assert forall|h: RigidBodyHandle| !dyn0.contains(h) implies #[trigger] self.bodies.spec_get(h.0) == b0.spec_get(h.0) by {
                assert(dyn0.subrange(0, dyn0.len() as int) =~= dyn0);
            }
            lemma_disjoint_by_index(self.active_dynamic_set@, self.active_kinematic_set@);
        }
    }

    /// Pushes every handle of `src` onto `stack`.
    fn push_all(stack: &mut Vec<RigidBodyHandle>, src: &Vec<RigidBodyHandle>)
        ensures
            final(stack)@ == old(stack)@ + src@,
            forall|g: RigidBodyHandle| #[trigger] final(stack)@.contains(g) <==> (old(stack)@.contains(g) || src@.contains(g)),
    {
        let ghost s0 = stack@;
        let mut k: usize = 0;
        while k < src.len()
            invariant
                k <= src@.len(),
                stack@ == s0 + src@.subrange(0, k as int),
            decreases src@.len() - k,
        {
            stack.push(src[k]);
            proof {
                assert(s0 + src@.subrange(0, k + 1) =~= (s0 + src@.subrange(0, k as int)).push(src@[k as int]));
            }
            k = k + 1;
        }
        proof {
            assert(src@.subrange(0, src@.len() as int) =~= src@);
            assert forall|g: RigidBodyHandle| #[trigger] stack@.contains(g) <==> (s0.contains(g) || src@.contains(g)) by {
                if stack@.contains(g) {
                    let j = choose|j: int| 0 <= j < stack@.len() && stack@[j] == g;
                    if j < s0.len() {
                        assert(s0[j] == g);
                    } else {
                        assert(src@[j - s0.len()] == g);
                    }
                }
                if s0.contains(g) {
                    let j = choose|j: int| 0 <= j < s0.len() && s0[j] == g;
                    assert(stack@[j] == g);
                }
                if src@.contains(g) {
                    let j = choose|j: int| 0 <= j < src@.len() && src@[j] == g;
                    assert(stack@[s0.len() + j] == g);
                }
            }
        }
    }

    /// Pushes onto the wake-up stack every body in contact with a moving
    /// kinematic body: those are woken up by it.
    fn push_kinematic_contacts(&mut self, contacts: &Vec<Vec<RigidBodyHandle>>, moving: &Vec<bool>)
        ensures
            forall|g: RigidBodyHandle| #[trigger] final(self).stack@.contains(g) <==> (old(self).stack@.contains(g)
                || exists|k: int| 0 <= k < old(self).active_kinematic_set@.len()
                    && flag_at(moving@, #[trigger] old(self).active_kinematic_set@[k])
                    && listed_neighbor(contacts@, old(self).active_kinematic_set@[k], g)),
            final(self).bodies == old(self).bodies,
            final(self).active_dynamic_set == old(self).active_dynamic_set,
            final(self).active_kinematic_set == old(self).active_kinematic_set,
            final(self).can_sleep == old(self).can_sleep,
            final(self).active_islands == old(self).active_islands,
            final(self).modified_bodies == old(self).modified_bodies,
            final(self).modified_all_bodies == old(self).modified_all_bodies,
            final(self).modified_inactive_set == old(self).modified_inactive_set,
            final(self).active_set_timestamp == old(self).active_set_timestamp,
    {
        let ghost s0 = self.stack@;
        let ghost kin = self.active_kinematic_set@;
        let mut k: usize = 0;
        while k < self.active_kinematic_set.len()
            invariant
                k <= kin.len(),
                self.active_kinematic_set@ == kin,
                self.bodies == old(self).bodies,
                self.active_dynamic_set == old(self).active_dynamic_set,
                self.active_kinematic_set == old(self).active_kinematic_set,
                self.can_sleep == old(self).can_sleep,
                self.active_islands == old(self).active_islands,
                self.modified_bodies == old(self).modified_bodies,
                self.modified_all_bodies == old(self).modified_all_bodies,
                self.modified_inactive_set == old(self).modified_inactive_set,
                self.active_set_timestamp == old(self).active_set_timestamp,
                forall|g: RigidBodyHandle| #[trigger] self.stack@.contains(g) <==> (s0.contains(g)
                    || exists|j: int| 0 <= j < k && flag_at(moving@, #[trigger] kin[j]) && listed_neighbor(contacts@, kin[j], g)),
            decreases kin.len() - k,
        {
            let h = self.active_kinematic_set[k];
            let ghost st0 = self.stack@;
            if h.0.index < moving.len() && moving[h.0.index] && h.0.index < contacts.len() {
                Self::push_all(&mut self.stack, &contacts[h.0.index]);
            }
            proof {
                assert forall|g: RigidBodyHandle| #[trigger] self.stack@.contains(g) <==> (s0.contains(g)
                    || exists|j: int| 0 <= j < k + 1 && flag_at(moving@, #[trigger] kin[j]) && listed_neighbor(contacts@, kin[j], g)) by {
                    if flag_at(moving@, h) && listed_neighbor(contacts@, h, g) {
                        assert(kin[k as int] == h);
                    }
                    if exists|j: int| 0 <= j < k + 1 && flag_at(moving@, #[trigger] kin[j]) && listed_neighbor(contacts@, kin[j], g) {
                        let j = choose|j: int| 0 <= j < k + 1 && flag_at(moving@, #[trigger] kin[j]) && listed_neighbor(contacts@, kin[j], g);
                        if j < k {
                            assert(st0.contains(g));
                        }
                    }
                }
            }
            k = k + 1;
        }
    }

    /// Wakes the dynamic body `h` and appends it to the current (last)
    /// island of the active dynamic set.
    fn add_to_current_island(&mut self, h: RigidBodyHandle, ts: u32)
        requires
            old(self).bodies.wf(),
            list_consistent(old(self).bodies, old(self).active_dynamic_set@),
            list_consistent(old(self).bodies, old(self).active_kinematic_set@),
            disjoint(old(self).active_dynamic_set@, old(self).active_kinematic_set@),
            live_dynamic(old(self).bodies, h),
            !old(self).active_dynamic_set@.contains(h),
            old(self).active_islands@.len() >= 1,
            old(self).active_islands@.last() <= old(self).active_dynamic_set@.len(),
        ensures
            final(self).bodies.wf(),
            list_consistent(final(self).bodies, final(self).active_dynamic_set@),
            list_consistent(final(self).bodies, final(self).active_kinematic_set@),
            disjoint(final(self).active_dynamic_set@, final(self).active_kinematic_set@),
            final(self).active_dynamic_set@ == old(self).active_dynamic_set@.push(h),
            forall|g: RigidBodyHandle| #[trigger] final(self).active_kinematic_set@.contains(g) <==> (old(self).active_kinematic_set@.contains(g) && g != h),
            !old(self).active_kinematic_set@.contains(h) ==> final(self).active_kinematic_set@ == old(self).active_kinematic_set@,
            final(self).bodies.spec_get(h.0) matches Some(nb) && {
                let b = old(self).bodies.spec_get(h.0)->Some_0;
                &&& same_core(b, nb)
                &&& !nb.activation.sleeping
                &&& nb.activation.energy_reset == b.activation.energy_reset
                &&& nb.active_island_id == old(self).active_islands@.len() - 1
                &&& nb.active_set_id == old(self).active_dynamic_set@.len()
                &&& nb.active_set_offset == old(self).active_dynamic_set@.len() - old(self).active_islands@.last()
                &&& nb.active_set_timestamp == ts
            },
            forall|g: RigidBodyHandle| g != h ==> same_state(#[trigger] old(self).bodies.spec_get(g.0), final(self).bodies.spec_get(g.0)),
            forall|g: RigidBodyHandle| g != h && !old(self).active_kinematic_set@.contains(g) ==> #[trigger] final(self).bodies.spec_get(g.0) == old(self).bodies.spec_get(g.0),
            forall|i: Index| old(self).bodies.is_stale(i) <==> final(self).bodies.is_stale(i),
            final(self).bodies.len_spec() == old(self).bodies.len_spec(),
            final(self).bodies.num_slots() == old(self).bodies.num_slots(),
            final(self).stack == old(self).stack,
            final(self).can_sleep == old(self).can_sleep,
            final(self).active_islands == old(self).active_islands,
            final(self).modified_bodies == old(self).modified_bodies,
            final(self).modified_all_bodies == old(self).modified_all_bodies,
            final(self).modified_inactive_set == old(self).modified_inactive_set,
            final(self).active_set_timestamp == old(self).active_set_timestamp,
    {
        let ghost b0 = self.bodies;
        let ghost dyn0 = self.active_dynamic_set@;
        let ghost kin0 = self.active_kinematic_set@;
        let id = match self.bodies.get(h.0) {
            Some(rb) => rb.active_set_id,
            None => 0,
        };
        let ghost kin_vec0 = self.active_kinematic_set;
        Self::remove_from_active_list(&mut self.bodies, &mut self.active_kinematic_set, h, id);
        let ghost b1 = self.bodies;
        let ghost kin1 = self.active_kinematic_set@;
        proof {
            if !kin0.contains(h) {
                if listed_at(kin0, id as int, h) {
                    assert(kin0.contains(h));
                }
                assert(self.active_kinematic_set@ == kin_vec0@);
            }
        }
        proof {
            lemma_disjoint_by_index(dyn0, kin0);
            lemma_untouched_list_consistent(b0, b1, kin0, dyn0);
            assert(!kin1.contains(h));
        }
        let island_id = self.active_islands.len() - 1;
        let set_id = self.active_dynamic_set.len();
        let offset = set_id - self.active_islands[island_id];
        match self.bodies.get_mut(h.0) {
            Some(rb) => {
                rb.wake_up(false);
                rb.active_island_id = island_id;
                rb.active_set_id = set_id;
                rb.active_set_offset = offset;
                rb.active_set_timestamp = ts;
            },
            None => {},
        }
        let ghost b2 = self.bodies;
        proof {
            assert forall|i: Index| !seq![h].contains(RigidBodyHandle(i)) implies b2.spec_get(i) == b1.spec_get(i) by {
                if i == h.0 {
                    assert(seq![h][0] == RigidBodyHandle(i));
                }
            }
            assert forall|j: int, k: int| 0 <= j < kin1.len() && 0 <= k < 1 implies #[trigger] kin1[j] != #[trigger] seq![h][k] by {
                assert(kin1.contains(kin1[j]));
            }
            lemma_untouched_list_consistent(b1, b2, seq![h], kin1);
            assert forall|j: int, k: int| 0 <= j < dyn0.len() && 0 <= k < 1 implies #[trigger] dyn0[j] != #[trigger] seq![h][k] by {
                assert(dyn0.contains(dyn0[j]));
            }
            lemma_untouched_list_consistent(b1, b2, seq![h], dyn0);
        }
        self.active_dynamic_set.push(h);
        proof {
            let d = self.active_dynamic_set@;
            assert forall|k: int| 0 <= k < d.len() implies match b2.spec_get((#[trigger] d[k]).0) {
                Some(b) => b.active_set_id == k,
                None => false,
            } by {
                if k < dyn0.len() {
                    assert(d[k] == dyn0[k]);
                }
            }
            assert forall|g: RigidBodyHandle| #[trigger] d.contains(g) implies !kin1.contains(g) by {
                if g != h {
                    let j = choose|j: int| 0 <= j < d.len() && d[j] == g;
                    assert(dyn0[j] == g);
                    assert(dyn0.contains(g));
                }
            }
            assert forall|g: RigidBodyHandle| g != h implies same_state(#[trigger] b0.spec_get(g.0), b2.spec_get(g.0)) by {
                assert(g.0 != h.0);
            }
        }
    }

    /// The graph walk of the island extraction: pops bodies from the wake-up
    /// stack, appends each dynamic one not yet visited to the active dynamic
    /// set and pushes its contact and joint neighbours. A new island starts
    /// when the walk falls below the stack depth at which the current island
    /// started, provided the current island holds `min_island_size` bodies.
    #[verifier::spinoff_prover]
    #[verifier::rlimit(100)]
    fn walk_islands(
        &mut self,
        contacts: &Vec<Vec<RigidBodyHandle>>,
        joints: &Vec<Vec<RigidBodyHandle>>,
        min_island_size: usize,
        ts: u32,
    )
        requires
            old(self).bodies.wf(),
            old(self).active_dynamic_set@.len() == 0,
            list_consistent(old(self).bodies, old(self).active_kinematic_set@),
            min_island_size > 0,
        ensures
            final(self).bodies.wf(),
            list_consistent(final(self).bodies, final(self).active_dynamic_set@),
            list_consistent(final(self).bodies, final(self).active_kinematic_set@),
            disjoint(final(self).active_dynamic_set@, final(self).active_kinematic_set@),
            island_partition(final(self).active_islands@, final(self).active_dynamic_set@.len()),
            forall|k: int| 0 <= k < final(self).active_dynamic_set@.len() ==> awake_in_island(
                final(self).bodies.spec_get((#[trigger] final(self).active_dynamic_set@[k]).0)->Some_0,
                final(self).active_islands@,
                k,
                ts,
            ),
            forall|g: RigidBodyHandle| #[trigger] old(self).stack@.contains(g) && live_dynamic(old(self).bodies, g)
                ==> final(self).active_dynamic_set@.contains(g),
            forall|k: int, g: RigidBodyHandle|
                0 <= k < final(self).active_dynamic_set@.len() && #[trigger] neighbor(contacts@, joints@, final(self).active_dynamic_set@[k], g)
                    && live_dynamic(final(self).bodies, g) ==> final(self).active_dynamic_set@.contains(g),
            symmetric(contacts@, joints@) ==> forall|j: int, k: int|
                0 <= j < final(self).active_dynamic_set@.len() && 0 <= k < final(self).active_dynamic_set@.len()
                    && #[trigger] neighbor(contacts@, joints@, final(self).active_dynamic_set@[j], final(self).active_dynamic_set@[k])
                    ==> island_of(final(self).bodies, final(self).active_dynamic_set@[j]) == island_of(final(self).bodies, final(self).active_dynamic_set@[k]),
            forall|k: int| 0 <= k < final(self).active_dynamic_set@.len() ==> #[trigger] reached_from(
                old(self).stack@, final(self).active_dynamic_set@, contacts@, joints@, k),
            closed_islands_at_least(final(self).active_islands@, min_island_size),
            none_dynamic(old(self).bodies, old(self).active_kinematic_set@) ==> final(self).active_kinematic_set@ == old(self).active_kinematic_set@,
            forall|g: RigidBodyHandle| match (#[trigger] old(self).bodies.spec_get(g.0), final(self).bodies.spec_get(g.0)) {
                (Some(x), Some(y)) => same_core(x, y) && x.activation.energy_reset == y.activation.energy_reset
                    && (!final(self).active_dynamic_set@.contains(g) ==> same_except_set_id(x, y)),
                (None, None) => true,
                _ => false,
            },
            forall|g: RigidBodyHandle| #[trigger] final(self).active_kinematic_set@.contains(g) ==> old(self).active_kinematic_set@.contains(g),
            forall|i: Index| old(self).bodies.is_stale(i) <==> final(self).bodies.is_stale(i),
            final(self).bodies.len_spec() == old(self).bodies.len_spec(),
            final(self).bodies.num_slots() == old(self).bodies.num_slots(),
            final(self).can_sleep == old(self).can_sleep,
            final(self).modified_bodies == old(self).modified_bodies,
            final(self).modified_all_bodies == old(self).modified_all_bodies,
            final(self).modified_inactive_set == old(self).modified_inactive_set,
            final(self).active_set_timestamp == old(self).active_set_timestamp,
            old(self).stack@.len() == 0 ==> {
                &&& final(self).bodies == old(self).bodies
                &&& final(self).active_dynamic_set@.len() == 0
                &&& final(self).active_kinematic_set == old(self).active_kinematic_set
            },
    {
        let ghost b0 = self.bodies;
        let ghost s0 = self.stack@;
        let ghost kin0 = self.active_kinematic_set@;
        self.active_islands.clear();
        self.active_islands.push(0);
        let mut island_marker: usize = if self.stack.len() > 0 {
            self.stack.len() - 1
        } else {
            0
        };
        proof {
            assert(disjoint(self.active_dynamic_set@, self.active_kinematic_set@));
            assert(walk_reach(s0, self.active_dynamic_set@, self.stack@, contacts@, joints@)) by {
                reveal(walk_reach);
                assert forall|m: int| 0 <= m < self.stack@.len() implies #[trigger] pushed_by(s0, self.active_dynamic_set@, contacts@, joints@, self.stack@[m]) by {
                    assert(s0.contains(self.stack@[m]));
                }
            }
        }
        while self.stack.len() > 0
            invariant
                self.bodies.wf(),
                list_consistent(self.bodies, self.active_dynamic_set@),
                list_consistent(self.bodies, self.active_kinematic_set@),
                disjoint(self.active_dynamic_set@, self.active_kinematic_set@),
                min_island_size > 0,
                self.active_islands@.len() >= 1,
                self.active_islands@[0] == 0,
                forall|i: int, j: int| 0 <= i < j < self.active_islands@.len() ==> #[trigger] self.active_islands@[i] < #[trigger] self.active_islands@[j],
                self.active_islands@.last() <= self.active_dynamic_set@.len(),
                self.active_islands@.last() == self.active_dynamic_set@.len() ==> self.active_dynamic_set@.len() == 0 && self.active_islands@.len() == 1,
                forall|k: int| 0 <= k < self.active_dynamic_set@.len() ==> awake_in_island(
                    self.bodies.spec_get((#[trigger] self.active_dynamic_set@[k]).0)->Some_0,
                    self.active_islands@,
                    k,
                    ts,
                ),
                forall|g: RigidBodyHandle| #[trigger] s0.contains(g) && live_dynamic(self.bodies, g)
                    ==> self.stack@.contains(g) || self.active_dynamic_set@.contains(g),
                forall|k: int, g: RigidBodyHandle|
                    0 <= k < self.active_dynamic_set@.len() && #[trigger] neighbor(contacts@, joints@, self.active_dynamic_set@[k], g)
                        && live_dynamic(self.bodies, g) ==> self.active_dynamic_set@.contains(g) || (
                            island_of(self.bodies, self.active_dynamic_set@[k]) == self.active_islands@.len() - 1
                            && pending(self.stack@, island_marker as int, g)),
                symmetric(contacts@, joints@) ==> forall|j: int, k: int|
                    0 <= j < self.active_dynamic_set@.len() && 0 <= k < self.active_dynamic_set@.len()
                        && #[trigger] neighbor(contacts@, joints@, self.active_dynamic_set@[j], self.active_dynamic_set@[k])
                        ==> island_of(self.bodies, self.active_dynamic_set@[j]) == island_of(self.bodies, self.active_dynamic_set@[k]),
                walk_reach(s0, self.active_dynamic_set@, self.stack@, contacts@, joints@),
                forall|i: int| 0 <= i < self.active_islands@.len() - 1 ==> #[trigger] self.active_islands@[i + 1] - self.active_islands@[i] >= min_island_size,
                none_dynamic(b0, kin0) ==> self.active_kinematic_set@ == kin0,
                forall|g: RigidBodyHandle| match (#[trigger] b0.spec_get(g.0), self.bodies.spec_get(g.0)) {
                    (Some(x), Some(y)) => same_core(x, y) && x.activation.energy_reset == y.activation.energy_reset
                        && (!self.active_dynamic_set@.contains(g) ==> same_except_set_id(x, y)),
                    (None, None) => true,
                    _ => false,
                },
                forall|g: RigidBodyHandle| #[trigger] self.active_kinematic_set@.contains(g) ==> kin0.contains(g),
                forall|i: Index| b0.is_stale(i) <==> self.bodies.is_stale(i),
                self.bodies.len_spec() == b0.len_spec(),
                self.bodies.num_slots() == b0.num_slots(),
                self.can_sleep == old(self).can_sleep,
                self.modified_bodies == old(self).modified_bodies,
                self.modified_all_bodies == old(self).modified_all_bodies,
                self.modified_inactive_set == old(self).modified_inactive_set,
                self.active_set_timestamp == old(self).active_set_timestamp,
                s0.len() == 0 ==> self.stack@.len() == 0 && self.bodies == b0 && self.active_dynamic_set@.len() == 0
                    && self.active_kinematic_set == old(self).active_kinematic_set,
            decreases self.bodies.num_slots() - self.active_dynamic_set@.len(), self.stack@.len(),
        {
            proof {
                lemma_consistent_len_bound(self.bodies, self.active_dynamic_set@);
            }
            let ghost st0 = self.stack@;
            let ghost bpre = self.bodies;
            let ghost dpre = self.active_dynamic_set@;
            let ghost ipre = self.active_islands@;
            let ghost m0 = island_marker as int;
            let h = self.stack.pop().unwrap();
            let ghost st_pop = self.stack@;
            proof {
                assert(st0[st0.len() - 1] == h);
                assert forall|g: RigidBodyHandle| st0.contains(g) && g != h implies #[trigger] self.stack@.contains(g) by {
                    let j = choose|j: int| 0 <= j < st0.len() && st0[j] == g;
                    assert(self.stack@[j] == g);
                }
            }
            let (live, dynamic, id) = match self.bodies.get(h.0) {
                Some(rb) => (true, rb.is_dynamic(), rb.active_set_id),
                None => (false, false, 0),
            };
            let visited = id < self.active_dynamic_set.len() && self.active_dynamic_set[id] == h;
            if live && dynamic && !visited {
                proof {
                    if dpre.contains(h) {
                        lemma_consistent_position(bpre, dpre, h);
                    }
                }
                if self.stack.len() < island_marker {
                    let last = self.active_islands[self.active_islands.len() - 1];
                    if self.active_dynamic_set.len() - last >= min_island_size {
                        self.active_islands.push(self.active_dynamic_set.len());
                        proof {
                            let isl = self.active_islands@;
                            assert forall|i: int| 0 <= i < isl.len() - 1 implies #[trigger] isl[i + 1] - isl[i] >= min_island_size by {
                                if i < ipre.len() - 1 {
                                    assert(isl[i + 1] == ipre[i + 1]);
                                    assert(isl[i] == ipre[i]);
                                } else {
                                    assert(isl[i] == ipre[ipre.len() - 1]);
                                }
                            }
                            assert forall|i: int, j: int| 0 <= i < j < isl.len() implies #[trigger] isl[i] < #[trigger] isl[j] by {
                                if j == isl.len() - 1 && i < j {
                                    assert(isl[i] == ipre[i]);
                                    if i < ipre.len() - 1 {
                                        assert(ipre[i] < ipre[ipre.len() - 1]);
                                    }
                                } else {
                                    assert(isl[i] == ipre[i]);
                                    assert(isl[j] == ipre[j]);
                                }
                            }
                            assert forall|k: int| 0 <= k < dpre.len() implies awake_in_island(
                                self.bodies.spec_get((#[trigger] dpre[k]).0)->Some_0,
                                self.active_islands@,
                                k,
                                ts,
                            ) by {
                                let b = self.bodies.spec_get(dpre[k].0)->Some_0;
                                assert(awake_in_island(b, ipre, k, ts));
                                let i = b.active_island_id as int;
                                assert(isl[i] == ipre[i]);
                                if i + 1 < ipre.len() {
                                    assert(isl[i + 1] == ipre[i + 1]);
                                }
                            }
                        }
                    }
                    island_marker = self.stack.len();
                }
                let ghost b1 = self.bodies;
                let ghost isl1 = self.active_islands@;
                let ghost kin1 = self.active_kinematic_set@;
                let ghost m1 = island_marker as int;
                proof {
                    assert(m1 <= st_pop.len());
                    assert forall|k: int, g: RigidBodyHandle|
                        0 <= k < dpre.len() && #[trigger] neighbor(contacts@, joints@, dpre[k], g) && live_dynamic(bpre, g)
                            implies dpre.contains(g) || g == h || (island_of(bpre, dpre[k]) == isl1.len() - 1 && pending(st_pop, m1, g)) by {
                        if !dpre.contains(g) && g != h {
                            let m = choose|m: int| m0 <= m < st0.len() && st0[m] == g;
                            assert(m < st0.len() - 1);
                            assert(st_pop[m] == g);
                            assert(st_pop.len() >= m0);
                        }
                    }
                    // A neighbour of `h` already placed lies in the current island.
                    assert forall|k: int| 0 <= k < dpre.len() && #[trigger] neighbor(contacts@, joints@, dpre[k], h)
                        implies island_of(bpre, dpre[k]) == isl1.len() - 1 by {
                        let m = choose|m: int| m0 <= m < st0.len() && st0[m] == h;
                        assert(st_pop.len() >= m0);
                        assert(isl1 == ipre);
                    }
                }
                self.add_to_current_island(h, ts);
                let ghost b2 = self.bodies;
                let ghost d2 = self.active_dynamic_set@;
                let ghost st1 = self.stack@;
                if h.0.index < contacts.len() {
                    Self::push_all(&mut self.stack, &contacts[h.0.index]);
                }
                let ghost st2 = self.stack@;
                if h.0.index < joints.len() {
                    Self::push_all(&mut self.stack, &joints[h.0.index]);
                }
                proof {
                    assert(d2[d2.len() - 1] == h);
                    assert(d2.contains(h));
                    assert forall|g: RigidBodyHandle| #[trigger] dpre.contains(g) implies d2.contains(g) by {
                        let j = choose|j: int| 0 <= j < dpre.len() && dpre[j] == g;
                        assert(d2[j] == g);
                    }
                    assert forall|g: RigidBodyHandle| #[trigger] st1.contains(g) implies self.stack@.contains(g) by {
                        assert(st2.contains(g));
                    }
                    assert forall|g: RigidBodyHandle| #[trigger] live_dynamic(b2, g) <==> live_dynamic(b0, g) by {
                        assert(same_state(b1.spec_get(g.0), b2.spec_get(g.0)) || g == h);
                    }
                    assert forall|g: RigidBodyHandle| #[trigger] live_dynamic(bpre, g) <==> live_dynamic(b0, g) by {
                    }
                    // Bodies already placed keep their island.
                    assert forall|k: int| 0 <= k < d2.len() implies awake_in_island(
                        b2.spec_get((#[trigger] d2[k]).0)->Some_0,
                        isl1,
                        k,
                        ts,
                    ) by {
                        if k < dpre.len() {
                            let g = dpre[k];
                            assert(d2[k] == g);
                            assert(dpre.contains(g));
                            assert(!kin1.contains(g));
                            assert(g != h);
                            assert(b2.spec_get(g.0) == b1.spec_get(g.0));
                        }
                    }
                    assert forall|g: RigidBodyHandle| #[trigger] s0.contains(g) && live_dynamic(b2, g) implies self.stack@.contains(g) || d2.contains(g) by {
                        if g != h {
                            assert(live_dynamic(bpre, g));
                            if st0.contains(g) {
                                assert(st1.contains(g));
                            }
                        }
                    }
                    assert(st1 == st_pop);
                    assert forall|m: int| 0 <= m < st_pop.len() implies #[trigger] self.stack@[m] == st_pop[m] by {
                        assert(st2[m] == st_pop[m]);
                    }
                    assert forall|k: int, g: RigidBodyHandle|
                        0 <= k < d2.len() && #[trigger] neighbor(contacts@, joints@, d2[k], g) && live_dynamic(b2, g)
                            implies d2.contains(g) || (island_of(b2, d2[k]) == isl1.len() - 1 && pending(self.stack@, m1, g)) by {
                        if k < dpre.len() {
                            let o = dpre[k];
                            assert(d2[k] == o);
                            assert(live_dynamic(bpre, g));
                            assert(dpre.contains(o));
                            assert(!kin1.contains(o));
                            assert(b2.spec_get(o.0) == b1.spec_get(o.0));
                            if !dpre.contains(g) && g != h {
                                let m = choose|m: int| m1 <= m < st_pop.len() && st_pop[m] == g;
                                assert(self.stack@[m] == g);
                            }
                        } else {
                            assert(d2[k] == h);
                            if listed_neighbor(contacts@, h, g) {
                                let c = contacts@[h.0.index as int]@;
                                let i = choose|i: int| 0 <= i < c.len() && c[i] == g;
                                assert(st2[st_pop.len() + i] == g);
                                if h.0.index < joints@.len() {
                                    assert(self.stack@[st_pop.len() + i] == g);
                                }
                                assert(pending(self.stack@, m1, g));
                            } else {
                                assert(listed_neighbor(joints@, h, g));
                                let c = joints@[h.0.index as int]@;
                                let i = choose|i: int| 0 <= i < c.len() && c[i] == g;
                                assert(self.stack@[st2.len() + i] == g);
                                assert(pending(self.stack@, m1, g));
                            }
                        }
                    }
                    if symmetric(contacts@, joints@) {
                        assert forall|j: int, k: int|
                            0 <= j < d2.len() && 0 <= k < d2.len() && #[trigger] neighbor(contacts@, joints@, d2[j], d2[k])
                                implies island_of(b2, d2[j]) == island_of(b2, d2[k]) by {
                            if j < dpre.len() {
                                let o = dpre[j];
                                assert(d2[j] == o);
                                assert(dpre.contains(o));
                                assert(!kin1.contains(o));
                                assert(b2.spec_get(o.0) == b1.spec_get(o.0));
                            }
                            if k < dpre.len() {
                                let o = dpre[k];
                                assert(d2[k] == o);
                                assert(dpre.contains(o));
                                assert(!kin1.contains(o));
                                assert(b2.spec_get(o.0) == b1.spec_get(o.0));
                            }
                            if j < dpre.len() && k == dpre.len() {
                                assert(neighbor(contacts@, joints@, dpre[j], h));
                            } else if k < dpre.len() && j == dpre.len() {
                                assert(neighbor(contacts@, joints@, h, dpre[k]));
                                assert(neighbor(contacts@, joints@, dpre[k], h));
                            }
                        }
                    }
                    assert forall|g: RigidBodyHandle| match (#[trigger] b0.spec_get(g.0), b2.spec_get(g.0)) {
                        (Some(x), Some(y)) => same_core(x, y) && x.activation.energy_reset == y.activation.energy_reset
                            && (!d2.contains(g) ==> same_except_set_id(x, y)),
                        (None, None) => true,
                        _ => false,
                    } by {
                        if g != h {
                            assert(same_state(b1.spec_get(g.0), b2.spec_get(g.0)));
                            if !d2.contains(g) {
                                assert(!dpre.contains(g));
                            }
                        }
                    }
                    lemma_consistent_len_bound(b2, d2);
                    assert(walk_reach(s0, d2, self.stack@, contacts@, joints@)) by {
                    reveal(walk_reach);
                    assert(pushed_by(s0, dpre, contacts@, joints@, st0[st0.len() - 1]));
                    assert forall|k: int| 0 <= k < d2.len() implies #[trigger] reached_from(s0, d2, contacts@, joints@, k) by {
                        if k < dpre.len() {
                            assert(d2[k] == dpre[k]);
                            assert(reached_from(s0, dpre, contacts@, joints@, k));
                            if !s0.contains(dpre[k]) {
                                let i = choose|i: int| 0 <= i < k && #[trigger] neighbor(contacts@, joints@, dpre[i], dpre[k]);
                                assert(d2[i] == dpre[i]);
                            }
                        } else {
                            assert(d2[k] == h);
                            if !s0.contains(h) {
                                let i = choose|i: int| 0 <= i < dpre.len() && #[trigger] neighbor(contacts@, joints@, dpre[i], h);
                                assert(d2[i] == dpre[i]);
                            }
                        }
                    }
                    assert forall|m: int| 0 <= m < self.stack@.len() implies #[trigger] pushed_by(s0, d2, contacts@, joints@, self.stack@[m]) by {
                        let g = self.stack@[m];
                        if m < st_pop.len() {
                            assert(g == st_pop[m]);
                            assert(st_pop[m] == st0[m]);
                            assert(pushed_by(s0, dpre, contacts@, joints@, st0[m]));
                            if !s0.contains(g) {
                                let i = choose|i: int| 0 <= i < dpre.len() && #[trigger] neighbor(contacts@, joints@, dpre[i], g);
                                assert(d2[i] == dpre[i]);
                            }
                        } else {
                            let last = dpre.len() as int;
                            assert(d2[last] == h);
                            if m < st2.len() {
                                assert(st2 == st_pop + contacts@[h.0.index as int]@);
                                assert(g == contacts@[h.0.index as int]@[m - st_pop.len()]);
                                assert(contacts@[h.0.index as int]@.contains(g));
                                assert(listed_neighbor(contacts@, h, g));
                            } else {
                                assert(self.stack@ == st2 + joints@[h.0.index as int]@);
                                assert(g == joints@[h.0.index as int]@[m - st2.len()]);
                                assert(joints@[h.0.index as int]@.contains(g));
                                assert(listed_neighbor(joints@, h, g));
                            }
                            assert(neighbor(contacts@, joints@, d2[last], g));
                        }
                    }
                    }
                    if none_dynamic(b0, kin0) {
                        assert(live_dynamic(b0, h));
                        assert(!kin0.contains(h)) by {
                            if kin0.contains(h) {
                                let i = choose|i: int| 0 <= i < kin0.len() && kin0[i] == h;
                                assert(!live_dynamic(b0, kin0[i]));
                            }
                        }
                    }
                }
            } else {
                proof {
                    assert forall|g: RigidBodyHandle| #[trigger] s0.contains(g) && live_dynamic(self.bodies, g) implies self.stack@.contains(g) || self.active_dynamic_set@.contains(g) by {
                        if g == h {
                            assert(self.active_dynamic_set@[id as int] == h);
                        }
                    }
                    assert forall|k: int, g: RigidBodyHandle|
                        0 <= k < self.active_dynamic_set@.len() && #[trigger] neighbor(contacts@, joints@, self.active_dynamic_set@[k], g)
                            && live_dynamic(self.bodies, g) implies self.active_dynamic_set@.contains(g) || (
                                island_of(self.bodies, self.active_dynamic_set@[k]) == self.active_islands@.len() - 1
                                && pending(self.stack@, island_marker as int, g)) by {
                        if g == h {
                            assert(self.active_dynamic_set@[id as int] == h);
                        } else if !self.active_dynamic_set@.contains(g) {
                            let m = choose|m: int| m0 <= m < st0.len() && st0[m] == g;
                            assert(m < st0.len() - 1);
                            assert(self.stack@[m] == g);
                        }
                    }
                    assert(walk_reach(s0, dpre, self.stack@, contacts@, joints@)) by {
                        reveal(walk_reach);
                        assert forall|m: int| 0 <= m < st_pop.len() implies #[trigger] pushed_by(s0, dpre, contacts@, joints@, st_pop[m]) by {
                            assert(st_pop[m] == st0[m]);
                        }
                    }
                }
            }
        }
        let n = self.active_dynamic_set.len();
        let ghost ipre = self.active_islands@;
        self.active_islands.push(n);
        proof {
            reveal(walk_reach);
            let isl = self.active_islands@;
            assert(isl[0] == 0);
            assert forall|i: int| 0 <= i && i + 2 < isl.len() implies #[trigger] isl[i + 1] - isl[i] >= min_island_size by {
                assert(isl[i] == ipre[i]);
                assert(isl[i + 1] == ipre[i + 1]);
            }
            assert forall|i: int, j: int| 0 <= i < j < isl.len() && n > 0 implies #[trigger] isl[i] < #[trigger] isl[j] by {
                if j == isl.len() - 1 {
                    assert(isl[i] == ipre[i]);
                    if i < ipre.len() - 1 {
                        assert(ipre[i] < ipre[ipre.len() - 1]);
                    }
                } else {
                    assert(isl[i] == ipre[i]);
                    assert(isl[j] == ipre[j]);
                }
            }
            assert forall|k: int| 0 <= k < n implies awake_in_island(
                self.bodies.spec_get((#[trigger] self.active_dynamic_set@[k]).0)->Some_0,
                self.active_islands@,
                k,
                ts,
            ) by {
                let b = self.bodies.spec_get(self.active_dynamic_set@[k].0)->Some_0;
                assert(awake_in_island(b, ipre, k, ts));
                let i = b.active_island_id as int;
                assert(isl[i] == ipre[i]);
                if i + 1 < ipre.len() {
                    assert(isl[i + 1] == ipre[i + 1]);
                }
            }
            assert forall|g: RigidBodyHandle| #[trigger] s0.contains(g) && live_dynamic(b0, g) implies self.active_dynamic_set@.contains(g) by {
                assert(live_dynamic(self.bodies, g));
            }
        }
    }

    /// Puts to sleep the bodies of `can_sleep` that the walk did not wake,
    /// and returns them.
    fn sleep_unvisited(&mut self) -> (asleep: Vec<RigidBodyHandle>)
        requires
            old(self).bodies.wf(),
            list_consistent(old(self).bodies, old(self).active_dynamic_set@),
            list_consistent(old(self).bodies, old(self).active_kinematic_set@),
            forall|k: int| 0 <= k < old(self).active_dynamic_set@.len() ==> !(old(self).bodies.spec_get((#[trigger] old(self).active_dynamic_set@[k]).0)->Some_0.activation.sleeping),
        ensures
            final(self).bodies.wf(),
            list_consistent(final(self).bodies, final(self).active_dynamic_set@),
            list_consistent(final(self).bodies, final(self).active_kinematic_set@),
            forall|h: RigidBodyHandle| #[trigger] asleep@.contains(h) <==> (old(self).can_sleep@.contains(h)
                && (old(self).bodies.spec_get(h.0) is Some && old(self).bodies.spec_get(h.0)->Some_0.activation.sleeping)),
            forall|h: RigidBodyHandle| match (#[trigger] old(self).bodies.spec_get(h.0), final(self).bodies.spec_get(h.0)) {
                (Some(x), Some(y)) => y == (if x.activation.sleeping && old(self).can_sleep@.contains(h) {
                    RigidBody { activation: crate::rigid_body::ActivationStatus { sleeping: true, energy_reset: false }, ..x }
                } else {
                    x
                }),
                (None, None) => true,
                _ => false,
            },
            forall|i: Index| old(self).bodies.is_stale(i) <==> final(self).bodies.is_stale(i),
            final(self).bodies.len_spec() == old(self).bodies.len_spec(),
            final(self).bodies.num_slots() == old(self).bodies.num_slots(),
            final(self).active_dynamic_set == old(self).active_dynamic_set,
            final(self).active_kinematic_set == old(self).active_kinematic_set,
            final(self).active_islands == old(self).active_islands,
            final(self).modified_bodies == old(self).modified_bodies,
            final(self).modified_all_bodies == old(self).modified_all_bodies,
            final(self).modified_inactive_set == old(self).modified_inactive_set,
            final(self).active_set_timestamp == old(self).active_set_timestamp,
            old(self).can_sleep@.len() == 0 ==> final(self).bodies == old(self).bodies && asleep@.len() == 0,
    {
        let ghost b0 = self.bodies;
        let ghost cs = self.can_sleep@;
        let mut asleep: Vec<RigidBodyHandle> = Vec::new();
        let mut k: usize = 0;
        while k < self.can_sleep.len()
            invariant
                k <= cs.len(),
                self.can_sleep@ == cs,
                self.bodies.wf(),
                list_consistent(self.bodies, self.active_dynamic_set@),
                list_consistent(self.bodies, self.active_kinematic_set@),
                self.active_dynamic_set == old(self).active_dynamic_set,
                self.active_kinematic_set == old(self).active_kinematic_set,
                self.active_islands == old(self).active_islands,
                self.modified_bodies == old(self).modified_bodies,
                self.modified_all_bodies == old(self).modified_all_bodies,
                self.modified_inactive_set == old(self).modified_inactive_set,
                self.active_set_timestamp == old(self).active_set_timestamp,
                forall|h: RigidBodyHandle| #[trigger] asleep@.contains(h) <==> (cs.subrange(0, k as int).contains(h)
                    && (b0.spec_get(h.0) is Some && b0.spec_get(h.0)->Some_0.activation.sleeping)),
                forall|h: RigidBodyHandle| match (#[trigger] b0.spec_get(h.0), self.bodies.spec_get(h.0)) {
                    (Some(x), Some(y)) => y == (if x.activation.sleeping && cs.subrange(0, k as int).contains(h) {
                        RigidBody { activation: crate::rigid_body::ActivationStatus { sleeping: true, energy_reset: false }, ..x }
                    } else {
                        x
                    }),
                    (None, None) => true,
                    _ => false,
                },
                forall|i: Index| b0.is_stale(i) <==> self.bodies.is_stale(i),
                self.bodies.len_spec() == b0.len_spec(),
                self.bodies.num_slots() == b0.num_slots(),
                cs.len() == 0 ==> self.bodies == b0 && asleep@.len() == 0,
            decreases cs.len() - k,
        {
            let h = self.can_sleep[k];
            let ghost bpre = self.bodies;
            let ghost a0 = asleep@;
            let ghost done0 = cs.subrange(0, k as int);
            let ghost done1 = cs.subrange(0, k + 1);
            proof {
                assert(done1 =~= done0.push(h));
                assert forall|g: RigidBodyHandle| #[trigger] done1.contains(g) <==> (done0.contains(g) || g == h) by {
                    if done1.contains(g) && g != h {
                        let m = choose|m: int| 0 <= m < done1.len() && done1[m] == g;
                        assert(done0[m] == g);
                    }
                    if done0.contains(g) {
                        let m = choose|m: int| 0 <= m < done0.len() && done0[m] == g;
                        assert(done1[m] == g);
                    }
                    if g == h {
                        assert(done1[k as int] == g);
                    }
                }
            }
            let sleeping = match self.bodies.get(h.0) {
                Some(rb) => rb.activation.sleeping,
                None => false,
            };
            if sleeping {
                match self.bodies.get_mut(h.0) {
                    Some(rb) => {
                        rb.sleep();
                    },
                    None => {},
                }
                proof {
                    lemma_consistent_if_id_kept(bpre, self.active_dynamic_set@, h.0);
                    lemma_consistent_if_id_kept(bpre, self.active_kinematic_set@, h.0);
                }
                asleep.push(h);
            }
            proof {
                assert forall|g: RigidBodyHandle| #[trigger] asleep@.contains(g) <==> (done1.contains(g)
                    && (b0.spec_get(g.0) is Some && b0.spec_get(g.0)->Some_0.activation.sleeping)) by {
                    if sleeping {
                        if asleep@.contains(g) && g != h {
                            let m = choose|m: int| 0 <= m < asleep@.len() && asleep@[m] == g;
                            assert(a0[m] == g);
                        }
                        if a0.contains(g) {
                            let m = choose|m: int| 0 <= m < a0.len() && a0[m] == g;
                            assert(asleep@[m] == g);
                        }
                        if g == h {
                            assert(asleep@[asleep@.len() - 1] == g);
                        }
                    }
                    if g == h {
                        assert(match (b0.spec_get(h.0), bpre.spec_get(h.0)) {
                            (Some(x), Some(y)) => y == (if x.activation.sleeping && done0.contains(h) {
                                RigidBody { activation: crate::rigid_body::ActivationStatus { sleeping: true, energy_reset: false }, ..x }
                            } else {
                                x
                            }),
                            (None, None) => true,
                            _ => false,
                        });
                    }
                }
                assert forall|g: RigidBodyHandle| match (#[trigger] b0.spec_get(g.0), self.bodies.spec_get(g.0)) {
                    (Some(x), Some(y)) => y == (if x.activation.sleeping && done1.contains(g) {
                        RigidBody { activation: crate::rigid_body::ActivationStatus { sleeping: true, energy_reset: false }, ..x }
                    } else {
                        x
                    }),
                    (None, None) => true,
                    _ => false,
                } by {
                    assert(match (b0.spec_get(g.0), bpre.spec_get(g.0)) {
                        (Some(x), Some(y)) => y == (if x.activation.sleeping && done0.contains(g) {
                            RigidBody { activation: crate::rigid_body::ActivationStatus { sleeping: true, energy_reset: false }, ..x }
                        } else {
                            x
                        }),
                        (None, None) => true,
                        _ => false,
                    });
                }
            }
            k = k + 1;
        }
        proof {
            assert(cs.subrange(0, cs.len() as int) =~= cs);
        }
        asleep
    }

    /// The island extraction of a timestep: computes the awake dynamic
    /// bodies, grouped into islands, and puts the others to sleep.
    ///
    /// The inputs are indexed by body slot (`handle.0.index`); a slot beyond
    /// the end of an input counts as an empty list or `false`:
    /// - `contacts[s]`: the bodies in contact with the body of slot `s`
    ///   through a manifold that has solver contacts;
    /// - `joints[s]`: the bodies joined to it;
    /// - `low_energy[s]`: its kinetic energy is at most its sleep threshold;
    /// - `moving[s]`: it is a kinematic body that moves.
    ///
    /// Each awake dynamic body whose energy is above its threshold (or whose
    /// energy accumulator a strong wake-up reset) starts the walk, as does
    /// each body touching a moving kinematic body. The walk follows contacts
    /// and joints through dynamic bodies; every dynamic body it reaches is
    /// awake and appended to the active dynamic set, island by island. The
    /// bodies of the former active dynamic set that it did not reach are put
    /// to sleep and returned: their velocities are to be zeroed.
    pub fn update_active_set_with_contacts(
        &mut self,
        contacts: &Vec<Vec<RigidBodyHandle>>,
        joints: &Vec<Vec<RigidBodyHandle>>,
        low_energy: &Vec<bool>,
        moving: &Vec<bool>,
        min_island_size: usize,
    ) -> (asleep: Vec<RigidBodyHandle>)
        requires
            old(self).wf(),
            min_island_size > 0,
        ensures
            final(self).wf(),
            final(self).timestamp() == if old(self).timestamp() == u32::MAX {
                0
            } else {
                (old(self).timestamp() + 1) as u32
            },
            island_partition(final(self).islands(), final(self).active_dynamic().len()),
            forall|k: int| 0 <= k < final(self).active_dynamic().len() ==> awake_in_island(
                final(self).body(#[trigger] final(self).active_dynamic()[k])->Some_0,
                final(self).islands(),
                k,
                final(self).timestamp(),
            ),
            forall|h: RigidBodyHandle| #[trigger] old(self).active_dynamic().contains(h) && live_dynamic(old(self).arena(), h)
                && !may_sleep(old(self).body(h)->Some_0, low_energy@, h) ==> final(self).active_dynamic().contains(h),
            forall|k: int, g: RigidBodyHandle|
                0 <= k < old(self).active_kinematic().len() && flag_at(moving@, #[trigger] old(self).active_kinematic()[k])
                    && #[trigger] listed_neighbor(contacts@, old(self).active_kinematic()[k], g) && live_dynamic(old(self).arena(), g)
                    ==> final(self).active_dynamic().contains(g),
            forall|k: int, g: RigidBodyHandle|
                0 <= k < final(self).active_dynamic().len() && #[trigger] neighbor(contacts@, joints@, final(self).active_dynamic()[k], g)
                    && live_dynamic(old(self).arena(), g) ==> final(self).active_dynamic().contains(g),
            symmetric(contacts@, joints@) ==> forall|j: int, k: int|
                0 <= j < final(self).active_dynamic().len() && 0 <= k < final(self).active_dynamic().len()
                    && #[trigger] neighbor(contacts@, joints@, final(self).active_dynamic()[j], final(self).active_dynamic()[k])
                    ==> island_of(final(self).arena(), final(self).active_dynamic()[j]) == island_of(final(self).arena(), final(self).active_dynamic()[k]),
            forall|h: RigidBodyHandle| #[trigger] asleep@.contains(h) <==> (old(self).active_dynamic().contains(h)
                && may_sleep(old(self).body(h)->Some_0, low_energy@, h) && !final(self).active_dynamic().contains(h)),
            forall|h: RigidBodyHandle| #[trigger] asleep@.contains(h) ==> (final(self).body(h) is Some && final(self).body(h)->Some_0.activation.sleeping),
            forall|h: RigidBodyHandle| match (#[trigger] old(self).body(h), final(self).body(h)) {
                (Some(x), Some(y)) => same_core(x, y),
                (None, None) => true,
                _ => false,
            },
            forall|h: RigidBodyHandle| !old(self).active_dynamic().contains(h) && !final(self).active_dynamic().contains(h)
                ==> same_state(#[trigger] old(self).body(h), final(self).body(h)),
            forall|g: RigidBodyHandle| #[trigger] final(self).active_kinematic().contains(g) ==> old(self).active_kinematic().contains(g),
            forall|h: RigidBodyHandle| old(self).is_stale(h) <==> final(self).is_stale(h),
            final(self).len_spec() == old(self).len_spec(),
            final(self).num_slots() == old(self).num_slots(),
            final(self).modified() == old(self).modified(),
            final(self).modified_all() == old(self).modified_all(),
            final(self).modified_inactive() == old(self).modified_inactive(),
            forall|k: int| 0 <= k < final(self).active_dynamic().len() ==> (step_seed(*old(self), contacts@, low_energy@, moving@, #[trigger] final(self).active_dynamic()[k])
                || exists|i: int| 0 <= i < k && #[trigger] neighbor(contacts@, joints@, final(self).active_dynamic()[i], final(self).active_dynamic()[k])),
            closed_islands_at_least(final(self).islands(), min_island_size),
            none_dynamic(old(self).arena(), old(self).active_kinematic()) ==> final(self).active_kinematic() == old(self).active_kinematic(),
            quiescent(old(self).active_dynamic(), old(self).active_kinematic(), contacts@, moving@) ==> {
                &&& forall|h: RigidBodyHandle| #[trigger] final(self).body(h) == old(self).body(h)
                &&& final(self).active_dynamic().len() == 0
                &&& final(self).active_kinematic() == old(self).active_kinematic()
                &&& final(self).islands() == seq![0usize, 0usize]
                &&& asleep@.len() == 0
            },
    {
        let ts = if self.active_set_timestamp == u32::MAX {
            0
        } else {
            self.active_set_timestamp + 1
        };
        self.active_set_timestamp = ts;
        let ghost s0 = *self;
        self.drain_active_dynamic(low_energy);
        let ghost s1 = *self;
        self.push_kinematic_contacts(contacts, moving);
        let ghost s2 = *self;
        proof {
            assert(s2.bodies.wf());
            assert forall|g: RigidBodyHandle| live_dynamic(s2.bodies, g) <==> live_dynamic(s0.bodies, g) by {
                if s0.active_dynamic_set@.contains(g) {
                } else {
                    assert(s1.body(g) == s0.body(g));
                }
            }
        }
        self.walk_islands(contacts, joints, min_island_size, ts);
        let ghost s3 = *self;
        proof {
            assert forall|g: RigidBodyHandle| live_dynamic(s3.bodies, g) <==> live_dynamic(s0.bodies, g) by {
                assert(live_dynamic(s2.bodies, g) <==> live_dynamic(s0.bodies, g));
                assert(match (s2.bodies.spec_get(g.0), s3.bodies.spec_get(g.0)) {
                    (Some(x), Some(y)) => same_core(x, y),
                    (None, None) => true,
                    _ => false,
                });
            }
        }
        let asleep = self.sleep_unvisited();
        proof {
            lemma_disjoint_by_index(self.active_dynamic_set@, self.active_kinematic_set@);
            assert forall|g: RigidBodyHandle| live_dynamic(self.bodies, g) <==> live_dynamic(s0.bodies, g) by {
                assert(live_dynamic(s3.bodies, g) <==> live_dynamic(s0.bodies, g));
                assert(match (s3.bodies.spec_get(g.0), self.bodies.spec_get(g.0)) {
                    (Some(x), Some(y)) => same_core(x, y),
                    (None, None) => true,
                    _ => false,
                });
            }
            assert forall|k: int| 0 <= k < self.active_dynamic_set@.len() implies awake_in_island(
                self.body(#[trigger] self.active_dynamic_set@[k])->Some_0,
                self.active_islands@,
                k,
                ts,
            ) by {
                let g = self.active_dynamic_set@[k];
                assert(awake_in_island(s3.bodies.spec_get(g.0)->Some_0, s3.active_islands@, k, ts));
                assert(s3.bodies.spec_get(g.0) is Some);
            }
            assert forall|h: RigidBodyHandle| #[trigger] old(self).active_dynamic().contains(h) && live_dynamic(old(self).arena(), h)
                && !may_sleep(old(self).body(h)->Some_0, low_energy@, h) implies self.active_dynamic().contains(h) by {
                assert(s1.stack@.contains(h));
                assert(s2.stack@.contains(h));
                assert(live_dynamic(s2.bodies, h));
            }
            assert forall|k: int, g: RigidBodyHandle|
                0 <= k < old(self).active_kinematic().len() && flag_at(moving@, #[trigger] old(self).active_kinematic()[k])
                    && #[trigger] listed_neighbor(contacts@, old(self).active_kinematic()[k], g) && live_dynamic(old(self).arena(), g)
                    implies self.active_dynamic().contains(g) by {
                assert(s2.stack@.contains(g));
                assert(live_dynamic(s2.bodies, g));
            }
            assert forall|k: int, g: RigidBodyHandle|
                0 <= k < self.active_dynamic().len() && #[trigger] neighbor(contacts@, joints@, self.active_dynamic()[k], g)
                    && live_dynamic(old(self).arena(), g) implies self.active_dynamic().contains(g) by {
                assert(live_dynamic(s3.bodies, g));
            }
            if symmetric(contacts@, joints@) {
                assert forall|j: int, k: int|
                    0 <= j < self.active_dynamic().len() && 0 <= k < self.active_dynamic().len()
                        && #[trigger] neighbor(contacts@, joints@, self.active_dynamic()[j], self.active_dynamic()[k])
                        implies island_of(self.arena(), self.active_dynamic()[j]) == island_of(self.arena(), self.active_dynamic()[k]) by {
                    let a = self.active_dynamic_set@[j];
                    let b = self.active_dynamic_set@[k];
                    assert(awake_in_island(s3.bodies.spec_get(a.0)->Some_0, s3.active_islands@, j, ts));
                    assert(awake_in_island(s3.bodies.spec_get(b.0)->Some_0, s3.active_islands@, k, ts));
                    assert(s3.bodies.spec_get(a.0) is Some);
                    assert(s3.bodies.spec_get(b.0) is Some);
                    assert(neighbor(contacts@, joints@, s3.active_dynamic_set@[j], s3.active_dynamic_set@[k]));
                }
            }
            assert forall|h: RigidBodyHandle| #[trigger] asleep@.contains(h) <==> (old(self).active_dynamic().contains(h)
                && may_sleep(old(self).body(h)->Some_0, low_energy@, h) && !self.active_dynamic().contains(h)) by {
                if old(self).active_dynamic().contains(h) && may_sleep(old(self).body(h)->Some_0, low_energy@, h) {
                    assert(s0.active_dynamic_set@ == old(self).active_dynamic_set@);
                    assert(s0.active_dynamic_set@.contains(h));
                    assert(s0.body(h) == old(self).body(h));
                    assert(s1.can_sleep@.contains(h));
                    assert(s1.body(h) == Some(sleep_tested(old(self).body(h)->Some_0, low_energy@, h)));
                    if self.active_dynamic().contains(h) {
                        let k = choose|k: int| 0 <= k < self.active_dynamic_set@.len() && self.active_dynamic_set@[k] == h;
                        assert(awake_in_island(s3.bodies.spec_get(self.active_dynamic_set@[k].0)->Some_0, s3.active_islands@, k, ts));
                    } else {
                        assert(match (s2.bodies.spec_get(h.0), s3.bodies.spec_get(h.0)) {
                            (Some(x), Some(y)) => same_except_set_id(x, y),
                            (None, None) => true,
                            _ => false,
                        });
                    }
                }
            }
            assert forall|h: RigidBodyHandle| #[trigger] asleep@.contains(h) implies (self.body(h) is Some && self.body(h)->Some_0.activation.sleeping) by {
                assert(s3.can_sleep@.contains(h));
            }
            assert forall|h: RigidBodyHandle| match (#[trigger] old(self).body(h), self.body(h)) {
                (Some(x), Some(y)) => same_core(x, y),
                (None, None) => true,
                _ => false,
            } by {
                if old(self).active_dynamic().contains(h) {
                    assert(s1.body(h) == Some(sleep_tested(old(self).body(h)->Some_0, low_energy@, h)));
                } else {
                    assert(s1.body(h) == s0.body(h));
                }
                assert(match (s2.bodies.spec_get(h.0), s3.bodies.spec_get(h.0)) {
                    (Some(x), Some(y)) => same_core(x, y),
                    (None, None) => true,
                    _ => false,
                });
                assert(match (s3.bodies.spec_get(h.0), self.bodies.spec_get(h.0)) {
                    (Some(x), Some(y)) => same_core(x, y),
                    (None, None) => true,
                    _ => false,
                });
            }
            if quiescent(old(self).active_dynamic(), old(self).active_kinematic(), contacts@, moving@) {
                assert(s1.stack@.len() == 0) by {
                    if s1.stack@.len() > 0 {
                        assert(s1.stack@.contains(s1.stack@[0]));
                    }
                }
                assert(s2.stack@.len() == 0) by {
                    if s2.stack@.len() > 0 {
                        let g = s2.stack@[0];
                        assert(s2.stack@.contains(g));
                        let k = choose|k: int| 0 <= k < s1.active_kinematic_set@.len()
                            && flag_at(moving@, #[trigger] s1.active_kinematic_set@[k])
                            && listed_neighbor(contacts@, s1.active_kinematic_set@[k], g);
                        assert(s1.active_kinematic_set@[k] == old(self).active_kinematic_set@[k]);
                    }
                }
                assert(s1.can_sleep@.len() == 0) by {
                    if s1.can_sleep@.len() > 0 {
                        assert(s1.can_sleep@.contains(s1.can_sleep@[0]));
                    }
                }
                assert forall|h: RigidBodyHandle| #[trigger] self.body(h) == old(self).body(h) by {
                    assert(s1.body(h) == s0.body(h));
                }
                let isl = self.active_islands@;
                assert(isl =~= seq![0usize, 0usize]);
            }
            assert forall|k: int| 0 <= k < self.active_dynamic().len() implies (step_seed(*old(self), contacts@, low_energy@, moving@, #[trigger] self.active_dynamic()[k])
                || exists|i: int| 0 <= i < k && #[trigger] neighbor(contacts@, joints@, self.active_dynamic()[i], self.active_dynamic()[k])) by {
                let x = self.active_dynamic_set@[k];
                assert(reached_from(s2.stack@, s3.active_dynamic_set@, contacts@, joints@, k));
                if s2.stack@.contains(x) {
                    if s1.stack@.contains(x) {
                        assert(s0.active_dynamic_set@ == old(self).active_dynamic_set@);
                        assert(s0.body(x) == old(self).body(x));
                    } else {
                        let i = choose|i: int| 0 <= i < s1.active_kinematic_set@.len()
                            && flag_at(moving@, #[trigger] s1.active_kinematic_set@[i])
                            && listed_neighbor(contacts@, s1.active_kinematic_set@[i], x);
                        assert(s1.active_kinematic_set@[i] == old(self).active_kinematic_set@[i]);
                    }
                }
            }
            if none_dynamic(old(self).arena(), old(self).active_kinematic()) {
                assert forall|k: int| 0 <= k < s2.active_kinematic_set@.len() implies !live_dynamic(s2.bodies, #[trigger] s2.active_kinematic_set@[k]) by {
                    let x = s2.active_kinematic_set@[k];
                    assert(x == old(self).active_kinematic_set@[k]);
                    assert(!live_dynamic(old(self).bodies, x));
                    assert(live_dynamic(s2.bodies, x) <==> live_dynamic(s0.bodies, x));
                }
            }
            assert forall|h: RigidBodyHandle| old(self).is_stale(h) <==> self.is_stale(h) by {
                assert(s0.is_stale(h) <==> s1.is_stale(h));
                assert(s2.bodies.is_stale(h.0) <==> s3.bodies.is_stale(h.0));
                assert(s3.bodies.is_stale(h.0) <==> self.bodies.is_stale(h.0));
            }
            assert forall|h: RigidBodyHandle| !old(self).active_dynamic().contains(h) && !self.active_dynamic().contains(h)
                implies same_state(#[trigger] old(self).body(h), self.body(h)) by {
                assert(s1.body(h) == s0.body(h));
                assert(!s1.can_sleep@.contains(h));
                assert(match (s2.bodies.spec_get(h.0), s3.bodies.spec_get(h.0)) {
                    (Some(x), Some(y)) => same_except_set_id(x, y),
                    (None, None) => true,
                    _ => false,
                });
            }
        }
        asleep
    }

    /// Reconciles the active sets with the changes recorded in the body of
    /// `handle`, then clears those changes. A body whose pose or colliders
    /// changed is appended to `updated`; a static one also to the set of
    /// modified inactive bodies.
    fn maintain_one(&mut self, handle: RigidBodyHandle, updated: &mut Vec<RigidBodyHandle>)
        requires
            old(self).wf(),
        ensures
            final(self).wf(),
            match old(self).body(handle) {
                Some(b) => {
                    &&& final(self).body(handle) matches Some(nb) && nb.changes.bits == 0
                        && nb.body_status == b.body_status && nb.colliders == b.colliders
                        && nb.joint_graph_index == b.joint_graph_index
                        && (if b.body_status == BodyStatus::Dynamic && has_bits(b.changes.bits, CHANGE_BODY_STATUS) {
                            !nb.activation.sleeping && nb.activation.energy_reset
                        } else {
                            nb.activation == b.activation
                        })
                    &&& maintained(b, handle, final(self).active_dynamic(), final(self).active_kinematic())
                    &&& final(updated)@ == if needs_collider_update(b) {
                        old(updated)@.push(handle)
                    } else {
                        old(updated)@
                    }
                    &&& final(self).modified_inactive() == if needs_collider_update(b) && b.body_status == BodyStatus::Static {
                        old(self).modified_inactive().push(handle)
                    } else {
                        old(self).modified_inactive()
                    }
                },
                None => {
                    &&& *final(self) == *old(self)
                    &&& final(updated)@ == old(updated)@
                },
            },
            forall|g: RigidBodyHandle| g != handle ==> (#[trigger] final(self).active_dynamic().contains(g) <==> old(self).active_dynamic().contains(g)),
            forall|g: RigidBodyHandle| g != handle ==> (#[trigger] final(self).active_kinematic().contains(g) <==> old(self).active_kinematic().contains(g)),
            forall|g: RigidBodyHandle| g.0 != handle.0 ==> match (#[trigger] old(self).body(g), final(self).body(g)) {
                (Some(x), Some(y)) => same_except_set_id(x, y),
                (None, None) => true,
                _ => false,
            },
            forall|g: RigidBodyHandle| old(self).is_stale(g) <==> final(self).is_stale(g),
            final(self).len_spec() == old(self).len_spec(),
            final(self).num_slots() == old(self).num_slots(),
            final(self).modified() == old(self).modified(),
            final(self).modified_all() == old(self).modified_all(),
            (old(self).body(handle) matches Some(b) && b.changes.bits == 0) ==> {
                &&& final(self).active_dynamic() == old(self).active_dynamic()
                &&& final(self).active_kinematic() == old(self).active_kinematic()
                &&& final(self).body(handle) == old(self).body(handle)
                &&& final(updated)@ == old(updated)@
            },
    {
        let (status, changes, was_sleeping) = match self.bodies.get(handle.0) {
            Some(rb) => (rb.body_status, rb.changes, rb.activation.sleeping),
            None => {
                return;
            },
        };
        let ghost b0 = self.bodies.spec_get(handle.0)->Some_0;
        let ghost dyn0 = self.active_dynamic_set@;
        let ghost kin0 = self.active_kinematic_set@;
        proof {
            lemma_disjoint_by_index(dyn0, kin0);
        }
        proof {
            assert(0u32 & 16u32 == 0u32 && 0u32 & 2u32 == 0u32 && 0u32 & 8u32 == 0u32 && 0u32 & 4u32 == 0u32) by (bit_vector);
        }
        let status_changed = changes.contains(CHANGE_BODY_STATUS);
        let pose_changed = changes.contains(CHANGE_POSITION) || changes.contains(CHANGE_COLLIDERS);
        let mut sleeping = was_sleeping;
        let mut sleep_changed = changes.contains(CHANGE_SLEEP);
        if status_changed {
            match status {
                BodyStatus::Dynamic => {
                    match self.bodies.get_mut(handle.0) {
                        Some(rb) => {
                            rb.wake_up(true);
                        },
                        None => {},
                    }
                    proof {
                        lemma_consistent_if_id_kept(old(self).bodies, dyn0, handle.0);
                        lemma_consistent_if_id_kept(old(self).bodies, kin0, handle.0);
                    }
                    sleeping = false;
                    sleep_changed = true;
                },
                BodyStatus::Kinematic => {
                    Self::move_to_list(
                        &mut self.bodies,
                        &mut self.active_dynamic_set,
                        &mut self.active_kinematic_set,
                        handle,
                    );
                },
                BodyStatus::Static => {
                    let id = match self.bodies.get(handle.0) {
                        Some(rb) => rb.active_set_id,
                        None => 0,
                    };
                    let ghost b1 = self.bodies;
                    Self::remove_from_active_list(&mut self.bodies, &mut self.active_dynamic_set, handle, id);
                    proof {
                        lemma_untouched_list_consistent(b1, self.bodies, dyn0, kin0);
                    }
                    let ghost b2 = self.bodies;
                    let ghost dyn2 = self.active_dynamic_set@;
                    Self::remove_from_active_list(&mut self.bodies, &mut self.active_kinematic_set, handle, id);
                    proof {
                        assert forall|j: int, k: int| 0 <= j < dyn2.len() && 0 <= k < kin0.len() implies #[trigger] dyn2[j] != #[trigger] kin0[k] by {
                            assert(dyn2.contains(dyn2[j]));
                            assert(kin0.contains(kin0[k]));
                        }
                        lemma_untouched_list_consistent(b2, self.bodies, kin0, dyn2);
                    }
                },
            }
        }
        proof {
            lemma_disjoint_by_index(self.active_dynamic_set@, self.active_kinematic_set@);
        }
        if pose_changed {
            updated.push(handle);
            if matches!(status, BodyStatus::Static) {
                self.modified_inactive_set.push(handle);
            }
            if matches!(status, BodyStatus::Kinematic) {
                Self::move_to_list(
                    &mut self.bodies,
                    &mut self.active_dynamic_set,
                    &mut self.active_kinematic_set,
                    handle,
                );
            }
        }
        if sleep_changed && !sleeping && matches!(status, BodyStatus::Dynamic) {
            Self::move_to_list(
                &mut self.bodies,
                &mut self.active_kinematic_set,
                &mut self.active_dynamic_set,
                handle,
            );
        }
        let ghost b3 = self.bodies;
        proof {
            lemma_disjoint_by_index(self.active_dynamic_set@, self.active_kinematic_set@);
            assert(b3.spec_get(handle.0) is Some);
        }
        match self.bodies.get_mut(handle.0) {
            Some(rb) => {
                rb.changes = RigidBodyChanges::empty();
            },
            None => {},
        }
        proof {
            lemma_consistent_if_id_kept(b3, self.active_dynamic_set@, handle.0);
            lemma_consistent_if_id_kept(b3, self.active_kinematic_set@, handle.0);
        }
    }

    /// Moves `h` out of `from` and into `to`, unless it is there already.
    fn move_to_list(
        bodies: &mut Arena<RigidBody>,
        from: &mut Vec<RigidBodyHandle>,
        to: &mut Vec<RigidBodyHandle>,
        h: RigidBodyHandle,
    )
        requires
            old(bodies).wf(),
            list_consistent(*old(bodies), old(from)@),
            list_consistent(*old(bodies), old(to)@),
            disjoint(old(from)@, old(to)@),
            old(bodies).spec_get(h.0) is Some,
        ensures
            final(bodies).wf(),
            list_consistent(*final(bodies), final(from)@),
            list_consistent(*final(bodies), final(to)@),
            disjoint(final(from)@, final(to)@),
            forall|g: RigidBodyHandle| #[trigger] final(from)@.contains(g) <==> (old(from)@.contains(g) && g != h),
            forall|g: RigidBodyHandle| #[trigger] final(to)@.contains(g) <==> (old(to)@.contains(g) || g == h),
            agree_except_ids(*old(bodies), *final(bodies)),
            forall|i: Index|
                i != h.0 && !old(from)@.contains(RigidBodyHandle(i)) ==> final(bodies).spec_get(i)
                    == old(bodies).spec_get(i),
            forall|i: Index| old(bodies).is_stale(i) <==> final(bodies).is_stale(i),
            final(bodies).len_spec() == old(bodies).len_spec(),
            final(bodies).num_slots() == old(bodies).num_slots(),
    {
        let ghost b0 = *bodies;
        let ghost from0 = from@;
        let ghost to0 = to@;
        let id = match bodies.get(h.0) {
            Some(rb) => rb.active_set_id,
            None => 0,
        };
        proof {
            lemma_disjoint_by_index(from0, to0);
        }
        Self::remove_from_active_list(bodies, from, h, id);
        let ghost b1 = *bodies;
        let ghost from1 = from@;
        proof {
            lemma_untouched_list_consistent(b0, b1, from0, to0);
        }
        if !(id < to.len() && to[id] == h) {
            proof {
                if to0.contains(h) {
                    lemma_consistent_position(b1, to0, h);
                }
            }
            Self::push_to_active_list(bodies, to, h);
            proof {
                assert forall|i: Index| !seq![h].contains(RigidBodyHandle(i)) implies bodies.spec_get(i) == b1.spec_get(i) by {
                    if i == h.0 {
                        assert(seq![h][0] == RigidBodyHandle(i));
                    }
                }
                assert forall|j: int, k: int| 0 <= j < from1.len() && 0 <= k < 1 implies #[trigger] from1[j] != #[trigger] seq![h][k] by {
                    assert(seq![h][k] == h);
                    assert(from1.contains(from1[j]));
                }
                lemma_untouched_list_consistent(b1, *bodies, seq![h], from1);
            }
        }
        proof {
            assert forall|g: RigidBodyHandle| #[trigger] from@.contains(g) implies !to@.contains(g) by {
                assert(from0.contains(g));
            }
        }
    }

    /// Appends `h` to `list` and records its position in its body.
    fn push_to_active_list(
        bodies: &mut Arena<RigidBody>,
        list: &mut Vec<RigidBodyHandle>,
        h: RigidBodyHandle,
    )
        requires
            old(bodies).wf(),
            list_consistent(*old(bodies), old(list)@),
            old(bodies).spec_get(h.0) is Some,
            !old(list)@.contains(h),
        ensures
            final(bodies).wf(),
            list_consistent(*final(bodies), final(list)@),
            final(list)@ == old(list)@.push(h),
            forall|g: RigidBodyHandle| #[trigger] final(list)@.contains(g) <==> (old(list)@.contains(g) || g == h),
            agree_except_ids(*old(bodies), *final(bodies)),
            forall|i: Index| i != h.0 ==> final(bodies).spec_get(i) == old(bodies).spec_get(i),
            final(bodies).spec_get(h.0) matches Some(b) && b.active_set_id == old(list)@.len(),
            forall|i: Index| old(bodies).is_stale(i) <==> final(bodies).is_stale(i),
            final(bodies).len_spec() == old(bodies).len_spec(),
            final(bodies).num_slots() == old(bodies).num_slots(),
    {
        let n = list.len();
        match bodies.get_mut(h.0) {
            Some(rb) => {
                rb.active_set_id = n;
            },
            None => {},
        }
        let ghost old_list = list@;
        list.push(h);
        proof {
            assert forall|k: int| 0 <= k < list@.len() implies match bodies.spec_get((#[trigger] list@[k]).0) {
                Some(b) => b.active_set_id == k,
                None => false,
            } by {
                if k < n {
                    assert(list@[k] == old_list[k]);
                    assert(list@[k] != h);
                }
            }
            assert forall|g: RigidBodyHandle| #[trigger] list@.contains(g) <==> (old_list.contains(g) || g == h) by {
                if list@.contains(g) && g != h {
                    let k = choose|k: int| 0 <= k < list@.len() && list@[k] == g;
                    assert(old_list[k] == g);
                }
                if old_list.contains(g) {
                    let k = choose|k: int| 0 <= k < old_list.len() && old_list[k] == g;
                    assert(list@[k] == g);
                }
                if g == h {
                    assert(list@[n as int] == g);
                }
            }
        }
    }
}

impl RigidBodySet {
    /// The number of islands found by the last island extraction (0 before
    /// the first one).
    pub fn num_islands(&self) -> (r: usize)
        ensures
            r == if self.islands().len() == 0 {
                0
            } else {
                self.islands().len() - 1
            },
    {
        if self.active_islands.len() == 0 {
            0
        } else {
            self.active_islands.len() - 1
        }
    }

    /// The range of positions in the active dynamic set held by island
    /// `island_id`, as (start, end).
    pub fn active_island_range(&self, island_id: usize) -> (r: (usize, usize))
        requires
            island_id + 1 < self.islands().len(),
        ensures
            r == (self.islands()[island_id as int], self.islands()[island_id + 1]),
    {
        let n = self.active_islands.len();
        assert(island_id < n);
        (self.active_islands[island_id], self.active_islands[island_id + 1])
    }

    /// The handles of the bodies of island `island_id`; none when there is
    /// no such island, or when bodies were removed from the active dynamic
    /// set since the island extraction so that the island's range runs past
    /// its end.
    pub fn active_island(&self, island_id: usize) -> (r: Vec<RigidBodyHandle>)
        ensures
            (island_id + 1 < self.islands().len() && self.islands()[island_id as int] <= self.islands()[island_id + 1]
                && self.islands()[island_id + 1] <= self.active_dynamic().len()) ==> r@ == self.active_dynamic().subrange(
                self.islands()[island_id as int] as int,
                self.islands()[island_id + 1] as int,
            ),
            !(island_id + 1 < self.islands().len() && self.islands()[island_id as int] <= self.islands()[island_id + 1]
                && self.islands()[island_id + 1] <= self.active_dynamic().len()) ==> r@.len() == 0,
    {
        let n = self.active_islands.len();
        if !(island_id < n && island_id + 1 < n) {
            return Vec::new();
        }
        let start = self.active_islands[island_id];
        let end = self.active_islands[island_id + 1];
        if !(start <= end && end <= self.active_dynamic_set.len()) {
            return Vec::new();
        }
        let mut r: Vec<RigidBodyHandle> = Vec::new();
        let mut k = start;
        while k < end
            invariant
                start <= k <= end,
                end <= self.active_dynamic_set@.len(),
                r@ == self.active_dynamic_set@.subrange(start as int, k as int),
            decreases end - k,
        {
            r.push(self.active_dynamic_set[k]);
            proof {
                assert(self.active_dynamic_set@.subrange(start as int, k + 1) =~= self.active_dynamic_set@.subrange(start as int, k as int).push(self.active_dynamic_set@[k as int]));
            }
            k = k + 1;
        }
        r
    }
}

/// The body reached by a handle is the value its index reaches in the
/// set's storage.
pub proof fn lemma_body_in_arena(s: RigidBodySet, h: RigidBodyHandle)
    ensures
        s.body(h) == s.arena().spec_get(h.0),
        live_dynamic(s.arena(), h) <==> (s.body(h) is Some && s.body(h)->Some_0.body_status == BodyStatus::Dynamic),
        s.body(h) is Some ==> island_of(s.arena(), h) == s.body(h)->Some_0.active_island_id,
{
}

/// Active-set consistency: in a sound set, the body at position `k` of the
/// active dynamic set, or of the active kinematic set, has `active_set_id`
/// equal to `k`, and no body is in both sets. Every public operation that
/// changes a set keeps it sound.
pub proof fn lemma_active_set_consistency(s: RigidBodySet)
    requires
        s.wf(),
    ensures
        forall|k: int| 0 <= k < s.active_dynamic().len() ==> (s.body(#[trigger] s.active_dynamic()[k]) is Some
            && s.body(s.active_dynamic()[k])->Some_0.active_set_id == k),
        forall|k: int| 0 <= k < s.active_kinematic().len() ==> (s.body(#[trigger] s.active_kinematic()[k]) is Some
            && s.body(s.active_kinematic()[k])->Some_0.active_set_id == k),
        disjoint(s.active_dynamic(), s.active_kinematic()),
{
    assert forall|k: int| 0 <= k < s.active_dynamic().len() implies (s.body(#[trigger] s.active_dynamic()[k]) is Some
        && s.body(s.active_dynamic()[k])->Some_0.active_set_id == k) by {
        assert(s.bodies.spec_get(s.active_dynamic_set@[k].0) is Some);
    }
    assert forall|k: int| 0 <= k < s.active_kinematic().len() implies (s.body(#[trigger] s.active_kinematic()[k]) is Some
        && s.body(s.active_kinematic()[k])->Some_0.active_set_id == k) by {
        assert(s.bodies.spec_get(s.active_kinematic_set@[k].0) is Some);
    }
    lemma_disjoint_by_index(s.active_dynamic_set@, s.active_kinematic_set@);
}

/// Handle stability under the ABA problem: once the body of a handle has
/// been removed (`remove` makes the handle stale), the handle reaches no
/// body again, whatever is inserted afterwards (`insert` keeps every stale
/// handle stale and returns a handle that was not stale), and the new handle
/// differs from it.
pub proof fn lemma_removed_handle_stays_dead(
    after_remove: RigidBodySet,
    after_insert: RigidBodySet,
    first: RigidBodyHandle,
    second: RigidBodyHandle,
)
    requires
        after_remove.is_stale(first),
        forall|h: RigidBodyHandle| after_remove.is_stale(h) ==> after_insert.is_stale(h),
        after_insert.body(second) is Some,
    ensures
        after_insert.body(first) is None,
        first != second,
{
    after_insert.bodies.lemma_stale_not_contained(first.0);
}

/// Wake propagation: when the awake dynamic body `a` passes the sleep test
/// and touches `b`, which touches `c` (through contacts or joints), the island
/// extraction leaves `b` and `c` awake, in the active dynamic set, and, when
/// contacts and joints go both ways, in the island of `a`.
/// `before` and `after` are the set before and after the extraction, whose
/// contract gives the premises on the active dynamic set.
pub proof fn lemma_wake_propagation(
    before: RigidBodySet,
    after: RigidBodySet,
    contacts: Seq<Vec<RigidBodyHandle>>,
    joints: Seq<Vec<RigidBodyHandle>>,
    low_energy: Seq<bool>,
    a: RigidBodyHandle,
    b: RigidBodyHandle,
    c: RigidBodyHandle,
)
    requires
        forall|h: RigidBodyHandle| #[trigger] before.active_dynamic().contains(h) && live_dynamic(before.arena(), h)
            && !may_sleep(before.body(h)->Some_0, low_energy, h) ==> after.active_dynamic().contains(h),
        forall|k: int, g: RigidBodyHandle|
            0 <= k < after.active_dynamic().len() && #[trigger] neighbor(contacts, joints, after.active_dynamic()[k], g)
                && live_dynamic(before.arena(), g) ==> after.active_dynamic().contains(g),
        forall|k: int| 0 <= k < after.active_dynamic().len() ==> awake_in_island(
            after.body(#[trigger] after.active_dynamic()[k])->Some_0,
            after.islands(),
            k,
            after.timestamp(),
        ),
        before.active_dynamic().contains(a),
        live_dynamic(before.arena(), a),
        !may_sleep(before.body(a)->Some_0, low_energy, a),
        neighbor(contacts, joints, a, b),
        neighbor(contacts, joints, b, c),
        live_dynamic(before.arena(), b),
        live_dynamic(before.arena(), c),
        symmetric(contacts, joints) ==> forall|j: int, k: int|
            0 <= j < after.active_dynamic().len() && 0 <= k < after.active_dynamic().len()
                && #[trigger] neighbor(contacts, joints, after.active_dynamic()[j], after.active_dynamic()[k])
                ==> island_of(after.arena(), after.active_dynamic()[j]) == island_of(after.arena(), after.active_dynamic()[k]),
    ensures
        after.active_dynamic().contains(b),
        after.active_dynamic().contains(c),
        !after.body(b)->Some_0.activation.sleeping,
        !after.body(c)->Some_0.activation.sleeping,
        symmetric(contacts, joints) ==> island_of(after.arena(), a) == island_of(after.arena(), b)
            && island_of(after.arena(), b) == island_of(after.arena(), c),
{
    assert(after.active_dynamic().contains(a));
    let ka = choose|k: int| 0 <= k < after.active_dynamic().len() && after.active_dynamic()[k] == a;
    assert(neighbor(contacts, joints, after.active_dynamic()[ka], b));
    let kb = choose|k: int| 0 <= k < after.active_dynamic().len() && after.active_dynamic()[k] == b;
    assert(neighbor(contacts, joints, after.active_dynamic()[kb], c));
    let kc = choose|k: int| 0 <= k < after.active_dynamic().len() && after.active_dynamic()[k] == c;
    assert(awake_in_island(after.body(after.active_dynamic()[kb])->Some_0, after.islands(), kb, after.timestamp()));
    assert(awake_in_island(after.body(after.active_dynamic()[kc])->Some_0, after.islands(), kc, after.timestamp()));
    if symmetric(contacts, joints) {
        assert(neighbor(contacts, joints, after.active_dynamic()[ka], after.active_dynamic()[kb]));
        assert(neighbor(contacts, joints, after.active_dynamic()[kb], after.active_dynamic()[kc]));
    }
}


/// Coalescing: when fewer bodies are awake than `min_island_size`, the
/// extraction makes a single island holding all of them.
pub proof fn lemma_few_bodies_one_island(islands: Seq<usize>, n: nat, min_island_size: usize)
    requires
        island_partition(islands, n),
        closed_islands_at_least(islands, min_island_size),
        n < min_island_size,
    ensures
        islands.len() == 2,
        islands[0] == 0,
        islands[1] == n,
{
    if islands.len() > 2 {
        let i = 0int;
        assert(islands[i + 1] - islands[i] >= min_island_size);
        if n > 0 {
            assert(islands[1] < islands[islands.len() - 1]);
        }
    }
}

/// Island partition: the islands of an extraction are disjoint and cover
/// the active dynamic set. Each position `k` of the set lies in exactly one
/// island `i`, the one with `islands[i] <= k < islands[i + 1]`.
pub proof fn lemma_islands_partition_active_set(islands: Seq<usize>, n: nat, k: int, i: int, j: int)
    requires
        island_partition(islands, n),
        0 <= k < n,
        0 <= i < islands.len() - 1,
        0 <= j < islands.len() - 1,
        islands[i] <= k < islands[i + 1],
        islands[j] <= k < islands[j + 1],
    ensures
        i == j,
        exists|m: int| 0 <= m < islands.len() - 1 && islands[m] <= k < #[trigger] islands[m + 1],
{
    if i < j {
        if i + 1 < j {
            assert(islands[i + 1] < islands[j]);
        }
    } else if j < i {
        if j + 1 < i {
            assert(islands[j + 1] < islands[i]);
        }
    }
}

} // verus!
