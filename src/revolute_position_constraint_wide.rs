use crate::interaction_groups::SIMD_WIDTH;
use crate::rigid_body::RigidBody;
use vstd::prelude::*;

verus! {

/// The position correction of one revolute joint, given the current
/// positions (of type `P`) of the bodies it joins.
///
/// The correction itself is floating-point work done by the implementation;
/// `corrected` and `corrected_ground` name its result.
pub trait RevolutePositionLane<P> {
    /// The positions that `correct` returns.
    spec fn corrected(&self, position1: P, position2: P) -> (P, P);

    /// The position that `correct_ground` returns.
    spec fn corrected_ground(&self, position: P, flipped: bool) -> P;

    /// The corrected positions of the two bodies.
    fn correct(&self, position1: P, position2: P) -> (r: (P, P))
        ensures
            r == self.corrected(position1, position2),
    ;

    /// The corrected position of the one movable body, when the other is
    /// ground; `flipped` says that the movable body is the first one.
    fn correct_ground(&self, position: P, flipped: bool) -> (r: P)
        ensures
            r == self.corrected_ground(position, flipped),
    ;
}

/// `positions` after lanes `0..k` of `c` were applied in order, each lane
/// replacing the positions of its two bodies by their correction.
pub open spec fn lanes_applied<J: RevolutePositionLane<P>, P>(
    c: WRevolutePositionConstraint<J>,
    positions: Seq<P>,
    k: int,
) -> Seq<P>
    decreases k,
{
    if k <= 0 {
        positions
    } else {
        let prev = lanes_applied(c, positions, k - 1);
        let p1 = c.position1@[k - 1] as int;
        let p2 = c.position2@[k - 1] as int;
        let n = c.joints@[k - 1].corrected(prev[p1], prev[p2]);
        prev.update(p1, n.0).update(p2, n.1)
    }
}

/// `positions` after lanes `0..k` of the ground constraint `c` were applied
/// in order, each lane replacing the position of its movable body.
pub open spec fn ground_lanes_applied<J: RevolutePositionLane<P>, P>(
    c: WRevolutePositionGroundConstraint<J>,
    positions: Seq<P>,
    k: int,
) -> Seq<P>
    decreases k,
{
    if k <= 0 {
        positions
    } else {
        let prev = ground_lanes_applied(c, positions, k - 1);
        let p = c.position@[k - 1] as int;
        prev.update(p, c.joints@[k - 1].corrected_ground(prev[p], c.flipped@[k - 1]))
    }
}

/// `SIMD_WIDTH` revolute position constraints between distinct pairs of
/// bodies, solved together. Lane `k` joins the bodies at positions
/// `position1[k]` and `position2[k]` of the island.
pub struct WRevolutePositionConstraint<J> {
    pub position1: [usize; SIMD_WIDTH],
    pub position2: [usize; SIMD_WIDTH],
    pub joints: [J; SIMD_WIDTH],
}

impl<J> WRevolutePositionConstraint<J> {
    /// Bundles the joints `cparams`, lane `k` joining `rbs1[k]` and `rbs2[k]`.
    pub fn from_params(rbs1: [&RigidBody; SIMD_WIDTH], rbs2: [&RigidBody; SIMD_WIDTH], cparams: [J; SIMD_WIDTH]) -> (r: Self)
        ensures
            forall|k: int| 0 <= k < SIMD_WIDTH ==> r.position1@[k] == rbs1@[k].active_set_offset,
            forall|k: int| 0 <= k < SIMD_WIDTH ==> r.position2@[k] == rbs2@[k].active_set_offset,
            r.joints@ == cparams@,
    {
        let position1 = [
            rbs1[0].active_set_offset,
            rbs1[1].active_set_offset,
            rbs1[2].active_set_offset,
            rbs1[3].active_set_offset,
        ];
        let position2 = [
            rbs2[0].active_set_offset,
            rbs2[1].active_set_offset,
            rbs2[2].active_set_offset,
            rbs2[3].active_set_offset,
        ];
        proof {
            assert forall|k: int| 0 <= k < SIMD_WIDTH implies position1@[k] == rbs1@[k].active_set_offset by {
                if k == 0 {} else if k == 1 {} else if k == 2 {} else {}
            }
            assert forall|k: int| 0 <= k < SIMD_WIDTH implies position2@[k] == rbs2@[k].active_set_offset by {
                if k == 0 {} else if k == 1 {} else if k == 2 {} else {}
            }
        }
        WRevolutePositionConstraint { position1, position2, joints: cparams }
    }

    /// Applies the lanes one after the other to `positions`. Only the
    /// positions of the lanes' bodies change; their number stays the same.
    pub fn solve<P: Copy>(&self, positions: &mut Vec<P>)
        where J: RevolutePositionLane<P>
        requires
            forall|k: int| 0 <= k < SIMD_WIDTH ==> self.position1@[k] < old(positions)@.len(),
            forall|k: int| 0 <= k < SIMD_WIDTH ==> self.position2@[k] < old(positions)@.len(),
        ensures
            final(positions)@ == lanes_applied(*self, old(positions)@, SIMD_WIDTH as int),
            final(positions)@.len() == old(positions)@.len(),
            forall|i: int|
                0 <= i < old(positions)@.len() && (forall|k: int| 0 <= k < SIMD_WIDTH ==> self.position1@[k] != i
                    && self.position2@[k] != i) ==> final(positions)@[i] == old(positions)@[i],
    {
        let mut k: usize = 0;
        while k < SIMD_WIDTH
            invariant
                k <= SIMD_WIDTH,
                positions@ == lanes_applied(*self, old(positions)@, k as int),
                positions@.len() == old(positions)@.len(),
                forall|m: int| 0 <= m < SIMD_WIDTH ==> self.position1@[m] < old(positions)@.len(),
                forall|m: int| 0 <= m < SIMD_WIDTH ==> self.position2@[m] < old(positions)@.len(),
                forall|i: int|
                    0 <= i < old(positions)@.len() && (forall|m: int| 0 <= m < SIMD_WIDTH ==> self.position1@[m] != i
                        && self.position2@[m] != i) ==> positions@[i] == old(positions)@[i],
            decreases SIMD_WIDTH - k,
        {
            let p1 = self.position1[k];
            let p2 = self.position2[k];
            let (n1, n2) = self.joints[k].correct(positions[p1], positions[p2]);
            positions[p1] = n1;
            positions[p2] = n2;
            k = k + 1;
        }
    }
}

/// `SIMD_WIDTH` revolute position constraints, each between a movable body
/// and the ground, solved together. Lane `k` moves the body at position
/// `position[k]` of the island; `flipped[k]` says that it is the first body
/// of the joint.
pub struct WRevolutePositionGroundConstraint<J> {
    pub position: [usize; SIMD_WIDTH],
    pub flipped: [bool; SIMD_WIDTH],
    pub joints: [J; SIMD_WIDTH],
}

impl<J> WRevolutePositionGroundConstraint<J> {
    /// Bundles the joints `cparams`; in lane `k` the movable body is
    /// `rbs1[k]` when `flipped[k]`, else `rbs2[k]`.
    pub fn from_params(
        rbs1: [&RigidBody; SIMD_WIDTH],
        rbs2: [&RigidBody; SIMD_WIDTH],
        cparams: [J; SIMD_WIDTH],
        flipped: [bool; SIMD_WIDTH],
    ) -> (r: Self)
        ensures
            forall|k: int| 0 <= k < SIMD_WIDTH ==> r.position@[k] == if flipped@[k] {
                rbs1@[k].active_set_offset
            } else {
                rbs2@[k].active_set_offset
            },
            r.flipped@ == flipped@,
            r.joints@ == cparams@,
    {
        let mut position: [usize; SIMD_WIDTH] = [0, 0, 0, 0];
        let mut k: usize = 0;
        while k < SIMD_WIDTH
            invariant
                k <= SIMD_WIDTH,
                forall|m: int| 0 <= m < k ==> position@[m] == if flipped@[m] {
                    rbs1@[m].active_set_offset
                } else {
                    rbs2@[m].active_set_offset
                },
            decreases SIMD_WIDTH - k,
        {
            let offset = if flipped[k] {
                rbs1[k].active_set_offset
            } else {
                rbs2[k].active_set_offset
            };
            position[k] = offset;
            k = k + 1;
        }
        WRevolutePositionGroundConstraint { position, flipped, joints: cparams }
    }

    /// Applies the lanes one after the other to `positions`. Only the
    /// positions of the lanes' movable bodies change; their number stays the
    /// same.
    pub fn solve<P: Copy>(&self, positions: &mut Vec<P>)
        where J: RevolutePositionLane<P>
        requires
            forall|k: int| 0 <= k < SIMD_WIDTH ==> self.position@[k] < old(positions)@.len(),
        ensures
            final(positions)@ == ground_lanes_applied(*self, old(positions)@, SIMD_WIDTH as int),
            final(positions)@.len() == old(positions)@.len(),
            forall|i: int|
                0 <= i < old(positions)@.len() && (forall|k: int| 0 <= k < SIMD_WIDTH ==> self.position@[k] != i)
                    ==> final(positions)@[i] == old(positions)@[i],
    {
        let mut k: usize = 0;
        while k < SIMD_WIDTH
            invariant
                k <= SIMD_WIDTH,
                positions@ == ground_lanes_applied(*self, old(positions)@, k as int),
                positions@.len() == old(positions)@.len(),
                forall|m: int| 0 <= m < SIMD_WIDTH ==> self.position@[m] < old(positions)@.len(),
                forall|i: int|
                    0 <= i < old(positions)@.len() && (forall|m: int| 0 <= m < SIMD_WIDTH ==> self.position@[m] != i)
                        ==> positions@[i] == old(positions)@[i],
            decreases SIMD_WIDTH - k,
        {
            let p = self.position[k];
            let n = self.joints[k].correct_ground(positions[p], self.flipped[k]);
            positions[p] = n;
            k = k + 1;
        }
    }
}

} // verus!
