use vstd::prelude::*;

verus! {

/// The number of lanes of a wide constraint.
pub const SIMD_WIDTH: usize = 4;

/// An interaction (a contact manifold or a joint) between two bodies of an
/// island, given by their positions within the island. A side that is not a
/// dynamic body (static, or kinematic under dominance) has no velocity slot
/// and is never written by the solver: it takes part in no conflict.
#[derive(Copy, Clone, Debug, PartialEq, Eq, Structural)]
pub struct Interaction {
    pub body1: usize,
    pub dynamic1: bool,
    pub body2: usize,
    pub dynamic2: bool,
}

/// The velocity slots that `a` writes.
pub open spec fn writes(a: Interaction, slot: usize) -> bool {
    (a.dynamic1 && a.body1 == slot) || (a.dynamic2 && a.body2 == slot)
}

/// `a` and `b` write a common velocity slot.
pub open spec fn conflict(a: Interaction, b: Interaction) -> bool {
    exists|slot: usize| writes(a, slot) && writes(b, slot)
}

/// The interactions `group` (indices into `interactions`) write pairwise
/// distinct velocity slots.
pub open spec fn conflict_free(interactions: Seq<Interaction>, group: Seq<usize>) -> bool {
    forall|j: int, k: int|
        0 <= j < k < group.len() ==> !conflict(
            interactions[#[trigger] group[j] as int],
            interactions[#[trigger] group[k] as int],
        )
}

/// Some group holds `i`.
pub open spec fn in_some_group(groups: Seq<Vec<usize>>, i: usize) -> bool {
    exists|g: int| 0 <= g < groups.len() && #[trigger] groups[g]@.contains(i)
}

/// The groups hold each index of `0..n` exactly once, each group in
/// increasing order.
pub open spec fn partition_of(groups: Seq<Vec<usize>>, n: nat) -> bool {
    &&& forall|g: int, k: int| 0 <= g < groups.len() && 0 <= k < groups[g]@.len() ==> #[trigger] groups[g]@[k] < n
    &&& forall|g: int, j: int, k: int|
        0 <= g < groups.len() && 0 <= j < k < groups[g]@.len() ==> #[trigger] groups[g]@[j] < #[trigger] groups[g]@[k]
    &&& forall|i: usize| i < n ==> #[trigger] in_some_group(groups, i)
    &&& forall|g1: int, g2: int, i: usize|
        0 <= g1 < groups.len() && 0 <= g2 < groups.len() && #[trigger] groups[g1]@.contains(i) && #[trigger] groups[g2]@.contains(i) ==> g1 == g2
}

/// Does `a` write velocity slot `slot`?
fn writes_slot(a: &Interaction, slot: usize) -> (r: bool)
    ensures
        r == writes(*a, slot),
{
    (a.dynamic1 && a.body1 == slot) || (a.dynamic2 && a.body2 == slot)
}

/// Can `a` join `group` without a conflict?
fn fits(interactions: &Vec<Interaction>, group: &Vec<usize>, a: &Interaction) -> (r: bool)
    requires
        forall|k: int| 0 <= k < group@.len() ==> #[trigger] group@[k] < interactions@.len(),
    ensures
        r == forall|k: int| 0 <= k < group@.len() ==> !conflict(interactions@[#[trigger] group@[k] as int], *a),
{
    let mut k: usize = 0;
    while k < group.len()
        invariant
            k <= group@.len(),
            forall|m: int| 0 <= m < group@.len() ==> #[trigger] group@[m] < interactions@.len(),
            forall|m: int| 0 <= m < k ==> !conflict(interactions@[#[trigger] group@[m] as int], *a),
        decreases group@.len() - k,
    {
        let b = &interactions[group[k]];
        let clash = (a.dynamic1 && writes_slot(b, a.body1)) || (a.dynamic2 && writes_slot(b, a.body2));
        if clash {
            proof {
                if a.dynamic1 && writes(*b, a.body1) {
                    assert(writes(*b, a.body1) && writes(*a, a.body1));
                } else {
                    assert(writes(*b, a.body2) && writes(*a, a.body2));
                }
            }
            return false;
        }
        proof {
            assert(!conflict(interactions@[group@[k as int] as int], *a)) by {
                if conflict(*b, *a) {
                    let slot = choose|slot: usize| writes(*b, slot) && writes(*a, slot);
                }
            }
        }
        k = k + 1;
    }
    true
}

/// Colors `interactions` into parallel groups: each interaction goes to the
/// first group none of whose members writes a velocity slot it writes, or
/// to a new group. Within a group no two interactions write the same slot,
/// so the solver may apply them in any order, or at once.
pub fn group_interactions(interactions: &Vec<Interaction>) -> (groups: Vec<Vec<usize>>)
    ensures
        partition_of(groups@, interactions@.len()),
        forall|g: int| 0 <= g < groups@.len() ==> conflict_free(interactions@, #[trigger] groups@[g]@),
        forall|g: int| 0 <= g < groups@.len() ==> (#[trigger] groups@[g])@.len() > 0,
{
    let mut groups: Vec<Vec<usize>> = Vec::new();
    let mut i: usize = 0;
    while i < interactions.len()
        invariant
            i <= interactions@.len(),
            partition_of(groups@, i as nat),
            forall|g: int| 0 <= g < groups@.len() ==> conflict_free(interactions@, #[trigger] groups@[g]@),
            forall|g: int| 0 <= g < groups@.len() ==> (#[trigger] groups@[g])@.len() > 0,
        decreases interactions@.len() - i,
    {
        let a = interactions[i];
        let ghost old_groups = groups@;
        let mut found: usize = groups.len();
        let mut g: usize = 0;
        while g < groups.len()
            invariant
                i < interactions@.len(),
                a == interactions@[i as int],
                groups@ == old_groups,
                g <= groups@.len(),
                partition_of(groups@, i as nat),
                found == groups@.len() || (found < g && forall|k: int|
                    0 <= k < groups@[found as int]@.len() ==> !conflict(interactions@[#[trigger] groups@[found as int]@[k] as int], a)),
            decreases groups@.len() - g,
        {
            proof {
                assert forall|k: int| 0 <= k < groups@[g as int]@.len() implies #[trigger] groups@[g as int]@[k] < interactions@.len() by {
                    assert(groups@[g as int]@[k] < i);
                }
            }
            if found == groups.len() && fits(interactions, &groups[g], &a) {
                found = g;
            }
            g = g + 1;
        }
        if found < groups.len() {
            let ghost old_group = groups@[found as int]@;
            groups[found].push(i);
            proof {
                let ng = groups@;
                assert(ng[found as int]@ == old_group.push(i));
                assert forall|h: int| 0 <= h < ng.len() && h != found implies #[trigger] ng[h] == old_groups[h] by {}
                assert forall|h: int, k: int| 0 <= h < ng.len() && 0 <= k < ng[h]@.len() implies #[trigger] ng[h]@[k] < i + 1 by {
                    if h == found && k == old_group.len() {
                    } else if h == found {
                        assert(ng[h]@[k] == old_groups[h]@[k]);
                    }
                }
                assert forall|h: int, j: int, k: int| 0 <= h < ng.len() && 0 <= j < k < ng[h]@.len() implies #[trigger] ng[h]@[j] < #[trigger] ng[h]@[k] by {
                    if h == found {
                        assert(ng[h]@[j] == old_groups[h]@[j]);
                        assert(old_groups[h]@[j] < i);
                        if k < old_group.len() {
                            assert(ng[h]@[k] == old_groups[h]@[k]);
                        }
                    }
                }
                assert forall|x: usize| x < i + 1 implies #[trigger] in_some_group(ng, x) by {
                    if x == i {
                        assert(ng[found as int]@[old_group.len() as int] == i);
                        assert(ng[found as int]@.contains(x));
                    } else {
                        assert(in_some_group(old_groups, x));
                        let h = choose|h: int| 0 <= h < old_groups.len() && #[trigger] old_groups[h]@.contains(x);
                        let k = choose|k: int| 0 <= k < old_groups[h]@.len() && old_groups[h]@[k] == x;
                        assert(ng[h]@[k] == x);
                        assert(ng[h]@.contains(x));
                    }
                }
                assert forall|g1: int, g2: int, x: usize|
                    0 <= g1 < ng.len() && 0 <= g2 < ng.len() && #[trigger] ng[g1]@.contains(x) && #[trigger] ng[g2]@.contains(x) implies g1 == g2 by {
                    if x == i {
                        if g1 != found {
                            let k = choose|k: int| 0 <= k < ng[g1]@.len() && ng[g1]@[k] == x;
                            assert(old_groups[g1]@[k] < i);
                        }
                        if g2 != found {
                            let k = choose|k: int| 0 <= k < ng[g2]@.len() && ng[g2]@[k] == x;
                            assert(old_groups[g2]@[k] < i);
                        }
                    } else {
                        let k1 = choose|k: int| 0 <= k < ng[g1]@.len() && ng[g1]@[k] == x;
                        let k2 = choose|k: int| 0 <= k < ng[g2]@.len() && ng[g2]@[k] == x;
                        if g1 == found {
                            assert(k1 < old_group.len());
                        }
                        if g2 == found {
                            assert(k2 < old_group.len());
                        }
                        assert(old_groups[g1]@[k1] == x);
                        assert(old_groups[g2]@[k2] == x);
                        assert(old_groups[g1]@.contains(x));
                        assert(old_groups[g2]@.contains(x));
                    }
                }
                assert forall|h: int| 0 <= h < ng.len() implies conflict_free(interactions@, #[trigger] ng[h]@) by {
                    if h == found {
                        assert forall|j: int, k: int| 0 <= j < k < ng[h]@.len() implies !conflict(
                            interactions@[#[trigger] ng[h]@[j] as int],
                            interactions@[#[trigger] ng[h]@[k] as int],
                        ) by {
                            assert(ng[h]@[j] == old_group[j]);
                            if k < old_group.len() {
                                assert(ng[h]@[k] == old_group[k]);
                                assert(conflict_free(interactions@, old_groups[h]@));
                            } else {
                                assert(ng[h]@[k] == i);
                            }
                        }
                    }
                }
            }
        } else {
            let mut grp: Vec<usize> = Vec::new();
            grp.push(i);
            groups.push(grp);
            proof {
                let ng = groups@;
                let last = ng.len() - 1;
                assert(ng[last]@ =~= seq![i]);
                assert forall|h: int, k: int| 0 <= h < ng.len() && 0 <= k < ng[h]@.len() implies #[trigger] ng[h]@[k] < i + 1 by {
                    if h < last {
                        assert(ng[h] == old_groups[h]);
                    }
                }
                assert forall|h: int, j: int, k: int| 0 <= h < ng.len() && 0 <= j < k < ng[h]@.len() implies #[trigger] ng[h]@[j] < #[trigger] ng[h]@[k] by {
                    if h < last {
                        assert(ng[h] == old_groups[h]);
                    }
                }
                assert forall|x: usize| x < i + 1 implies #[trigger] in_some_group(ng, x) by {
                    if x == i {
                        assert(ng[last]@[0] == i);
                        assert(ng[last]@.contains(x));
                    } else {
                        assert(in_some_group(old_groups, x));
                        let h = choose|h: int| 0 <= h < old_groups.len() && #[trigger] old_groups[h]@.contains(x);
                        assert(ng[h] == old_groups[h]);
                        assert(ng[h]@.contains(x));
                    }
                }
                assert forall|g1: int, g2: int, x: usize|
                    0 <= g1 < ng.len() && 0 <= g2 < ng.len() && #[trigger] ng[g1]@.contains(x) && #[trigger] ng[g2]@.contains(x) implies g1 == g2 by {
                    if g1 < last {
                        assert(ng[g1] == old_groups[g1]);
                        let k = choose|k: int| 0 <= k < ng[g1]@.len() && ng[g1]@[k] == x;
                        assert(old_groups[g1]@[k] < i);
                    }
                    if g2 < last {
                        assert(ng[g2] == old_groups[g2]);
                        let k = choose|k: int| 0 <= k < ng[g2]@.len() && ng[g2]@[k] == x;
                        assert(old_groups[g2]@[k] < i);
                    }
                    if g1 < last && g2 < last {
                        assert(old_groups[g1]@.contains(x));
                        assert(old_groups[g2]@.contains(x));
                    }
                }
                assert forall|h: int| 0 <= h < ng.len() implies conflict_free(interactions@, #[trigger] ng[h]@) by {
                    if h < last {
                        assert(ng[h] == old_groups[h]);
                    }
                }
                assert forall|h: int| 0 <= h < ng.len() implies (#[trigger] ng[h])@.len() > 0 by {
                    if h < last {
                        assert(ng[h] == old_groups[h]);
                    }
                }
            }
        }
        i = i + 1;
    }
    groups
}

/// Splits a parallel group into bundles of `SIMD_WIDTH` lanes, in order; the
/// fewer than `SIMD_WIDTH` interactions left over are solved one by one.
pub fn bundle_group(group: &Vec<usize>) -> (r: (Vec<[usize; SIMD_WIDTH]>, Vec<usize>))
    ensures
        r.0@.len() == group@.len() as int / SIMD_WIDTH as int,
        forall|b: int| 0 <= b < r.0@.len() ==> (#[trigger] r.0@[b])@ == group@.subrange(
            b * SIMD_WIDTH as int,
            b * SIMD_WIDTH as int + SIMD_WIDTH as int,
        ),
        r.1@ == group@.subrange(r.0@.len() * SIMD_WIDTH as int, group@.len() as int),
        r.1@.len() < SIMD_WIDTH,
{
    let mut wide: Vec<[usize; SIMD_WIDTH]> = Vec::new();
    let mut k: usize = 0;
    while group.len() - k >= SIMD_WIDTH
        invariant
            k <= group@.len(),
            k == wide@.len() * SIMD_WIDTH,
            forall|b: int| 0 <= b < wide@.len() ==> (#[trigger] wide@[b])@ == group@.subrange(
                b * SIMD_WIDTH as int,
                b * SIMD_WIDTH as int + SIMD_WIDTH as int,
            ),
        decreases group@.len() - k,
    {
        let lanes = [group[k], group[k + 1], group[k + 2], group[k + 3]];
        proof {
            assert(lanes@ =~= group@.subrange(k as int, k + 4));
        }
        wide.push(lanes);
        k = k + SIMD_WIDTH;
    }
    let mut scalar: Vec<usize> = Vec::new();
    let start = k;
    while k < group.len()
        invariant
            start <= k <= group@.len(),
            scalar@ == group@.subrange(start as int, k as int),
        decreases group@.len() - k,
    {
        scalar.push(group[k]);
        proof {
            assert(group@.subrange(start as int, k + 1) =~= group@.subrange(start as int, k as int).push(group@[k as int]));
        }
        k = k + 1;
    }
    proof {
        assert(group@.len() as int / 4 == wide@.len()) by (nonlinear_arith)
            requires
                start == wide@.len() * 4,
                group@.len() - start < 4,
                start <= group@.len(),
        ;
    }
    (wide, scalar)
}

/// Island coloring: within a conflict-free group no velocity slot is
/// written twice, so the bodies referenced by the group (on their dynamic
/// sides) are pairwise distinct; the same holds within each of its bundles.
pub proof fn lemma_group_bodies_distinct(interactions: Seq<Interaction>, group: Seq<usize>, j: int, k: int, slot: usize)
    requires
        conflict_free(interactions, group),
        0 <= j < group.len(),
        0 <= k < group.len(),
        j != k,
    ensures
        !(writes(interactions[group[j] as int], slot) && writes(interactions[group[k] as int], slot)),
{
    if j < k {
        assert(!conflict(interactions[group[j] as int], interactions[group[k] as int]));
    } else {
        assert(!conflict(interactions[group[k] as int], interactions[group[j] as int]));
    }
}

} // verus!
