use vstd::prelude::*;

verus! {

/// The largest number of contact points one velocity constraint holds; a
/// manifold with more points is split into several constraints.
pub const MAX_MANIFOLD_POINTS: usize = 4;

/// The number of constraints a manifold of `n` solver contacts needs:
/// `n / MAX_MANIFOLD_POINTS`, rounded up.
pub open spec fn constraints_for(n: int) -> int {
    (n + MAX_MANIFOLD_POINTS as int - 1) / MAX_MANIFOLD_POINTS as int
}

/// `counts[0] + ... + counts[i - 1]`.
pub open spec fn prefix_sum(counts: Seq<usize>, i: int) -> int
    decreases i,
{
    if i <= 0 {
        0
    } else {
        prefix_sum(counts, i - 1) + counts[i - 1] as int
    }
}

proof fn lemma_prefix_sum_monotone(counts: Seq<usize>, i: int, j: int)
    requires
        0 <= i <= j,
    ensures
        prefix_sum(counts, i) <= prefix_sum(counts, j),
    decreases j - i,
{
    if i < j {
        lemma_prefix_sum_monotone(counts, i, j - 1);
    }
}

/// The number of velocity constraints built from a manifold with
/// `num_contacts` solver contacts.
pub fn num_active_constraints(num_contacts: usize) -> (r: usize)
    ensures
        r == constraints_for(num_contacts as int),
        r * MAX_MANIFOLD_POINTS >= num_contacts,
        r > 0 ==> (r - 1) * MAX_MANIFOLD_POINTS < num_contacts,
{
    let rest = if num_contacts % MAX_MANIFOLD_POINTS != 0 {
        1usize
    } else {
        0usize
    };
    let r = num_contacts / MAX_MANIFOLD_POINTS + rest;
    proof {
        let n = num_contacts as int;
        assert(r == (n + 3) / 4 && r * 4 >= n && (r > 0 ==> (r - 1) * 4 < n)) by (nonlinear_arith)
            requires
                r == n / 4 + (if n % 4 != 0 { 1int } else { 0int }),
                n >= 0,
        ;
    }
    r
}

/// The contact points `[start, end)` held by each of the constraints built
/// from a manifold with `num_contacts` solver contacts, in order: constraint
/// `l` holds the points from `l * MAX_MANIFOLD_POINTS` on, at most
/// `MAX_MANIFOLD_POINTS` of them.
pub fn contact_chunks(num_contacts: usize) -> (r: Vec<(usize, usize)>)
    ensures
        r@.len() == constraints_for(num_contacts as int),
        forall|l: int| 0 <= l < r@.len() ==> #[trigger] r@[l] == (
            (l * MAX_MANIFOLD_POINTS as int) as usize,
            if l * MAX_MANIFOLD_POINTS as int + MAX_MANIFOLD_POINTS as int <= num_contacts as int {
                (l * MAX_MANIFOLD_POINTS as int + MAX_MANIFOLD_POINTS as int) as usize
            } else {
                num_contacts
            },
        ),
{
    let total = num_active_constraints(num_contacts);
    let mut r: Vec<(usize, usize)> = Vec::new();
    let mut l: usize = 0;
    while l < total
        invariant
            total == constraints_for(num_contacts as int),
            total * MAX_MANIFOLD_POINTS >= num_contacts,
            total > 0 ==> (total - 1) * MAX_MANIFOLD_POINTS < num_contacts,
            l <= total,
            r@.len() == l,
            forall|m: int| 0 <= m < l ==> #[trigger] r@[m] == (
                (m * MAX_MANIFOLD_POINTS as int) as usize,
                if m * MAX_MANIFOLD_POINTS as int + MAX_MANIFOLD_POINTS as int <= num_contacts as int {
                    (m * MAX_MANIFOLD_POINTS as int + MAX_MANIFOLD_POINTS as int) as usize
                } else {
                    num_contacts
                },
            ),
        decreases total - l,
    {
        proof {
            assert(l * 4 <= (total - 1) * 4) by (nonlinear_arith)
                requires
                    l <= total - 1,
            ;
        }
        let start = l * MAX_MANIFOLD_POINTS;
        let end = if num_contacts - start >= MAX_MANIFOLD_POINTS {
            start + MAX_MANIFOLD_POINTS
        } else {
            num_contacts
        };
        r.push((start, end));
        l = l + 1;
    }
    r
}

/// The first slot of each manifold's constraints when the constraints of
/// all the manifolds are laid out one after the other, manifold `i` needing
/// `counts[i]` slots; the last entry is the total. Returns `None` when the
/// total does not fit in a `usize`.
pub fn constraint_offsets(counts: &Vec<usize>) -> (r: Option<Vec<usize>>)
    ensures
        match r {
            Some(offsets) => {
                &&& offsets@.len() == counts@.len() + 1
                &&& forall|i: int| 0 <= i <= counts@.len() ==> #[trigger] offsets@[i] == prefix_sum(counts@, i)
            },
            None => prefix_sum(counts@, counts@.len() as int) > usize::MAX,
        },
{
    let mut offsets: Vec<usize> = Vec::new();
    let mut total: usize = 0;
    let mut i: usize = 0;
    offsets.push(0);
    while i < counts.len()
        invariant
            i <= counts@.len(),
            offsets@.len() == i + 1,
            total == prefix_sum(counts@, i as int),
            forall|m: int| 0 <= m <= i ==> #[trigger] offsets@[m] == prefix_sum(counts@, m),
        decreases counts@.len() - i,
    {
        if counts[i] > usize::MAX - total {
            proof {
                lemma_prefix_sum_monotone(counts@, i + 1, counts@.len() as int);
            }
            return None;
        }
        total = total + counts[i];
        offsets.push(total);
        i = i + 1;
    }
    Some(offsets)
}

/// The slots reserved by `constraint_offsets` do not overlap: the slots of
/// manifold `i`, `offsets[i]..offsets[i + 1]`, all come before those of any
/// later manifold `j`.
pub proof fn lemma_constraint_slots_disjoint(counts: Seq<usize>, i: int, j: int)
    requires
        0 <= i < j < counts.len(),
    ensures
        prefix_sum(counts, i) + counts[i] as int <= prefix_sum(counts, j),
        prefix_sum(counts, i + 1) == prefix_sum(counts, i) + counts[i] as int,
{
    lemma_prefix_sum_monotone(counts, i + 1, j);
}

} // verus!
