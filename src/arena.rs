use vstd::prelude::*;

verus! {

/// A slot number paired with the generation of the value stored there.
///
/// Two indices are equal only when both parts match. Removing a value bumps
/// the generation of its slot, so an index taken before the removal never
/// reaches a value inserted later in the same slot.
#[derive(Copy, Clone, Debug, PartialEq, Eq, Structural, Hash)]
pub struct Index {
    pub index: usize,
    pub generation: u64,
}

impl Index {
    /// The (slot, generation) components of this index.
    pub fn into_raw_parts(self) -> (r: (usize, u64))
        ensures
            r == (self.index, self.generation),
    {
        (self.index, self.generation)
    }

    /// Rebuilds an index from its (slot, generation) components.
    pub fn from_raw_parts(index: usize, generation: u64) -> (r: Self)
        ensures
            r.index == index,
            r.generation == generation,
    {
        Index { index, generation }
    }
}

/// One slot of an arena: the generation of the slot and its value, if any.
pub struct Entry<T> {
    pub generation: u64,
    pub value: Option<T>,
}

/// The number of occupied slots in `s`.
pub open spec fn count_live<T>(s: Seq<Entry<T>>) -> nat
    decreases s.len(),
{
    if s.len() == 0 {
        0
    } else {
        count_live(s.drop_last()) + if s.last().value is Some {
            1nat
        } else {
            0nat
        }
    }
}

proof fn lemma_count_live_bound<T>(s: Seq<Entry<T>>)
    ensures
        count_live(s) <= s.len(),
    decreases s.len(),
{
    if s.len() > 0 {
        lemma_count_live_bound(s.drop_last());
    }
}

proof fn lemma_count_live_push<T>(s: Seq<Entry<T>>, e: Entry<T>)
    ensures
        count_live(s.push(e)) == count_live(s) + if e.value is Some {
            1nat
        } else {
            0nat
        },
{
    assert(s.push(e).drop_last() =~= s);
}

proof fn lemma_count_live_update<T>(s: Seq<Entry<T>>, i: int, e: Entry<T>)
    requires
        0 <= i < s.len(),
    ensures
        count_live(s.update(i, e)) + (if s[i].value is Some {
            1nat
        } else {
            0nat
        }) == count_live(s) + (if e.value is Some {
            1nat
        } else {
            0nat
        }),
    decreases s.len(),
{
    if i == s.len() - 1 {
        assert(s.update(i, e).drop_last() =~= s.drop_last());
    } else {
        lemma_count_live_update(s.drop_last(), i, e);
        assert(s.update(i, e).drop_last() =~= s.drop_last().update(i, e));
    }
}

/// A generational arena: values are reached through an [`Index`] whose
/// generation must match the generation of its slot.
pub struct Arena<T> {
    entries: Vec<Entry<T>>,
    free: Vec<usize>,
    len: usize,
}

impl<T> Arena<T> {
    /// The value reached by `i`, if `i` is live.
    pub closed spec fn spec_get(&self, i: Index) -> Option<T> {
        if i.index < self.entries@.len() && self.entries@[i.index as int].generation
            == i.generation {
            self.entries@[i.index as int].value
        } else {
            None
        }
    }

    /// `i` reaches a value.
    pub open spec fn contains_spec(&self, i: Index) -> bool {
        self.spec_get(i) is Some
    }

    /// `i` was handed out and its value removed since: it will never reach a
    /// value again, whatever is inserted later.
    pub closed spec fn is_stale(&self, i: Index) -> bool {
        &&& i.index < self.entries@.len()
        &&& {
            let e = self.entries@[i.index as int];
            e.generation > i.generation || (e.value is None && e.generation == u64::MAX)
        }
    }

    /// The number of slots, occupied or not.
    pub closed spec fn num_slots(&self) -> nat {
        self.entries@.len()
    }

    /// The number of values stored.
    pub closed spec fn len_spec(&self) -> nat {
        count_live(self.entries@)
    }

    /// The internal invariant of the arena.
    pub closed spec fn wf(&self) -> bool {
        &&& self.len as nat == count_live(self.entries@)
        &&& forall|k: int|
            0 <= k < self.free@.len() ==> {
                let s = #[trigger] self.free@[k];
                &&& s < self.entries@.len()
                &&& self.entries@[s as int].value is None
                &&& self.entries@[s as int].generation < u64::MAX
            }
        &&& forall|j: int, k: int|
            0 <= j < k < self.free@.len() ==> #[trigger] self.free@[j] != #[trigger] self.free@[k]
        &&& forall|s: int|
            0 <= s < self.entries@.len() && (#[trigger] self.entries@[s]).value is None
                && self.entries@[s].generation < u64::MAX ==> self.free@.contains(s as usize)
    }

    /// A stale index reaches nothing.
    pub proof fn lemma_stale_not_contained(&self, i: Index)
        requires
            self.is_stale(i),
        ensures
            !self.contains_spec(i),
    {
    }

    /// Two live indices of the same slot are equal, and a live index names
    /// an existing slot.
    pub proof fn lemma_live_slot_unique(&self, i: Index, j: Index)
        requires
            self.contains_spec(i),
            self.contains_spec(j),
            i.index == j.index,
        ensures
            i == j,
            (i.index as nat) < self.num_slots(),
    {
    }

    /// An empty arena.
    pub fn new() -> (r: Self)
        ensures
            r.wf(),
            r.len_spec() == 0,
            r.num_slots() == 0,
            forall|i: Index| !r.contains_spec(i),
            forall|i: Index| !r.is_stale(i),
    {
        Arena { entries: Vec::new(), free: Vec::new(), len: 0 }
    }

    /// The number of values stored.
    pub fn len(&self) -> (r: usize)
        requires
            self.wf(),
        ensures
            r == self.len_spec(),
    {
        self.len
    }

    /// `true` if no value is stored.
    pub fn is_empty(&self) -> (r: bool)
        requires
            self.wf(),
        ensures
            r == (self.len_spec() == 0),
    {
        self.len == 0
    }

    /// Does `i` reach a value?
    pub fn contains(&self, i: Index) -> (r: bool)
        ensures
            r == self.contains_spec(i),
    {
        i.index < self.entries.len() && self.entries[i.index].generation == i.generation
            && self.entries[i.index].value.is_some()
    }

    /// Stores `value` and returns the index that reaches it. The index is
    /// neither live nor stale before the call; every other index keeps what
    /// it reached, and a stale index stays stale.
    pub fn insert(&mut self, value: T) -> (r: Index)
        requires
            old(self).wf(),
            old(self).num_slots() < usize::MAX,
        ensures
            final(self).wf(),
            final(self).spec_get(r) == Some(value),
            !old(self).contains_spec(r),
            !old(self).is_stale(r),
            forall|i: Index| i != r ==> final(self).spec_get(i) == old(self).spec_get(i),
            forall|i: Index| old(self).is_stale(i) ==> final(self).is_stale(i),
            final(self).len_spec() == old(self).len_spec() + 1,
            final(self).num_slots() <= old(self).num_slots() + 1,
    {
        proof {
            lemma_count_live_bound(self.entries@);
        }
        match self.free.pop() {
            Some(s) => {
                let ghost old_entries = self.entries@;
                let ghost old_free = old(self).free@;
                assert(old_free[old_free.len() - 1] == s);
                let g = self.entries[s].generation;
                self.entries[s] = Entry { generation: g, value: Some(value) };
                proof {
                    lemma_count_live_update(old_entries, s as int, self.entries@[s as int]);
                    assert forall|t: int|
                        0 <= t < self.entries@.len() && (#[trigger] self.entries@[t]).value is None
                            && self.entries@[t].generation < u64::MAX implies self.free@.contains(
                        t as usize,
                    ) by {
                        assert(t != s);
                        assert(old_free.contains(t as usize));
                        let k = choose|k: int| 0 <= k < old_free.len() && old_free[k] == t as usize;
                        assert(k != old_free.len() - 1);
                        assert(self.free@[k] == t as usize);
                    }
                }
                self.len = self.len + 1;
                Index { index: s, generation: g }
            },
            None => {
                let s = self.entries.len();
                let ghost old_entries = self.entries@;
                let e = Entry { generation: 0, value: Some(value) };
                proof {
                    lemma_count_live_push(old_entries, e);
                }
                self.entries.push(e);
                self.len = self.len + 1;
                Index { index: s, generation: 0 }
            },
        }
    }

    /// Removes the value reached by `i` and returns it. Afterwards `i` is
    /// stale; every other index keeps what it reached.
    pub fn remove(&mut self, i: Index) -> (r: Option<T>)
        requires
            old(self).wf(),
        ensures
            final(self).wf(),
            r == old(self).spec_get(i),
            final(self).spec_get(i) is None,
            r is Some ==> final(self).is_stale(i),
            forall|j: Index| j != i ==> final(self).spec_get(j) == old(self).spec_get(j),
            forall|j: Index| old(self).is_stale(j) ==> final(self).is_stale(j),
            final(self).len_spec() == old(self).len_spec() - (if r is Some {
                1int
            } else {
                0int
            }),
            final(self).num_slots() == old(self).num_slots(),
    {
        if !self.contains(i) {
            return None;
        }
        let s = i.index;
        let g = self.entries[s].generation;
        let ghost old_entries = self.entries@;
        let mut taken: Option<T> = None;
        let mut e = Entry { generation: g, value: None };
        if g < u64::MAX {
            e = Entry { generation: g + 1, value: None };
        }
        std::mem::swap(&mut self.entries[s], &mut e);
        taken = e.value;
        proof {
            lemma_count_live_update(old_entries, s as int, self.entries@[s as int]);
        }
        if g < u64::MAX - 1 {
            proof {
                assert forall|k: int| 0 <= k < self.free@.len() implies self.free@[k] != s by {
                    let t = self.free@[k];
                    assert(old_entries[t as int].value is None);
                }
            }
            self.free.push(s);
            proof {
                assert(self.free@[self.free@.len() - 1] == s);
            }
        }
        proof {
            assert forall|k: int| 0 <= k < self.free@.len() implies {
                let t = #[trigger] self.free@[k];
                &&& t < self.entries@.len()
                &&& self.entries@[t as int].value is None
                &&& self.entries@[t as int].generation < u64::MAX
            } by {
                if k < old(self).free@.len() {
                    assert(self.free@[k] == old(self).free@[k]);
                    assert(old_entries[old(self).free@[k] as int].value is None);
                }
            }
            assert forall|t: int|
                0 <= t < self.entries@.len() && (#[trigger] self.entries@[t]).value is None
                    && self.entries@[t].generation < u64::MAX implies self.free@.contains(
                t as usize,
            ) by {
                if t != s {
                    let k = choose|k: int|
                        0 <= k < old(self).free@.len() && old(self).free@[k] == t as usize;
                    assert(self.free@[k] == t as usize);
                }
            }
        }
        self.len = self.len - 1;
        taken
    }

    /// The value reached by `i`, if any.
    pub fn get(&self, i: Index) -> (r: Option<&T>)
        ensures
            match r {
                Some(v) => self.spec_get(i) == Some(*v),
                None => self.spec_get(i) is None,
            },
    {
        if i.index < self.entries.len() && self.entries[i.index].generation == i.generation {
            match &self.entries[i.index].value {
                Some(v) => Some(v),
                None => None,
            }
        } else {
            None
        }
    }

    /// A mutable reference to the value reached by `i`, if any. Whatever is
    /// written through it becomes the value reached by `i`.
    pub fn get_mut(&mut self, i: Index) -> (r: Option<&mut T>)
        requires
            old(self).wf(),
        ensures
            match r {
                Some(v) => {
                    &&& old(self).spec_get(i) == Some(*v)
                    &&& final(self).wf()
                    &&& final(self).spec_get(i) == Some(*final(v))
                    &&& forall|j: Index| j != i ==> final(self).spec_get(j) == old(self).spec_get(j)
                    &&& forall|j: Index| old(self).is_stale(j) <==> final(self).is_stale(j)
                    &&& final(self).len_spec() == old(self).len_spec()
                    &&& final(self).num_slots() == old(self).num_slots()
                },
                None => {
                    &&& old(self).spec_get(i) is None
                    &&& *final(self) == *old(self)
                },
            },
    {
        if i.index < self.entries.len() && self.entries[i.index].generation == i.generation
            && self.entries[i.index].value.is_some() {
            let ghost old_entries = self.entries@;
            let e = &mut self.entries[i.index];
            match &mut e.value {
                Some(v) => {
                    proof {
                        lemma_count_live_update(old_entries, i.index as int, Entry { generation: i.generation, value: Some(*final(v)) });
                    }
                    Some(v)
                },
                None => None,
            }
        } else {
            None
        }
    }

    /// The value in slot `s` together with the index that reaches it,
    /// whatever its generation.
    pub fn get_unknown_gen(&self, s: usize) -> (r: Option<(&T, Index)>)
        ensures
            match r {
                Some((v, i)) => i.index == s && self.spec_get(i) == Some(*v),
                None => forall|i: Index| i.index == s ==> self.spec_get(i) is None,
            },
    {
        if s < self.entries.len() {
            let g = self.entries[s].generation;
            match &self.entries[s].value {
                Some(v) => Some((v, Index { index: s, generation: g })),
                None => None,
            }
        } else {
            None
        }
    }

    /// The indices of all the stored values, by increasing slot.
    pub fn indices(&self) -> (r: Vec<Index>)
        ensures
            forall|k: int| 0 <= k < r@.len() ==> self.contains_spec(#[trigger] r@[k]),
            forall|i: Index| self.contains_spec(i) ==> r@.contains(i),
            forall|j: int, k: int|
                0 <= j < k < r@.len() ==> (#[trigger] r@[j]).index < (#[trigger] r@[k]).index,
    {
        let mut r: Vec<Index> = Vec::new();
        let mut s: usize = 0;
        while s < self.entries.len()
            invariant
                s <= self.entries@.len(),
                forall|k: int| 0 <= k < r@.len() ==> self.contains_spec(#[trigger] r@[k]),
                forall|k: int| 0 <= k < r@.len() ==> (#[trigger] r@[k]).index < s,
                forall|i: Index| self.contains_spec(i) && i.index < s ==> r@.contains(i),
                forall|j: int, k: int|
                    0 <= j < k < r@.len() ==> (#[trigger] r@[j]).index < (#[trigger] r@[k]).index,
            decreases self.entries@.len() - s,
        {
            if self.entries[s].value.is_some() {
                let i = Index { index: s, generation: self.entries[s].generation };
                let ghost old_r = r@;
                r.push(i);
                proof {
                    assert forall|j: Index| self.contains_spec(j) && j.index < s + 1 implies r@.contains(
                        j,
                    ) by {
                        if j.index == s {
                            assert(r@[r@.len() - 1] == j);
                        } else {
                            let k = choose|k: int| 0 <= k < old_r.len() && old_r[k] == j;
                            assert(r@[k] == j);
                        }
                    }
                }
            }
            s = s + 1;
        }
        r
    }
}

} // verus!
