//! A slab: values stored in slots addressed by stable indices, with a free
//! list of reclaimed slots and a generation per slot, so that a handle taken
//! before a removal never reads the slot's next occupant.
use vstd::prelude::*;

verus! {

/// A handle to a slot: its index and the generation it was allocated in.
#[derive(Clone, Copy, Debug, PartialEq, Eq, Structural)]
pub struct SlabIndex {
    pub index: usize,
    pub generation: u64,
}

/// One slot: its current generation and its occupant, if any.
pub struct Slot<T> {
    generation: u64,
    value: Option<T>,
}

/// A slot as a pair of its generation and its occupant.
pub type SlotView<T> = (u64, Option<T>);

/// What `h` reads in the slots `s`: the occupant of its slot, if the slot is
/// occupied and still in the handle's generation.
pub open spec fn get_spec<T>(s: Seq<SlotView<T>>, h: SlabIndex) -> Option<T> {
    if h.index < s.len() && s[h.index as int].0 == h.generation {
        s[h.index as int].1
    } else {
        None
    }
}

/// The generation a slot moves to when emptied; a slot at the largest
/// generation is retired rather than wrapped.
pub open spec fn next_generation(g: u64) -> u64 {
    if g < u64::MAX {
        (g + 1) as u64
    } else {
        g
    }
}

/// `after` is `before` once `v` has been allocated under the handle `r`:
/// either in an empty, unretired slot, keeping its generation, or in a new
/// slot at the end, in generation zero.
pub open spec fn allocated<T>(before: Seq<SlotView<T>>, after: Seq<SlotView<T>>, v: T, r: SlabIndex) -> bool {
    if r.index < before.len() {
        &&& before[r.index as int].1 is None
        &&& before[r.index as int].0 < u64::MAX
        &&& r.generation == before[r.index as int].0
        &&& after == before.update(r.index as int, (r.generation, Some(v)))
    } else {
        &&& r.index == before.len()
        &&& r.generation == 0
        &&& after == before.push((0u64, Some(v)))
    }
}

/// `after` is `before` once the handle `h` has been removed: its slot, if `h`
/// read an occupant, is emptied and moves to the next generation.
pub open spec fn removed<T>(before: Seq<SlotView<T>>, after: Seq<SlotView<T>>, h: SlabIndex) -> bool {
    if get_spec(before, h) is Some {
        after == before.update(h.index as int, (next_generation(h.generation), None::<T>))
    } else {
        after == before
    }
}

/// `after` is `before` once the occupant read by `h`, if any, is replaced by `v`.
pub open spec fn replaced<T>(before: Seq<SlotView<T>>, after: Seq<SlotView<T>>, h: SlabIndex, v: T) -> bool {
    if get_spec(before, h) is Some {
        after == before.update(h.index as int, (h.generation, Some(v)))
    } else {
        after == before
    }
}

pub struct Slab<T> {
    slots: Vec<Slot<T>>,
    free: Vec<usize>,
}

impl<T> Slab<T> {
    /// The slots, in index order.
    pub closed spec fn slots(&self) -> Seq<SlotView<T>> {
        self.slots@.map_values(|s: Slot<T>| (s.generation, s.value))
    }

    /// There are never more slots than a `usize` counts.
    pub proof fn lemma_len_bound(&self)
        ensures
            self.slots().len() <= usize::MAX,
    {
        assert(self.slots.len() == self.slots@.len());
    }

    /// The free list names distinct, empty, unretired slots.
    pub closed spec fn wf(&self) -> bool {
        &&& forall|k: int|
            0 <= k < self.free.len() ==> {
                &&& #[trigger] self.free@[k] < self.slots.len()
                &&& self.slots@[self.free@[k] as int].value is None
                &&& self.slots@[self.free@[k] as int].generation < u64::MAX
            }
        &&& forall|j: int, k: int|
            0 <= j < k < self.free.len() ==> #[trigger] self.free@[j] != #[trigger] self.free@[k]
    }

    /// An empty slab.
    pub fn new() -> (r: Slab<T>)
        ensures
            r.wf(),
            r.slots() == Seq::<SlotView<T>>::empty(),
    {
        let r = Slab { slots: Vec::new(), free: Vec::new() };
        proof {
            assert(r.slots() =~= Seq::<SlotView<T>>::empty());
        }
        r
    }

    /// Stores `value` in a free slot, or in a new one when none is free.
    pub fn allocate(&mut self, value: T) -> (r: SlabIndex)
        requires
            old(self).wf(),
        ensures
            final(self).wf(),
            allocated(old(self).slots(), final(self).slots(), value, r),
    {
        match self.free.pop() {
            Some(i) => {
                proof {
                    assert(old(self).free@[old(self).free.len() - 1] == i);
                }
                let g = self.slots[i].generation;
                self.slots.set(i, Slot { generation: g, value: Some(value) });
                proof {
                    assert(self.slots() =~= old(self).slots().update(
                        i as int,
                        (g, Some(value)),
                    ));
                    assert forall|k: int| 0 <= k < self.free.len() implies self.free@[k] != i by {
                        assert(old(self).free@[k] == self.free@[k]);
                    }
                    assert forall|k: int| 0 <= k < self.free.len() implies {
                        &&& #[trigger] self.free@[k] < self.slots.len()
                        &&& self.slots@[self.free@[k] as int].value is None
                        &&& self.slots@[self.free@[k] as int].generation < u64::MAX
                    } by {
                        assert(old(self).free@[k] == self.free@[k]);
                    }
                    assert forall|j: int, k: int|
                        0 <= j < k < self.free.len() implies #[trigger] self.free@[j]
                        != #[trigger] self.free@[k] by {
                        assert(old(self).free@[j] == self.free@[j]);
                        assert(old(self).free@[k] == self.free@[k]);
                    }
                }
                SlabIndex { index: i, generation: g }
            },
            None => {
                let i = self.slots.len();
                self.slots.push(Slot { generation: 0, value: Some(value) });
                proof {
                    assert(self.slots() =~= old(self).slots().push((0u64, Some(value))));
                }
                SlabIndex { index: i, generation: 0 }
            },
        }
    }

    /// Whether `h` still reads an occupant.
    pub fn contains(&self, h: SlabIndex) -> (r: bool)
        ensures
            r == (get_spec(self.slots(), h) is Some),
    {
        h.index < self.slots.len() && self.slots[h.index].generation == h.generation
            && self.slots[h.index].value.is_some()
    }

    /// The occupant that `h` reads, if any.
    pub fn get(&self, h: SlabIndex) -> (r: Option<&T>)
        ensures
            r is None <==> get_spec(self.slots(), h) is None,
            r matches Some(v) ==> get_spec(self.slots(), h) == Some(*v),
    {
        if h.index < self.slots.len() && self.slots[h.index].generation == h.generation {
            match &self.slots[h.index].value {
                Some(v) => Some(v),
                None => None,
            }
        } else {
            None
        }
    }

    /// Replaces the occupant that `h` reads, if any; says whether it did.
    pub fn set(&mut self, h: SlabIndex, value: T) -> (r: bool)
        requires
            old(self).wf(),
        ensures
            final(self).wf(),
            r == (get_spec(old(self).slots(), h) is Some),
            replaced(old(self).slots(), final(self).slots(), h, value),
    {
        if self.contains(h) {
            self.slots.set(h.index, Slot { generation: h.generation, value: Some(value) });
            proof {
                assert(self.slots() =~= old(self).slots().update(
                    h.index as int,
                    (h.generation, Some(value)),
                ));
                assert forall|k: int| 0 <= k < self.free.len() implies {
                    &&& #[trigger] self.free@[k] < self.slots.len()
                    &&& self.slots@[self.free@[k] as int].value is None
                    &&& self.slots@[self.free@[k] as int].generation < u64::MAX
                } by {
                    assert(old(self).slots@[old(self).free@[k] as int].value is None);
                }
            }
            true
        } else {
            false
        }
    }

    /// Empties the slot that `h` reads, if any, moving it to the next
    /// generation and onto the free list; says whether it did.
    pub fn remove(&mut self, h: SlabIndex) -> (r: bool)
        requires
            old(self).wf(),
        ensures
            final(self).wf(),
            r == (get_spec(old(self).slots(), h) is Some),
            removed(old(self).slots(), final(self).slots(), h),
    {
        if self.contains(h) {
            let i = h.index;
            let g: u64 = if h.generation < u64::MAX {
                h.generation + 1
            } else {
                h.generation
            };
            self.slots.set(i, Slot { generation: g, value: None });
            proof {
                assert(self.slots() =~= old(self).slots().update(
                    i as int,
                    (next_generation(h.generation), None::<T>),
                ));
                assert forall|k: int| 0 <= k < self.free.len() implies self.free@[k] != i by {
                    assert(old(self).slots@[old(self).free@[k] as int].value is None);
                }
            }
            if g < u64::MAX {
                self.free.push(i);
                proof {
                    assert(self.free@[self.free.len() - 1] == i);
                    assert forall|k: int| 0 <= k < self.free.len() - 1 implies self.free@[k]
                        == old(self).free@[k] by {}
                }
            }
            true
        } else {
            false
        }
    }

    /// The number of slots, occupied or not.
    pub fn slot_count(&self) -> (r: usize)
        ensures
            r == self.slots().len(),
    {
        self.slots.len()
    }

    /// The generation and occupant of slot `i`.
    pub fn slot(&self, i: usize) -> (r: (u64, Option<&T>))
        requires
            i < self.slots().len(),
        ensures
            r.0 == self.slots()[i as int].0,
            r.1 is None <==> self.slots()[i as int].1 is None,
            r.1 matches Some(v) ==> self.slots()[i as int].1 == Some(*v),
    {
        let s = &self.slots[i];
        match &s.value {
            Some(v) => (s.generation, Some(v)),
            None => (s.generation, None),
        }
    }

    /// Appends a slot in generation `generation` holding `value`; an empty,
    /// unretired slot joins the free list.
    pub fn push_slot(&mut self, generation: u64, value: Option<T>)
        requires
            old(self).wf(),
        ensures
            final(self).wf(),
            final(self).slots() == old(self).slots().push((generation, value)),
    {
        let i = self.slots.len();
        let empty = value.is_none();
        self.slots.push(Slot { generation, value });
        proof {
            assert(self.slots() =~= old(self).slots().push((generation, value)));
            assert forall|k: int| 0 <= k < self.free.len() implies {
                &&& #[trigger] self.free@[k] < self.slots.len()
                &&& self.slots@[self.free@[k] as int].value is None
                &&& self.slots@[self.free@[k] as int].generation < u64::MAX
            } by {
                assert(self.slots@[self.free@[k] as int] == old(self).slots@[self.free@[k] as int]);
            }
        }
        if empty && generation < u64::MAX {
            self.free.push(i);
            proof {
                assert forall|k: int| 0 <= k < self.free.len() - 1 implies self.free@[k]
                    == old(self).free@[k] && self.free@[k] < i by {}
            }
        }
    }

    /// The handles of all occupied slots, in index order.
    pub fn indices(&self) -> (r: Vec<SlabIndex>)
        ensures
            forall|k: int| 0 <= k < r.len() ==> get_spec(self.slots(), #[trigger] r@[k]) is Some,
            forall|j: int, k: int| 0 <= j < k < r.len() ==> #[trigger] r@[j].index < #[trigger] r@[k].index,
            forall|i: int|
                0 <= i < self.slots().len() && #[trigger] self.slots()[i].1 is Some ==> exists|k: int|
                    0 <= k < r.len() && #[trigger] r@[k] == (SlabIndex {
                        index: i as usize,
                        generation: self.slots()[i].0,
                    }),
    {
        let mut r: Vec<SlabIndex> = Vec::new();
        let mut i: usize = 0;
        while i < self.slots.len()
            invariant
                i <= self.slots.len(),
                forall|k: int| 0 <= k < r.len() ==> get_spec(self.slots(), #[trigger] r@[k]) is Some,
                forall|k: int| 0 <= k < r.len() ==> #[trigger] r@[k].index < i,
                forall|j: int, k: int| 0 <= j < k < r.len() ==> #[trigger] r@[j].index < #[trigger] r@[k].index,
                forall|m: int|
                    0 <= m < i && #[trigger] self.slots()[m].1 is Some ==> exists|k: int|
                        0 <= k < r.len() && #[trigger] r@[k] == (SlabIndex {
                            index: m as usize,
                            generation: self.slots()[m].0,
                        }),
            decreases self.slots.len() - i,
        {
            if self.slots[i].value.is_some() {
                let h = SlabIndex { index: i, generation: self.slots[i].generation };
                let ghost r_old = r@;
                r.push(h);
                proof {
                    assert(r@[r.len() - 1] == h);
                    assert forall|m: int|
                        0 <= m < i + 1 && #[trigger] self.slots()[m].1 is Some implies exists|k: int|
                            0 <= k < r.len() && #[trigger] r@[k] == (SlabIndex {
                                index: m as usize,
                                generation: self.slots()[m].0,
                            }) by {
                        if m < i {
                            let k = choose|k: int|
                                0 <= k < r_old.len() && #[trigger] r_old[k] == (SlabIndex {
                                    index: m as usize,
                                    generation: self.slots()[m].0,
                                });
                            assert(r@[k] == r_old[k]);
                        } else {
                            assert(r@[r.len() - 1] == h);
                        }
                    }
                }
            }
            i = i + 1;
        }
        r
    }
}

/// A handle taken before a removal reads nothing afterwards, even once a later
/// allocation has reused its slot; and the new handle differs from it.
pub proof fn lemma_stale_handle_after_reuse<T>(
    s0: Seq<SlotView<T>>,
    s1: Seq<SlotView<T>>,
    s2: Seq<SlotView<T>>,
    h: SlabIndex,
    v: T,
    r: SlabIndex,
)
    requires
        get_spec(s0, h) is Some,
        removed(s0, s1, h),
        allocated(s1, s2, v, r),
    ensures
        get_spec(s1, h) is None,
        get_spec(s2, h) is None,
        r != h,
{
}

} // verus!
