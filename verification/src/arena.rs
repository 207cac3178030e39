//! Append-only value storage shared by the DAG and the GUI, with the dirty
//! marks that tell the next frame what changed.
//!
//! Every port value lives in a slot; a [`PortId`] doubles as the index of
//! its slot. Slots are never deleted. The slot type is a parameter: the
//! framework stores type-erased boxes and checks their types on access.

use crate::graph::PortId;
use std::collections::HashSet;
use vstd::prelude::*;

verus! {

broadcast use vstd::std_specs::hash::group_hash_axioms;

/// Central value storage with per-slot dirty marks.
pub struct StateArena<V> {
    slots: Vec<V>,
    dirty: HashSet<u64>,
}

impl<V> StateArena<V> {
    /// The slot values, by slot index.
    pub closed spec fn slots(&self) -> Seq<V> {
        self.slots@
    }

    /// The indices of the slots marked dirty.
    pub closed spec fn dirty(&self) -> Set<u64> {
        self.dirty@
    }

    /// Creates an empty arena.
    pub fn new() -> (r: Self)
        ensures
            r.slots() == Seq::<V>::empty(),
            r.dirty() == Set::<u64>::empty(),
    {
        StateArena { slots: Vec::new(), dirty: HashSet::new() }
    }

    /// Allocates a slot with an initial value and returns its id. New slots
    /// are born dirty so the first frame processes them.
    pub fn alloc_with(&mut self, value: V) -> (id: PortId)
        requires
            old(self).slots().len() < u64::MAX,
        ensures
            id@ == old(self).slots().len(),
            final(self).slots() == old(self).slots().push(value),
            final(self).dirty() == old(self).dirty().insert(id@),
    {
        let id = PortId::new(self.slots.len() as u64);
        self.slots.push(value);
        self.dirty.insert(id.index());
        id
    }

    /// Allocates a slot holding the default value of `V`. New slots are
    /// born dirty so the first frame processes them.
    pub fn allocate(&mut self) -> (id: PortId)
        where
            V: Default,
        requires
            old(self).slots().len() < u64::MAX,
        ensures
            id@ == old(self).slots().len(),
            final(self).slots().len() == old(self).slots().len() + 1,
            final(self).slots().subrange(0, id@ as int) == old(self).slots(),
            call_ensures(V::default, (), final(self).slots()[id@ as int]),
            final(self).dirty() == old(self).dirty().insert(id@),
    {
        let id = self.alloc_with(V::default());
        proof {
            assert(self.slots@.subrange(0, id@ as int) =~= old(self).slots@);
        }
        id
    }

    /// Reads the value of slot `id`.
    pub fn read(&self, id: PortId) -> (r: &V)
        requires
            id@ < self.slots().len(),
        ensures
            *r == self.slots()[id@ as int],
    {
        let len = self.slots.len();
        let i = id.index() as usize;
        proof {
            assert(id@ < len);
            assert(i == id@);
        }
        &self.slots[i]
    }

    /// Writes a value into slot `id` and marks it dirty.
    pub fn write(&mut self, id: PortId, value: V)
        requires
            id@ < old(self).slots().len(),
        ensures
            final(self).slots() == old(self).slots().update(id@ as int, value),
            final(self).dirty() == old(self).dirty().insert(id@),
    {
        let len = self.slots.len();
        let i = id.index() as usize;
        proof {
            assert(id@ < len);
            assert(i == id@);
        }
        self.slots.set(i, value);
        self.dirty.insert(id.index());
    }

    /// Borrows slot `id` mutably and marks it dirty.
    pub fn read_mut(&mut self, id: PortId) -> (r: &mut V)
        requires
            id@ < old(self).slots().len(),
        ensures
            *r == old(self).slots()[id@ as int],
            final(self).slots() == old(self).slots().update(id@ as int, *final(r)),
            final(self).dirty() == old(self).dirty().insert(id@),
    {
        self.dirty.insert(id.index());
        let len = self.slots.len();
        let i = id.index() as usize;
        proof {
            assert(id@ < len);
            assert(i == id@);
        }
        &mut self.slots[i]
    }

    /// Marks slot `id` dirty. The graph's next tick evaluates the nodes
    /// reading from it, and the canvas redraws any render bindings on it.
    pub fn mark_dirty(&mut self, id: PortId)
        ensures
            final(self).slots() == old(self).slots(),
            final(self).dirty() == old(self).dirty().insert(id@),
    {
        self.dirty.insert(id.index());
    }

    /// Whether slot `id` is dirty.
    pub fn is_dirty(&self, id: PortId) -> (r: bool)
        ensures
            r == self.dirty().contains(id@),
    {
        self.dirty.contains(&id.index())
    }

    /// Drops all dirty marks, once every consumer has processed the frame.
    pub fn clear_dirty(&mut self)
        ensures
            final(self).slots() == old(self).slots(),
            final(self).dirty() == Set::<u64>::empty(),
    {
        self.dirty.clear();
    }

    /// Number of allocated slots.
    pub fn len(&self) -> (r: usize)
        ensures
            r == self.slots().len(),
    {
        self.slots.len()
    }
}

/// What one call does to the number of slots: an allocation adds one, and
/// every other call keeps it.
pub open spec fn slot_step<V>(before: StateArena<V>, after: StateArena<V>) -> bool {
    ||| after.slots().len() == before.slots().len()
    ||| after.slots().len() == before.slots().len() + 1
}

/// The arena is append-only: over any run of calls, where `arenas[k + 1]`
/// is the arena after a call made on `arenas[k]`, the number of slots never
/// decreases, so a slot that could be read earlier can still be read.
pub proof fn lemma_slots_never_removed<V>(arenas: Seq<StateArena<V>>, i: int, j: int)
    requires
        forall|k: int| 0 <= k < arenas.len() - 1 ==> #[trigger] slot_step(arenas[k], arenas[k + 1]),
        0 <= i <= j < arenas.len(),
    ensures
        arenas[i].slots().len() <= arenas[j].slots().len(),
    decreases j - i,
{
    if i < j {
        lemma_slots_never_removed(arenas, i + 1, j);
        assert(slot_step(arenas[i], arenas[i + 1]));
    }
}

impl<V> Default for StateArena<V> {
    fn default() -> (r: Self)
        ensures
            r.slots() == Seq::<V>::empty(),
            r.dirty() == Set::<u64>::empty(),
    {
        Self::new()
    }
}

} // verus!
