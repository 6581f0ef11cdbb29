//! Stable-identifier storage.
//!
//! An [`Arena`] hands out an integer identifier for every value pushed into
//! it.  A live value is fetched, mutated or removed through its identifier
//! alone; removal leaves the slot vacant, so the identifiers of the other
//! values never move, and a vacated identifier is never handed out again.
//! Both the item store and the node store of the map are arenas.

use vstd::prelude::*;

verus! {

/// A container of values behind stable integer identifiers.
#[derive(Debug)]
pub struct Arena<T> {
    /// One slot per identifier ever handed out; `None` marks a removed value.
    slots: Vec<Option<T>>,
    /// How many values the arena is prepared for; never below the number of
    /// slots in use.
    cap: usize,
}

impl<T> Arena<T> {
    /// The slot sequence: position `id` holds the value behind identifier
    /// `id`, or `None` once it was removed.
    pub closed spec fn slots(&self) -> Seq<Option<T>> {
        self.slots@
    }

    /// Number of identifiers handed out so far.
    pub open spec fn slot_count(&self) -> nat {
        self.slots().len()
    }

    /// Does `id` refer to a value that is present?
    pub open spec fn is_live(&self, id: int) -> bool {
        0 <= id < self.slot_count() && self.slots()[id] is Some
    }

    /// The value behind a live identifier.
    pub open spec fn value_at(&self, id: int) -> T
        recommends
            self.is_live(id),
    {
        self.slots()[id].unwrap()
    }

    /// Declared capacity.
    pub closed spec fn spec_capacity(&self) -> usize {
        self.cap
    }

    /// Creates an empty arena.
    pub fn new() -> (a: Self)
        ensures
            a.slots() == Seq::<Option<T>>::empty(),
            a.spec_capacity() == 0,
    {
        Arena { slots: Vec::new(), cap: 0 }
    }

    /// Creates an empty arena prepared for `capacity` values.
    pub fn with_capacity(capacity: usize) -> (a: Self)
        ensures
            a.slots() == Seq::<Option<T>>::empty(),
            a.spec_capacity() == capacity,
    {
        Arena { slots: Vec::with_capacity(capacity), cap: capacity }
    }

    /// How many values the arena is prepared for.
    pub fn capacity(&self) -> (c: usize)
        ensures
            c == self.spec_capacity(),
    {
        self.cap
    }

    /// Stores `value` behind a fresh identifier and returns the identifier.
    pub fn push_back(&mut self, value: T) -> (id: usize)
        ensures
            id == old(self).slot_count(),
            final(self).slots() == old(self).slots().push(Some(value)),
            final(self).spec_capacity() == if old(self).spec_capacity()
                >= old(self).slot_count() + 1 {
                old(self).spec_capacity() as int
            } else {
                old(self).slot_count() + 1 as int
            },
    {
        let id = self.slots.len();
        self.slots.push(Some(value));
        if self.slots.len() > self.cap {
            self.cap = self.slots.len();
        }
        id
    }

    /// Number of identifiers handed out so far, vacant slots included.
    pub fn slots_len(&self) -> (n: usize)
        ensures
            n == self.slot_count(),
    {
        self.slots.len()
    }

    /// Is there a value behind `id`?
    pub fn contains(&self, id: usize) -> (r: bool)
        ensures
            r == self.is_live(id as int),
    {
        id < self.slots.len() && self.slots[id].is_some()
    }

    /// Fetches the value behind `id`, or `None` if `id` is vacant or was
    /// never handed out.
    pub fn get(&self, id: usize) -> (r: Option<&T>)
        ensures
            match r {
                Some(v) => self.is_live(id as int) && *v == self.value_at(id as int),
                None => !self.is_live(id as int),
            },
    {
        if id < self.slots.len() {
            self.slots[id].as_ref()
        } else {
            None
        }
    }

    /// Borrows the value behind a live identifier.
    pub fn borrow(&self, id: usize) -> (v: &T)
        requires
            self.is_live(id as int),
        ensures
            *v == self.value_at(id as int),
    {
        match self.slots[id].as_ref() {
            Some(v) => v,
            None => vstd::pervasive::unreached(),
        }
    }

    /// Mutably borrows the value behind a live identifier.
    pub fn get_mut(&mut self, id: usize) -> (v: &mut T)
        requires
            old(self).is_live(id as int),
        ensures
            *v == old(self).value_at(id as int),
            final(self).slots() == old(self).slots().update(id as int, Some(*final(v))),
            final(self).spec_capacity() == old(self).spec_capacity(),
    {
        let slot = &mut self.slots[id];
        match slot {
            Some(v) => v,
            None => vstd::pervasive::unreached(),
        }
    }

    /// Removes and returns the value behind a live identifier, leaving its
    /// slot vacant.  Passing a vacant or never-issued identifier is a
    /// contract violation, ruled out by the precondition.
    pub fn remove(&mut self, id: usize) -> (v: T)
        requires
            old(self).is_live(id as int),
        ensures
            v == old(self).value_at(id as int),
            final(self).slots() == old(self).slots().update(id as int, None),
            final(self).spec_capacity() == old(self).spec_capacity(),
    {
        let slot = &mut self.slots[id];
        match slot.take() {
            Some(v) => v,
            None => vstd::pervasive::unreached(),
        }
    }
}

} // verus!
