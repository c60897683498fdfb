//! The registry of live connections: a fixed number of reusable slots,
//! indexed by client id. An insert takes the lowest free slot, so an id
//! may be handed out again once its previous holder has been removed.

use vstd::prelude::*;

use crate::frame::ClientId;

verus! {

/// Why an insert was refused.
#[derive(Clone, Copy, Debug, PartialEq, Eq, Structural)]
pub enum TableError {
    /// Every slot is occupied: the configured maximum number of
    /// concurrent clients is reached.
    CapacityExceeded,
}

/// A fixed-capacity table of reusable slots.
pub struct ConnectionTable<T> {
    slots: Vec<Option<T>>,
}

impl<T> ConnectionTable<T> {
    /// The slots as they stand: `None` is free, `Some` holds a live
    /// connection's state.
    pub closed spec fn slots_view(self) -> Seq<Option<T>> {
        self.slots@
    }

    /// How many slots exist; fixed at construction.
    pub open spec fn capacity(self) -> nat {
        self.slots_view().len()
    }

    /// A table of `capacity` free slots.
    pub fn new(capacity: usize) -> (t: ConnectionTable<T>)
        ensures
            t.capacity() == capacity,
            forall|i: int| 0 <= i < capacity ==> t.slots_view()[i] is None,
    {
        let mut slots: Vec<Option<T>> = Vec::new();
        let mut i: usize = 0;
        while i < capacity
            invariant
                i <= capacity,
                slots@.len() == i,
                forall|j: int| 0 <= j < i ==> slots@[j] is None,
            decreases capacity - i,
        {
            slots.push(None);
            i += 1;
        }
        ConnectionTable { slots }
    }

    /// Stores a new connection in the lowest free slot and hands out that
    /// slot's index as the client id; refused only when every slot is
    /// taken.
    pub fn insert(&mut self, conn: T) -> (r: Result<ClientId, TableError>)
        ensures
            match r {
                Ok(id) => id < old(self).capacity() && old(self).slots_view()[id as int] is None
                    && (forall|j: int| 0 <= j < id ==> old(self).slots_view()[j] is Some)
                    && final(self).slots_view() == old(self).slots_view().update(
                    id as int,
                    Some(conn),
                ),
                Err(e) => e == TableError::CapacityExceeded && (forall|j: int|
                    0 <= j < old(self).capacity() ==> old(self).slots_view()[j] is Some)
                    && final(self).slots_view() == old(self).slots_view(),
            },
    {
        let len = self.slots.len();
        let mut i: usize = 0;
        while i < len
            invariant
                i <= len == self.slots@.len(),
                self.slots@ == old(self).slots_view(),
                forall|j: int| 0 <= j < i ==> self.slots@[j] is Some,
            decreases len - i,
        {
            if self.slots[i].is_none() {
                let slot = vstd::std_specs::vec::vec_index_mut(&mut self.slots, i);
                *slot = Some(conn);
                return Ok(i);
            }
            i += 1;
        }
        Err(TableError::CapacityExceeded)
    }

    /// The connection in slot `id`, if that slot is occupied. An id out
    /// of range or pointing at a free slot finds nothing.
    pub fn lookup(&self, id: ClientId) -> (r: Option<&T>)
        ensures
            match r {
                Some(c) => id < self.capacity() && self.slots_view()[id as int] == Some(*c),
                None => id >= self.capacity() || self.slots_view()[id as int] is None,
            },
    {
        if id >= self.slots.len() {
            return None;
        }
        match &self.slots[id] {
            Some(c) => Some(c),
            None => None,
        }
    }

    /// Mutable access to slot `id`; the caller may read, replace, or
    /// vacate it.
    pub fn slot_mut(&mut self, id: ClientId) -> (r: &mut Option<T>)
        requires
            id < old(self).capacity(),
        ensures
            *r == old(self).slots_view()[id as int],
            final(self).slots_view() == old(self).slots_view().update(id as int, *final(r)),
    {
        vstd::std_specs::vec::vec_index_mut(&mut self.slots, id)
    }

    /// Frees slot `id` and returns what it held; a later insert may hand
    /// the same id out again. Removing a free or out-of-range id does
    /// nothing.
    pub fn remove(&mut self, id: ClientId) -> (r: Option<T>)
        ensures
            id < old(self).capacity() ==> r == old(self).slots_view()[id as int]
                && final(self).slots_view() == old(self).slots_view().update(id as int, None),
            id >= old(self).capacity() ==> r is None
                && final(self).slots_view() == old(self).slots_view(),
    {
        if id >= self.slots.len() {
            return None;
        }
        let slot = vstd::std_specs::vec::vec_index_mut(&mut self.slots, id);
        slot.take()
    }

    /// How many slots the table was created with.
    pub fn capacity_exec(&self) -> (n: usize)
        ensures
            n == self.capacity(),
    {
        self.slots.len()
    }
}

} // verus!
