use vstd::prelude::*;

use crate::slot::{all_busy, all_empty, first_free, lemma_scan_from_found, released, SlotView};
use crate::slot_store::{SlotStore, SlotStoreError};

verus! {

/// Why an arena insertion was refused.
#[derive(Clone, Copy, Debug, PartialEq, Eq, Structural)]
pub enum ArenaError {
    /// The reservation does not name the value's slot, or its slot is not reserved.
    InvalidReservation,
    /// The reservation's slot already holds a value.
    Occupied,
}

/// The arena error a slot-store refusal stands for.
pub open spec fn arena_error_of(error: SlotStoreError) -> ArenaError {
    match error {
        SlotStoreError::InvalidIndex => ArenaError::InvalidReservation,
        SlotStoreError::NotReserved => ArenaError::InvalidReservation,
        SlotStoreError::Occupied => ArenaError::Occupied,
    }
}

impl From<SlotStoreError> for ArenaError {
    fn from(error: SlotStoreError) -> (r: ArenaError) {
        match error {
            SlotStoreError::InvalidIndex => ArenaError::InvalidReservation,
            SlotStoreError::NotReserved => ArenaError::InvalidReservation,
            SlotStoreError::Occupied => ArenaError::Occupied,
        }
    }
}

impl vstd::std_specs::convert::FromSpecImpl<SlotStoreError> for ArenaError {
    open spec fn obeys_from_spec() -> bool {
        true
    }

    open spec fn from_spec(error: SlotStoreError) -> ArenaError {
        arena_error_of(error)
    }
}

/// An identifier of arena entries, determined by the slot index it names.
pub trait ArenaId: Copy + Sized {
    /// The slot index this id names.
    spec fn spec_index(self) -> u32;

    /// An id is determined by the slot it names.
    proof fn lemma_index_determines_id(a: Self, b: Self)
        ensures
            a.spec_index() == b.spec_index() ==> a == b,
    ;

    /// The slot index this id names.
    fn index(self) -> (r: u32)
        ensures
            r == self.spec_index(),
    ;

    /// The id naming slot `index`, if that index can be an id.
    spec fn spec_from_index(index: u32) -> Option<Self>;

    /// The id naming slot `index`, if that index can be an id.
    fn from_index(index: u32) -> (r: Option<Self>)
        ensures
            r == Self::spec_from_index(index),
            r matches Some(id) ==> id.spec_index() == index,
    ;
}

/// A value stored in an arena, which knows its own id.
pub trait ArenaValue<Id: ArenaId> {
    /// The value's id.
    spec fn spec_id(&self) -> Id;

    /// The value's id.
    fn id(&self) -> (r: Id)
        ensures
            r == self.spec_id(),
    ;
}

/// Proof that an arena slot was reserved for one value.
#[derive(Clone, Copy, Debug, PartialEq, Eq)]
pub struct ArenaReservation<Id> {
    pub id: Id,
}

/// Out-of-line metadata storage: a fixed-capacity slot store whose entries
/// are named by ids of type `Id`.
pub struct Arena<T, Id> where Id: ArenaId {
    slots: SlotStore<T>,
    _id: core::marker::PhantomData<Id>,
}

impl<T, Id> Arena<T, Id> where Id: ArenaId, T: ArenaValue<Id> {
    /// Number of slots the arena may hold.
    pub closed spec fn spec_capacity(&self) -> nat {
        self.slots.spec_capacity()
    }

    /// Where the next reservation scan starts.
    pub closed spec fn next_slot(&self) -> int {
        self.slots.next_slot()
    }

    /// The state of every slot.
    pub closed spec fn slots_view(&self) -> Seq<SlotView<T>> {
        self.slots.slots_view()
    }

    /// The arena's internal invariant.
    pub closed spec fn wf(&self) -> bool {
        self.slots.wf()
    }

    /// The slot view has one entry per slot of capacity.
    pub proof fn lemma_view_len(&self)
        requires
            self.wf(),
        ensures
            self.slots_view().len() == self.spec_capacity(),
            self.spec_capacity() > 0 ==> 0 <= self.next_slot() < self.spec_capacity(),
    {
        self.slots.lemma_view_len();
    }

    /// An empty arena of `capacity` slots.
    pub fn new(capacity: u32) -> (r: Arena<T, Id>)
        ensures
            r.wf(),
            r.spec_capacity() == capacity,
            r.next_slot() == 0,
            r.slots_view() == all_empty::<T>(capacity as nat),
    {
        Arena { slots: SlotStore::new(capacity), _id: core::marker::PhantomData }
    }

    fn index(id: Id) -> (r: Option<usize>)
        ensures
            r == Some(id.spec_index() as usize),
    {
        Some(id.index() as usize)
    }

    fn id(index: usize) -> (r: Option<Id>)
        ensures
            r == (if index <= u32::MAX {
                Id::spec_from_index(index as u32)
            } else {
                None
            }),
            r matches Some(id) ==> id.spec_index() == index,
    {
        if index > u32::MAX as usize {
            return None;
        }
        Id::from_index(index as u32)
    }

    /// Reserves the first empty slot met by a circular scan from the slot
    /// after the one reserved last, and returns a reservation exactly when
    /// that slot's index is an id. When it is not, the slot is given back
    /// and nothing is reserved.
    pub fn reserve(&mut self) -> (r: Option<ArenaReservation<Id>>)
        requires
            old(self).wf(),
        ensures
            final(self).wf(),
            final(self).spec_capacity() == old(self).spec_capacity(),
            ({
                let before = old(self).slots_view();
                match first_free(before, old(self).next_slot()) {
                    Some(i) => {
                        &&& final(self).next_slot() == (i + 1) % (old(self).spec_capacity() as int)
                        &&& (r is Some <==> (i <= u32::MAX && Id::spec_from_index(i as u32) is Some))
                        &&& match r {
                            Some(res) => {
                                &&& Id::spec_from_index(i as u32) == Some(res.id)
                                &&& res.id.spec_index() == i
                                &&& final(self).slots_view() == before.update(i, SlotView::Reserved)
                            },
                            None => final(self).slots_view() == before,
                        }
                    },
                    None => {
                        &&& r is None
                        &&& final(self).slots_view() == before
                        &&& final(self).next_slot() == old(self).next_slot()
                    },
                }
            }),
            all_busy(old(self).slots_view()) ==> r is None,
    {
        let index = match self.slots.reserve() {
            Some(index) => index,
            None => return None,
        };
        match Self::id(index) {
            Some(id) => Some(ArenaReservation { id }),
            None => {
                let _ = self.slots.release(index);
                proof {
                    old(self).lemma_view_len();
                    lemma_scan_from_found(old(self).slots_view(), old(self).next_slot(), 0);
                    assert(self.slots_view() =~= old(self).slots_view());
                }
                None
            },
        }
    }

    /// Gives a reserved slot back; a slot in any other state is left alone.
    pub fn release(&mut self, reservation: ArenaReservation<Id>)
        requires
            old(self).wf(),
        ensures
            final(self).wf(),
            final(self).spec_capacity() == old(self).spec_capacity(),
            final(self).next_slot() == old(self).next_slot(),
            final(self).slots_view() == released(old(self).slots_view(), reservation.id.spec_index() as int),
    {
        let index = match Self::index(reservation.id) {
            Some(index) => index,
            None => return,
        };
        let _ = self.slots.release(index);
    }

    /// Stores `value` in the slot its reservation names. The reservation must
    /// name the value's own id, or it is released and refused.
    pub fn insert(&mut self, reservation: ArenaReservation<Id>, value: T) -> (r: Result<Id, ArenaError>)
        requires
            old(self).wf(),
        ensures
            final(self).wf(),
            final(self).spec_capacity() == old(self).spec_capacity(),
            final(self).next_slot() == old(self).next_slot(),
            ({
                let i = reservation.id.spec_index() as int;
                let before = old(self).slots_view();
                if reservation.id != value.spec_id() {
                    r == Err::<Id, ArenaError>(ArenaError::InvalidReservation)
                        && final(self).slots_view() == released(before, i)
                } else if i >= old(self).spec_capacity() || before[i] is Empty {
                    r == Err::<Id, ArenaError>(ArenaError::InvalidReservation)
                        && final(self).slots_view() == before
                } else if before[i] is Occupied {
                    r == Err::<Id, ArenaError>(ArenaError::Occupied) && final(self).slots_view() == before
                } else {
                    r == Ok::<Id, ArenaError>(reservation.id) && final(self).slots_view() == before.update(
                        i,
                        SlotView::Occupied(value),
                    )
                }
            }),
    {
        proof {
            Id::lemma_index_determines_id(reservation.id, value.spec_id());
        }
        if reservation.id.index() != value.id().index() {
            self.release(reservation);
            return Err(ArenaError::InvalidReservation);
        }
        let index = match Self::index(reservation.id) {
            Some(index) => index,
            None => return Err(ArenaError::InvalidReservation),
        };
        match self.slots.insert(index, value) {
            Ok(()) => Ok(reservation.id),
            Err(error) => Err(ArenaError::from(error)),
        }
    }

    /// Mutable access to the value stored under `id`, if its slot is occupied.
    pub fn get_mut(&mut self, id: Id) -> (r: Option<&mut T>)
        requires
            old(self).wf(),
        ensures
            final(self).wf(),
            final(self).spec_capacity() == old(self).spec_capacity(),
            final(self).next_slot() == old(self).next_slot(),
            ({
                let i = id.spec_index() as int;
                let before = old(self).slots_view();
                if i < old(self).spec_capacity() && before[i] is Occupied {
                    &&& r matches Some(x)
                    &&& *x == before[i]->0
                    &&& final(self).slots_view() == before.update(i, SlotView::Occupied(*final(x)))
                } else {
                    r is None && final(self).slots_view() == before
                }
            }),
    {
        let index = match Self::index(id) {
            Some(index) => index,
            None => return None,
        };
        self.slots.get_mut(index)
    }

    /// Takes the value stored under `id` out of the arena, emptying its slot.
    pub fn remove(&mut self, id: Id) -> (r: Option<T>)
        requires
            old(self).wf(),
        ensures
            final(self).wf(),
            final(self).spec_capacity() == old(self).spec_capacity(),
            final(self).next_slot() == old(self).next_slot(),
            ({
                let i = id.spec_index() as int;
                let before = old(self).slots_view();
                if i < old(self).spec_capacity() && before[i] is Occupied {
                    r == Some(before[i]->0) && final(self).slots_view() == before.update(i, SlotView::Empty)
                } else {
                    r is None && final(self).slots_view() == before
                }
            }),
    {
        let index = match Self::index(id) {
            Some(index) => index,
            None => return None,
        };
        self.slots.remove(index)
    }
}

} // verus!
