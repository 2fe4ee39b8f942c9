use vstd::prelude::*;

use crate::extent::{Extent, ExtentId, EXTENT_ID_MAX};
use crate::slot::{
    all_busy, all_empty, first_free, released, lemma_first_free_none, lemma_first_free_some,
    lemma_ring_index, lemma_ring_next, lemma_scan_from_found, ring_index, scan_from, SlotView,
};
use crate::table_capacity::{TableCapacity, TABLE_CAPACITY_MAX};

verus! {

/// Why an extent could not be stored in the table.
#[derive(Clone, Copy, Debug, PartialEq, Eq)]
pub enum ExtentTableError {
    /// The reservation does not name the extent's slot, or names no slot.
    InvalidReservation,
    /// The named slot is not in the reserved state.
    Occupied,
}

/// Proof that a slot of the extent table was reserved for one extent.
#[derive(Clone, Copy, Debug, PartialEq, Eq)]
pub struct ExtentReservation {
    id: ExtentId,
}

impl ExtentReservation {
    /// The id of the reserved slot.
    pub closed spec fn spec_id(self) -> ExtentId {
        self.id
    }

    /// The id of the reserved slot.
    pub fn id(self) -> (r: ExtentId)
        ensures
            r == self.spec_id(),
    {
        self.id
    }
}

const SLOT_EMPTY: u8 = 0;

const SLOT_RESERVED: u8 = 1;

const SLOT_OCCUPIED: u8 = 2;

/// Encoded state of one extent slot.
#[derive(Clone, Copy)]
struct SlotState(u8);

impl SlotState {
    fn empty() -> (r: SlotState)
        ensures
            r.0 == SLOT_EMPTY,
    {
        SlotState(SLOT_EMPTY)
    }

    fn reserved() -> (r: SlotState)
        ensures
            r.0 == SLOT_RESERVED,
    {
        SlotState(SLOT_RESERVED)
    }

    fn occupied() -> (r: SlotState)
        ensures
            r.0 == SLOT_OCCUPIED,
    {
        SlotState(SLOT_OCCUPIED)
    }

    fn is_empty(self) -> (r: bool)
        ensures
            r == (self.0 == SLOT_EMPTY),
    {
        self.0 == SLOT_EMPTY
    }

    fn is_reserved(self) -> (r: bool)
        ensures
            r == (self.0 == SLOT_RESERVED),
    {
        self.0 == SLOT_RESERVED
    }

    fn is_occupied(self) -> (r: bool)
        ensures
            r == (self.0 == SLOT_OCCUPIED),
    {
        self.0 == SLOT_OCCUPIED
    }
}

/// One slot: its state and, when occupied, the stored extent.
struct ExtentSlot {
    extent: Option<Extent>,
    state: SlotState,
}

impl ExtentSlot {
    spec fn wf(&self) -> bool {
        &&& self.state.0 <= SLOT_OCCUPIED
        &&& (self.extent is Some <==> self.state.0 == SLOT_OCCUPIED)
    }

    spec fn slot_view(&self) -> SlotView<Extent> {
        if self.state.0 == SLOT_EMPTY {
            SlotView::Empty
        } else if self.state.0 == SLOT_RESERVED {
            SlotView::Reserved
        } else {
            SlotView::Occupied(self.extent->0)
        }
    }

    fn vacant() -> (r: ExtentSlot)
        ensures
            r.wf(),
            r.slot_view() is Empty,
    {
        ExtentSlot { extent: None, state: SlotState::empty() }
    }

    fn reserve(&mut self) -> (r: bool)
        requires
            old(self).wf(),
        ensures
            final(self).wf(),
            r == (old(self).slot_view() is Empty),
            final(self).slot_view() == (if r { SlotView::Reserved } else { old(self).slot_view() }),
    {
        if !self.state.is_empty() {
            return false;
        }
        self.state = SlotState::reserved();
        true
    }

    fn release(&mut self)
        requires
            old(self).wf(),
        ensures
            final(self).wf(),
            final(self).slot_view() == (if old(self).slot_view() is Reserved {
                SlotView::Empty
            } else {
                old(self).slot_view()
            }),
    {
        if self.state.is_reserved() {
            self.state = SlotState::empty();
        }
    }

    fn insert(&mut self, extent: Extent) -> (r: bool)
        requires
            old(self).wf(),
        ensures
            final(self).wf(),
            r == (old(self).slot_view() is Reserved),
            final(self).slot_view() == (if r { SlotView::Occupied(extent) } else { old(self).slot_view() }),
    {
        if !self.state.is_reserved() {
            return false;
        }
        self.extent = Some(extent);
        self.state = SlotState::occupied();
        true
    }

    fn get(&self) -> (r: Option<&Extent>)
        requires
            self.wf(),
        ensures
            match self.slot_view() {
                SlotView::Occupied(e) => r matches Some(x) && *x == e,
                _ => r is None,
            },
    {
        if !self.state.is_occupied() {
            return None;
        }
        self.extent.as_ref()
    }

    fn remove(&mut self) -> (r: Option<Extent>)
        requires
            old(self).wf(),
        ensures
            final(self).wf(),
            match old(self).slot_view() {
                SlotView::Occupied(e) => r == Some(e) && final(self).slot_view() is Empty,
                _ => r is None && final(self).slot_view() == old(self).slot_view(),
            },
    {
        if !self.state.is_occupied() {
            return None;
        }
        self.state = SlotState::empty();
        self.extent.take()
    }
}

/// Storage for the slots of an extent table, allocated on first reservation.
struct ExtentSlots {
    slots: Vec<ExtentSlot>,
}

impl ExtentSlots {
    spec fn wf(&self) -> bool {
        forall|i: int| 0 <= i < self.slots.len() ==> (#[trigger] self.slots@[i]).wf()
    }

    spec fn slots_view(&self) -> Seq<SlotView<Extent>> {
        Seq::new(self.slots@.len(), |i: int| self.slots@[i].slot_view())
    }

    /// Storage for `len` empty slots. Like every other allocation of the
    /// library's metadata, a failure to allocate it ends the process.
    fn new(len: usize) -> (r: Option<ExtentSlots>)
        ensures
            r is Some,
            r matches Some(s) ==> s.wf() && s.slots.len() == len && s.slots_view() == all_empty::<Extent>(len as nat),
    {
        let mut slots: Vec<ExtentSlot> = Vec::with_capacity(len);
        let mut i: usize = 0;
        while i < len
            invariant
                i <= len,
                slots.len() == i,
                forall|j: int| 0 <= j < i ==> (#[trigger] slots@[j]).wf() && slots@[j].slot_view() is Empty,
            decreases len - i,
        {
            slots.push(ExtentSlot::vacant());
            i = i + 1;
        }
        let r = ExtentSlots { slots };
        assert(r.slots_view() =~= all_empty::<Extent>(len as nat));
        Some(r)
    }

    fn get(&self, index: usize) -> (r: Option<&ExtentSlot>)
        ensures
            index < self.slots.len() ==> (r matches Some(s) && *s == self.slots@[index as int]),
            index >= self.slots.len() ==> r is None,
    {
        if index < self.slots.len() {
            Some(&self.slots[index])
        } else {
            None
        }
    }

    fn get_mut(&mut self, index: usize) -> (r: Option<&mut ExtentSlot>)
        ensures
            index < old(self).slots.len() ==> (r matches Some(s) && *s == old(self).slots@[index as int]
                && final(self).slots@ == old(self).slots@.update(index as int, *final(s))),
            index >= old(self).slots.len() ==> r is None && *final(self) == *old(self),
    {
        if index < self.slots.len() {
            Some(&mut self.slots[index])
        } else {
            None
        }
    }
}

impl ExtentTable {
    fn slots_mut(&mut self) -> (r: Option<&mut ExtentSlots>)
        requires
            old(self).wf(),
        ensures
            match r {
                Some(s) => {
                    &&& s.wf()
                    &&& s.slots.len() == old(self).capacity.value()
                    &&& s.slots_view() == old(self).slots_view()
                    &&& final(self).slots == Some(*final(s))
                    &&& final(self).next == old(self).next
                    &&& final(self).capacity == old(self).capacity
                },
                None => false,
            },
    {
        if self.slots.is_none() {
            match ExtentSlots::new(self.capacity.get()) {
                Some(slots) => {
                    self.slots = Some(slots);
                },
                None => return None,
            }
        }
        match &mut self.slots {
            Some(slots) => Some(slots),
            None => None,
        }
    }
}

impl ExtentTable {
    fn index(id: ExtentId) -> (r: Option<usize>)
        ensures
            r == Some(id.value() as usize),
    {
        Some(id.get() as usize)
    }

    fn slots(&self) -> (r: Option<&ExtentSlots>)
        ensures
            match self.slots {
                Some(s) => r matches Some(x) && *x == s,
                None => r is None,
            },
    {
        self.slots.as_ref()
    }

    fn slot(&self, id: ExtentId) -> (r: Option<&ExtentSlot>)
        ensures
            match self.slots {
                Some(s) => if (id.value() as int) < s.slots.len() {
                    r matches Some(x) && *x == s.slots@[id.value() as int]
                } else {
                    r is None
                },
                None => r is None,
            },
    {
        let index = match Self::index(id) {
            Some(index) => index,
            None => return None,
        };
        match self.slots() {
            Some(slots) => slots.get(index),
            None => None,
        }
    }

    fn slot_mut(&mut self, id: ExtentId) -> (r: Option<&mut ExtentSlot>)
        ensures
            final(self).next == old(self).next,
            final(self).capacity == old(self).capacity,
            match old(self).slots {
                Some(s) => if (id.value() as int) < s.slots.len() {
                    &&& r matches Some(x)
                    &&& *x == s.slots@[id.value() as int]
                    &&& final(self).slots is Some
                    &&& final(self).slots->0.slots@ == s.slots@.update(id.value() as int, *final(x))
                } else {
                    r is None && *final(self) == *old(self)
                },
                None => r is None && *final(self) == *old(self),
            },
    {
        let index = match Self::index(id) {
            Some(index) => index,
            None => return None,
        };
        match &mut self.slots {
            Some(slots) => slots.get_mut(index),
            None => None,
        }
    }
}

/// A fixed-capacity table of extents whose slots are handed out by a
/// circular scan that starts just after the slot reserved last.
pub struct ExtentTable {
    slots: Option<ExtentSlots>,
    next: u32,
    capacity: TableCapacity,
}

impl ExtentTable {
    /// Number of slots the table may hold.
    pub closed spec fn spec_capacity(&self) -> nat {
        self.capacity.value()
    }

    /// Where the next reservation scan starts.
    pub closed spec fn next_slot(&self) -> int {
        self.next as int
    }

    /// Whether the slot storage has been allocated yet.
    pub closed spec fn has_storage(&self) -> bool {
        self.slots is Some
    }

    /// The state of every slot; before storage exists, every slot is empty.
    pub closed spec fn slots_view(&self) -> Seq<SlotView<Extent>> {
        match self.slots {
            Some(s) => s.slots_view(),
            None => all_empty::<Extent>(self.capacity.value()),
        }
    }

    /// The table's internal invariant.
    pub closed spec fn wf(&self) -> bool {
        &&& self.capacity.wf()
        &&& self.next < self.capacity.value()
        &&& match self.slots {
            Some(s) => s.wf() && s.slots.len() == self.capacity.value(),
            None => true,
        }
    }

    /// The slot view always has one entry per slot of capacity.
    pub proof fn lemma_view_len(&self)
        requires
            self.wf(),
        ensures
            self.slots_view().len() == self.spec_capacity(),
            1 <= self.spec_capacity() <= TABLE_CAPACITY_MAX,
            0 <= self.next_slot() < self.spec_capacity(),
    {
    }

    /// An empty table of `capacity` slots; storage is allocated on first use.
    pub fn new(capacity: TableCapacity) -> (r: ExtentTable)
        ensures
            r.wf(),
            !r.has_storage(),
            r.spec_capacity() == capacity.value(),
            r.next_slot() == 0,
            r.slots_view() == all_empty::<Extent>(capacity.value()),
    {
        let _ = capacity.get();
        ExtentTable { slots: None, next: 0, capacity }
    }

    /// Reserves the first empty slot met by a circular scan from the slot
    /// after the one reserved last; nothing is reserved exactly when every
    /// slot is busy. Storage for the slots is allocated on first use.
    pub fn reserve(&mut self) -> (r: Option<ExtentReservation>)
        requires
            old(self).wf(),
        ensures
            final(self).wf(),
            final(self).spec_capacity() == old(self).spec_capacity(),
            old(self).has_storage() ==> final(self).has_storage(),
            match r {
                Some(res) => {
                    &&& first_free(old(self).slots_view(), old(self).next_slot())
                        == Some(res.spec_id().value() as int)
                    &&& final(self).slots_view() == old(self).slots_view().update(
                        res.spec_id().value() as int,
                        SlotView::Reserved,
                    )
                    &&& final(self).next_slot() == (res.spec_id().value() + 1) % (
                    old(self).spec_capacity() as int)
                    &&& final(self).has_storage()
                },
                None => {
                    &&& final(self).slots_view() == old(self).slots_view()
                    &&& final(self).next_slot() == old(self).next_slot()
                    &&& (all_busy(old(self).slots_view()) || !final(self).has_storage())
                },
            },
            final(self).has_storage() ==> (r is None <==> all_busy(old(self).slots_view())),
            final(self).has_storage(),
            r is None <==> all_busy(old(self).slots_view()),
    {
        let capacity = self.capacity.get();
        let start = self.next as usize;
        let ghost old_view = self.slots_view();
        proof {
            lemma_scan_from_found(old_view, start as int, 0);
        }
        let mut offset: usize = 0;
        while offset < capacity
            invariant
                self.wf(),
                capacity == self.spec_capacity(),
                start == self.next_slot(),
                self.capacity == old(self).capacity,
                self.next == old(self).next,
                self.slots_view() == old_view,
                old_view == old(self).slots_view(),
                old_view.len() == capacity,
                old(self).slots is Some ==> self.slots is Some,
                offset > 0 ==> self.slots is Some,
                offset <= capacity,
                first_free(old_view, start as int) == scan_from(old_view, start as int, offset as int),
            decreases capacity - offset,
        {
            let index = if offset >= capacity - start {
                offset - (capacity - start)
            } else {
                start + offset
            };
            proof {
                lemma_ring_index(start as int, offset as int, capacity as int);
                assert(index == ring_index(start as int, offset as int, capacity as int));
                assert(index < capacity);
                assert(index as u32 == index);
            }
            let slots = match self.slots_mut() {
                Some(slots) => slots,
                None => return None,
            };
            assert(index < slots.slots.len());
            let slot = match slots.get_mut(index) {
                Some(slot) => slot,
                None => return None,
            };
            if slot.reserve() {
                let next = if index + 1 == capacity {
                    0
                } else {
                    index + 1
                };
                proof {
                    lemma_ring_next(index as int, capacity as int);
                    assert(self.slots_view() =~= old_view.update(index as int, SlotView::Reserved));
                }
                assert(capacity <= TABLE_CAPACITY_MAX);
                assert((index as u32) <= EXTENT_ID_MAX);
                self.next = next as u32;
                let id = match ExtentId::new(index as u32) {
                    Some(id) => id,
                    None => return None,
                };
                assert(old_view[index as int] is Empty);
                assert(scan_from(old_view, start as int, offset as int) == Some(index as int));
                assert(self.next_slot() == (index + 1) % (capacity as int));
                assert(self.has_storage());
                proof {
                    lemma_first_free_some(old_view, start as int);
                }
                return Some(ExtentReservation { id });
            }
            offset = offset + 1;
        }
        proof {
            lemma_first_free_none(old_view, start as int);
        }
        None
    }

    /// Gives a reserved slot back; a slot in any other state is left alone.
    pub fn release(&mut self, reservation: ExtentReservation)
        requires
            old(self).wf(),
        ensures
            final(self).wf(),
            final(self).spec_capacity() == old(self).spec_capacity(),
            final(self).next_slot() == old(self).next_slot(),
            final(self).has_storage() == old(self).has_storage(),
            final(self).slots_view() == released(old(self).slots_view(), reservation.spec_id().value() as int),
    {
        let slot = match self.slot_mut(reservation.id) {
            Some(slot) => slot,
            None => {
                proof {
                    self.lemma_view_len();
                }
                return;
            },
        };
        slot.release();
        proof {
            let i = reservation.spec_id().value() as int;
            assert(self.slots_view() =~= released(old(self).slots_view(), i));
        }
    }

    /// Stores `extent` in the slot its reservation names. The reservation
    /// must name the extent's own id, or it is released and refused; a slot
    /// that is not reserved is refused and left as it is.
    pub fn insert(&mut self, reservation: ExtentReservation, extent: Extent) -> (r: Result<ExtentId, ExtentTableError>)
        requires
            old(self).wf(),
        ensures
            final(self).wf(),
            final(self).spec_capacity() == old(self).spec_capacity(),
            final(self).next_slot() == old(self).next_slot(),
            final(self).has_storage() == old(self).has_storage(),
            ({
                let i = reservation.spec_id().value() as int;
                let before = old(self).slots_view();
                if reservation.spec_id() != extent.spec_id() {
                    r == Err::<ExtentId, ExtentTableError>(ExtentTableError::InvalidReservation)
                        && final(self).slots_view() == released(before, i)
                } else if !old(self).has_storage() || i >= old(self).spec_capacity() {
                    r == Err::<ExtentId, ExtentTableError>(ExtentTableError::InvalidReservation)
                        && final(self).slots_view() == before
                } else if before[i] is Reserved {
                    r == Ok::<ExtentId, ExtentTableError>(reservation.spec_id())
                        && final(self).slots_view() == before.update(i, SlotView::Occupied(extent))
                } else {
                    r == Err::<ExtentId, ExtentTableError>(ExtentTableError::Occupied)
                        && final(self).slots_view() == before
                }
            }),
    {
        proof {
            self.lemma_view_len();
        }
        if reservation.id != extent.id() {
            self.release(reservation);
            return Err(ExtentTableError::InvalidReservation);
        }
        let ghost before = self.slots_view();
        let slot = match self.slot_mut(reservation.id) {
            Some(slot) => slot,
            None => return Err(ExtentTableError::InvalidReservation),
        };
        if slot.insert(extent) {
            proof {
                let i = reservation.spec_id().value() as int;
                assert(self.slots_view() =~= before.update(i, SlotView::Occupied(extent)));
            }
            Ok(reservation.id)
        } else {
            slot.release();
            proof {
                assert(self.slots_view() =~= before);
            }
            Err(ExtentTableError::Occupied)
        }
    }

    /// The extent stored under `id`, if its slot is occupied.
    pub fn get(&self, id: ExtentId) -> (r: Option<&Extent>)
        requires
            self.wf(),
        ensures
            ({
                let i = id.value() as int;
                if i < self.spec_capacity() && self.slots_view()[i] is Occupied {
                    r matches Some(x) && *x == self.slots_view()[i]->0
                } else {
                    r is None
                }
            }),
    {
        match self.slot(id) {
            Some(slot) => slot.get(),
            None => None,
        }
    }

    /// Takes the extent stored under `id` out of the table, emptying its slot.
    pub fn remove(&mut self, id: ExtentId) -> (r: Option<Extent>)
        requires
            old(self).wf(),
        ensures
            final(self).wf(),
            final(self).spec_capacity() == old(self).spec_capacity(),
            final(self).next_slot() == old(self).next_slot(),
            final(self).has_storage() == old(self).has_storage(),
            ({
                let i = id.value() as int;
                let before = old(self).slots_view();
                if i < old(self).spec_capacity() && before[i] is Occupied {
                    r == Some(before[i]->0) && final(self).slots_view() == before.update(i, SlotView::Empty)
                } else {
                    r is None && final(self).slots_view() == before
                }
            }),
    {
        let ghost before = self.slots_view();
        let slot = match self.slot_mut(id) {
            Some(slot) => slot,
            None => return None,
        };
        let r = slot.remove();
        proof {
            let i = id.value() as int;
            if r is Some {
                assert(self.slots_view() =~= before.update(i, SlotView::Empty));
            } else {
                assert(self.slots_view() =~= before);
            }
        }
        r
    }
}

} // verus!
