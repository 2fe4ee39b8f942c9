use vstd::prelude::*;

use crate::slot::{
    all_busy, all_empty, first_free, lemma_first_free_none, lemma_first_free_some,
    lemma_ring_index, lemma_ring_next, lemma_scan_from_found, released, ring_index, scan_from, SlotView,
};

verus! {

/// Why a slot-store operation was refused.
#[derive(Clone, Copy, Debug, PartialEq, Eq)]
pub enum SlotStoreError {
    /// The index lies outside the store.
    InvalidIndex,
    /// The slot is empty, not reserved.
    NotReserved,
    /// The slot already holds a value.
    Occupied,
}

/// Fixed-capacity slot storage: slots are reserved by a circular scan that
/// starts just after the slot reserved last, then filled, then emptied again.
pub struct SlotStore<T> {
    slots: Vec<SlotView<T>>,
    next: u32,
    capacity: u32,
}

impl<T> SlotStore<T> {
    /// Number of slots the store may hold.
    pub closed spec fn spec_capacity(&self) -> nat {
        self.capacity as nat
    }

    /// Where the next reservation scan starts.
    pub closed spec fn next_slot(&self) -> int {
        self.next as int
    }

    /// The state of every slot; before storage exists, every slot is empty.
    pub closed spec fn slots_view(&self) -> Seq<SlotView<T>> {
        if self.slots@.len() == self.capacity {
            self.slots@
        } else {
            all_empty::<T>(self.capacity as nat)
        }
    }

    /// The store's internal invariant.
    pub closed spec fn wf(&self) -> bool {
        &&& (self.slots@.len() == 0 || self.slots@.len() == self.capacity)
        &&& (self.capacity == 0 || self.next < self.capacity)
        &&& (self.capacity == 0 ==> self.next == 0)
    }

    /// The slot view has one entry per slot of capacity.
    pub proof fn lemma_view_len(&self)
        requires
            self.wf(),
        ensures
            self.slots_view().len() == self.spec_capacity(),
            self.spec_capacity() > 0 ==> 0 <= self.next_slot() < self.spec_capacity(),
    {
    }

    /// An empty store of `capacity` slots; storage is allocated on first use.
    pub fn new(capacity: u32) -> (r: SlotStore<T>)
        ensures
            r.wf(),
            r.spec_capacity() == capacity,
            r.next_slot() == 0,
            r.slots_view() == all_empty::<T>(capacity as nat),
    {
        SlotStore { slots: Vec::new(), next: 0, capacity }
    }

    fn ensure_storage(&mut self)
        requires
            old(self).wf(),
        ensures
            final(self).wf(),
            final(self).slots@.len() == final(self).capacity,
            final(self).capacity == old(self).capacity,
            final(self).next == old(self).next,
            final(self).slots_view() == old(self).slots_view(),
    {
        if self.slots.len() == self.capacity as usize {
            return;
        }
        let len = self.capacity as usize;
        let mut i: usize = 0;
        while i < len
            invariant
                i <= len,
                len == self.capacity,
                self.slots@.len() == i,
                self.next == old(self).next,
                self.capacity == old(self).capacity,
                old(self).wf(),
                old(self).slots@.len() == 0,
                forall|j: int| 0 <= j < i ==> #[trigger] self.slots@[j] is Empty,
            decreases len - i,
        {
            self.slots.push(SlotView::Empty);
            i = i + 1;
        }
        assert(self.slots@ =~= all_empty::<T>(self.capacity as nat));
    }

    /// Reserves the first empty slot met by a circular scan from the slot
    /// after the one reserved last.
    pub fn reserve(&mut self) -> (r: Option<usize>)
        requires
            old(self).wf(),
        ensures
            final(self).wf(),
            final(self).spec_capacity() == old(self).spec_capacity(),
            match r {
                Some(i) => {
                    &&& first_free(old(self).slots_view(), old(self).next_slot()) == Some(i as int)
                    &&& final(self).slots_view() == old(self).slots_view().update(i as int, SlotView::Reserved)
                    &&& final(self).next_slot() == (i + 1) % (old(self).spec_capacity() as int)
                },
                None => {
                    &&& first_free(old(self).slots_view(), old(self).next_slot()) is None
                    &&& final(self).slots_view() == old(self).slots_view()
                    &&& final(self).next_slot() == old(self).next_slot()
                },
            },
            r is None <==> all_busy(old(self).slots_view()),
    {
        let capacity = self.capacity as usize;
        let start = self.next as usize;
        let ghost old_view = self.slots_view();
        if capacity == 0 {
            return None;
        }
        self.ensure_storage();
        proof {
            lemma_scan_from_found(old_view, start as int, 0);
        }
        let mut offset: usize = 0;
        while offset < capacity
            invariant
                self.wf(),
                self.slots@.len() == capacity,
                capacity == self.capacity,
                0 < capacity,
                start == self.next,
                self.next == old(self).next,
                self.capacity == old(self).capacity,
                self.slots_view() == old_view,
                old_view == old(self).slots_view(),
                old_view.len() == capacity,
                offset <= capacity,
                first_free(old_view, start as int) == scan_from(old_view, start as int, offset as int),
            decreases capacity - offset,
        {
            let index = if offset >= capacity - start {
                offset - (capacity - start)
            } else {
                start + offset
            };
            proof {
                lemma_ring_index(start as int, offset as int, capacity as int);
                assert(index == ring_index(start as int, offset as int, capacity as int));
            }
            if self.slots[index].is_empty() {
                self.slots.set(index, SlotView::Reserved);
                let next = if index + 1 == capacity {
                    0
                } else {
                    index + 1
                };
                proof {
                    lemma_ring_next(index as int, capacity as int);
                    lemma_first_free_some(old_view, start as int);
                }
                self.next = next as u32;
                return Some(index);
            }
            offset = offset + 1;
        }
        proof {
            lemma_first_free_none(old_view, start as int);
        }
        None
    }

    /// Gives a reserved slot back.
    pub fn release(&mut self, index: usize) -> (r: Result<(), SlotStoreError>)
        requires
            old(self).wf(),
        ensures
            final(self).wf(),
            final(self).spec_capacity() == old(self).spec_capacity(),
            final(self).next_slot() == old(self).next_slot(),
            final(self).slots_view() == released(old(self).slots_view(), index as int),
            r == (if index >= old(self).spec_capacity() {
                Err::<(), SlotStoreError>(SlotStoreError::InvalidIndex)
            } else if old(self).slots_view()[index as int] is Reserved {
                Ok::<(), SlotStoreError>(())
            } else {
                Err::<(), SlotStoreError>(SlotStoreError::NotReserved)
            }),
    {
        if index >= self.capacity as usize {
            return Err(SlotStoreError::InvalidIndex);
        }
        if index >= self.slots.len() || !self.slots[index].is_reserved() {
            return Err(SlotStoreError::NotReserved);
        }
        self.slots.set(index, SlotView::Empty);
        Ok(())
    }

    /// Fills a reserved slot with `value`.
    pub fn insert(&mut self, index: usize, value: T) -> (r: Result<(), SlotStoreError>)
        requires
            old(self).wf(),
        ensures
            final(self).wf(),
            final(self).spec_capacity() == old(self).spec_capacity(),
            final(self).next_slot() == old(self).next_slot(),
            ({
                let before = old(self).slots_view();
                if index >= old(self).spec_capacity() {
                    r == Err::<(), SlotStoreError>(SlotStoreError::InvalidIndex) && final(self).slots_view() == before
                } else if before[index as int] is Reserved {
                    r == Ok::<(), SlotStoreError>(()) && final(self).slots_view() == before.update(
                        index as int,
                        SlotView::Occupied(value),
                    )
                } else if before[index as int] is Occupied {
                    r == Err::<(), SlotStoreError>(SlotStoreError::Occupied) && final(self).slots_view() == before
                } else {
                    r == Err::<(), SlotStoreError>(SlotStoreError::NotReserved) && final(self).slots_view() == before
                }
            }),
    {
        if index >= self.capacity as usize {
            return Err(SlotStoreError::InvalidIndex);
        }
        if index >= self.slots.len() {
            return Err(SlotStoreError::NotReserved);
        }
        if self.slots[index].is_occupied() {
            return Err(SlotStoreError::Occupied);
        }
        if !self.slots[index].is_reserved() {
            return Err(SlotStoreError::NotReserved);
        }
        self.slots.set(index, SlotView::Occupied(value));
        Ok(())
    }

    /// Mutable access to the value stored in slot `index`, if it is occupied.
    pub fn get_mut(&mut self, index: usize) -> (r: Option<&mut T>)
        requires
            old(self).wf(),
        ensures
            final(self).wf(),
            final(self).spec_capacity() == old(self).spec_capacity(),
            final(self).next_slot() == old(self).next_slot(),
            ({
                let before = old(self).slots_view();
                if index < old(self).spec_capacity() && before[index as int] is Occupied {
                    &&& r matches Some(x)
                    &&& *x == before[index as int]->0
                    &&& final(self).slots_view() == before.update(index as int, SlotView::Occupied(*final(x)))
                } else {
                    r is None && *final(self) == *old(self)
                }
            }),
    {
        if index >= self.slots.len() || index >= self.capacity as usize {
            return None;
        }
        if !self.slots[index].is_occupied() {
            return None;
        }
        match &mut self.slots[index] {
            SlotView::Occupied(value) => Some(value),
            _ => None,
        }
    }

    /// Takes the value out of slot `index`, emptying it.
    pub fn remove(&mut self, index: usize) -> (r: Option<T>)
        requires
            old(self).wf(),
        ensures
            final(self).wf(),
            final(self).spec_capacity() == old(self).spec_capacity(),
            final(self).next_slot() == old(self).next_slot(),
            ({
                let before = old(self).slots_view();
                if index < old(self).spec_capacity() && before[index as int] is Occupied {
                    r == Some(before[index as int]->0) && final(self).slots_view() == before.update(
                        index as int,
                        SlotView::Empty,
                    )
                } else {
                    r is None && final(self).slots_view() == before
                }
            }),
    {
        if index >= self.slots.len() || index >= self.capacity as usize {
            return None;
        }
        if !self.slots[index].is_occupied() {
            return None;
        }
        let mut taken = SlotView::Empty;
        std::mem::swap(&mut taken, &mut self.slots[index]);
        match taken {
            SlotView::Occupied(value) => Some(value),
            _ => None,
        }
    }
}

} // verus!
