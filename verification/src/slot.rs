use vstd::prelude::*;
use vstd::arithmetic::div_mod::{lemma_mod_multiples_vanish, lemma_mod_self_0, lemma_small_mod};

verus! {

/// The abstract state of one slot of a reservation table.
///
/// A slot moves `Empty -> Reserved -> Occupied(value) -> Empty`; a reservation
/// can also be released straight back to `Empty`.
pub enum SlotView<T> {
    Empty,
    Reserved,
    Occupied(T),
}

impl<T> SlotView<T> {
    /// Whether the slot is free to be reserved.
    pub fn is_empty(&self) -> (r: bool)
        ensures
            r == (*self is Empty),
    {
        match self {
            SlotView::Empty => true,
            _ => false,
        }
    }

    /// Whether the slot is reserved and not yet filled.
    pub fn is_reserved(&self) -> (r: bool)
        ensures
            r == (*self is Reserved),
    {
        match self {
            SlotView::Reserved => true,
            _ => false,
        }
    }

    /// Whether the slot holds a value.
    pub fn is_occupied(&self) -> (r: bool)
        ensures
            r == (*self is Occupied),
    {
        match self {
            SlotView::Occupied(_) => true,
            _ => false,
        }
    }
}

/// A table of `len` slots that are all empty.
pub open spec fn all_empty<T>(len: nat) -> Seq<SlotView<T>> {
    Seq::new(len, |i: int| SlotView::<T>::Empty)
}

/// The table after giving back slot `i`: a reserved slot becomes empty, and
/// any other slot, or an index outside the table, leaves it unchanged.
pub open spec fn released<T>(slots: Seq<SlotView<T>>, i: int) -> Seq<SlotView<T>> {
    if 0 <= i < slots.len() && slots[i] is Reserved {
        slots.update(i, SlotView::Empty)
    } else {
        slots
    }
}

/// Every slot is reserved or occupied, so nothing can be reserved.
pub open spec fn all_busy<T>(slots: Seq<SlotView<T>>) -> bool {
    forall|i: int| 0 <= i < slots.len() ==> !(#[trigger] slots[i] is Empty)
}

/// The slot visited `offset` steps after `start` in a circular scan.
pub open spec fn ring_index(start: int, offset: int, len: int) -> int {
    (start + offset) % len
}

/// A scan step lands on `start + offset`, less `len` once it passes the
/// last slot.
pub proof fn lemma_ring_index(start: int, offset: int, len: int)
    requires
        0 <= start < len,
        0 <= offset < len,
    ensures
        ring_index(start, offset, len) == if start + offset >= len {
            start + offset - len
        } else {
            start + offset
        },
{
    let x = start + offset;
    if x >= len {
        lemma_mod_multiples_vanish(1, x - len, len);
        lemma_small_mod((x - len) as nat, len as nat);
    } else {
        lemma_small_mod(x as nat, len as nat);
    }
}

/// The slot after `index` in a ring of `len` slots: the next index, or the
/// first slot after the last.
pub proof fn lemma_ring_next(index: int, len: int)
    requires
        0 <= index < len,
    ensures
        (index + 1) % len == if index + 1 == len {
            0
        } else {
            index + 1
        },
{
    if index + 1 < len {
        lemma_small_mod((index + 1) as nat, len as nat);
    } else {
        lemma_mod_self_0(len);
    }
}

/// The first empty slot met by a circular scan that begins `offset` steps
/// after `start`, if the rest of the scan meets one.
pub open spec fn scan_from<T>(slots: Seq<SlotView<T>>, start: int, offset: int) -> Option<int>
    decreases slots.len() - offset,
{
    if offset < 0 || offset >= slots.len() {
        None
    } else if slots[ring_index(start, offset, slots.len() as int)] is Empty {
        Some(ring_index(start, offset, slots.len() as int))
    } else {
        scan_from(slots, start, offset + 1)
    }
}

/// The slot that a circular scan from `start` reserves: the first empty slot
/// at or after `start`, wrapping around once.
pub open spec fn first_free<T>(slots: Seq<SlotView<T>>, start: int) -> Option<int> {
    scan_from(slots, start, 0)
}

/// The slot a scan finds lies in the table and is empty.
pub proof fn lemma_scan_from_found<T>(slots: Seq<SlotView<T>>, start: int, offset: int)
    requires
        0 <= start < slots.len(),
    ensures
        scan_from(slots, start, offset) matches Some(i) ==> 0 <= i < slots.len() && slots[i] is Empty,
    decreases slots.len() - offset,
{
    if 0 <= offset < slots.len() {
        if !(slots[ring_index(start, offset, slots.len() as int)] is Empty) {
            lemma_scan_from_found(slots, start, offset + 1);
        }
    }
}

/// A scan from `offset` that passes only busy slots before step `k` finds
/// the slot `k` steps on when that slot is empty.
proof fn lemma_scan_from_reaches<T>(slots: Seq<SlotView<T>>, start: int, offset: int, k: int)
    requires
        0 <= start < slots.len(),
        0 <= offset <= k < slots.len(),
        forall|o: int| offset <= o < k ==> !(#[trigger] slots[(start + o) % (slots.len() as int)] is Empty),
        slots[(start + k) % (slots.len() as int)] is Empty,
    ensures
        scan_from(slots, start, offset) == Some((start + k) % (slots.len() as int)),
    decreases k - offset,
{
    if offset < k {
        assert(!(slots[(start + offset) % (slots.len() as int)] is Empty));
        lemma_scan_from_reaches(slots, start, offset + 1, k);
    }
}

/// The slot a circular scan from `start` reserves is the first empty slot
/// in forward order: when the slots `start`, `start + 1`, .. (wrapping
/// round after the last) are busy for the first `k` steps and the slot `k`
/// steps on is empty, that slot is the one found.
pub proof fn lemma_first_free_is_first_empty<T>(slots: Seq<SlotView<T>>, start: int, k: int)
    requires
        0 <= start < slots.len(),
        0 <= k < slots.len(),
        forall|o: int| 0 <= o < k ==> !(#[trigger] slots[(start + o) % (slots.len() as int)] is Empty),
        slots[(start + k) % (slots.len() as int)] is Empty,
    ensures
        first_free(slots, start) == Some((start + k) % (slots.len() as int)),
{
    lemma_scan_from_reaches(slots, start, 0, k);
}

/// A fresh table of at least one slot is not exhausted, and its first
/// reservation, scanning from slot 0, takes slot 0.
pub proof fn lemma_fresh_table_reserves_first<T>(len: nat)
    requires
        len >= 1,
    ensures
        !all_busy(all_empty::<T>(len)),
        first_free(all_empty::<T>(len), 0) == Some(0int),
{
    let slots = all_empty::<T>(len);
    assert(slots[0] is Empty);
    lemma_small_mod(0, len);
    lemma_first_free_is_first_empty(slots, 0, 0);
}

/// A scan that finds nothing from `offset` on passes only busy slots.
pub proof fn lemma_scan_from_none<T>(slots: Seq<SlotView<T>>, start: int, offset: int, o: int)
    requires
        0 <= start < slots.len(),
        0 <= offset <= o < slots.len(),
        scan_from(slots, start, offset) is None,
    ensures
        !(slots[ring_index(start, o, slots.len() as int)] is Empty),
    decreases o - offset,
{
    if offset < o {
        lemma_scan_from_none(slots, start, offset + 1, o);
    }
}

/// A full circular scan that finds nothing means every slot is busy.
pub proof fn lemma_first_free_none<T>(slots: Seq<SlotView<T>>, start: int)
    requires
        0 <= start < slots.len(),
        first_free(slots, start) is None,
    ensures
        all_busy(slots),
{
    let n = slots.len() as int;
    assert forall|i: int| 0 <= i < n implies !(#[trigger] slots[i] is Empty) by {
        let o = if i >= start { i - start } else { i + n - start };
        if i >= start {
            lemma_small_mod(i as nat, n as nat);
        } else {
            lemma_mod_multiples_vanish(1, i, n);
            lemma_small_mod(i as nat, n as nat);
        }
        assert(ring_index(start, o, n) == i);
        lemma_scan_from_none(slots, start, 0, o);
    }
}

/// A scan that finds a slot means some slot was empty.
pub proof fn lemma_first_free_some<T>(slots: Seq<SlotView<T>>, start: int)
    requires
        0 <= start < slots.len(),
        first_free(slots, start) is Some,
    ensures
        !all_busy(slots),
{
    lemma_scan_from_found(slots, start, 0);
    let i = first_free(slots, start)->0;
    assert(slots[i] is Empty);
}

/// A reservation is only ever handed out for an empty slot: an id whose slot
/// is reserved or holds a value is never handed out a second time.
pub proof fn lemma_reservation_is_fresh<T>(slots: Seq<SlotView<T>>, start: int)
    requires
        0 <= start < slots.len(),
    ensures
        first_free(slots, start) matches Some(i) ==> 0 <= i < slots.len() && slots[i] is Empty,
{
    lemma_scan_from_found(slots, start, 0);
}

/// A table hands out nothing exactly when every slot is reserved or holds a
/// value: the capacity is the only limit.
pub proof fn lemma_exhausted_iff_all_busy<T>(slots: Seq<SlotView<T>>, start: int)
    requires
        0 <= start < slots.len(),
    ensures
        first_free(slots, start) is None <==> all_busy(slots),
{
    if first_free(slots, start) is None {
        lemma_first_free_none(slots, start);
    } else {
        lemma_first_free_some(slots, start);
    }
}

/// The scan takes the slot it starts at when that slot is empty; so a fresh
/// table hands out slot 0 first, and each later reservation the slot after
/// the previous one while that slot is empty.
pub proof fn lemma_scan_prefers_start<T>(slots: Seq<SlotView<T>>, start: int)
    requires
        0 <= start < slots.len(),
        slots[start] is Empty,
    ensures
        first_free(slots, start) == Some(start),
{
    lemma_small_mod(start as nat, slots.len() as nat);
}

/// A fresh table of `n` slots hands out slot 0 first.
pub proof fn lemma_fresh_table_starts_at_zero<T>(n: nat)
    requires
        n > 0,
    ensures
        first_free(all_empty::<T>(n), 0) == Some(0int),
{
    lemma_scan_prefers_start(all_empty::<T>(n), 0);
}

/// Filling a reserved slot and reading it back gives the value stored;
/// taking the value out again leaves the slot empty, as does giving a
/// reservation back unfilled, and either way the slot can be reserved again.
pub proof fn lemma_slot_round_trip<T>(slots: Seq<SlotView<T>>, i: int, value: T)
    requires
        0 <= i < slots.len(),
        slots[i] is Reserved,
    ensures
        slots.update(i, SlotView::Occupied(value))[i] == SlotView::<T>::Occupied(value),
        slots.update(i, SlotView::Occupied(value)).update(i, SlotView::Empty)[i] is Empty,
        released(slots, i)[i] is Empty,
        first_free(released(slots, i), i) == Some(i),
{
    lemma_scan_prefers_start(released(slots, i), i);
}

} // verus!
