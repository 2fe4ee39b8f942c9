use runic::arena::{Arena, ArenaError, ArenaReservation};
use runic::extent::{Extent, ExtentId};
use runic::slot_store::{SlotStore, SlotStoreError};

#[test]
fn slot_store_errors_name_their_cause() {
    let mut store: SlotStore<u8> = SlotStore::new(2);
    assert_eq!(store.release(5), Err(SlotStoreError::InvalidIndex));
    assert_eq!(store.insert(0, 7), Err(SlotStoreError::NotReserved));
    let index = store.reserve().unwrap();
    assert_eq!(store.insert(index, 7), Ok(()));
    assert_eq!(store.insert(index, 8), Err(SlotStoreError::Occupied));
    assert_eq!(store.release(index), Err(SlotStoreError::NotReserved));
    *store.get_mut(index).unwrap() = 9;
    assert_eq!(store.remove(index), Some(9));
    assert_eq!(store.remove(index), None);
}

#[test]
fn slot_store_scan_wraps_around() {
    let mut store: SlotStore<u8> = SlotStore::new(3);
    assert_eq!(store.reserve(), Some(0));
    assert_eq!(store.reserve(), Some(1));
    assert_eq!(store.release(0), Ok(()));
    assert_eq!(store.reserve(), Some(2));
    assert_eq!(store.reserve(), Some(0));
    assert_eq!(store.reserve(), None);
}

#[test]
fn arena_error_from_slot_store_error() {
    assert_eq!(ArenaError::from(SlotStoreError::InvalidIndex), ArenaError::InvalidReservation);
    assert_eq!(ArenaError::from(SlotStoreError::NotReserved), ArenaError::InvalidReservation);
    assert_eq!(ArenaError::from(SlotStoreError::Occupied), ArenaError::Occupied);
}

#[test]
fn arena_holds_extents_by_id() {
    let mut arena: Arena<Extent, ExtentId> = Arena::new(2);
    let reservation = arena.reserve().unwrap();
    let id = reservation.id;
    let stored = arena.insert(reservation, Extent::new(id, 0x20_0000, 8192)).unwrap();
    assert_eq!(stored, id);
    assert_eq!(arena.get_mut(id).unwrap().base(), 0x20_0000);
    let outside = ExtentId::new(7).unwrap();
    assert_eq!(
        arena.insert(ArenaReservation { id: outside }, Extent::new(outside, 0, 4096)),
        Err(ArenaError::InvalidReservation)
    );
    assert_eq!(arena.remove(id).unwrap().len(), 8192);
    assert!(arena.remove(id).is_none());
}
