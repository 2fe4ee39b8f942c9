use runic::extent::{Extent, ExtentId};
use runic::extent_table::{ExtentTable, ExtentTableError};
use runic::table_capacity::TableCapacity;

fn reusable_extent(id: ExtentId) -> Extent {
    let base = (id.get() as usize + 1) * 0x10_0000;
    Extent::new(id, base, 65_536)
}

fn table_with_capacity(capacity: usize) -> ExtentTable {
    ExtentTable::new(TableCapacity::new(capacity).unwrap())
}

#[test]
fn extent_table_respects_injected_capacity() {
    let mut table = table_with_capacity(2);

    assert_eq!(table.reserve().unwrap().id().get(), 0);
    assert_eq!(table.reserve().unwrap().id().get(), 1);
    assert_eq!(table.reserve(), None);
}

#[test]
fn extent_table_insert_get_round_trip() {
    let mut table = table_with_capacity(4);
    let reservation = table.reserve().unwrap();
    let extent = reusable_extent(reservation.id());

    let id = table.insert(reservation, extent).unwrap();
    assert_eq!(table.get(id).unwrap().id(), id);

    let extent = table.remove(id).unwrap();
    assert_eq!(extent.id(), id);
}

#[test]
fn extent_table_invalid_insert_releases_reservation() {
    let mut table = table_with_capacity(4);
    let reservation = table.reserve().unwrap();
    let released = reservation.id();
    let wrong_id = ExtentId::new(released.get() + 1).unwrap();
    let extent = reusable_extent(wrong_id);

    assert_eq!(
        table.insert(reservation, extent),
        Err(ExtentTableError::InvalidReservation)
    );

    for expected in 1..4 {
        assert_eq!(table.reserve().unwrap().id().get(), expected);
    }
    assert_eq!(table.reserve().unwrap().id(), released);
}

#[test]
fn extent_table_get_of_unfilled_slot_is_none() {
    let mut table = table_with_capacity(3);
    let reservation = table.reserve().unwrap();
    assert!(table.get(reservation.id()).is_none());
    assert!(table.remove(reservation.id()).is_none());
}

#[test]
fn extent_table_rejects_second_insert_into_filled_slot() {
    let mut table = table_with_capacity(3);
    let reservation = table.reserve().unwrap();
    let id = reservation.id();
    table.insert(reservation, reusable_extent(id)).unwrap();
    assert_eq!(
        table.insert(reservation, reusable_extent(id)),
        Err(ExtentTableError::Occupied)
    );
    assert_eq!(table.get(id).unwrap().base(), 0x10_0000);
}

#[test]
fn extent_table_removed_slot_is_reserved_again_in_turn() {
    let mut table = table_with_capacity(2);
    let first = table.reserve().unwrap();
    let second = table.reserve().unwrap();
    table.insert(first, reusable_extent(first.id())).unwrap();
    assert_eq!(table.reserve(), None);
    let removed = table.remove(first.id()).unwrap();
    assert_eq!(removed.len(), 65_536);
    assert_eq!(table.reserve().unwrap().id(), first.id());
    table.release(second);
    assert_eq!(table.reserve().unwrap().id(), second.id());
}

#[test]
fn extent_table_release_of_filled_slot_keeps_extent() {
    let mut table = table_with_capacity(2);
    let reservation = table.reserve().unwrap();
    let id = table.insert(reservation, reusable_extent(reservation.id())).unwrap();
    table.release(reservation);
    assert_eq!(table.get(id).unwrap().id(), id);
}

#[test]
fn extent_id_rejects_reserved_value() {
    assert_eq!(ExtentId::new(u32::MAX), None);
    assert_eq!(ExtentId::new(u32::MAX - 1).unwrap().get(), u32::MAX - 1);
}
