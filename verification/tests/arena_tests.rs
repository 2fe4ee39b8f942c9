use runic::arena::{Arena, ArenaError, ArenaId, ArenaReservation, ArenaValue};

#[derive(Clone, Copy, Debug, Eq, PartialEq)]
struct TestId(u32);

impl ArenaId for TestId {
    fn spec_index(self) -> u32 {
        self.0
    }

    fn index(self) -> u32 {
        self.0
    }

    fn lemma_index_determines_id(_a: Self, _b: Self) {}

    fn spec_from_index(index: u32) -> Option<Self> {
        Some(TestId(index))
    }

    fn from_index(index: u32) -> Option<Self> {
        Some(TestId(index))
    }
}

#[derive(Clone, Copy, Debug, Eq, PartialEq)]
struct TestValue(TestId);

impl ArenaValue<TestId> for TestValue {
    fn spec_id(&self) -> TestId {
        self.0
    }

    fn id(&self) -> TestId {
        self.0
    }
}

fn arena_with_capacity(capacity: usize) -> Arena<TestValue, TestId> {
    Arena::new(u32::try_from(capacity).unwrap())
}

#[test]
fn arena_zero_capacity_reserves_none() {
    let mut arena: Arena<TestValue, TestId> = Arena::new(0);
    assert_eq!(arena.reserve(), None);
}

#[test]
fn arena_reserves_ids_from_zero() {
    let mut arena = arena_with_capacity(4);
    assert_eq!(arena.reserve().unwrap().id.0, 0);
    assert_eq!(arena.reserve().unwrap().id.0, 1);
}

#[test]
fn arena_respects_injected_capacity() {
    let mut arena = arena_with_capacity(2);
    assert_eq!(arena.reserve().unwrap().id.0, 0);
    assert_eq!(arena.reserve().unwrap().id.0, 1);
    assert_eq!(arena.reserve(), None);
}

#[test]
fn arena_release_makes_reserved_slot_available() {
    let mut arena = arena_with_capacity(4);
    let first = arena.reserve().unwrap();
    let second = arena.reserve().unwrap();
    arena.release(first);
    assert_eq!(second.id.0, 1);
    for expected in 2..4 {
        assert_eq!(arena.reserve().unwrap().id.0, expected);
    }
    assert_eq!(arena.reserve().unwrap().id.0, 0);
}

#[test]
fn arena_insert_get_round_trip() {
    let mut arena = arena_with_capacity(4);
    let reservation = arena.reserve().unwrap();
    let value = TestValue(reservation.id);
    let id = arena.insert(reservation, value).unwrap();
    assert_eq!(arena.get_mut(id).unwrap().0, id);
    assert_eq!(arena.remove(id).unwrap().0, id);
}

#[test]
fn arena_rejects_occupied_slot() {
    let mut arena = arena_with_capacity(4);
    let reservation = arena.reserve().unwrap();
    let first = TestValue(reservation.id);
    let second = TestValue(reservation.id);
    let id = arena.insert(reservation, first).unwrap();
    assert_eq!(
        arena.insert(ArenaReservation { id }, second),
        Err(ArenaError::Occupied)
    );
    let _removed = arena.remove(id);
}

#[test]
fn arena_rejects_unreserved_insert() {
    let mut arena = arena_with_capacity(4);
    let id = TestId(0);
    let value = TestValue(TestId(1));
    assert_eq!(
        arena.insert(ArenaReservation { id }, value),
        Err(ArenaError::InvalidReservation)
    );
}

#[test]
fn arena_invalid_insert_releases_reservation() {
    let mut arena = arena_with_capacity(4);
    let reservation = arena.reserve().unwrap();
    let reserved_id = reservation.id;
    let wrong_value = TestValue(TestId(reserved_id.0 + 1));
    assert_eq!(
        arena.insert(reservation, wrong_value),
        Err(ArenaError::InvalidReservation)
    );
    for expected in 1..4 {
        assert_eq!(arena.reserve().unwrap().id.0, expected);
    }
    assert_eq!(arena.reserve().unwrap().id.0, 0);
}
