use vstd::prelude::*;

pub mod entry;
pub mod page;
pub mod table;

use crate::memory::{Mapping, PAGE_SIZE};
use entry::{encodable, encode, MapEntry, PageOwner};
use page::{
    l1_of, l2_of, lemma_indexes_of_page, lemma_page_indexes, mapping_has_page, spans_pages, Page,
    PageRange, ADDRESSABLE_PAGES, L1_ENTRIES, L2_ENTRIES,
};
use table::L1Table;

verus! {

/// Why a page-map update was refused.
#[derive(Clone, Copy, Debug, PartialEq, Eq, Structural)]
pub enum PageMapError {
    /// The pages or the owner cannot be described by the map.
    InvalidRange,
    /// Storage for a map table could not be allocated.
    MetadataAllocFailed,
    /// A page of the range already has an owner.
    Overlap,
    /// A page of the range is not owned by the expected owner.
    UnexpectedEntry,
}

/// Page-indexed lookup from addresses to the run or extent that owns them.
///
/// Pages are grouped 4096 to a second-level table, and second-level tables
/// are created on first use under a first-level table that covers 48-bit
/// addresses.
pub struct PageMap {
    l1: Option<L1Table>,
}

/// The entry of page `page` in first-level table `t`.
pub open spec fn table_entry(t: L1Table, page: int) -> MapEntry {
    t.entry_at(l1_of(page), l2_of(page))
}

impl PageMap {
    /// The entry recorded for page `page`.
    pub closed spec fn entry_at(&self, page: int) -> MapEntry {
        match self.l1 {
            Some(t) => if 0 <= page < ADDRESSABLE_PAGES {
                table_entry(t, page)
            } else {
                MapEntry::spec_empty()
            },
            None => MapEntry::spec_empty(),
        }
    }

    /// The owner of page `page`, if any.
    pub open spec fn owner_at(&self, page: int) -> Option<PageOwner> {
        self.entry_at(page).spec_owner()
    }

    /// Whether every page of `range` is unowned.
    pub open spec fn range_is_free(&self, range: PageRange) -> bool {
        forall|p: int| range.contains(p) ==> (#[trigger] self.owner_at(p)) is None
    }

    /// Whether every page of `range` is owned by `owner`.
    pub open spec fn range_is_owned_by(&self, range: PageRange, owner: PageOwner) -> bool {
        forall|p: int| range.contains(p) ==> #[trigger] self.owner_at(p) == Some(owner)
    }

    /// The map's internal invariant.
    pub closed spec fn wf(&self) -> bool {
        match self.l1 {
            Some(t) => t.wf(),
            None => true,
        }
    }

    /// A map in which no page has an owner.
    pub fn new() -> (r: PageMap)
        ensures
            r.wf(),
            forall|p: int| (#[trigger] r.owner_at(p)) is None,
    {
        proof {
            MapEntry::lemma_empty_unique(MapEntry::spec_empty());
        }
        PageMap { l1: None }
    }

    /// The owner of the page holding address `ptr`.
    pub fn get(&self, ptr: usize) -> (r: Option<PageOwner>)
        requires
            self.wf(),
        ensures
            r == self.owner_at(ptr as int / (PAGE_SIZE as int)),
    {
        let (l1_index, l2_index) = match Page::containing(ptr).indexes() {
            Some(ix) => ix,
            None => {
                proof {
                    MapEntry::lemma_empty_unique(MapEntry::spec_empty());
                }
                return None;
            },
        };
        let l1 = match self.l1() {
            Some(l1) => l1,
            None => {
                proof {
                    MapEntry::lemma_empty_unique(MapEntry::spec_empty());
                }
                return None;
            },
        };
        proof {
            lemma_page_indexes(ptr as int / (PAGE_SIZE as int));
        }
        match l1.page_entry(l1_index, l2_index) {
            Some(entry) => entry.owner(),
            None => {
                proof {
                    MapEntry::lemma_empty_unique(l1.entry_at(l1_index.value(), l2_index.value()));
                }
                None
            },
        }
    }

    fn l1(&self) -> (r: Option<&L1Table>)
        ensures
            match self.l1 {
                Some(t) => r matches Some(x) && *x == t,
                None => r is None,
            },
    {
        self.l1.as_ref()
    }
}

/// A page of a range lies in the map, and its indexes fall in the range's
/// segment under its first-level entry.
proof fn lemma_range_page(range: PageRange, p: int)
    requires
        range.wf(),
        range.contains(p),
    ensures
        0 <= p < ADDRESSABLE_PAGES,
        0 <= l2_of(p) < L2_ENTRIES,
        range.covers(l1_of(p), l2_of(p)),
{
    lemma_page_indexes(p);
    range.lemma_contains_iff_covers(p);
}

/// The page with indexes `(l1, l2)` in a range's segment lies in the range.
proof fn lemma_covered_page(range: PageRange, l1: int, l2: int)
    requires
        range.wf(),
        range.covers(l1, l2),
    ensures
        0 <= l1 < L1_ENTRIES,
        0 <= l2 < L2_ENTRIES,
        range.contains(l1 * (L2_ENTRIES as int) + l2),
        l1_of(l1 * (L2_ENTRIES as int) + l2) == l1,
        l2_of(l1 * (L2_ENTRIES as int) + l2) == l2,
{
    range.lemma_segments_nonempty();
    lemma_indexes_of_page(l1, l2);
    range.lemma_contains_iff_covers(l1 * (L2_ENTRIES as int) + l2);
}

impl PageMap {
    /// Whether first-level entry `l1` has a second-level table.
    pub closed spec fn has_l2_table(&self, l1: int) -> bool {
        match self.l1 {
            Some(t) => t.has_table(l1),
            None => false,
        }
    }

    /// Whether the second-level table of every page of `range` is in place,
    /// so that recording owners for the range allocates nothing.
    pub open spec fn range_tables_ready(&self, range: PageRange) -> bool {
        forall|p: int| range.contains(p) ==> #[trigger] self.has_l2_table(l1_of(p))
    }

    /// Whether the second-level table of every page of `mapping` is in place.
    pub open spec fn mapping_tables_ready(&self, mapping: Mapping) -> bool {
        forall|p: int| mapping_has_page(mapping, p) ==> #[trigger] self.has_l2_table(l1_of(p))
    }

    /// Every page keeps the owner it has in `other`.
    pub open spec fn same_owners(&self, other: &PageMap) -> bool {
        forall|p: int| #[trigger] self.owner_at(p) == other.owner_at(p)
    }

    /// Every page of `mapping` is unowned.
    pub open spec fn mapping_is_free(&self, mapping: Mapping) -> bool {
        forall|p: int| mapping_has_page(mapping, p) ==> (#[trigger] self.owner_at(p)) is None
    }

    /// Every page of `mapping` is owned by `owner`.
    pub open spec fn mapping_is_owned_by(&self, mapping: Mapping, owner: PageOwner) -> bool {
        forall|p: int| mapping_has_page(mapping, p) ==> #[trigger] self.owner_at(p) == Some(owner)
    }

    /// The owners of `other` with every page of `mapping` given to `owner`.
    pub open spec fn published_from(&self, other: &PageMap, mapping: Mapping, owner: PageOwner) -> bool {
        forall|p: int| #[trigger]
            self.owner_at(p) == if mapping_has_page(mapping, p) {
                Some(owner)
            } else {
                other.owner_at(p)
            }
    }

    /// The owners of `other` with every page of `mapping` cleared.
    pub open spec fn unpublished_from(&self, other: &PageMap, mapping: Mapping) -> bool {
        forall|p: int| #[trigger]
            self.owner_at(p) == if mapping_has_page(mapping, p) {
                None
            } else {
                other.owner_at(p)
            }
    }

    fn l1_or_init(&mut self) -> (r: Result<&mut L1Table, PageMapError>)
        requires
            old(self).wf(),
        ensures
            match r {
                Ok(t) => {
                    &&& t.wf()
                    &&& final(self).l1 == Some(*final(t))
                    &&& (old(self).l1 matches Some(o) ==> *t == o)
                    &&& (old(self).l1 is None ==> forall|l1: int| !#[trigger] (*t).has_table(l1))
                    &&& forall|p: int| 0 <= p < ADDRESSABLE_PAGES ==> #[trigger] table_entry(*t, p) == old(self).entry_at(p)
                },
                Err(_) => false,
            },
    {
        if self.l1.is_none() {
            self.l1 = Some(L1Table::new());
        }
        match &mut self.l1 {
            Some(l1) => Ok(l1),
            None => Err(PageMapError::MetadataAllocFailed),
        }
    }

    fn validate_insert(&self, range: PageRange) -> (r: Result<(), PageMapError>)
        requires
            self.wf(),
            range.wf(),
        ensures
            r is Ok <==> self.range_is_free(range),
            r is Err ==> r == Err::<(), PageMapError>(PageMapError::Overlap),
    {
        let l1 = match self.l1() {
            Some(l1) => l1,
            None => {
                proof {
                    MapEntry::lemma_empty_unique(MapEntry::spec_empty());
                }
                return Ok(());
            },
        };
        let empty = MapEntry::empty();
        let segments = range.segments();
        proof {
            range.lemma_segments_nonempty();
            MapEntry::lemma_empty_unique(empty);
        }
        let mut k: usize = 0;
        while k < segments.len()
            invariant
                self.wf(),
                self.l1 == Some(*l1),
                l1.wf(),
                range.wf(),
                range.segments_of(segments@),
                0 <= range.first_l1() <= range.last_l1() < L1_ENTRIES,
                empty == MapEntry::spec_empty(),
                empty.spec_is_empty(),
                k <= segments.len(),
                forall|a: int, b: int| range.covers(a, b) && a < range.first_l1() + k ==> (#[trigger] l1.entry_at(a, b)).spec_is_empty(),
            decreases segments.len() - k,
        {
            let segment = segments[k];
            let ghost l1k = range.first_l1() + k;
            let entry = match l1.entry(segment.l1) {
                Ok(entry) => entry,
                Err(error) => return Err(error),
            };
            let owned = match entry.owns_segment(segment.l2, empty) {
                Ok(owned) => owned,
                Err(error) => return Err(error),
            };
            if !owned {
                proof {
                    let l2 = choose|l2: int| segment.l2.spec_start() <= l2 < segment.l2.spec_end() && #[trigger] entry.entry_at(l2) != empty;
                    assert(range.covers(l1k, l2));
                    lemma_covered_page(range, l1k, l2);
                    let p = l1k * (L2_ENTRIES as int) + l2;
                    MapEntry::lemma_empty_unique(l1.entry_at(l1k, l2));
                    assert(self.owner_at(p) is Some);
                }
                return Err(PageMapError::Overlap);
            }
            proof {
                assert forall|a: int, b: int| range.covers(a, b) && a < range.first_l1() + k + 1 implies (#[trigger] l1.entry_at(a, b)).spec_is_empty() by {
                    if a == l1k {
                        assert(segment.l1.value() == l1k);
                        assert(segment.l2.spec_start() <= b < segment.l2.spec_end());
                        assert(entry.entry_at(b) == empty);
                        assert(l1.entry_at(a, b) == empty);
                    }
                }
            }
            k = k + 1;
        }
        proof {
            assert forall|p: int| range.contains(p) implies (#[trigger] self.owner_at(p)) is None by {
                lemma_range_page(range, p);
            }
        }
        Ok(())
    }

    fn validate_remove(&self, range: PageRange, expected: PageOwner) -> (r: Result<(), PageMapError>)
        requires
            self.wf(),
            range.wf(),
        ensures
            !encodable(expected) ==> r == Err::<(), PageMapError>(PageMapError::InvalidRange),
            encodable(expected) ==> (r is Ok <==> self.range_is_owned_by(range, expected)),
            encodable(expected) && r is Err ==> r == Err::<(), PageMapError>(PageMapError::UnexpectedEntry),
    {
        let expected_entry = match MapEntry::from_owner(expected) {
            Some(entry) => entry,
            None => return Err(PageMapError::InvalidRange),
        };
        let l1 = match self.l1() {
            Some(l1) => l1,
            None => {
                proof {
                    lemma_range_page(range, range.first_page());
                    MapEntry::lemma_empty_unique(MapEntry::spec_empty());
                    assert(!self.range_is_owned_by(range, expected)) by {
                        assert(self.owner_at(range.first_page()) is None);
                    }
                }
                return Err(PageMapError::UnexpectedEntry);
            },
        };
        let segments = range.segments();
        proof {
            range.lemma_segments_nonempty();
        }
        let mut k: usize = 0;
        while k < segments.len()
            invariant
                self.wf(),
                self.l1 == Some(*l1),
                l1.wf(),
                range.wf(),
                range.segments_of(segments@),
                0 <= range.first_l1() <= range.last_l1() < L1_ENTRIES,
                encodable(expected),
                expected_entry.word() == encode(expected),
                !expected_entry.spec_is_empty(),
                k <= segments.len(),
                forall|a: int, b: int| range.covers(a, b) && a < range.first_l1() + k ==> #[trigger] l1.entry_at(a, b) == expected_entry,
            decreases segments.len() - k,
        {
            let segment = segments[k];
            let ghost l1k = range.first_l1() + k;
            let entry = match l1.entry(segment.l1) {
                Ok(entry) => entry,
                Err(error) => return Err(error),
            };
            let owned = match entry.owns_segment(segment.l2, expected_entry) {
                Ok(owned) => owned,
                Err(error) => return Err(error),
            };
            if !owned {
                proof {
                    let l2 = choose|l2: int| segment.l2.spec_start() <= l2 < segment.l2.spec_end() && #[trigger] entry.entry_at(l2) != expected_entry;
                    assert(range.covers(l1k, l2));
                    lemma_covered_page(range, l1k, l2);
                    let p = l1k * (L2_ENTRIES as int) + l2;
                    MapEntry::lemma_decode_encode(l1.entry_at(l1k, l2), expected);
                    MapEntry::lemma_word_injective(l1.entry_at(l1k, l2), expected_entry);
                    assert(self.owner_at(p) != Some(expected));
                }
                return Err(PageMapError::UnexpectedEntry);
            }
            proof {
                assert forall|a: int, b: int| range.covers(a, b) && a < range.first_l1() + k + 1 implies #[trigger] l1.entry_at(a, b) == expected_entry by {
                    if a == l1k {
                        assert(segment.l1.value() == l1k);
                        assert(segment.l2.spec_start() <= b < segment.l2.spec_end());
                        assert(entry.entry_at(b) == expected_entry);
                    }
                }
            }
            k = k + 1;
        }
        proof {
            assert forall|p: int| range.contains(p) implies #[trigger] self.owner_at(p) == Some(expected) by {
                lemma_range_page(range, p);
                MapEntry::lemma_decode_encode(self.entry_at(p), expected);
            }
        }
        Ok(())
    }
}

impl PageMap {
    fn prepare_insert(&mut self, range: PageRange) -> (r: Result<(), PageMapError>)
        requires
            old(self).wf(),
            range.wf(),
        ensures
            final(self).wf(),
            final(self).same_owners(old(self)),
            forall|p: int| #[trigger] final(self).entry_at(p) == old(self).entry_at(p),
            r is Ok ==> final(self).l1 is Some && forall|l1: int| range.first_l1() <= l1 <= range.last_l1() ==> #[trigger] final(self).l1->0.has_table(l1),
            r is Err ==> r == Err::<(), PageMapError>(PageMapError::MetadataAllocFailed),
            (forall|l1: int| range.first_l1() <= l1 <= range.last_l1() ==> #[trigger] old(self).has_l2_table(l1)) ==> r is Ok,
            r is Ok,
            forall|l1: int| #[trigger] old(self).has_l2_table(l1) ==> final(self).has_l2_table(l1),
    {
        let segments = range.segments();
        let l1 = match self.l1_or_init() {
            Ok(l1) => l1,
            Err(error) => return Err(error),
        };
        let ghost t0 = *l1;
        proof {
            if forall|l1: int| range.first_l1() <= l1 <= range.last_l1() ==> #[trigger] old(self).has_l2_table(l1) {
                assert forall|l1: int| range.first_l1() <= l1 <= range.last_l1() implies #[trigger] t0.has_table(l1) by {
                    assert(old(self).has_l2_table(l1));
                }
            }
        }
        let r = l1.ensure_l2_tables(range, &segments);
        proof {
            assert forall|l1: int| #[trigger] old(self).has_l2_table(l1) implies self.has_l2_table(l1) by {
                assert(t0.has_table(l1));
            }
            assert forall|p: int| #[trigger] self.entry_at(p) == old(self).entry_at(p) by {
                if 0 <= p < ADDRESSABLE_PAGES {
                    assert(table_entry(t0, p) == old(self).entry_at(p));
                } else {
                    MapEntry::lemma_empty_unique(MapEntry::spec_empty());
                }
            }
        }
        r
    }

    fn insert(&mut self, range: PageRange, entry: PageOwner) -> (r: Result<(), PageMapError>)
        requires
            old(self).wf(),
            range.wf(),
        ensures
            final(self).wf(),
            !encodable(entry) ==> r == Err::<(), PageMapError>(PageMapError::InvalidRange),
            encodable(entry) && !old(self).range_is_free(range) ==> r == Err::<(), PageMapError>(PageMapError::Overlap),
            encodable(entry) && old(self).range_is_free(range) ==> (r is Ok || r == Err::<(), PageMapError>(PageMapError::MetadataAllocFailed)),
            encodable(entry) && old(self).range_is_free(range) && old(self).range_tables_ready(range) ==> r is Ok,
            encodable(entry) && old(self).range_is_free(range) ==> r is Ok,
            forall|l1: int| #[trigger] old(self).has_l2_table(l1) ==> final(self).has_l2_table(l1),
            r is Ok ==> final(self).range_tables_ready(range),
            r is Ok ==> forall|p: int| #[trigger] final(self).owner_at(p) == if range.contains(p) {
                Some(entry)
            } else {
                old(self).owner_at(p)
            },
            r is Err ==> final(self).same_owners(old(self)),
    {
        let occupied = match MapEntry::from_owner(entry) {
            Some(occupied) => occupied,
            None => return Err(PageMapError::InvalidRange),
        };
        match self.validate_insert(range) {
            Ok(()) => {},
            Err(error) => return Err(error),
        }
        proof {
            if self.range_tables_ready(range) {
                range.lemma_segments_nonempty();
                assert forall|l1: int| range.first_l1() <= l1 <= range.last_l1() implies #[trigger] self.has_l2_table(l1) by {
                    lemma_covered_page(range, l1, range.seg_lo(l1));
                    assert(range.contains(l1 * (L2_ENTRIES as int) + range.seg_lo(l1)));
                }
            }
        }
        match self.prepare_insert(range) {
            Ok(()) => {},
            Err(error) => return Err(error),
        }
        let ghost prepared = *self;
        let segments = range.segments();
        proof {
            let t = self.l1->0;
            assert forall|a: int, b: int| range.covers(a, b) implies (#[trigger] t.entry_at(a, b)).spec_is_empty() by {
                lemma_covered_page(range, a, b);
                let p = a * (L2_ENTRIES as int) + b;
                assert(old(self).owner_at(p) is None);
                assert(self.entry_at(p) == old(self).entry_at(p));
            }
        }
        let result = match &mut self.l1 {
            Some(l1) => l1.assign_segments(range, &segments, occupied),
            None => Err(PageMapError::MetadataAllocFailed),
        };
        if let Err(error) = result {
            self.rollback_insert(range, occupied);
            return Err(error);
        }
        proof {
            assert forall|p: int| #[trigger] self.owner_at(p) == if range.contains(p) {
                Some(entry)
            } else {
                old(self).owner_at(p)
            } by {
                if 0 <= p < ADDRESSABLE_PAGES {
                    lemma_page_indexes(p);
                    range.lemma_contains_iff_covers(p);
                    assert(prepared.entry_at(p) == old(self).entry_at(p));
                }
            }
        }
        Ok(())
    }

    fn remove(&mut self, range: PageRange, expected: PageOwner) -> (r: Result<(), PageMapError>)
        requires
            old(self).wf(),
            range.wf(),
        ensures
            final(self).wf(),
            !encodable(expected) ==> r == Err::<(), PageMapError>(PageMapError::InvalidRange),
            encodable(expected) ==> (r is Ok <==> old(self).range_is_owned_by(range, expected)),
            encodable(expected) && r is Err ==> r == Err::<(), PageMapError>(PageMapError::UnexpectedEntry),
            forall|l1: int| #[trigger] old(self).has_l2_table(l1) ==> final(self).has_l2_table(l1),
            r is Ok ==> forall|p: int| #[trigger] final(self).owner_at(p) == if range.contains(p) {
                None
            } else {
                old(self).owner_at(p)
            },
            r is Err ==> final(self).same_owners(old(self)),
    {
        match self.validate_remove(range, expected) {
            Ok(()) => {},
            Err(error) => return Err(error),
        }
        let segments = range.segments();
        proof {
            lemma_range_page(range, range.first_page());
            MapEntry::lemma_empty_unique(MapEntry::spec_empty());
            assert(self.owner_at(range.first_page()) == Some(expected));
            assert(self.l1 is Some);
            let t = self.l1->0;
            assert forall|a: int, b: int| range.covers(a, b) implies !(#[trigger] t.entry_at(a, b)).spec_is_empty() by {
                lemma_covered_page(range, a, b);
                let p = a * (L2_ENTRIES as int) + b;
                assert(old(self).owner_at(p) == Some(expected));
            }
        }
        let result = match &mut self.l1 {
            Some(l1) => l1.clear_segments(range, &segments),
            None => Err(PageMapError::UnexpectedEntry),
        };
        match result {
            Ok(()) => {},
            Err(error) => return Err(error),
        }
        proof {
            assert forall|p: int| #[trigger] self.owner_at(p) == if range.contains(p) {
                None
            } else {
                old(self).owner_at(p)
            } by {
                if 0 <= p < ADDRESSABLE_PAGES {
                    lemma_page_indexes(p);
                    range.lemma_contains_iff_covers(p);
                }
            }
        }
        Ok(())
    }

    /// Whether every page of `range` under the same first-level entry as
    /// `page` records `entry`.
    pub open spec fn group_records(&self, range: PageRange, page: int, entry: MapEntry) -> bool {
        forall|q: int| range.contains(q) && l1_of(q) == l1_of(page) ==> #[trigger] self.entry_at(q) == entry
    }

    /// Empties the pages of `range` whose whole group under one first-level
    /// entry records `entry`; every other page keeps its entry.
    fn rollback_insert(&mut self, range: PageRange, entry: MapEntry)
        requires
            old(self).wf(),
            range.wf(),
            !entry.spec_is_empty(),
        ensures
            final(self).wf(),
            forall|l1: int| #[trigger] old(self).has_l2_table(l1) ==> final(self).has_l2_table(l1),
            forall|p: int| #[trigger] final(self).entry_at(p) == if range.contains(p) && old(self).group_records(
                range,
                p,
                entry,
            ) {
                MapEntry::spec_empty()
            } else {
                old(self).entry_at(p)
            },
    {
        if self.l1.is_none() {
            proof {
                MapEntry::lemma_empty_unique(entry);
                assert forall|p: int| #[trigger] self.entry_at(p) == if range.contains(p) && old(self).group_records(
                    range,
                    p,
                    entry,
                ) {
                    MapEntry::spec_empty()
                } else {
                    old(self).entry_at(p)
                } by {
                    if range.contains(p) && old(self).group_records(range, p, entry) {
                        assert(old(self).entry_at(p) == entry);
                    }
                }
            }
            return;
        }
        let segments = range.segments();
        match &mut self.l1 {
            Some(l1) => l1.rollback_segments(range, &segments, entry),
            None => {},
        }
        proof {
            let t = old(self).l1->0;
            assert forall|p: int| #[trigger] self.entry_at(p) == if range.contains(p) && old(self).group_records(
                range,
                p,
                entry,
            ) {
                MapEntry::spec_empty()
            } else {
                old(self).entry_at(p)
            } by {
                if 0 <= p < ADDRESSABLE_PAGES {
                    lemma_page_indexes(p);
                    range.lemma_contains_iff_covers(p);
                    let (l1p, l2p) = (l1_of(p), l2_of(p));
                    if range.contains(p) {
                        if t.segment_records(range, l1p, entry) {
                            assert forall|q: int| range.contains(q) && l1_of(q) == l1_of(p) implies #[trigger] old(self).entry_at(q) == entry by {
                                lemma_range_page(range, q);
                                assert(t.entry_at(l1p, l2_of(q)) == entry);
                            }
                        }
                        if old(self).group_records(range, p, entry) {
                            assert forall|l2: int| range.seg_lo(l1p) <= l2 < range.seg_hi(l1p) implies #[trigger] t.entry_at(l1p, l2) == entry by {
                                lemma_covered_page(range, l1p, l2);
                                let q = l1p * (L2_ENTRIES as int) + l2;
                                assert(old(self).entry_at(q) == entry);
                            }
                        }
                    }
                } else {
                    if range.contains(p) {
                        lemma_range_page(range, p);
                    }
                }
            }
        }
    }

    /// Records `run` as the owner of every page of `mapping`. The mapping
    /// must span whole pages the map can describe, `run` must be an
    /// encodable metadata address, and no page may already have an owner.
    pub fn publish_run(&mut self, mapping: &Mapping, run: usize) -> (r: Result<(), PageMapError>)
        requires
            old(self).wf(),
        ensures
            final(self).wf(),
            !spans_pages(*mapping) || !encodable(PageOwner::Run(run)) ==> r == Err::<(), PageMapError>(
                PageMapError::InvalidRange,
            ),
            spans_pages(*mapping) && encodable(PageOwner::Run(run)) && !old(self).mapping_is_free(*mapping)
                ==> r == Err::<(), PageMapError>(PageMapError::Overlap),
            spans_pages(*mapping) && encodable(PageOwner::Run(run)) && old(self).mapping_is_free(*mapping)
                ==> (r is Ok || r == Err::<(), PageMapError>(PageMapError::MetadataAllocFailed)),
            spans_pages(*mapping) && encodable(PageOwner::Run(run)) && old(self).mapping_is_free(*mapping)
                && old(self).mapping_tables_ready(*mapping) ==> r is Ok,
            spans_pages(*mapping) && encodable(PageOwner::Run(run)) && old(self).mapping_is_free(*mapping) ==> r is Ok,
            r is Ok ==> final(self).published_from(old(self), *mapping, PageOwner::Run(run)),
            r is Err ==> final(self).same_owners(old(self)),
            forall|l1: int| #[trigger] old(self).has_l2_table(l1) ==> final(self).has_l2_table(l1),
            r is Ok ==> final(self).mapping_tables_ready(*mapping),
    {
        let range = match PageRange::from_mapping(mapping) {
            Some(range) => range,
            None => return Err(PageMapError::InvalidRange),
        };
        self.insert(range, PageOwner::Run(run))
    }

    /// Records `extent` as the owner of every page of `mapping`, under the
    /// same conditions as `publish_run`.
    pub fn publish_extent(&mut self, mapping: &Mapping, extent: usize) -> (r: Result<(), PageMapError>)
        requires
            old(self).wf(),
        ensures
            final(self).wf(),
            !spans_pages(*mapping) || !encodable(PageOwner::Extent(extent)) ==> r == Err::<(), PageMapError>(
                PageMapError::InvalidRange,
            ),
            spans_pages(*mapping) && encodable(PageOwner::Extent(extent)) && !old(self).mapping_is_free(*mapping)
                ==> r == Err::<(), PageMapError>(PageMapError::Overlap),
            spans_pages(*mapping) && encodable(PageOwner::Extent(extent)) && old(self).mapping_is_free(*mapping)
                ==> (r is Ok || r == Err::<(), PageMapError>(PageMapError::MetadataAllocFailed)),
            spans_pages(*mapping) && encodable(PageOwner::Extent(extent)) && old(self).mapping_is_free(*mapping)
                && old(self).mapping_tables_ready(*mapping) ==> r is Ok,
            spans_pages(*mapping) && encodable(PageOwner::Extent(extent)) && old(self).mapping_is_free(*mapping) ==> r is Ok,
            r is Ok ==> final(self).published_from(old(self), *mapping, PageOwner::Extent(extent)),
            r is Err ==> final(self).same_owners(old(self)),
            forall|l1: int| #[trigger] old(self).has_l2_table(l1) ==> final(self).has_l2_table(l1),
            r is Ok ==> final(self).mapping_tables_ready(*mapping),
    {
        let range = match PageRange::from_mapping(mapping) {
            Some(range) => range,
            None => return Err(PageMapError::InvalidRange),
        };
        self.insert(range, PageOwner::Extent(extent))
    }

    /// Clears every page of `mapping`, which must all be owned by `extent`;
    /// otherwise nothing changes.
    pub fn unpublish_extent(&mut self, mapping: &Mapping, extent: usize) -> (r: Result<(), PageMapError>)
        requires
            old(self).wf(),
        ensures
            final(self).wf(),
            !spans_pages(*mapping) || !encodable(PageOwner::Extent(extent)) ==> r == Err::<(), PageMapError>(
                PageMapError::InvalidRange,
            ),
            spans_pages(*mapping) && encodable(PageOwner::Extent(extent)) ==> (r is Ok <==> old(self).mapping_is_owned_by(
                *mapping,
                PageOwner::Extent(extent),
            )),
            spans_pages(*mapping) && encodable(PageOwner::Extent(extent)) && r is Err ==> r == Err::<(), PageMapError>(
                PageMapError::UnexpectedEntry,
            ),
            r is Ok ==> final(self).unpublished_from(old(self), *mapping),
            r is Err ==> final(self).same_owners(old(self)),
            forall|l1: int| #[trigger] old(self).has_l2_table(l1) ==> final(self).has_l2_table(l1),
    {
        let range = match PageRange::from_mapping(mapping) {
            Some(range) => range,
            None => return Err(PageMapError::InvalidRange),
        };
        self.remove(range, PageOwner::Extent(extent))
    }
}

/// After a mapping is published, the page of every address inside it is
/// owned by the publisher.
pub proof fn lemma_published_address_is_owned(before: PageMap, after: PageMap, mapping: Mapping, owner: PageOwner, addr: usize)
    requires
        spans_pages(mapping),
        after.published_from(&before, mapping, owner),
        mapping.spec_base() <= addr < mapping.spec_base() + mapping.spec_len(),
    ensures
        after.owner_at(addr as int / (PAGE_SIZE as int)) == Some(owner),
{
    let base = mapping.spec_base() as int;
    let len = mapping.spec_len() as int;
    let a = addr as int;
    vstd::arithmetic::div_mod::lemma_fundamental_div_mod(base, 4096);
    vstd::arithmetic::div_mod::lemma_fundamental_div_mod(base + len, 4096);
    vstd::arithmetic::div_mod::lemma_fundamental_div_mod(a, 4096);
    assert(base / 4096 <= a / 4096 < (base + len) / 4096) by (nonlinear_arith)
        requires
            base == 4096 * (base / 4096),
            base + len == 4096 * ((base + len) / 4096),
            a == 4096 * (a / 4096) + a % 4096,
            0 <= a % 4096 < 4096,
            base <= a < base + len,
    {
    }
    assert(mapping_has_page(mapping, a / 4096));
}

/// Publishing a free mapping and then unpublishing it leaves every page
/// with the owner it had before.
pub proof fn lemma_publish_unpublish_round_trip(m0: PageMap, m1: PageMap, m2: PageMap, mapping: Mapping, owner: PageOwner)
    requires
        m0.mapping_is_free(mapping),
        m1.published_from(&m0, mapping, owner),
        m2.unpublished_from(&m1, mapping),
    ensures
        m2.same_owners(&m0),
{
    assert forall|p: int| #[trigger] m2.owner_at(p) == m0.owner_at(p) by {
        if mapping_has_page(mapping, p) {
            assert(m0.owner_at(p) is None);
        }
    }
}

/// A published mapping can be unpublished only by its own owner: a second
/// owner's attempt is refused because the pages are not all its own.
pub proof fn lemma_only_owner_unpublishes(before: PageMap, after: PageMap, mapping: Mapping, owner: PageOwner, other: PageOwner)
    requires
        spans_pages(mapping),
        after.published_from(&before, mapping, owner),
        other != owner,
    ensures
        !after.mapping_is_owned_by(mapping, other),
{
    let base = mapping.spec_base() as int;
    let p = base / (PAGE_SIZE as int);
    vstd::arithmetic::div_mod::lemma_fundamental_div_mod(base, 4096);
    vstd::arithmetic::div_mod::lemma_fundamental_div_mod(base + mapping.spec_len() as int, 4096);
    let len = mapping.spec_len() as int;
    assert(base / 4096 <= p < (base + len) / 4096) by (nonlinear_arith)
        requires
            base == 4096 * (base / 4096),
            base + len == 4096 * ((base + len) / 4096),
            len > 0,
            p == base / 4096,
    {
    }
    assert(mapping_has_page(mapping, p));
    assert(after.owner_at(p) == Some(owner));
}

/// Publishing over an owned page leaves no way for a second owner to take
/// it: once a mapping is published, no overlapping mapping is free.
pub proof fn lemma_published_mapping_blocks_overlap(before: PageMap, after: PageMap, mapping: Mapping, owner: PageOwner, other: Mapping, page: int)
    requires
        after.published_from(&before, mapping, owner),
        mapping_has_page(mapping, page),
        mapping_has_page(other, page),
    ensures
        !after.mapping_is_free(other),
{
    assert(after.owner_at(page) == Some(owner));
}

} // verus!
