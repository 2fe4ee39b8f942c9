use runic::memory::{Mapping, PAGE_SIZE};
use runic::page_map::entry::{MapEntry, PageOwner};
use runic::page_map::page::{PageRange, L2_ENTRIES};
use runic::page_map::table::{L1Entry, L1Table};
use runic::page_map::{PageMap, PageMapError};

const RUN: usize = 0x7000_0000_1000;
const EXTENT: usize = 0x7000_0000_2000;

#[test]
fn page_map_lookup_after_publish() {
    let mut map = PageMap::new();
    let mapping = Mapping::new(0x4000_0000, 4 * PAGE_SIZE);
    assert_eq!(map.get(0x4000_0000), None);
    assert_eq!(map.publish_run(&mapping, RUN), Ok(()));
    assert_eq!(map.get(0x4000_0000), Some(PageOwner::Run(RUN)));
    assert_eq!(map.get(0x4000_0000 + 4 * PAGE_SIZE - 1), Some(PageOwner::Run(RUN)));
    assert_eq!(map.get(0x4000_0000 + 4 * PAGE_SIZE), None);
    assert_eq!(map.get(0x4000_0000 - 1), None);
}

#[test]
fn page_map_rejects_overlap() {
    let mut map = PageMap::new();
    let first = Mapping::new(0x4000_0000, 4 * PAGE_SIZE);
    let second = Mapping::new(0x4000_0000 + 3 * PAGE_SIZE, 2 * PAGE_SIZE);
    assert_eq!(map.publish_run(&first, RUN), Ok(()));
    assert_eq!(map.publish_extent(&second, EXTENT), Err(PageMapError::Overlap));
    assert_eq!(map.get(0x4000_0000 + 4 * PAGE_SIZE), None);
    assert_eq!(map.get(0x4000_0000 + 3 * PAGE_SIZE), Some(PageOwner::Run(RUN)));
}

#[test]
fn page_map_unpublish_checks_owner() {
    let mut map = PageMap::new();
    let mapping = Mapping::new(0x5000_0000, 2 * PAGE_SIZE);
    assert_eq!(map.publish_extent(&mapping, EXTENT), Ok(()));
    assert_eq!(map.unpublish_extent(&mapping, EXTENT + 2), Err(PageMapError::UnexpectedEntry));
    assert_eq!(map.get(0x5000_0000), Some(PageOwner::Extent(EXTENT)));
    assert_eq!(map.unpublish_extent(&mapping, EXTENT), Ok(()));
    assert_eq!(map.get(0x5000_0000), None);
    assert_eq!(map.unpublish_extent(&mapping, EXTENT), Err(PageMapError::UnexpectedEntry));
    assert_eq!(map.publish_run(&mapping, RUN), Ok(()));
    assert_eq!(map.get(0x5000_0000 + PAGE_SIZE), Some(PageOwner::Run(RUN)));
}

#[test]
fn page_map_unpublish_of_run_pages_is_refused() {
    let mut map = PageMap::new();
    let mapping = Mapping::new(0x5000_0000, PAGE_SIZE);
    assert_eq!(map.publish_run(&mapping, RUN), Ok(()));
    assert_eq!(map.unpublish_extent(&mapping, RUN), Err(PageMapError::UnexpectedEntry));
    assert_eq!(map.get(0x5000_0000), Some(PageOwner::Run(RUN)));
}

#[test]
fn page_map_crosses_l2_boundary() {
    let mut map = PageMap::new();
    let base = (L2_ENTRIES - 1) * PAGE_SIZE;
    let mapping = Mapping::new(base, 3 * PAGE_SIZE);
    assert_eq!(map.publish_extent(&mapping, EXTENT), Ok(()));
    assert_eq!(map.get(base), Some(PageOwner::Extent(EXTENT)));
    assert_eq!(map.get(L2_ENTRIES * PAGE_SIZE), Some(PageOwner::Extent(EXTENT)));
    assert_eq!(map.get((L2_ENTRIES + 1) * PAGE_SIZE + 17), Some(PageOwner::Extent(EXTENT)));
    assert_eq!(map.get((L2_ENTRIES + 2) * PAGE_SIZE), None);
    assert_eq!(map.unpublish_extent(&mapping, EXTENT), Ok(()));
    assert_eq!(map.get(L2_ENTRIES * PAGE_SIZE), None);
}

#[test]
fn page_map_rejects_invalid_ranges_and_owners() {
    let mut map = PageMap::new();
    assert_eq!(map.publish_run(&Mapping::new(0x4000_0001, PAGE_SIZE), RUN), Err(PageMapError::InvalidRange));
    assert_eq!(map.publish_run(&Mapping::new(0x4000_0000, 0), RUN), Err(PageMapError::InvalidRange));
    assert_eq!(map.publish_run(&Mapping::new(0x4000_0000, 100), RUN), Err(PageMapError::InvalidRange));
    assert_eq!(map.publish_run(&Mapping::new(1 << 48, PAGE_SIZE), RUN), Err(PageMapError::InvalidRange));
    assert_eq!(map.publish_run(&Mapping::new(0x4000_0000, PAGE_SIZE), RUN + 1), Err(PageMapError::InvalidRange));
    assert_eq!(map.publish_extent(&Mapping::new(0x4000_0000, PAGE_SIZE), 0), Err(PageMapError::InvalidRange));
    assert_eq!(map.get(usize::MAX), None);
    assert_eq!(map.get(0x4000_0000), None);
}

#[test]
fn page_map_top_of_address_space() {
    let mut map = PageMap::new();
    let mapping = Mapping::new((1 << 48) - PAGE_SIZE, PAGE_SIZE);
    assert_eq!(map.publish_run(&mapping, RUN), Ok(()));
    assert_eq!(map.get((1 << 48) - 1), Some(PageOwner::Run(RUN)));
    assert_eq!(map.get(1 << 48), None);
}

#[test]
fn map_entry_encodes_owner_kind() {
    let run = MapEntry::from_owner(PageOwner::Run(RUN)).unwrap();
    let extent = MapEntry::from_owner(PageOwner::Extent(RUN)).unwrap();
    assert_ne!(run, extent);
    assert_eq!(run.owner(), Some(PageOwner::Run(RUN)));
    assert_eq!(extent.owner(), Some(PageOwner::Extent(RUN)));
    assert!(MapEntry::empty().is_empty());
    assert_eq!(MapEntry::empty().owner(), None);
    assert_eq!(MapEntry::from_owner(PageOwner::Run(3)), None);
}

#[test]
fn page_range_segments_split_at_table_boundary() {
    let mapping = Mapping::new((L2_ENTRIES - 2) * PAGE_SIZE, (L2_ENTRIES + 4) * PAGE_SIZE);
    let range = PageRange::from_mapping(&mapping).unwrap();
    let segments = range.segments();
    assert_eq!(segments.len(), 3);
    assert_eq!(segments[0].l1.get(), 0);
    assert_eq!((segments[0].l2.start(), segments[0].l2.end()), (L2_ENTRIES - 2, L2_ENTRIES));
    assert_eq!((segments[1].l2.start(), segments[1].l2.end()), (0, L2_ENTRIES));
    assert_eq!(segments[2].l1.get(), 2);
    assert_eq!((segments[2].l2.start(), segments[2].l2.end()), (0, 2));
    assert_eq!(segments[2].l2.pages(), 2);
}

#[test]
fn l1_entry_refuses_without_table() {
    let mapping = Mapping::new(0, 2 * PAGE_SIZE);
    let range = PageRange::from_mapping(&mapping).unwrap();
    let segment = range.segments()[0].l2;
    let value = MapEntry::from_owner(PageOwner::Run(RUN)).unwrap();
    let mut entry = L1Entry::vacant();
    assert_eq!(entry.assign(segment, value), Err(PageMapError::MetadataAllocFailed));
    assert_eq!(entry.clear_segment(segment), Err(PageMapError::UnexpectedEntry));
    assert!(!entry.has_l2_table());
    assert_eq!(entry.owns_segment(segment, MapEntry::empty()), Ok(true));
    assert_eq!(entry.owns_segment(segment, value), Ok(false));
}

#[test]
fn l1_table_ensure_is_idempotent() {
    let mut table = L1Table::new();
    let mapping = Mapping::new(0, PAGE_SIZE);
    let range = PageRange::from_mapping(&mapping).unwrap();
    let index = range.segments()[0].l1;
    assert_eq!(table.ensure_l2_table(index), Ok(()));
    assert_eq!(table.ensure_l2_table(index), Ok(()));
    assert!(table.entry(index).unwrap().has_l2_table());
}

#[test]
fn page_map_republish_after_unpublish_reuses_tables() {
    let mut map = PageMap::new();
    let mapping = Mapping::new(0x4000_0000, 3 * PAGE_SIZE);
    assert_eq!(map.publish_extent(&mapping, EXTENT), Ok(()));
    assert_eq!(map.unpublish_extent(&mapping, EXTENT), Ok(()));
    assert_eq!(map.get(0x4000_0000), None);
    assert_eq!(map.publish_run(&mapping, RUN), Ok(()));
    assert_eq!(map.get(0x4000_0000 + 2 * PAGE_SIZE), Some(PageOwner::Run(RUN)));
}
