use vstd::prelude::*;
use std::collections::HashMap;

use super::entry::MapEntry;
use super::page::{L1Index, L2Index, L2Segment, PageRange, RangeSegment, L1_ENTRIES, L2_ENTRIES};
use super::PageMapError;

verus! {

broadcast use vstd::std_specs::hash::group_hash_axioms;

/// Number of entries of `pages` that record an owner.
pub open spec fn occupied_count(pages: Seq<MapEntry>) -> nat
    decreases pages.len(),
{
    if pages.len() == 0 {
        0
    } else {
        occupied_count(pages.drop_last()) + if pages.last().spec_is_empty() {
            0nat
        } else {
            1nat
        }
    }
}

/// Whether `e` counts as an occupied entry.
pub open spec fn occupied(e: MapEntry) -> int {
    if e.spec_is_empty() {
        0
    } else {
        1
    }
}

/// How many occupied entries `n` copies of `e` make.
pub open spec fn occupied_times(e: MapEntry, n: int) -> int {
    if e.spec_is_empty() {
        0
    } else {
        n
    }
}

/// Replacing one entry changes the count by the difference it makes.
pub proof fn lemma_count_update(pages: Seq<MapEntry>, j: int, v: MapEntry)
    requires
        0 <= j < pages.len(),
    ensures
        occupied_count(pages.update(j, v)) == occupied_count(pages) - occupied(pages[j]) + occupied(v),
    decreases pages.len(),
{
    let u = pages.update(j, v);
    if j == pages.len() - 1 {
        assert(u.drop_last() =~= pages.drop_last());
    } else {
        assert(u.drop_last() =~= pages.drop_last().update(j, v));
        lemma_count_update(pages.drop_last(), j, v);
    }
}

/// The count never exceeds the number of entries.
pub proof fn lemma_count_le_len(pages: Seq<MapEntry>)
    ensures
        occupied_count(pages) <= pages.len(),
    decreases pages.len(),
{
    if pages.len() > 0 {
        lemma_count_le_len(pages.drop_last());
    }
}

/// A count of zero means every entry is empty.
pub proof fn lemma_count_zero(pages: Seq<MapEntry>)
    requires
        occupied_count(pages) == 0,
    ensures
        forall|i: int| 0 <= i < pages.len() ==> (#[trigger] pages[i]).spec_is_empty(),
    decreases pages.len(),
{
    if pages.len() > 0 {
        lemma_count_zero(pages.drop_last());
        assert forall|i: int| 0 <= i < pages.len() implies (#[trigger] pages[i]).spec_is_empty() by {
            if i < pages.len() - 1 {
                assert(pages.drop_last()[i] == pages[i]);
            }
        }
    }
}

/// Extending a window by one entry adds that entry to its count.
pub proof fn lemma_count_window_step(pages: Seq<MapEntry>, a: int, i: int)
    requires
        0 <= a <= i < pages.len(),
    ensures
        occupied_count(pages.subrange(a, i + 1)) == occupied_count(pages.subrange(a, i)) + occupied(pages[i]),
{
    assert(pages.subrange(a, i + 1).drop_last() =~= pages.subrange(a, i));
}

/// A window whose entries are all empty counts zero; one whose entries are
/// all occupied counts its length.
pub proof fn lemma_count_window_uniform(pages: Seq<MapEntry>, a: int, b: int)
    requires
        0 <= a <= b <= pages.len(),
    ensures
        (forall|i: int| a <= i < b ==> (#[trigger] pages[i]).spec_is_empty()) ==> occupied_count(
            pages.subrange(a, b),
        ) == 0,
        (forall|i: int| a <= i < b ==> !(#[trigger] pages[i]).spec_is_empty()) ==> occupied_count(
            pages.subrange(a, b),
        ) == b - a,
    decreases b - a,
{
    if a < b {
        lemma_count_window_uniform(pages, a, b - 1);
        lemma_count_window_step(pages, a, b - 1);
    } else {
        assert(pages.subrange(a, b).len() == 0);
    }
}

/// The count of a concatenation is the sum of the counts.
pub proof fn lemma_count_concat(a: Seq<MapEntry>, b: Seq<MapEntry>)
    ensures
        occupied_count(a + b) == occupied_count(a) + occupied_count(b),
    decreases b.len(),
{
    if b.len() == 0 {
        assert(a + b =~= a);
    } else {
        assert((a + b).drop_last() =~= a + b.drop_last());
        lemma_count_concat(a, b.drop_last());
    }
}

/// A window never counts more than the whole sequence.
pub proof fn lemma_count_window_le(pages: Seq<MapEntry>, a: int, b: int)
    requires
        0 <= a <= b <= pages.len(),
    ensures
        occupied_count(pages.subrange(a, b)) <= occupied_count(pages),
{
    let s0 = pages.subrange(0, a);
    let s1 = pages.subrange(a, b);
    let s2 = pages.subrange(b, pages.len() as int);
    assert(pages =~= s0 + s1 + s2);
    lemma_count_concat(s0 + s1, s2);
    lemma_count_concat(s0, s1);
}

/// A second-level table: the page-map entries of 4096 consecutive pages.
pub struct L2Table {
    pages: Vec<MapEntry>,
}

impl L2Table {
    pub closed spec fn pages_view(&self) -> Seq<MapEntry> {
        self.pages@
    }

    pub open spec fn wf(&self) -> bool {
        self.pages_view().len() == L2_ENTRIES
    }

    /// A table of empty entries. Like every other allocation of the
    /// library's metadata, a failure to allocate its storage ends the process.
    pub fn new() -> (r: Option<L2Table>)
        ensures
            r is Some,
            r matches Some(t) ==> t.wf() && forall|i: int| 0 <= i < L2_ENTRIES ==> (#[trigger] t.pages_view()[i]).spec_is_empty(),
    {
        let mut pages: Vec<MapEntry> = Vec::with_capacity(L2_ENTRIES);
        let mut i: usize = 0;
        while i < L2_ENTRIES
            invariant
                i <= L2_ENTRIES,
                pages.len() == i,
                forall|j: int| 0 <= j < i ==> (#[trigger] pages@[j]).spec_is_empty(),
            decreases L2_ENTRIES - i,
        {
            pages.push(MapEntry::empty());
            i = i + 1;
        }
        Some(L2Table { pages })
    }

    /// The entry of page `index`, if it records an owner.
    pub fn get(&self, index: L2Index) -> (r: Option<MapEntry>)
        requires
            self.wf(),
        ensures
            0 <= index.value() < L2_ENTRIES && !self.pages_view()[index.value()].spec_is_empty()
                ==> r == Some(self.pages_view()[index.value()]),
            !(0 <= index.value() < L2_ENTRIES && !self.pages_view()[index.value()].spec_is_empty()) ==> r is None,
    {
        let i = index.get();
        if i >= self.pages.len() {
            return None;
        }
        let page = self.pages[i];
        if page.is_empty() {
            None
        } else {
            Some(page)
        }
    }

    /// Whether every page of `segment` is empty.
    pub fn segment_is_free(&self, segment: L2Segment) -> (r: bool)
        requires
            self.wf(),
            segment.wf(),
        ensures
            r == forall|i: int| segment.spec_start() <= i < segment.spec_end() ==> (
            #[trigger] self.pages_view()[i]).spec_is_empty(),
    {
        if segment.end() > self.pages.len() {
            return false;
        }
        let mut i = segment.start();
        while i < segment.end()
            invariant
                self.wf(),
                segment.wf(),
                segment.spec_start() <= i <= segment.spec_end(),
                forall|j: int| segment.spec_start() <= j < i ==> (#[trigger] self.pages_view()[j]).spec_is_empty(),
            decreases segment.spec_end() - i,
        {
            if !self.pages[i].is_empty() {
                return false;
            }
            i = i + 1;
        }
        true
    }

    /// Whether every page of `segment` records `expected` (or is empty, when
    /// `expected` is the empty entry).
    pub fn owns_segment(&self, segment: L2Segment, expected: MapEntry) -> (r: Result<bool, PageMapError>)
        requires
            self.wf(),
            segment.wf(),
        ensures
            expected.spec_is_empty() ==> r == Ok::<bool, PageMapError>(
                forall|i: int| segment.spec_start() <= i < segment.spec_end() ==> (
                #[trigger] self.pages_view()[i]).spec_is_empty(),
            ),
            !expected.spec_is_empty() ==> r == Ok::<bool, PageMapError>(
                forall|i: int| segment.spec_start() <= i < segment.spec_end() ==> #[trigger] self.pages_view()[i] == expected,
            ),
    {
        if expected.is_empty() {
            return Ok(self.segment_is_free(segment));
        }
        if segment.end() > self.pages.len() {
            return Err(PageMapError::InvalidRange);
        }
        let mut i = segment.start();
        while i < segment.end()
            invariant
                self.wf(),
                segment.wf(),
                !expected.spec_is_empty(),
                segment.spec_start() <= i <= segment.spec_end(),
                forall|j: int| segment.spec_start() <= j < i ==> #[trigger] self.pages_view()[j] == expected,
            decreases segment.spec_end() - i,
        {
            if self.pages[i] != expected {
                return Ok(false);
            }
            i = i + 1;
        }
        Ok(true)
    }

    /// Sets every page of `segment` to `value`.
    pub fn write_pages(&mut self, segment: L2Segment, value: MapEntry) -> (r: Result<(), PageMapError>)
        requires
            old(self).wf(),
            segment.wf(),
        ensures
            r is Ok,
            final(self).wf(),
            forall|i: int|
                0 <= i < L2_ENTRIES ==> #[trigger] final(self).pages_view()[i] == if segment.spec_start() <= i
                    < segment.spec_end() {
                    value
                } else {
                    old(self).pages_view()[i]
                },
            occupied_count(final(self).pages_view()) == occupied_count(old(self).pages_view())
                - occupied_count(old(self).pages_view().subrange(segment.spec_start(), segment.spec_end()))
                + occupied_times(value, segment.spec_end() - segment.spec_start()),
    {
        if segment.end() > self.pages.len() {
            return Err(PageMapError::InvalidRange);
        }
        let ghost before = self.pages@;
        let mut i = segment.start();
        while i < segment.end()
            invariant
                self.wf(),
                segment.wf(),
                before.len() == L2_ENTRIES,
                segment.spec_start() <= i <= segment.spec_end(),
                forall|j: int|
                    0 <= j < L2_ENTRIES ==> #[trigger] self.pages_view()[j] == if segment.spec_start() <= j < i {
                        value
                    } else {
                        before[j]
                    },
                occupied_count(self.pages_view()) == occupied_count(before) - occupied_count(
                    before.subrange(segment.spec_start(), i as int),
                ) + occupied_times(value, i - segment.spec_start()),
            decreases segment.spec_end() - i,
        {
            proof {
                lemma_count_update(self.pages@, i as int, value);
                lemma_count_window_step(before, segment.spec_start(), i as int);
            }
            self.pages.set(i, value);
            i = i + 1;
        }
        Ok(())
    }
}

/// A second-level table and the number of its pages that have an owner.
pub struct L2Mapping {
    mapping: Option<L2Table>,
    occupied_pages: u32,
}

impl L2Mapping {
    pub closed spec fn table(&self) -> Option<L2Table> {
        self.mapping
    }

    pub closed spec fn spec_occupied_pages(&self) -> u32 {
        self.occupied_pages
    }

    pub closed spec fn wf(&self) -> bool {
        match self.mapping {
            Some(t) => t.wf(),
            None => self.occupied_pages == 0,
        }
    }

    /// Whether the occupied count matches the table's occupied entries.
    pub closed spec fn exact(&self) -> bool {
        match self.mapping {
            Some(t) => self.occupied_pages == occupied_count(t.pages_view()),
            None => true,
        }
    }

    fn empty() -> (r: L2Mapping)
        ensures
            r.wf(),
            r.table() is None,
    {
        L2Mapping { mapping: None, occupied_pages: 0 }
    }

    fn install(&mut self, mapping: L2Table)
        requires
            mapping.wf(),
            forall|i: int| 0 <= i < L2_ENTRIES ==> (#[trigger] mapping.pages_view()[i]).spec_is_empty(),
        ensures
            final(self).wf(),
            final(self).exact(),
            final(self).table() == Some(mapping),
    {
        proof {
            lemma_count_window_uniform(mapping.pages_view(), 0, L2_ENTRIES as int);
            assert(mapping.pages_view().subrange(0, L2_ENTRIES as int) =~= mapping.pages_view());
        }
        self.mapping = Some(mapping);
        self.occupied_pages = 0;
    }

    fn clear(&mut self)
        ensures
            final(self).wf(),
            final(self).exact(),
            final(self).table() is None,
    {
        self.occupied_pages = 0;
        self.mapping = None;
    }

    fn is_unoccupied(&self) -> (r: bool)
        ensures
            r == (self.occupied_pages == 0),
    {
        self.occupied_pages == 0
    }

    /// The occupied count after adding `pages`; it is not stored until the
    /// caller has written the pages.
    fn try_add_pages(&self, pages: u32) -> (r: Result<u32, PageMapError>)
        ensures
            self.occupied_pages + pages <= u32::MAX ==> r == Ok::<u32, PageMapError>((self.occupied_pages + pages) as u32),
            self.occupied_pages + pages > u32::MAX ==> r == Err::<u32, PageMapError>(PageMapError::InvalidRange),
    {
        match self.occupied_pages.checked_add(pages) {
            Some(n) => Ok(n),
            None => Err(PageMapError::InvalidRange),
        }
    }

    fn try_sub_pages(&self, pages: u32) -> (r: Result<u32, PageMapError>)
        ensures
            self.occupied_pages >= pages ==> r == Ok::<u32, PageMapError>((self.occupied_pages - pages) as u32),
            self.occupied_pages < pages ==> r == Err::<u32, PageMapError>(PageMapError::UnexpectedEntry),
    {
        match self.occupied_pages.checked_sub(pages) {
            Some(n) => Ok(n),
            None => Err(PageMapError::UnexpectedEntry),
        }
    }

    fn set_occupied_pages(&mut self, occupied_pages: u32)
        ensures
            final(self).occupied_pages == occupied_pages,
            final(self).mapping == old(self).mapping,
    {
        self.occupied_pages = occupied_pages;
    }
}

/// One first-level entry: the second-level table for 4096 pages, once installed.
pub struct L1Entry {
    l2_mapping: L2Mapping,
}

impl L1Entry {
    pub closed spec fn wf(&self) -> bool {
        self.l2_mapping.wf()
    }

    /// Whether the entry's occupied-page count matches its table.
    pub closed spec fn counts_exact(&self) -> bool {
        self.l2_mapping.exact()
    }

    /// The count of occupied pages the entry keeps.
    pub closed spec fn occupied_pages(&self) -> nat {
        self.l2_mapping.occupied_pages as nat
    }

    /// Whether a second-level table is installed.
    pub closed spec fn has_table(&self) -> bool {
        self.l2_mapping.mapping is Some
    }

    /// The entry of page `l2` under this first-level entry.
    pub closed spec fn entry_at(&self, l2: int) -> MapEntry {
        match self.l2_mapping.mapping {
            Some(t) => if 0 <= l2 < L2_ENTRIES {
                t.pages_view()[l2]
            } else {
                MapEntry::spec_empty()
            },
            None => MapEntry::spec_empty(),
        }
    }

    pub fn vacant() -> (r: L1Entry)
        ensures
            r.wf(),
            r.counts_exact(),
            !r.has_table(),
            r.occupied_pages() == 0,
    {
        L1Entry { l2_mapping: L2Mapping::empty() }
    }

    pub fn has_l2_table(&self) -> (r: bool)
        ensures
            r == self.has_table(),
    {
        self.l2_mapping.mapping.is_some()
    }

    fn l2_table_ref(&self) -> (r: Option<&L2Table>)
        ensures
            match self.l2_mapping.mapping {
                Some(t) => r matches Some(x) && *x == t,
                None => r is None,
            },
    {
        self.l2_mapping.mapping.as_ref()
    }

    fn install_l2_mapping(&mut self, mapping: L2Table)
        requires
            mapping.wf(),
            forall|i: int| 0 <= i < L2_ENTRIES ==> (#[trigger] mapping.pages_view()[i]).spec_is_empty(),
        ensures
            final(self).wf(),
            final(self).counts_exact(),
            final(self).has_table(),
            forall|l2: int| 0 <= l2 < L2_ENTRIES ==> (#[trigger] final(self).entry_at(l2)).spec_is_empty(),
    {
        self.l2_mapping.install(mapping);
    }

    /// Drops the second-level table, if any.
    pub fn drop_l2_mapping(&mut self)
        requires
            old(self).wf(),
        ensures
            final(self).wf(),
            final(self).counts_exact(),
            !final(self).has_table(),
    {
        if self.l2_mapping.mapping.is_none() {
            return;
        }
        self.l2_mapping.clear();
    }

    /// Whether every page of `segment` records `expected`; without a
    /// second-level table every page is empty. An empty `expected` is
    /// answered from the occupied count alone when that count is zero.
    pub fn owns_segment(&self, segment: L2Segment, expected: MapEntry) -> (r: Result<bool, PageMapError>)
        requires
            self.wf(),
            segment.wf(),
        ensures
            r == Ok::<bool, PageMapError>(
                if expected.spec_is_empty() && self.occupied_pages() == 0 {
                    true
                } else {
                    forall|l2: int| segment.spec_start() <= l2 < segment.spec_end() ==> #[trigger] self.entry_at(l2) == expected
                },
            ),
            self.counts_exact() ==> r == Ok::<bool, PageMapError>(
                forall|l2: int| segment.spec_start() <= l2 < segment.spec_end() ==> #[trigger] self.entry_at(l2) == expected,
            ),
    {
        proof {
            MapEntry::lemma_empty_unique(expected);
            assert forall|e: MapEntry| #[trigger] e.spec_is_empty() <==> e == MapEntry::spec_empty() by {
                MapEntry::lemma_empty_unique(e);
            }
        }
        let table = match self.l2_table_ref() {
            Some(table) => table,
            None => {
                proof {
                    if !expected.spec_is_empty() {
                        assert(self.entry_at(segment.spec_start()) != expected);
                    }
                }
                return Ok(expected.is_empty());
            },
        };
        if expected.is_empty() && self.l2_mapping.is_unoccupied() {
            proof {
                if self.counts_exact() {
                    lemma_count_zero(table.pages_view());
                    assert forall|l2: int| segment.spec_start() <= l2 < segment.spec_end() implies #[trigger] self.entry_at(l2) == expected by {
                        MapEntry::lemma_empty_unique(table.pages_view()[l2]);
                    }
                }
            }
            return Ok(true);
        }
        let r = table.owns_segment(segment, expected);
        proof {
            if expected.spec_is_empty() {
                let free = forall|i: int| segment.spec_start() <= i < segment.spec_end() ==> (
                #[trigger] table.pages_view()[i]).spec_is_empty();
                let owned = forall|l2: int| segment.spec_start() <= l2 < segment.spec_end() ==> #[trigger] self.entry_at(l2) == expected;
                if free {
                    assert forall|l2: int| segment.spec_start() <= l2 < segment.spec_end() implies #[trigger] self.entry_at(l2) == expected by {
                        MapEntry::lemma_empty_unique(table.pages_view()[l2]);
                    }
                }
                if owned {
                    assert forall|i: int| segment.spec_start() <= i < segment.spec_end() implies (
                    #[trigger] table.pages_view()[i]).spec_is_empty() by {
                        assert(self.entry_at(i) == expected);
                    }
                }
                assert(free == owned);
            } else {
                let same = forall|i: int| segment.spec_start() <= i < segment.spec_end() ==> #[trigger] table.pages_view()[i] == expected;
                let owned = forall|l2: int| segment.spec_start() <= l2 < segment.spec_end() ==> #[trigger] self.entry_at(l2) == expected;
                if same {
                    assert forall|l2: int| segment.spec_start() <= l2 < segment.spec_end() implies #[trigger] self.entry_at(l2) == expected by {
                        assert(table.pages_view()[l2] == expected);
                    }
                }
                if owned {
                    assert forall|i: int| segment.spec_start() <= i < segment.spec_end() implies #[trigger] table.pages_view()[i] == expected by {
                        assert(self.entry_at(i) == expected);
                    }
                }
                assert(same == owned);
            }
        }
        r
    }

    /// The entry of page `index`, if it records an owner.
    pub fn page_entry(&self, index: L2Index) -> (r: Option<MapEntry>)
        requires
            self.wf(),
        ensures
            0 <= index.value() < L2_ENTRIES && !self.entry_at(index.value()).spec_is_empty() ==> r == Some(
                self.entry_at(index.value()),
            ),
            !(0 <= index.value() < L2_ENTRIES && !self.entry_at(index.value()).spec_is_empty()) ==> r is None,
    {
        match self.l2_table_ref() {
            Some(table) => table.get(index),
            None => {
                proof {
                    MapEntry::lemma_empty_unique(MapEntry::spec_empty());
                }
                None
            },
        }
    }

    /// Records `value` for every page of `segment` and adds the segment's
    /// pages to the occupied count. Fails with `InvalidRange` when the count
    /// would overflow, and with `MetadataAllocFailed` when there is no
    /// second-level table; a failure changes nothing.
    pub fn assign(&mut self, segment: L2Segment, value: MapEntry) -> (r: Result<(), PageMapError>)
        requires
            old(self).wf(),
            segment.wf(),
        ensures
            final(self).wf(),
            old(self).occupied_pages() + (segment.spec_end() - segment.spec_start()) > u32::MAX ==> r
                == Err::<(), PageMapError>(PageMapError::InvalidRange),
            old(self).occupied_pages() + (segment.spec_end() - segment.spec_start()) <= u32::MAX && !old(
                self,
            ).has_table() ==> r == Err::<(), PageMapError>(PageMapError::MetadataAllocFailed),
            old(self).occupied_pages() + (segment.spec_end() - segment.spec_start()) <= u32::MAX && old(
                self,
            ).has_table() ==> r is Ok,
            r is Err ==> *final(self) == *old(self),
            r is Ok ==> {
                &&& final(self).has_table()
                &&& final(self).occupied_pages() == old(self).occupied_pages() + (segment.spec_end()
                    - segment.spec_start())
                &&& forall|l2: int|
                    0 <= l2 < L2_ENTRIES ==> #[trigger] final(self).entry_at(l2) == if segment.spec_start()
                        <= l2 < segment.spec_end() {
                        value
                    } else {
                        old(self).entry_at(l2)
                    }
            },
            r is Ok && old(self).counts_exact() && !value.spec_is_empty() && (forall|l2: int|
                segment.spec_start() <= l2 < segment.spec_end() ==> (#[trigger] old(self).entry_at(
                    l2,
                )).spec_is_empty()) ==> final(self).counts_exact(),
    {
        let occupied_pages = match self.l2_mapping.try_add_pages(segment.pages()) {
            Ok(n) => n,
            Err(error) => return Err(error),
        };
        let ghost before = self.l2_mapping.mapping->0.pages_view();
        match &mut self.l2_mapping.mapping {
            Some(table) => {
                match table.write_pages(segment, value) {
                    Ok(()) => {},
                    Err(error) => return Err(error),
                }
            },
            None => return Err(PageMapError::MetadataAllocFailed),
        }
        self.l2_mapping.set_occupied_pages(occupied_pages);
        proof {
            if old(self).counts_exact() && !value.spec_is_empty() && (forall|l2: int|
                segment.spec_start() <= l2 < segment.spec_end() ==> (#[trigger] old(self).entry_at(
                    l2,
                )).spec_is_empty()) {
                assert forall|i: int| segment.spec_start() <= i < segment.spec_end() implies (
                #[trigger] before[i]).spec_is_empty() by {
                    assert(old(self).entry_at(i).spec_is_empty());
                }
                lemma_count_window_uniform(before, segment.spec_start(), segment.spec_end());
            }
        }
        Ok(())
    }

    /// Empties every page of `segment` and takes the segment's pages off the
    /// occupied count. Fails with `UnexpectedEntry` when the count is
    /// smaller than the segment or there is no second-level table; a failure
    /// changes nothing.
    pub fn clear_segment(&mut self, segment: L2Segment) -> (r: Result<(), PageMapError>)
        requires
            old(self).wf(),
            segment.wf(),
        ensures
            final(self).wf(),
            final(self).has_table() == old(self).has_table(),
            old(self).occupied_pages() < segment.spec_end() - segment.spec_start() || !old(self).has_table()
                ==> r == Err::<(), PageMapError>(PageMapError::UnexpectedEntry),
            old(self).occupied_pages() >= segment.spec_end() - segment.spec_start() && old(self).has_table()
                ==> r is Ok,
            r is Err ==> *final(self) == *old(self),
            r is Ok ==> {
                &&& final(self).occupied_pages() == old(self).occupied_pages() - (segment.spec_end()
                    - segment.spec_start())
                &&& forall|l2: int|
                    0 <= l2 < L2_ENTRIES ==> #[trigger] final(self).entry_at(l2) == if segment.spec_start()
                        <= l2 < segment.spec_end() {
                        MapEntry::spec_empty()
                    } else {
                        old(self).entry_at(l2)
                    }
            },
            r is Ok && old(self).counts_exact() && (forall|l2: int|
                segment.spec_start() <= l2 < segment.spec_end() ==> !(#[trigger] old(self).entry_at(
                    l2,
                )).spec_is_empty()) ==> final(self).counts_exact(),
    {
        let occupied_pages = match self.l2_mapping.try_sub_pages(segment.pages()) {
            Ok(n) => n,
            Err(error) => return Err(error),
        };
        let ghost before = self.l2_mapping.mapping->0.pages_view();
        match &mut self.l2_mapping.mapping {
            Some(table) => {
                match table.write_pages(segment, MapEntry::empty()) {
                    Ok(()) => {},
                    Err(error) => return Err(error),
                }
            },
            None => return Err(PageMapError::UnexpectedEntry),
        }
        self.l2_mapping.set_occupied_pages(occupied_pages);
        proof {
            MapEntry::lemma_empty_unique(MapEntry::spec_empty());
            if old(self).counts_exact() && (forall|l2: int|
                segment.spec_start() <= l2 < segment.spec_end() ==> !(#[trigger] old(self).entry_at(
                    l2,
                )).spec_is_empty()) {
                assert forall|i: int| segment.spec_start() <= i < segment.spec_end() implies !(
                #[trigger] before[i]).spec_is_empty() by {
                    assert(!old(self).entry_at(i).spec_is_empty());
                }
                lemma_count_window_uniform(before, segment.spec_start(), segment.spec_end());
            }
        }
        Ok(())
    }
}

/// The first-level table: second-level tables installed on demand, keyed by
/// first-level index. An index without an entry behaves as an entry with no
/// second-level table, like `vacant`.
pub struct L1Table {
    entries: HashMap<usize, L1Entry>,
    vacant: L1Entry,
}

impl L1Table {
    /// The entry of page `l2` under first-level entry `l1`.
    pub closed spec fn entry_at(&self, l1: int, l2: int) -> MapEntry {
        if 0 <= l1 < L1_ENTRIES && self.entries@.contains_key(l1 as usize) {
            self.entries@[l1 as usize].entry_at(l2)
        } else {
            MapEntry::spec_empty()
        }
    }

    /// Whether first-level entry `l1` has a second-level table.
    pub closed spec fn has_table(&self, l1: int) -> bool {
        0 <= l1 < L1_ENTRIES && self.entries@.contains_key(l1 as usize) && self.entries@[l1 as usize].has_table()
    }

    pub closed spec fn wf(&self) -> bool {
        &&& self.vacant.wf()
        &&& !self.vacant.has_table()
        &&& forall|k: usize| #[trigger]
            self.entries@.contains_key(k) ==> k < L1_ENTRIES && self.entries@[k].wf()
                && self.entries@[k].counts_exact()
    }

    /// A table with no second-level tables: every page is empty.
    pub fn new() -> (r: L1Table)
        ensures
            r.wf(),
            forall|l1: int, l2: int| #[trigger] r.entry_at(l1, l2) == MapEntry::spec_empty(),
            forall|l1: int| !#[trigger] r.has_table(l1),
    {
        L1Table { entries: HashMap::new(), vacant: L1Entry::vacant() }
    }

    /// The first-level entry `index`.
    pub fn entry(&self, index: L1Index) -> (r: Result<&L1Entry, PageMapError>)
        requires
            self.wf(),
        ensures
            index.value() >= L1_ENTRIES ==> r == Err::<&L1Entry, PageMapError>(PageMapError::InvalidRange),
            index.value() < L1_ENTRIES ==> (r matches Ok(e) && e.wf() && e.counts_exact() && e.has_table() == self.has_table(
                index.value(),
            ) && forall|l2: int| #[trigger] e.entry_at(l2) == self.entry_at(index.value(), l2)),
    {
        let i = index.get();
        if i >= L1_ENTRIES {
            return Err(PageMapError::InvalidRange);
        }
        match self.entries.get(&i) {
            Some(e) => Ok(e),
            None => Ok(&self.vacant),
        }
    }

    /// The entry of page `l2_index` under `l1_index`, if it records an owner.
    pub fn page_entry(&self, l1_index: L1Index, l2_index: L2Index) -> (r: Option<MapEntry>)
        requires
            self.wf(),
        ensures
            ({
                let (l1, l2) = (l1_index.value(), l2_index.value());
                if l1 < L1_ENTRIES && 0 <= l2 < L2_ENTRIES && !self.entry_at(l1, l2).spec_is_empty() {
                    r == Some(self.entry_at(l1, l2))
                } else {
                    r is None
                }
            }),
    {
        let i = l1_index.get();
        if i >= L1_ENTRIES {
            return None;
        }
        match self.entries.get(&i) {
            Some(e) => e.page_entry(l2_index),
            None => {
                proof {
                    MapEntry::lemma_empty_unique(MapEntry::spec_empty());
                }
                None
            },
        }
    }

    /// Ensures first-level entry `index` has a second-level table.
    pub fn ensure_l2_table(&mut self, index: L1Index) -> (r: Result<(), PageMapError>)
        requires
            old(self).wf(),
        ensures
            final(self).wf(),
            forall|l1: int, l2: int| #[trigger] final(self).entry_at(l1, l2) == old(self).entry_at(l1, l2),
            forall|l1: int| l1 != index.value() ==> #[trigger] final(self).has_table(l1) == old(self).has_table(l1),
            r is Ok ==> final(self).has_table(index.value()),
            old(self).has_table(index.value()) ==> r is Ok,
            index.value() >= L1_ENTRIES ==> r == Err::<(), PageMapError>(PageMapError::InvalidRange),
            index.value() < L1_ENTRIES ==> (r is Ok || r == Err::<(), PageMapError>(PageMapError::MetadataAllocFailed)),
            index.value() < L1_ENTRIES ==> r is Ok,
            r is Err ==> forall|l1: int| #[trigger] final(self).has_table(l1) == old(self).has_table(l1),
    {
        let i = index.get();
        if i >= L1_ENTRIES {
            return Err(PageMapError::InvalidRange);
        }
        match self.entries.get(&i) {
            Some(e) => {
                if e.has_l2_table() {
                    return Ok(());
                }
            },
            None => {},
        }
        let table = match L2Table::new() {
            Some(table) => table,
            None => return Err(PageMapError::MetadataAllocFailed),
        };
        let mut entry = match self.entries.remove(&i) {
            Some(e) => e,
            None => L1Entry::vacant(),
        };
        entry.install_l2_mapping(table);
        self.entries.insert(i, entry);
        proof {
            assert forall|l1: int, l2: int| #[trigger] self.entry_at(l1, l2) == old(self).entry_at(l1, l2) by {
                if l1 == i {
                    MapEntry::lemma_empty_unique(self.entry_at(l1, l2));
                    if 0 <= l2 < L2_ENTRIES {
                        assert(self.entries@[i].entry_at(l2).spec_is_empty());
                    }
                } else if 0 <= l1 < L1_ENTRIES {
                    assert(self.entries@.contains_key(l1 as usize) == old(self).entries@.contains_key(l1 as usize));
                }
            }
        }
        Ok(())
    }

    /// Records `value` for every page of `segment` under entry `index`.
    pub fn assign_at(&mut self, index: L1Index, segment: L2Segment, value: MapEntry) -> (r: Result<(), PageMapError>)
        requires
            old(self).wf(),
            index.value() < L1_ENTRIES,
            old(self).has_table(index.value()),
            segment.wf(),
            !value.spec_is_empty(),
            forall|l2: int| segment.spec_start() <= l2 < segment.spec_end() ==> (#[trigger] old(self).entry_at(index.value(), l2)).spec_is_empty(),
        ensures
            r is Ok,
            final(self).wf(),
            forall|l1: int| #[trigger] final(self).has_table(l1) == old(self).has_table(l1),
            forall|l1: int, l2: int|
                0 <= l2 < L2_ENTRIES ==> #[trigger] final(self).entry_at(l1, l2) == if l1 == index.value()
                    && segment.spec_start() <= l2 < segment.spec_end() {
                    value
                } else {
                    old(self).entry_at(l1, l2)
                },
    {
        let i = index.get();
        let mut entry = match self.entries.remove(&i) {
            Some(e) => e,
            None => return Err(PageMapError::MetadataAllocFailed),
        };
        proof {
            assert forall|l2: int| segment.spec_start() <= l2 < segment.spec_end() implies (#[trigger] entry.entry_at(l2)).spec_is_empty() by {
                assert(old(self).entry_at(index.value(), l2).spec_is_empty());
            }
            lemma_count_le_len(entry.l2_mapping.mapping->0.pages_view());
        }
        let r = entry.assign(segment, value);
        self.entries.insert(i, entry);
        proof {
            assert forall|l1: int, l2: int| 0 <= l2 < L2_ENTRIES implies #[trigger] self.entry_at(l1, l2) == if l1 == index.value()
                && segment.spec_start() <= l2 < segment.spec_end() {
                value
            } else {
                old(self).entry_at(l1, l2)
            } by {
                if l1 != index.value() && 0 <= l1 < L1_ENTRIES {
                    assert(self.entries@.contains_key(l1 as usize) == old(self).entries@.contains_key(l1 as usize));
                }
            }
        }
        r
    }

    /// Empties every page of `segment` under entry `index`.
    pub fn clear_at(&mut self, index: L1Index, segment: L2Segment) -> (r: Result<(), PageMapError>)
        requires
            old(self).wf(),
            index.value() < L1_ENTRIES,
            segment.wf(),
            forall|l2: int| segment.spec_start() <= l2 < segment.spec_end() ==> !(#[trigger] old(self).entry_at(index.value(), l2)).spec_is_empty(),
        ensures
            r is Ok,
            final(self).wf(),
            forall|l1: int| #[trigger] final(self).has_table(l1) == old(self).has_table(l1),
            forall|l1: int, l2: int|
                0 <= l2 < L2_ENTRIES ==> #[trigger] final(self).entry_at(l1, l2) == if l1 == index.value()
                    && segment.spec_start() <= l2 < segment.spec_end() {
                    MapEntry::spec_empty()
                } else {
                    old(self).entry_at(l1, l2)
                },
    {
        proof {
            MapEntry::lemma_empty_unique(MapEntry::spec_empty());
            assert(!old(self).entry_at(index.value(), segment.spec_start()).spec_is_empty());
        }
        let i = index.get();
        let mut entry = match self.entries.remove(&i) {
            Some(e) => e,
            None => return Err(PageMapError::UnexpectedEntry),
        };
        let ghost pages = entry.l2_mapping.mapping->0.pages_view();
        proof {
            assert forall|l2: int| segment.spec_start() <= l2 < segment.spec_end() implies !(#[trigger] entry.entry_at(l2)).spec_is_empty() by {
                assert(!old(self).entry_at(index.value(), l2).spec_is_empty());
            }
            if !entry.has_table() {
                assert(!entry.entry_at(segment.spec_start()).spec_is_empty());
            }
            assert forall|i: int| segment.spec_start() <= i < segment.spec_end() implies !(#[trigger] pages[i]).spec_is_empty() by {
                assert(!entry.entry_at(i).spec_is_empty());
            }
            lemma_count_window_uniform(pages, segment.spec_start(), segment.spec_end());
            lemma_count_window_le(pages, segment.spec_start(), segment.spec_end());
        }
        let r = entry.clear_segment(segment);
        self.entries.insert(i, entry);
        proof {
            assert forall|l1: int, l2: int| 0 <= l2 < L2_ENTRIES implies #[trigger] self.entry_at(l1, l2) == if l1 == index.value()
                && segment.spec_start() <= l2 < segment.spec_end() {
                MapEntry::spec_empty()
            } else {
                old(self).entry_at(l1, l2)
            } by {
                if l1 != index.value() && 0 <= l1 < L1_ENTRIES {
                    assert(self.entries@.contains_key(l1 as usize) == old(self).entries@.contains_key(l1 as usize));
                }
            }
        }
        r
    }
}

impl L1Table {
    /// Installs a second-level table under every first-level entry the
    /// range touches, stopping at the first allocation failure.
    pub fn ensure_l2_tables(&mut self, range: PageRange, segments: &Vec<RangeSegment>) -> (r: Result<(), PageMapError>)
        requires
            old(self).wf(),
            range.wf(),
            range.segments_of(segments@),
        ensures
            final(self).wf(),
            forall|l1: int| #[trigger] old(self).has_table(l1) ==> final(self).has_table(l1),
            forall|l1: int, l2: int| #[trigger] final(self).entry_at(l1, l2) == old(self).entry_at(l1, l2),
            r is Ok ==> forall|l1: int| range.first_l1() <= l1 <= range.last_l1() ==> #[trigger] final(self).has_table(l1),
            r is Err ==> r == Err::<(), PageMapError>(PageMapError::MetadataAllocFailed),
            (forall|l1: int| range.first_l1() <= l1 <= range.last_l1() ==> #[trigger] old(self).has_table(l1)) ==> r is Ok,
            r is Ok,
    {
        proof {
            range.lemma_segments_nonempty();
        }
        let mut k: usize = 0;
        while k < segments.len()
            invariant
                self.wf(),
                range.wf(),
                range.segments_of(segments@),
                0 <= range.first_l1() <= range.last_l1() < L1_ENTRIES,
                k <= segments.len(),
                forall|l1: int, l2: int| #[trigger] self.entry_at(l1, l2) == old(self).entry_at(l1, l2),
                forall|l1: int| range.first_l1() <= l1 < range.first_l1() + k ==> #[trigger] self.has_table(l1),
                forall|l1: int| #[trigger] old(self).has_table(l1) ==> self.has_table(l1),
            decreases segments.len() - k,
        {
            let segment = segments[k];
            proof {
                assert(segment.l1.value() == range.first_l1() + k);
                assert(old(self).has_table(range.first_l1() + k) ==> self.has_table(range.first_l1() + k));
            }
            match self.ensure_l2_table(segment.l1) {
                Ok(()) => {},
                Err(error) => return Err(error),
            }
            k = k + 1;
        }
        Ok(())
    }

    /// Records `value` for every page of the range, whose pages must all be
    /// empty and whose second-level tables must all exist.
    pub fn assign_segments(&mut self, range: PageRange, segments: &Vec<RangeSegment>, value: MapEntry) -> (r: Result<(), PageMapError>)
        requires
            old(self).wf(),
            range.wf(),
            range.segments_of(segments@),
            !value.spec_is_empty(),
            forall|l1: int| range.first_l1() <= l1 <= range.last_l1() ==> #[trigger] old(self).has_table(l1),
            forall|l1: int, l2: int| range.covers(l1, l2) ==> (#[trigger] old(self).entry_at(l1, l2)).spec_is_empty(),
        ensures
            r is Ok,
            final(self).wf(),
            forall|l1: int| #[trigger] final(self).has_table(l1) == old(self).has_table(l1),
            forall|l1: int, l2: int|
                0 <= l2 < L2_ENTRIES ==> #[trigger] final(self).entry_at(l1, l2) == if range.covers(l1, l2) {
                    value
                } else {
                    old(self).entry_at(l1, l2)
                },
    {
        proof {
            range.lemma_segments_nonempty();
        }
        let mut k: usize = 0;
        while k < segments.len()
            invariant
                self.wf(),
                forall|l1: int| #[trigger] self.has_table(l1) == old(self).has_table(l1),
                range.wf(),
                range.segments_of(segments@),
                !value.spec_is_empty(),
                0 <= range.first_l1() <= range.last_l1() < L1_ENTRIES,
                k <= segments.len(),
                forall|l1: int| range.first_l1() <= l1 <= range.last_l1() ==> #[trigger] self.has_table(l1),
                forall|l1: int, l2: int| range.covers(l1, l2) ==> (#[trigger] old(self).entry_at(l1, l2)).spec_is_empty(),
                forall|l1: int, l2: int|
                    0 <= l2 < L2_ENTRIES ==> #[trigger] self.entry_at(l1, l2) == if range.covers(l1, l2) && l1
                        < range.first_l1() + k {
                        value
                    } else {
                        old(self).entry_at(l1, l2)
                    },
            decreases segments.len() - k,
        {
            let segment = segments[k];
            let ghost l1k = range.first_l1() + k;
            proof {
                assert(segment.l1.value() == l1k);
                assert forall|l2: int| segment.l2.spec_start() <= l2 < segment.l2.spec_end() implies (#[trigger] self.entry_at(l1k, l2)).spec_is_empty() by {
                    assert(range.covers(l1k, l2));
                    assert(old(self).entry_at(l1k, l2).spec_is_empty());
                }
            }
            match self.assign_at(segment.l1, segment.l2, value) {
                Ok(()) => {},
                Err(error) => return Err(error),
            }
            k = k + 1;
        }
        Ok(())
    }

    /// Empties every page of the range, whose pages must all have an owner.
    pub fn clear_segments(&mut self, range: PageRange, segments: &Vec<RangeSegment>) -> (r: Result<(), PageMapError>)
        requires
            old(self).wf(),
            range.wf(),
            range.segments_of(segments@),
            forall|l1: int, l2: int| range.covers(l1, l2) ==> !(#[trigger] old(self).entry_at(l1, l2)).spec_is_empty(),
        ensures
            r is Ok,
            final(self).wf(),
            forall|l1: int| #[trigger] final(self).has_table(l1) == old(self).has_table(l1),
            forall|l1: int, l2: int|
                0 <= l2 < L2_ENTRIES ==> #[trigger] final(self).entry_at(l1, l2) == if range.covers(l1, l2) {
                    MapEntry::spec_empty()
                } else {
                    old(self).entry_at(l1, l2)
                },
    {
        proof {
            range.lemma_segments_nonempty();
        }
        let mut k: usize = 0;
        while k < segments.len()
            invariant
                self.wf(),
                forall|l1: int| #[trigger] self.has_table(l1) == old(self).has_table(l1),
                range.wf(),
                range.segments_of(segments@),
                0 <= range.first_l1() <= range.last_l1() < L1_ENTRIES,
                k <= segments.len(),
                forall|l1: int, l2: int| range.covers(l1, l2) ==> !(#[trigger] old(self).entry_at(l1, l2)).spec_is_empty(),
                forall|l1: int, l2: int|
                    0 <= l2 < L2_ENTRIES ==> #[trigger] self.entry_at(l1, l2) == if range.covers(l1, l2) && l1
                        < range.first_l1() + k {
                        MapEntry::spec_empty()
                    } else {
                        old(self).entry_at(l1, l2)
                    },
            decreases segments.len() - k,
        {
            let segment = segments[k];
            let ghost l1k = range.first_l1() + k;
            proof {
                assert(segment.l1.value() == l1k);
                assert forall|l2: int| segment.l2.spec_start() <= l2 < segment.l2.spec_end() implies !(#[trigger] self.entry_at(l1k, l2)).spec_is_empty() by {
                    assert(range.covers(l1k, l2));
                    assert(!old(self).entry_at(l1k, l2).spec_is_empty());
                }
            }
            match self.clear_at(segment.l1, segment.l2) {
                Ok(()) => {},
                Err(error) => return Err(error),
            }
            k = k + 1;
        }
        Ok(())
    }

    /// Whether every page of the range under first-level entry `l1` records `entry`.
    pub open spec fn segment_records(&self, range: PageRange, l1: int, entry: MapEntry) -> bool {
        forall|l2: int| range.seg_lo(l1) <= l2 < range.seg_hi(l1) ==> #[trigger] self.entry_at(l1, l2) == entry
    }

    /// Empties each segment of the range that is wholly recorded as `entry`;
    /// every other page keeps its entry.
    pub fn rollback_segments(&mut self, range: PageRange, segments: &Vec<RangeSegment>, entry: MapEntry)
        requires
            old(self).wf(),
            range.wf(),
            range.segments_of(segments@),
            !entry.spec_is_empty(),
        ensures
            final(self).wf(),
            forall|l1: int| #[trigger] final(self).has_table(l1) == old(self).has_table(l1),
            forall|l1: int, l2: int|
                0 <= l2 < L2_ENTRIES ==> #[trigger] final(self).entry_at(l1, l2) == if range.covers(l1, l2)
                    && old(self).segment_records(range, l1, entry) {
                    MapEntry::spec_empty()
                } else {
                    old(self).entry_at(l1, l2)
                },
    {
        proof {
            range.lemma_segments_nonempty();
        }
        let mut k: usize = 0;
        while k < segments.len()
            invariant
                self.wf(),
                forall|l1: int| #[trigger] self.has_table(l1) == old(self).has_table(l1),
                range.wf(),
                range.segments_of(segments@),
                !entry.spec_is_empty(),
                0 <= range.first_l1() <= range.last_l1() < L1_ENTRIES,
                forall|l1: int| range.first_l1() <= l1 <= range.last_l1() ==> 0 <= #[trigger] range.seg_lo(l1) < range.seg_hi(l1) <= L2_ENTRIES,
                k <= segments.len(),
                forall|l1: int, l2: int|
                    0 <= l2 < L2_ENTRIES ==> #[trigger] self.entry_at(l1, l2) == if range.covers(l1, l2) && l1
                        < range.first_l1() + k && old(self).segment_records(range, l1, entry) {
                        MapEntry::spec_empty()
                    } else {
                        old(self).entry_at(l1, l2)
                    },
            decreases segments.len() - k,
        {
            let segment = segments[k];
            let ghost l1k = range.first_l1() + k;
            let ghost recorded = old(self).segment_records(range, l1k, entry);
            proof {
                assert(segment.l1.value() == l1k);
                assert(0 <= range.seg_lo(l1k) < range.seg_hi(l1k) <= L2_ENTRIES);
                assert forall|l2: int| 0 <= l2 < L2_ENTRIES implies #[trigger] self.entry_at(l1k, l2) == old(self).entry_at(l1k, l2) by {
                }
            }
            let owned = match self.entry(segment.l1) {
                Ok(slot) => {
                    let owned = slot.owns_segment(segment.l2, entry);
                    proof {
                        let all = forall|l2: int| segment.l2.spec_start() <= l2 < segment.l2.spec_end() ==> #[trigger] slot.entry_at(l2) == entry;
                        if all {
                            assert forall|l2: int| range.seg_lo(l1k) <= l2 < range.seg_hi(l1k) implies #[trigger] old(self).entry_at(l1k, l2) == entry by {
                                assert(slot.entry_at(l2) == entry);
                                assert(self.entry_at(l1k, l2) == old(self).entry_at(l1k, l2));
                            }
                        }
                        if recorded {
                            assert forall|l2: int| segment.l2.spec_start() <= l2 < segment.l2.spec_end() implies #[trigger] slot.entry_at(l2) == entry by {
                                assert(old(self).entry_at(l1k, l2) == entry);
                                assert(self.entry_at(l1k, l2) == old(self).entry_at(l1k, l2));
                            }
                        }
                        assert(all == recorded);
                    }
                    owned
                },
                Err(error) => Err(error),
            };
            assert(owned == Ok::<bool, PageMapError>(recorded));
            match owned {
                Ok(true) => {
                    proof {
                        assert forall|l2: int| segment.l2.spec_start() <= l2 < segment.l2.spec_end() implies !(#[trigger] self.entry_at(l1k, l2)).spec_is_empty() by {
                            assert(old(self).entry_at(l1k, l2) == entry);
                            assert(self.entry_at(l1k, l2) == old(self).entry_at(l1k, l2));
                            MapEntry::lemma_empty_unique(entry);
                        }
                    }
                    let _ = self.clear_at(segment.l1, segment.l2);
                },
                _ => {},
            }
            k = k + 1;
        }
    }
}

} // verus!
