use vstd::prelude::*;

use crate::memory::{Mapping, PAGE_SIZE};
use vstd::arithmetic::div_mod::lemma_fundamental_div_mod;

verus! {

/// Number of pages covered by one second-level table (`1 << 12`).
pub const L2_ENTRIES: usize = 4096;

/// Number of first-level entries: 48-bit addresses, 4 KiB pages and 4096
/// pages per second-level table leave `1 << 24` of them.
pub const L1_ENTRIES: usize = 16_777_216;

/// Number of pages the map can describe (`L1_ENTRIES * L2_ENTRIES`).
pub const ADDRESSABLE_PAGES: u64 = 68_719_476_736;

/// The first-level index of page `page`.
pub open spec fn l1_of(page: int) -> int {
    page / (L2_ENTRIES as int)
}

/// The second-level index of page `page`.
pub open spec fn l2_of(page: int) -> int {
    page % (L2_ENTRIES as int)
}

/// A page is recovered from its two indexes.
pub proof fn lemma_page_indexes(page: int)
    requires
        0 <= page < ADDRESSABLE_PAGES,
    ensures
        page == l1_of(page) * (L2_ENTRIES as int) + l2_of(page),
        0 <= l1_of(page) < L1_ENTRIES,
        0 <= l2_of(page) < L2_ENTRIES,
{
    lemma_fundamental_div_mod(page, L2_ENTRIES as int);
    assert(0 <= l1_of(page) < L1_ENTRIES) by (nonlinear_arith)
        requires
            0 <= page < 68_719_476_736,
            page == l1_of(page) * 4096 + l2_of(page),
            0 <= l2_of(page) < 4096,
    {
    }
}

/// The page of index `l2` under first-level entry `l1` has indexes `(l1, l2)`.
pub proof fn lemma_indexes_of_page(l1: int, l2: int)
    requires
        0 <= l1 < L1_ENTRIES,
        0 <= l2 < L2_ENTRIES,
    ensures
        l1_of(l1 * (L2_ENTRIES as int) + l2) == l1,
        l2_of(l1 * (L2_ENTRIES as int) + l2) == l2,
        0 <= l1 * (L2_ENTRIES as int) + l2 < ADDRESSABLE_PAGES,
{
    let p = l1 * 4096 + l2;
    assert(0 <= p < 68_719_476_736) by (nonlinear_arith)
        requires
            0 <= l1 < 16_777_216,
            0 <= l2 < 4096,
            p == l1 * 4096 + l2,
    {
    }
    lemma_page_indexes(p);
    assert(l1_of(p) == l1 && l2_of(p) == l2) by (nonlinear_arith)
        requires
            p == l1 * 4096 + l2,
            p == l1_of(p) * 4096 + l2_of(p),
            0 <= l2 < 4096,
            0 <= l2_of(p) < 4096,
    {
    }
}

/// Whether `mapping` spans whole pages that the map can describe: its base
/// and length are page multiples, it is not empty, it does not wrap around,
/// and it ends at or below the map's limit.
pub open spec fn spans_pages(mapping: Mapping) -> bool {
    let base = mapping.spec_base() as int;
    let len = mapping.spec_len() as int;
    base % (PAGE_SIZE as int) == 0 && len > 0 && len % (PAGE_SIZE as int) == 0 && base + len
        <= usize::MAX && (base + len) / (PAGE_SIZE as int) <= ADDRESSABLE_PAGES
}

/// Whether page `page` lies in `mapping`.
pub open spec fn mapping_has_page(mapping: Mapping, page: int) -> bool {
    mapping.spec_base() as int / (PAGE_SIZE as int) <= page < (mapping.spec_base() as int
        + mapping.spec_len() as int) / (PAGE_SIZE as int)
}

/// Index into the first-level table.
#[derive(Clone, Copy, Debug, PartialEq, Eq)]
pub struct L1Index(usize);

impl L1Index {
    pub closed spec fn value(self) -> int {
        self.0 as int
    }

    pub fn get(self) -> (r: usize)
        ensures
            r == self.value(),
    {
        self.0
    }
}

/// Index into a second-level table.
#[derive(Clone, Copy, Debug, PartialEq, Eq)]
pub struct L2Index(usize);

impl L2Index {
    pub closed spec fn value(self) -> int {
        self.0 as int
    }

    pub fn get(self) -> (r: usize)
        ensures
            r == self.value(),
    {
        self.0
    }
}

/// The page that holds an address.
#[derive(Clone, Copy, Debug, PartialEq, Eq)]
pub struct Page(u64);

impl Page {
    pub closed spec fn number(self) -> int {
        self.0 as int
    }

    /// The page holding address `addr`.
    pub fn containing(addr: usize) -> (r: Page)
        ensures
            r.number() == addr as int / (PAGE_SIZE as int),
    {
        Page(addr as u64 / 4096)
    }

    /// The page's first- and second-level indexes, if the map covers it.
    pub fn indexes(self) -> (r: Option<(L1Index, L2Index)>)
        ensures
            r is Some <==> self.number() < ADDRESSABLE_PAGES,
            r matches Some(ix) ==> ix.0.value() == l1_of(self.number()) && ix.1.value() == l2_of(
                self.number(),
            ),
    {
        if self.0 >= ADDRESSABLE_PAGES {
            return None;
        }
        proof {
            lemma_page_indexes(self.0 as int);
        }
        Some((L1Index((self.0 / 4096) as usize), L2Index((self.0 % 4096) as usize)))
    }
}

/// A non-empty run of second-level indexes `start..end` within one table.
#[derive(Clone, Copy, Debug, PartialEq, Eq)]
pub struct L2Segment {
    start: usize,
    end: usize,
}

impl L2Segment {
    pub closed spec fn spec_start(self) -> int {
        self.start as int
    }

    pub closed spec fn spec_end(self) -> int {
        self.end as int
    }

    pub open spec fn wf(self) -> bool {
        0 <= self.spec_start() < self.spec_end() <= L2_ENTRIES
    }

    /// First index of the segment.
    pub fn start(self) -> (r: usize)
        ensures
            r == self.spec_start(),
    {
        self.start
    }

    /// One past the last index of the segment.
    pub fn end(self) -> (r: usize)
        ensures
            r == self.spec_end(),
    {
        self.end
    }

    /// Number of pages in the segment.
    pub fn pages(self) -> (r: u32)
        requires
            self.wf(),
        ensures
            r == self.spec_end() - self.spec_start(),
    {
        (self.end - self.start) as u32
    }
}

/// The part of a page range under one first-level entry.
#[derive(Clone, Copy, Debug, PartialEq, Eq)]
pub struct RangeSegment {
    pub l1: L1Index,
    pub l2: L2Segment,
}

/// A non-empty, map-covered run of pages `start..end`.
#[derive(Clone, Copy, Debug, PartialEq, Eq)]
pub struct PageRange {
    start: u64,
    end: u64,
}

impl PageRange {
    pub closed spec fn first_page(self) -> int {
        self.start as int
    }

    pub closed spec fn end_page(self) -> int {
        self.end as int
    }

    pub open spec fn wf(self) -> bool {
        0 <= self.first_page() < self.end_page() <= ADDRESSABLE_PAGES
    }

    /// Whether page `page` lies in the range.
    pub open spec fn contains(self, page: int) -> bool {
        self.first_page() <= page < self.end_page()
    }

    /// First-level index of the range's first page.
    pub open spec fn first_l1(self) -> int {
        l1_of(self.first_page())
    }

    /// First-level index of the range's last page.
    pub open spec fn last_l1(self) -> int {
        l1_of(self.end_page() - 1)
    }

    /// First second-level index of the range under first-level entry `l1`.
    pub open spec fn seg_lo(self, l1: int) -> int {
        if l1 == self.first_l1() {
            l2_of(self.first_page())
        } else {
            0
        }
    }

    /// One past the last second-level index of the range under entry `l1`.
    pub open spec fn seg_hi(self, l1: int) -> int {
        if l1 == self.last_l1() {
            l2_of(self.end_page() - 1) + 1
        } else {
            L2_ENTRIES as int
        }
    }

    /// The segment of the range under first-level entry `l1`.
    pub open spec fn covers(self, l1: int, l2: int) -> bool {
        self.first_l1() <= l1 <= self.last_l1() && self.seg_lo(l1) <= l2 < self.seg_hi(l1)
    }

    /// A page lies in the range exactly when its indexes fall in the
    /// range's segment under its first-level entry.
    pub proof fn lemma_contains_iff_covers(self, page: int)
        requires
            self.wf(),
            0 <= page < ADDRESSABLE_PAGES,
        ensures
            self.contains(page) <==> self.covers(l1_of(page), l2_of(page)),
    {
        lemma_page_indexes(page);
        lemma_page_indexes(self.first_page());
        lemma_page_indexes(self.end_page() - 1);
        let (l1, l2) = (l1_of(page), l2_of(page));
        let (s1, s2) = (l1_of(self.first_page()), l2_of(self.first_page()));
        let (e1, e2) = (l1_of(self.end_page() - 1), l2_of(self.end_page() - 1));
        assert((self.first_page() <= page) <==> (l1 > s1 || (l1 == s1 && l2 >= s2))) by (nonlinear_arith)
            requires
                page == l1 * 4096 + l2,
                self.first_page() == s1 * 4096 + s2,
                0 <= l2 < 4096,
                0 <= s2 < 4096,
        {
        }
        assert((page <= self.end_page() - 1) <==> (l1 < e1 || (l1 == e1 && l2 <= e2))) by (nonlinear_arith)
            requires
                page == l1 * 4096 + l2,
                self.end_page() - 1 == e1 * 4096 + e2,
                0 <= l2 < 4096,
                0 <= e2 < 4096,
        {
        }
    }

    /// The segments are non-empty and ordered: every first-level entry from
    /// the range's first to its last holds at least one of its pages.
    pub proof fn lemma_segments_nonempty(self)
        requires
            self.wf(),
        ensures
            0 <= self.first_l1() <= self.last_l1() < L1_ENTRIES,
            forall|l1: int| self.first_l1() <= l1 <= self.last_l1() ==> 0 <= #[trigger] self.seg_lo(l1) < self.seg_hi(l1) <= L2_ENTRIES,
    {
        lemma_page_indexes(self.first_page());
        lemma_page_indexes(self.end_page() - 1);
        let (s1, s2) = (l1_of(self.first_page()), l2_of(self.first_page()));
        let (e1, e2) = (l1_of(self.end_page() - 1), l2_of(self.end_page() - 1));
        assert(s1 < e1 || (s1 == e1 && s2 <= e2)) by (nonlinear_arith)
            requires
                self.first_page() <= self.end_page() - 1,
                self.first_page() == s1 * 4096 + s2,
                self.end_page() - 1 == e1 * 4096 + e2,
                0 <= s2 < 4096,
                0 <= e2 < 4096,
        {
        }
    }

    /// The range split at second-level table boundaries, in address order.
    pub fn segments(self) -> (r: Vec<RangeSegment>)
        requires
            self.wf(),
        ensures
            self.segments_of(r@),
    {
        proof {
            self.lemma_segments_nonempty();
            lemma_page_indexes(self.first_page());
            lemma_page_indexes(self.end_page() - 1);
        }
        let first = (self.start / 4096) as usize;
        let last = ((self.end - 1) / 4096) as usize;
        let first_lo = (self.start % 4096) as usize;
        let last_hi = ((self.end - 1) % 4096) as usize + 1;
        let mut segments: Vec<RangeSegment> = Vec::new();
        let mut l1 = first;
        while l1 <= last
            invariant
                first == self.first_l1(),
                last == self.last_l1(),
                first_lo == self.seg_lo(first as int),
                last_hi == l2_of(self.end_page() - 1) + 1,
                0 <= first <= l1 <= last + 1,
                last < L1_ENTRIES,
                segments.len() == l1 - first,
                forall|l: int| self.first_l1() <= l <= self.last_l1() ==> 0 <= #[trigger] self.seg_lo(l) < self.seg_hi(l) <= L2_ENTRIES,
                forall|k: int|
                    0 <= k < segments.len() ==> {
                        &&& (#[trigger] segments[k]).l1.value() == self.first_l1() + k
                        &&& segments[k].l2.spec_start() == self.seg_lo(self.first_l1() + k)
                        &&& segments[k].l2.spec_end() == self.seg_hi(self.first_l1() + k)
                        &&& segments[k].l2.wf()
                    },
            decreases last + 1 - l1,
        {
            let lo = if l1 == first {
                first_lo
            } else {
                0
            };
            let hi = if l1 == last {
                last_hi
            } else {
                L2_ENTRIES
            };
            assert(lo == self.seg_lo(l1 as int));
            assert(hi == self.seg_hi(l1 as int));
            segments.push(RangeSegment { l1: L1Index(l1), l2: L2Segment { start: lo, end: hi } });
            l1 = l1 + 1;
        }
        segments
    }

    /// Whether `segs` is the range split at second-level table boundaries,
    /// in address order.
    pub open spec fn segments_of(self, segs: Seq<RangeSegment>) -> bool {
        &&& segs.len() == self.last_l1() - self.first_l1() + 1
        &&& forall|k: int|
            0 <= k < segs.len() ==> {
                &&& (#[trigger] segs[k]).l1.value() == self.first_l1() + k
                &&& segs[k].l2.spec_start() == self.seg_lo(self.first_l1() + k)
                &&& segs[k].l2.spec_end() == self.seg_hi(self.first_l1() + k)
                &&& segs[k].l2.wf()
            }
    }

    /// The page range a mapping spans: its base and length must be whole
    /// pages, it must not be empty, and it must lie below the map's limit.
    pub fn from_mapping(mapping: &Mapping) -> (r: Option<PageRange>)
        ensures
            r is Some <==> spans_pages(*mapping),
            r matches Some(range) ==> range.wf() && forall|p: int| #[trigger] range.contains(p) == mapping_has_page(*mapping, p),
    {
        let base = mapping.base();
        let len = mapping.len();
        if base % PAGE_SIZE != 0 || len == 0 || len % PAGE_SIZE != 0 {
            return None;
        }
        if len > usize::MAX - base {
            return None;
        }
        let start = (base / PAGE_SIZE) as u64;
        let end = ((base + len) / PAGE_SIZE) as u64;
        if end > ADDRESSABLE_PAGES {
            return None;
        }
        proof {
            lemma_fundamental_div_mod(base as int, 4096);
            lemma_fundamental_div_mod(len as int, 4096);
            lemma_fundamental_div_mod((base + len) as int, 4096);
            assert(start < end) by (nonlinear_arith)
                requires
                    base == 4096 * (base as int / 4096),
                    len == 4096 * (len as int / 4096),
                    len > 0,
                    (base + len) == 4096 * ((base + len) as int / 4096) + (base + len) as int % 4096,
                    0 <= (base + len) as int % 4096 < 4096,
                    start == base as int / 4096,
                    end == (base + len) as int / 4096,
            {
            }
        }
        Some(PageRange { start, end })
    }
}

} // verus!
