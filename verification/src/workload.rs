use vstd::prelude::*;

use crate::slot::lemma_ring_next;
use crate::global_workload::{black_box, lemma_xor_assoc, lemma_xor_zero, xor_rounds, xor_seq};

verus! {

/// The small size classes the benchmarks sweep, in bytes.
pub open spec fn spec_size_classes() -> Seq<usize> {
    seq![
        8, 16, 24, 32, 48, 64, 80, 96, 128, 160, 192, 256, 320, 384, 512, 768, 1024, 1536, 2048,
        3072, 4096, 6144, 8192, 12288, 16384, 24576, 32768,
    ]
}

/// The small size classes the benchmarks sweep, in bytes.
pub fn size_classes() -> (r: Vec<usize>)
    ensures
        r@ == spec_size_classes(),
{
    let r = vec![
        8, 16, 24, 32, 48, 64, 80, 96, 128, 160, 192, 256, 320, 384, 512, 768, 1024, 1536, 2048,
        3072, 4096, 6144, 8192, 12288, 16384, 24576, 32768,
    ];
    assert(r@ =~= spec_size_classes());
    r
}

/// The sizes around one boundary: one below it (when that is positive), the
/// boundary itself, and one above.
pub open spec fn around(size: usize) -> Seq<usize> {
    if size > 1 {
        seq![(size - 1) as usize, size, (size + 1) as usize]
    } else {
        seq![size, (size + 1) as usize]
    }
}

/// The sizes around each boundary of `boundaries`, in order.
pub open spec fn all_around(boundaries: Seq<usize>) -> Seq<usize>
    decreases boundaries.len(),
{
    if boundaries.len() == 0 {
        Seq::empty()
    } else {
        all_around(boundaries.drop_last()) + around(boundaries.last())
    }
}

/// Whether `x` lies within one of some boundary of `boundaries`.
pub open spec fn near_boundary(boundaries: Seq<usize>, x: usize) -> bool {
    exists|i: int| 0 <= i < boundaries.len() && boundaries[i] - 1 <= x <= #[trigger] boundaries[i] + 1
}

/// Each boundary, the size after it, and the size before it when that is
/// positive are all among the sizes around the boundaries.
#[verifier::spinoff_prover]
pub proof fn lemma_all_around_covers(boundaries: Seq<usize>)
    requires
        forall|i: int| 0 <= i < boundaries.len() ==> 0 < #[trigger] boundaries[i] < usize::MAX,
    ensures
        forall|i: int|
            0 <= i < boundaries.len() ==> {
                &&& all_around(boundaries).contains(#[trigger] boundaries[i])
                &&& all_around(boundaries).contains((boundaries[i] + 1) as usize)
                &&& boundaries[i] > 1 ==> all_around(boundaries).contains((boundaries[i] - 1) as usize)
            },
    decreases boundaries.len(),
{
    if boundaries.len() > 0 {
        let init = boundaries.drop_last();
        let last = boundaries.last();
        lemma_all_around_covers(init);
        let a = all_around(init);
        let all = all_around(boundaries);
        assert(all == a + around(last));
        assert forall|i: int|
            0 <= i < boundaries.len() implies {
                &&& all.contains(#[trigger] boundaries[i])
                &&& all.contains((boundaries[i] + 1) as usize)
                &&& boundaries[i] > 1 ==> all.contains((boundaries[i] - 1) as usize)
            } by {
            if i < init.len() {
                assert(init[i] == boundaries[i]);
                let b = boundaries[i];
                assert(a.contains(b));
                let j0 = choose|j: int| 0 <= j < a.len() && a[j] == b;
                assert(all[j0] == b);
                assert(a.contains((b + 1) as usize));
                let j1 = choose|j: int| 0 <= j < a.len() && a[j] == (b + 1) as usize;
                assert(all[j1] == (b + 1) as usize);
                if b > 1 {
                    assert(a.contains((b - 1) as usize));
                    let j2 = choose|j: int| 0 <= j < a.len() && a[j] == (b - 1) as usize;
                    assert(all[j2] == (b - 1) as usize);
                }
            } else {
                let o = a.len() as int;
                if last > 1 {
                    assert(all[o] == (last - 1) as usize);
                    assert(all[o + 1] == last);
                    assert(all[o + 2] == (last + 1) as usize);
                } else {
                    assert(all[o] == last);
                    assert(all[o + 1] == (last + 1) as usize);
                }
            }
        }
    }
}

/// Every size around the boundaries is positive and within one of some
/// boundary.
#[verifier::spinoff_prover]
pub proof fn lemma_all_around_near(boundaries: Seq<usize>)
    requires
        forall|i: int| 0 <= i < boundaries.len() ==> 0 < #[trigger] boundaries[i] < usize::MAX,
    ensures
        forall|k: int|
            0 <= k < all_around(boundaries).len() ==> near_boundary(boundaries, #[trigger] all_around(boundaries)[k])
                && all_around(boundaries)[k] > 0,
    decreases boundaries.len(),
{
    if boundaries.len() > 0 {
        let init = boundaries.drop_last();
        let last = boundaries.last();
        lemma_all_around_near(init);
        let a = all_around(init);
        let all = all_around(boundaries);
        assert(all == a + around(last));
        assert(boundaries[boundaries.len() - 1] == last);
        assert forall|k: int|
            0 <= k < all.len() implies near_boundary(boundaries, #[trigger] all[k]) && all[k] > 0 by {
            if k < a.len() {
                assert(all[k] == a[k]);
                assert(near_boundary(init, a[k]));
                let i = choose|i: int| 0 <= i < init.len() && init[i] - 1 <= a[k] <= #[trigger] init[i] + 1;
                assert(boundaries[i] == init[i]);
            }
        }
    }
}

/// Appends the sizes around `size` to `sizes`.
fn push_around(sizes: &mut Vec<usize>, size: usize)
    requires
        size < usize::MAX,
    ensures
        final(sizes)@ == old(sizes)@ + around(size),
{
    if size > 1 {
        sizes.push(size - 1);
    }
    sizes.push(size);
    sizes.push(size + 1);
    assert(final(sizes)@ =~= old(sizes)@ + around(size));
}

/// The sizes one below, at, and one above every size class.
pub fn boundary_sizes() -> (r: Vec<usize>)
    ensures
        r@ == all_around(spec_size_classes()),
{
    let classes = size_classes();
    let mut sizes: Vec<usize> = Vec::with_capacity(classes.len() * 3);
    let mut k: usize = 0;
    while k < classes.len()
        invariant
            k <= classes.len(),
            classes@ == spec_size_classes(),
            sizes@ == all_around(classes@.take(k as int)),
        decreases classes.len() - k,
    {
        assert(classes@.take(k + 1).drop_last() =~= classes@.take(k as int));
        push_around(&mut sizes, classes[k]);
        k = k + 1;
    }
    assert(classes@.take(classes.len() as int) =~= classes@);
    sizes
}

/// The size step `i` of a boundary sweep allocates: the sweep's sizes taken
/// in a cycle.
pub fn sweep_size(sizes: &Vec<usize>, i: usize) -> (r: usize)
    requires
        sizes.len() > 0,
    ensures
        r == sizes@[(i % sizes.len()) as int],
{
    sizes[i % sizes.len()]
}

/// The alignment a zero-filled allocation workload asks for: one page for
/// sizes above the small size classes, eight bytes otherwise.
pub fn zeroed_alignment(size: usize) -> (r: usize)
    ensures
        r == (if size > 32_768 {
            4096usize
        } else {
            8usize
        }),
{
    if size > 32_768 {
        4096
    } else {
        8
    }
}

/// Whether `address` is a multiple of `align`.
pub fn aligned_to(address: usize, align: usize) -> (r: bool)
    requires
        align > 0,
    ensures
        r == (address % align == 0),
{
    address % align == 0
}

/// The powers of two `1, 2, 4, .., 2^(n - 1)`.
pub open spec fn powers_of_two(n: nat) -> Seq<usize>
    decreases n,
{
    if n == 0 {
        Seq::empty()
    } else {
        powers_of_two((n - 1) as nat).push((1usize << ((n - 1) as usize)) as usize)
    }
}

/// The sizes one below, at, and one above every power of two up to `2^16`.
pub fn realloc_sizes() -> (r: Vec<usize>)
    ensures
        r@ == all_around(powers_of_two(17)),
{
    let mut sizes: Vec<usize> = Vec::new();
    let mut power: usize = 0;
    while power <= 16
        invariant
            power <= 17,
            sizes@ == all_around(powers_of_two(power as nat)),
        decreases 17 - power,
    {
        let size = 1usize << power;
        assert(size <= 65536) by (bit_vector)
            requires
                size == 1usize << power,
                power <= 16,
        ;
        assert(powers_of_two((power + 1) as nat).drop_last() =~= powers_of_two(power as nat));
        push_around(&mut sizes, size);
        power = power + 1;
    }
    sizes
}

/// One live allocation made by a benchmark trace: its trace id, where the
/// target placed it, and its current layout.
#[derive(Clone, Copy, Debug, PartialEq, Eq, Structural)]
pub struct AllocationRecord {
    pub id: u64,
    pub address: usize,
    pub size: usize,
    pub align: usize,
}

impl AllocationRecord {
    /// The record's trace id.
    pub fn id(&self) -> (r: u64)
        ensures
            r == self.id,
    {
        self.id
    }

    /// Where the target placed the allocation.
    pub fn address(&self) -> (r: usize)
        ensures
            r == self.address,
    {
        self.address
    }

    /// The allocation's current size in bytes.
    pub fn size(&self) -> (r: usize)
        ensures
            r == self.size,
    {
        self.size
    }

    /// The allocation's alignment in bytes.
    pub fn align(&self) -> (r: usize)
        ensures
            r == self.align,
    {
        self.align
    }
}

/// One request a trace makes of its allocator target, with what came back.
#[derive(Clone, Copy, Debug, PartialEq, Eq, Structural)]
pub enum TraceEvent {
    Allocated { id: u64, size: usize, align: usize, zeroed: bool, address: usize },
    Resized { record: AllocationRecord, new_size: usize, new_address: usize },
    Freed { record: AllocationRecord },
}

/// One request made of an allocator target, as the target receives it.
#[derive(Clone, Copy, Debug, PartialEq, Eq, Structural)]
pub enum TargetRequest {
    Allocate { id: u64, size: usize, align: usize, zeroed: bool },
    Resize { record: AllocationRecord, new_size: usize },
    Release { record: AllocationRecord },
}

/// The requests an allocator target has received, in order. It exists only
/// for proofs: nothing is stored at run time.
#[derive(Clone, Copy)]
pub struct RequestHistory {
    requests: Ghost<Seq<TargetRequest>>,
}

impl View for RequestHistory {
    type V = Seq<TargetRequest>;

    closed spec fn view(&self) -> Seq<TargetRequest> {
        self.requests@
    }
}

impl RequestHistory {
    /// A history of no requests.
    pub fn new() -> (r: RequestHistory)
        ensures
            r@ == Seq::<TargetRequest>::empty(),
    {
        RequestHistory { requests: Ghost(Seq::empty()) }
    }

    /// Adds `request` at the end of the history.
    pub fn record(&mut self, request: TargetRequest)
        ensures
            final(self)@ == old(self)@.push(request),
    {
        self.requests = Ghost(self.requests@.push(request));
    }
}

/// An allocator exercised by benchmark traces. Implementations fill each
/// allocation with a pattern derived from its id and check that pattern
/// when the allocation is resized or freed, and record every request they
/// receive in their `requests` history.
pub trait AllocatorTarget {
    /// Every request the target has received, in order.
    spec fn requests(&self) -> RequestHistory;

    /// Allocates `size` bytes aligned to `align`, zero-filled when `zeroed`,
    /// for the trace record `id`, and returns the allocation's address.
    fn allocate(&mut self, id: u64, size: usize, align: usize, zeroed: bool) -> (r: usize)
        ensures
            final(self).requests()@ == old(self).requests()@.push(TargetRequest::Allocate { id, size, align, zeroed }),
    ;

    /// Resizes the allocation of `record` to `new_size` bytes, keeping its
    /// prefix, and returns its new address.
    fn resize(&mut self, record: &AllocationRecord, new_size: usize) -> (r: usize)
        ensures
            final(self).requests()@ == old(self).requests()@.push(TargetRequest::Resize { record: *record, new_size }),
    ;

    /// Frees the allocation of `record`.
    fn release(&mut self, record: AllocationRecord)
        ensures
            final(self).requests()@ == old(self).requests()@.push(TargetRequest::Release { record }),
    ;
}

/// The request a logged trace event made of the target: the event without
/// what the target returned.
pub open spec fn request_of(event: TraceEvent) -> TargetRequest {
    match event {
        TraceEvent::Allocated { id, size, align, zeroed, .. } => TargetRequest::Allocate { id, size, align, zeroed },
        TraceEvent::Resized { record, new_size, .. } => TargetRequest::Resize { record, new_size },
        TraceEvent::Freed { record } => TargetRequest::Release { record },
    }
}

/// The requests a sequence of logged events made of the target, in order.
pub open spec fn requests_of(events: Seq<TraceEvent>) -> Seq<TargetRequest> {
    events.map_values(|e: TraceEvent| request_of(e))
}

/// Logging one more event extends the requests it stands for by that
/// event's request.
pub proof fn lemma_requests_push(before: Seq<TargetRequest>, events: Seq<TraceEvent>, e: TraceEvent)
    ensures
        (before + requests_of(events)).push(request_of(e)) == before + requests_of(events.push(e)),
{
    assert((before + requests_of(events)).push(request_of(e)) =~= before + requests_of(events.push(e)));
}

/// An allocator target together with the log of every request made of it
/// through this wrapper, and what each request returned.
pub struct TracedTarget<T> {
    target: T,
    events: Vec<TraceEvent>,
}

impl<T: AllocatorTarget> TracedTarget<T> {
    /// Every request made so far, in order.
    pub closed spec fn log(&self) -> Seq<TraceEvent> {
        self.events@
    }

    /// Every request the wrapped target has received, in order.
    pub closed spec fn target_requests(&self) -> Seq<TargetRequest> {
        self.target.requests()@
    }

    /// Wraps `target` with an empty log.
    pub fn new(target: T) -> (r: TracedTarget<T>)
        ensures
            r.log() == Seq::<TraceEvent>::empty(),
            r.target_requests() == target.requests()@,
    {
        TracedTarget { target, events: Vec::new() }
    }

    /// The requests made so far.
    pub fn events(&self) -> (r: &Vec<TraceEvent>)
        ensures
            r@ == self.log(),
    {
        &self.events
    }

    /// Allocates through the target and logs the request.
    pub fn allocate(&mut self, id: u64, size: usize, align: usize, zeroed: bool) -> (address: usize)
        ensures
            final(self).log() == old(self).log().push(TraceEvent::Allocated { id, size, align, zeroed, address }),
            final(self).target_requests() == old(self).target_requests().push(
                TargetRequest::Allocate { id, size, align, zeroed },
            ),
    {
        let address = self.target.allocate(id, size, align, zeroed);
        self.events.push(TraceEvent::Allocated { id, size, align, zeroed, address });
        address
    }

    /// Resizes through the target and logs the request.
    pub fn resize(&mut self, record: &AllocationRecord, new_size: usize) -> (address: usize)
        ensures
            final(self).log() == old(self).log().push(
                TraceEvent::Resized { record: *record, new_size, new_address: address },
            ),
            final(self).target_requests() == old(self).target_requests().push(
                TargetRequest::Resize { record: *record, new_size },
            ),
    {
        let address = self.target.resize(record, new_size);
        self.events.push(TraceEvent::Resized { record: *record, new_size, new_address: address });
        address
    }

    /// Frees through the target and logs the request.
    pub fn release(&mut self, record: AllocationRecord)
        ensures
            final(self).log() == old(self).log().push(TraceEvent::Freed { record }),
            final(self).target_requests() == old(self).target_requests().push(TargetRequest::Release { record }),
    {
        self.target.release(record);
        self.events.push(TraceEvent::Freed { record });
    }
}

/// Whether `align` is a power of two no larger than one page.
pub open spec fn valid_alignment(align: usize) -> bool {
    align == 1 || align == 2 || align == 4 || align == 8 || align == 16 || align == 32 || align
        == 64 || align == 128 || align == 256 || align == 512 || align == 1024 || align == 2048
        || align == 4096
}

/// The random choices a benchmark trace draws from. Every value handed out
/// is recorded, in order, in `drawn`.
pub trait TraceRandom {
    /// Every value handed out so far, in order.
    spec fn drawn(&self) -> Seq<usize>;

    /// A value below `bound`.
    fn next_usize(&mut self, bound: usize) -> (r: usize)
        requires
            bound > 0,
        ensures
            r < bound,
            final(self).drawn() == old(self).drawn().push(r),
    ;

    /// An allocation size from `1` to `max`.
    fn biased_size(&mut self, max: usize) -> (r: usize)
        requires
            max > 0,
        ensures
            1 <= r <= max,
            final(self).drawn() == old(self).drawn().push(r),
    ;

    /// An alignment: a power of two up to one page.
    fn alignment(&mut self) -> (r: usize)
        ensures
            valid_alignment(r),
            final(self).drawn() == old(self).drawn().push(r),
    ;
}

/// The allocations live after `events`, by id.
pub open spec fn live_after(events: Seq<TraceEvent>) -> Map<u64, AllocationRecord>
    decreases events.len(),
{
    if events.len() == 0 {
        Map::empty()
    } else {
        let live = live_after(events.drop_last());
        match events.last() {
            TraceEvent::Allocated { id, size, align, zeroed, address } => live.insert(
                id,
                AllocationRecord { id, address, size, align },
            ),
            TraceEvent::Resized { record, new_size, new_address } => live.insert(
                record.id,
                AllocationRecord { id: record.id, address: new_address, size: new_size, align: record.align },
            ),
            TraceEvent::Freed { record } => live.remove(record.id),
        }
    }
}

/// Whether `event` is a sound request when `live` is what is allocated: a
/// new allocation takes an unused id, and a resize or free names a live
/// allocation exactly as it was last placed.
pub open spec fn event_ok(live: Map<u64, AllocationRecord>, event: TraceEvent) -> bool {
    match event {
        TraceEvent::Allocated { id, .. } => !live.contains_key(id),
        TraceEvent::Resized { record, .. } => live.contains_key(record.id) && live[record.id] == record,
        TraceEvent::Freed { record } => live.contains_key(record.id) && live[record.id] == record,
    }
}

/// Whether every request of `events` is sound when made.
pub open spec fn valid_trace(events: Seq<TraceEvent>) -> bool
    decreases events.len(),
{
    if events.len() == 0 {
        true
    } else {
        valid_trace(events.drop_last()) && event_ok(live_after(events.drop_last()), events.last())
    }
}

/// The checksum a trace folds from its requests: the address of each new
/// allocation, the new size of each resize, and the size of each free.
pub open spec fn trace_checksum(events: Seq<TraceEvent>) -> usize
    decreases events.len(),
{
    if events.len() == 0 {
        0
    } else {
        trace_checksum(events.drop_last()) ^ match events.last() {
            TraceEvent::Allocated { address, .. } => address,
            TraceEvent::Resized { new_size, .. } => new_size,
            TraceEvent::Freed { record } => record.size,
        }
    }
}

/// The requests a call made of `target`, given the log before the call.
pub open spec fn new_events(before: Seq<TraceEvent>, after: Seq<TraceEvent>) -> Seq<TraceEvent> {
    after.subrange(before.len() as int, after.len() as int)
}

/// Whether the records of `live` are exactly the allocations of `m`, each
/// once.
pub open spec fn tracks(live: Seq<AllocationRecord>, m: Map<u64, AllocationRecord>) -> bool {
    &&& forall|k: int| 0 <= k < live.len() ==> m.contains_key(#[trigger] live[k].id) && m[live[k].id] == live[k]
    &&& forall|id: u64| #[trigger] m.contains_key(id) ==> exists|k: int| 0 <= k < live.len() && live[k].id == id
    &&& forall|k1: int, k2: int| 0 <= k1 < k2 < live.len() ==> #[trigger] live[k1].id != #[trigger] live[k2].id
}

proof fn lemma_tracks_empty(m: Map<u64, AllocationRecord>)
    requires
        tracks(Seq::empty(), m),
    ensures
        m == Map::<u64, AllocationRecord>::empty(),
{
    assert(m =~= Map::<u64, AllocationRecord>::empty());
}

proof fn lemma_tracks_push(live: Seq<AllocationRecord>, m: Map<u64, AllocationRecord>, rec: AllocationRecord)
    requires
        tracks(live, m),
        !m.contains_key(rec.id),
    ensures
        tracks(live.push(rec), m.insert(rec.id, rec)),
{
    let l2 = live.push(rec);
    let m2 = m.insert(rec.id, rec);
    assert forall|id: u64| #[trigger] m2.contains_key(id) implies exists|k: int| 0 <= k < l2.len() && l2[k].id == id by {
        if id == rec.id {
            assert(l2[live.len() as int].id == id);
        } else {
            let k = choose|k: int| 0 <= k < live.len() && live[k].id == id;
            assert(l2[k].id == id);
        }
    }
    assert forall|k1: int, k2: int| 0 <= k1 < k2 < l2.len() implies #[trigger] l2[k1].id != #[trigger] l2[k2].id by {
        if k2 == live.len() {
            assert(m.contains_key(live[k1].id));
        }
    }
}

proof fn lemma_tracks_swap_remove(live: Seq<AllocationRecord>, m: Map<u64, AllocationRecord>, i: int)
    requires
        tracks(live, m),
        0 <= i < live.len(),
    ensures
        tracks(live.update(i, live.last()).drop_last(), m.remove(live[i].id)),
{
    let n = live.len() - 1;
    let l2 = live.update(i, live.last()).drop_last();
    let m2 = m.remove(live[i].id);
    assert forall|k: int| 0 <= k < l2.len() implies m2.contains_key(#[trigger] l2[k].id) && m2[l2[k].id] == l2[k] by {
        if k == i {
            assert(l2[k] == live[n]);
            assert(live[i].id != live[n].id);
        } else {
            assert(l2[k] == live[k]);
            if k < i {
                assert(live[k].id != live[i].id);
            } else {
                assert(live[i].id != live[k].id);
            }
        }
    }
    assert forall|id: u64| #[trigger] m2.contains_key(id) implies exists|k: int| 0 <= k < l2.len() && l2[k].id == id by {
        let k = choose|k: int| 0 <= k < live.len() && live[k].id == id;
        if k == n {
            assert(l2[i].id == id);
        } else {
            assert(k != i);
            assert(l2[k].id == id);
        }
    }
    assert forall|k1: int, k2: int| 0 <= k1 < k2 < l2.len() implies #[trigger] l2[k1].id != #[trigger] l2[k2].id by {
        if k1 == i {
            assert(live[k2].id != live[n].id);
        } else if k2 == i {
            assert(live[k1].id != live[n].id);
        } else {
            assert(live[k1].id != live[k2].id);
        }
    }
}

proof fn lemma_tracks_set(live: Seq<AllocationRecord>, m: Map<u64, AllocationRecord>, i: int, rec: AllocationRecord)
    requires
        tracks(live, m),
        0 <= i < live.len(),
        rec.id == live[i].id,
    ensures
        tracks(live.update(i, rec), m.insert(rec.id, rec)),
{
    let l2 = live.update(i, rec);
    let m2 = m.insert(rec.id, rec);
    assert forall|k: int| 0 <= k < l2.len() implies m2.contains_key(#[trigger] l2[k].id) && m2[l2[k].id] == l2[k] by {
        if k != i {
            if k < i {
                assert(live[k].id != live[i].id);
            } else {
                assert(live[i].id != live[k].id);
            }
        }
    }
    assert forall|id: u64| #[trigger] m2.contains_key(id) implies exists|k: int| 0 <= k < l2.len() && l2[k].id == id by {
        if id == rec.id {
            assert(l2[i].id == id);
        } else {
            let k = choose|k: int| 0 <= k < live.len() && live[k].id == id;
            assert(l2[k].id == id);
        }
    }
    assert forall|k1: int, k2: int| 0 <= k1 < k2 < l2.len() implies #[trigger] l2[k1].id != #[trigger] l2[k2].id by {
        assert(live[k1].id != live[k2].id);
    }
}

proof fn lemma_tracks_drop_first(live: Seq<AllocationRecord>, m: Map<u64, AllocationRecord>)
    requires
        tracks(live, m),
        live.len() > 0,
    ensures
        tracks(live.drop_first(), m.remove(live[0].id)),
{
    let l2 = live.drop_first();
    let m2 = m.remove(live[0].id);
    assert forall|k: int| 0 <= k < l2.len() implies m2.contains_key(#[trigger] l2[k].id) && m2[l2[k].id] == l2[k] by {
        assert(l2[k] == live[k + 1]);
        assert(live[0].id != live[k + 1].id);
    }
    assert forall|id: u64| #[trigger] m2.contains_key(id) implies exists|k: int| 0 <= k < l2.len() && l2[k].id == id by {
        let k = choose|k: int| 0 <= k < live.len() && live[k].id == id;
        assert(k != 0);
        assert(l2[k - 1].id == id);
    }
    assert forall|k1: int, k2: int| 0 <= k1 < k2 < l2.len() implies #[trigger] l2[k1].id != #[trigger] l2[k2].id by {
        assert(live[k1 + 1].id != live[k2 + 1].id);
    }
}

/// The ids of `live`, in order.
pub open spec fn ids(live: Seq<AllocationRecord>) -> Seq<u64> {
    live.map_values(|r: AllocationRecord| r.id)
}

/// A tracked map holds exactly as many allocations as the records tracking it.
proof fn lemma_tracks_len(live: Seq<AllocationRecord>, m: Map<u64, AllocationRecord>)
    requires
        tracks(live, m),
    ensures
        m.dom().finite(),
        m.len() == live.len(),
{
    let s = ids(live);
    assert forall|i: int, j: int| 0 <= i < s.len() && 0 <= j < s.len() && i != j implies s[i] != s[j] by {
        if i < j {
            assert(live[i].id != live[j].id);
        } else {
            assert(live[j].id != live[i].id);
        }
    }
    assert(s.no_duplicates());
    s.unique_seq_to_set();
    assert forall|id: u64| #[trigger] m.dom().contains(id) <==> s.to_set().contains(id) by {
        if m.dom().contains(id) {
            let k = choose|k: int| 0 <= k < live.len() && live[k].id == id;
            assert(s[k] == id);
        }
        if s.to_set().contains(id) {
            let k = choose|k: int| 0 <= k < s.len() && s[k] == id;
            assert(m.contains_key(live[k].id));
        }
    }
    assert(m.dom() =~= s.to_set());
}

/// At most `live_bound(max_live)` records are live at once in a biased
/// random trace: `max_live`, or one when `max_live` is zero.
pub open spec fn live_bound(max_live: usize) -> nat {
    if max_live == 0 {
        1
    } else {
        max_live as nat
    }
}

/// Whether no prefix of `events` leaves more than `bound` allocations live.
pub open spec fn live_within(events: Seq<TraceEvent>, bound: nat) -> bool {
    forall|k: int| 0 <= k <= events.len() ==> #[trigger] live_after(events.take(k)).len() <= bound
}

/// Extending a trace whose prefixes stay within a bound by a request after
/// which the bound still holds keeps every prefix within it.
proof fn lemma_live_within_push(events: Seq<TraceEvent>, e: TraceEvent, bound: nat)
    requires
        live_within(events, bound),
        live_after(events.push(e)).len() <= bound,
    ensures
        live_within(events.push(e), bound),
{
    let ext = events.push(e);
    assert forall|k: int| 0 <= k <= ext.len() implies #[trigger] live_after(ext.take(k)).len() <= bound by {
        if k <= events.len() {
            assert(ext.take(k) =~= events.take(k));
        } else {
            assert(ext.take(k) =~= ext);
        }
    }
}

/// A trace extended by one request drops back to the trace, and ends with
/// that request.
proof fn lemma_trace_push(events: Seq<TraceEvent>, e: TraceEvent)
    ensures
        events.push(e).drop_last() == events,
        events.push(e).last() == e,
{
    assert(events.push(e).drop_last() =~= events);
}

/// The allocation a request leaves in place: the new record of an
/// allocation or resize, or the freed record.
pub open spec fn placed(event: TraceEvent) -> AllocationRecord {
    match event {
        TraceEvent::Allocated { id, size, align, address, .. } => AllocationRecord { id, address, size, align },
        TraceEvent::Resized { record, new_size, new_address } => AllocationRecord {
            id: record.id,
            address: new_address,
            size: new_size,
            align: record.align,
        },
        TraceEvent::Freed { record } => record,
    }
}

/// Whether `event` resizes the record `prev` left to `size` bytes.
pub open spec fn resizes(event: TraceEvent, prev: TraceEvent, size: usize) -> bool {
    event matches TraceEvent::Resized { record, new_size, .. } && record == placed(prev) && new_size == size
}

/// Whether `events` are the requests of growth round `round`: one byte
/// aligned to eight is allocated under id `round`, not zeroed; it is resized
/// to each of `sizes` in order, each resize naming the record the request
/// before it left; and that record is then freed.
pub open spec fn growth_round(events: Seq<TraceEvent>, round: u64, sizes: Seq<usize>) -> bool {
    &&& events.len() == sizes.len() + 2
    &&& events[0] matches TraceEvent::Allocated { id, size, align, zeroed, .. } && id == round && size == 1
        && align == 8 && !zeroed
    &&& forall|k: int|
        0 <= k < sizes.len() ==> #[trigger] resizes(events[k + 1], events[k], sizes[k])
    &&& events[sizes.len() + 1int] == TraceEvent::Freed { record: placed(events[sizes.len() as int]) }
}

/// The number of requests one growth round makes: one allocation, a resize
/// per size of `realloc_sizes`, and one free.
pub open spec fn growth_round_len() -> int {
    all_around(powers_of_two(17)).len() + 2int
}

/// Grows one allocation per round from one byte through every size of
/// `realloc_sizes`, then frees it; returns the XOR of the sizes it reached
/// over all rounds. Round `r` makes exactly the requests of
/// `growth_round(.., r, ..)`, one round after another; every request is
/// sound and it leaves nothing allocated.
pub fn realloc_growth<T: AllocatorTarget>(target: &mut TracedTarget<T>, rounds: usize) -> (r: usize)
    ensures
        final(target).target_requests() == old(target).target_requests() + requests_of(
            new_events(old(target).log(), final(target).log()),
        ),
        r == xor_rounds(|round: nat| xor_seq(all_around(powers_of_two(17))), rounds as nat),
        valid_trace(new_events(old(target).log(), final(target).log())),
        live_after(new_events(old(target).log(), final(target).log())) == Map::<u64, AllocationRecord>::empty(),
        new_events(old(target).log(), final(target).log()).len() == rounds * growth_round_len(),
        forall|round: int|
            0 <= round < rounds ==> #[trigger] growth_round(
                new_events(old(target).log(), final(target).log()).subrange(
                    round * growth_round_len(),
                    (round + 1) * growth_round_len(),
                ),
                round as u64,
                all_around(powers_of_two(17)),
            ),
{
    let sizes = realloc_sizes();
    let ghost f = |round: nat| xor_seq(all_around(powers_of_two(17)));
    let ghost start_events = target.log();
    let ghost start_requests = target.target_requests();
    let ghost mut trace: Seq<TraceEvent> = Seq::empty();
    let ghost len = growth_round_len();
    let mut checksum: usize = 0;
    let mut round: usize = 0;
    while round < rounds
        invariant
            round <= rounds,
            sizes@ == all_around(powers_of_two(17)),
            len == sizes@.len() + 2,
            f == (|round: nat| xor_seq(all_around(powers_of_two(17)))),
            checksum == xor_rounds(f, round as nat),
            start_events == old(target).log(),
            target.log() == start_events + trace,
            target.target_requests() == start_requests + requests_of(trace),
            start_requests == old(target).target_requests(),
            valid_trace(trace),
            live_after(trace) == Map::<u64, AllocationRecord>::empty(),
            trace.len() == round * len,
            forall|rd: int|
                0 <= rd < round ==> #[trigger] growth_round(
                    trace.subrange(rd * len, (rd + 1) * len),
                    rd as u64,
                    sizes@,
                ),
        decreases rounds - round,
    {
        let ghost round_start = checksum;
        let ghost prior = trace;
        let id = round as u64;
        let address = target.allocate(id, 1, 8, false);
        let mut record = AllocationRecord { id, address, size: 1, align: 8 };
        proof {
            let e = TraceEvent::Allocated { id, size: 1, align: 8, zeroed: false, address };
            lemma_trace_push(trace, e);
            assert(target.log() =~= start_events + trace.push(e));
            lemma_requests_push(start_requests, trace, e);
            trace = trace.push(e);
            assert(live_after(trace) =~= Map::<u64, AllocationRecord>::empty().insert(id, record));
            lemma_xor_zero(round_start);
        }
        let mut k: usize = 0;
        while k < sizes.len()
            invariant
                k <= sizes.len(),
                sizes@ == all_around(powers_of_two(17)),
                record.id == id,
                target.log() == start_events + trace,
                target.target_requests() == start_requests + requests_of(trace),
                start_requests == old(target).target_requests(),
                valid_trace(trace),
                live_after(trace) == Map::<u64, AllocationRecord>::empty().insert(id, record),
                checksum == round_start ^ xor_seq(sizes@.take(k as int)),
                trace.len() == prior.len() + k + 1,
                trace.subrange(0, prior.len() as int) == prior,
                trace[prior.len() as int] == (TraceEvent::Allocated { id, size: 1, align: 8, zeroed: false, address }),
                forall|j: int|
                    0 <= j < k ==> #[trigger] resizes(trace[prior.len() + j + 1], trace[prior.len() + j], sizes@[j]),
                record == placed(trace[prior.len() + k]),
            decreases sizes.len() - k,
        {
            let size = sizes[k];
            let new_address = target.resize(&record, size);
            let ghost old_record = record;
            record = AllocationRecord { id, address: new_address, size, align: record.align };
            proof {
                let e = TraceEvent::Resized { record: old_record, new_size: size, new_address };
                lemma_trace_push(trace, e);
                assert(target.log() =~= start_events + trace.push(e));
                lemma_requests_push(start_requests, trace, e);
                let t0 = trace;
                trace = trace.push(e);
                assert(trace.subrange(0, prior.len() as int) =~= t0.subrange(0, prior.len() as int));
                assert(live_after(trace) =~= Map::<u64, AllocationRecord>::empty().insert(id, record));
                assert(sizes@.take(k + 1).drop_last() =~= sizes@.take(k as int));
                lemma_xor_assoc(round_start, xor_seq(sizes@.take(k as int)), size);
                assert forall|j: int|
                    0 <= j < k + 1 implies #[trigger] resizes(trace[prior.len() + j + 1], trace[prior.len() + j], sizes@[j]) by {
                    if j < k {
                        assert(trace[prior.len() + j + 1] == t0[prior.len() + j + 1]);
                        assert(trace[prior.len() + j] == t0[prior.len() + j]);
                    } else {
                        assert(trace[prior.len() + j] == t0[prior.len() + k]);
                    }
                }
            }
            checksum = checksum ^ record.size;
            k = k + 1;
        }
        target.release(record);
        proof {
            let e = TraceEvent::Freed { record };
            lemma_trace_push(trace, e);
            assert(target.log() =~= start_events + trace.push(e));
            lemma_requests_push(start_requests, trace, e);
            let t0 = trace;
            trace = trace.push(e);
            assert(live_after(trace) =~= Map::<u64, AllocationRecord>::empty());
            assert(sizes@.take(sizes.len() as int) =~= sizes@);
            assert(round * len + len == (round + 1) * len) by (nonlinear_arith);
            let block = trace.subrange(round * len, (round + 1) * len);
            assert(block.len() == sizes@.len() + 2);
            assert forall|i: int| 0 <= i < block.len() implies block[i] == trace[prior.len() + i] by {}
            assert(block[sizes@.len() as int] == t0[prior.len() + sizes@.len() as int]);
            assert forall|j: int|
                0 <= j < sizes@.len() implies #[trigger] resizes(block[j + 1], block[j], sizes@[j]) by {
                assert(block[j + 1] == t0[prior.len() + j + 1]);
                assert(block[j] == t0[prior.len() + j]);
                assert(resizes(t0[prior.len() + j + 1], t0[prior.len() + j], sizes@[j]));
            }
            assert(growth_round(block, round as u64, sizes@));
            assert forall|rd: int|
                0 <= rd < round + 1 implies #[trigger] growth_round(
                    trace.subrange(rd * len, (rd + 1) * len),
                    rd as u64,
                    sizes@,
                ) by {
                if rd < round {
                    assert(rd * len + len == (rd + 1) * len) by (nonlinear_arith);
                    assert((rd + 1) * len <= round * len) by (nonlinear_arith)
                        requires
                            rd + 1 <= round,
                            len >= 0,
                    ;
                    assert(0 <= rd * len) by (nonlinear_arith)
                        requires
                            rd >= 0,
                            len >= 0,
                    ;
                    assert(trace.subrange(rd * len, (rd + 1) * len) =~= prior.subrange(rd * len, (rd + 1) * len));
                }
            }
        }
        round = round + 1;
    }
    proof {
        assert(new_events(start_events, target.log()) =~= trace);
    }
    black_box(checksum)
}

/// What one step of a biased random trace does.
#[derive(Clone, Copy, Debug, PartialEq, Eq, Structural)]
pub enum TraceStep {
    Allocate,
    Free,
    Resize,
}

/// The step an action draw below 100 selects: allocate when nothing is live,
/// or on draws below 60 while fewer than `max_live` records are live; else
/// free on draws below 90; else resize.
pub open spec fn spec_trace_step(action: usize, live: usize, max_live: usize) -> TraceStep {
    if live == 0 || (action < 60 && live < max_live) {
        TraceStep::Allocate
    } else if action < 90 {
        TraceStep::Free
    } else {
        TraceStep::Resize
    }
}

/// How an action draw chooses a step. With nothing live, the step always
/// allocates. With records live, a draw below 60 allocates while fewer than
/// `max_live` are live. Otherwise the draw frees a record when it is below
/// 90 and resizes one when it is 90 or more.
pub proof fn lemma_trace_step_choice(action: usize, live: usize, max_live: usize)
    ensures
        live == 0 ==> spec_trace_step(action, live, max_live) == TraceStep::Allocate,
        live > 0 && action < 60 && live < max_live ==> spec_trace_step(action, live, max_live) == TraceStep::Allocate,
        live > 0 && !(action < 60 && live < max_live) ==> (spec_trace_step(action, live, max_live) == TraceStep::Free
            <==> action < 90),
        live > 0 && !(action < 60 && live < max_live) ==> (spec_trace_step(action, live, max_live) == TraceStep::Resize
            <==> action >= 90),
        spec_trace_step(action, live, max_live) == TraceStep::Allocate <==> (live == 0 || (action < 60 && live
            < max_live)),
{
}

/// The step an action draw selects, given how many records are live.
pub fn trace_step(action: usize, live: usize, max_live: usize) -> (r: TraceStep)
    ensures
        r == spec_trace_step(action, live, max_live),
{
    if live == 0 || (action < 60 && live < max_live) {
        TraceStep::Allocate
    } else if action < 90 {
        TraceStep::Free
    } else {
        TraceStep::Resize
    }
}

/// The largest size a biased random trace asks for.
pub const TRACE_MAX_SIZE: usize = 32_768;

/// The state of a biased random trace between steps: the records live, in
/// the order the trace keeps them; the next id; and how many draws it has
/// read.
pub type BiasedState = (Seq<AllocationRecord>, u64, int);

/// The address a request got back from the target: the new address of an
/// allocation or resize; a free gets none.
pub open spec fn returned_address(event: TraceEvent) -> usize {
    match event {
        TraceEvent::Allocated { address, .. } => address,
        TraceEvent::Resized { new_address, .. } => new_address,
        TraceEvent::Freed { .. } => 0,
    }
}

/// The request one step of a biased random trace makes in `state`, reading
/// its draws from `draws` at the state's draw count, given the `address`
/// the target returns. The step is chosen by `spec_trace_step` from the
/// first draw. An allocation takes its size, alignment and zero-fill draw
/// (zero-filled when that draw is zero) from the next three; a free or a
/// resize names the live record at the index of the next draw, and a resize
/// takes its new size from the one after.
pub open spec fn biased_request(state: BiasedState, draws: Seq<usize>, address: usize, max_live: usize) -> TraceEvent {
    let (live, next_id, at) = state;
    match spec_trace_step(draws[at], live.len() as usize, max_live) {
        TraceStep::Allocate => TraceEvent::Allocated {
            id: next_id,
            size: draws[at + 1],
            align: draws[at + 2],
            zeroed: draws[at + 3] == 0,
            address,
        },
        TraceStep::Free => TraceEvent::Freed { record: live[draws[at + 1] as int] },
        TraceStep::Resize => TraceEvent::Resized {
            record: live[draws[at + 1] as int],
            new_size: draws[at + 2],
            new_address: address,
        },
    }
}

/// The state after the step `biased_request` describes: an allocation adds
/// its record at the end and takes the next id; a free moves the last
/// record into the freed one's place; a resize replaces the record in place.
pub open spec fn biased_next(state: BiasedState, draws: Seq<usize>, address: usize, max_live: usize) -> BiasedState {
    let (live, next_id, at) = state;
    let event = biased_request(state, draws, address, max_live);
    match spec_trace_step(draws[at], live.len() as usize, max_live) {
        TraceStep::Allocate => (live.push(placed(event)), (next_id + 1) as u64, at + 4),
        TraceStep::Free => (live.update(draws[at + 1] as int, live.last()).drop_last(), next_id, at + 2),
        TraceStep::Resize => (live.update(draws[at + 1] as int, placed(event)), next_id, at + 3),
    }
}

/// The state of a biased random trace after `steps` steps reading `draws`,
/// with the addresses the target returned read from `events`.
pub open spec fn biased_state(draws: Seq<usize>, events: Seq<TraceEvent>, max_live: usize, steps: nat) -> BiasedState
    decreases steps,
{
    if steps == 0 {
        (Seq::empty(), 0, 0)
    } else {
        let prev = (steps - 1) as nat;
        biased_next(biased_state(draws, events, max_live, prev), draws, returned_address(events[prev as int]), max_live)
    }
}

/// Whether the draws a step reads in `state` are ones the trace can make:
/// the live records can be counted, and a free or a resize names a live
/// record.
pub open spec fn biased_step_ok(state: BiasedState, draws: Seq<usize>, max_live: usize) -> bool {
    let (live, next_id, at) = state;
    &&& live.len() <= usize::MAX
    &&& (spec_trace_step(draws[at], live.len() as usize, max_live) != TraceStep::Allocate ==> draws[at + 1]
        < live.len())
}

/// Whether `events` are the requests of a biased random trace of `ops`
/// steps that read exactly `draws`: each of the first `ops` requests is the
/// one its step makes, given the address the target returned; then every
/// record still live is freed, in the order the trace keeps them.
pub open spec fn biased_trace(draws: Seq<usize>, events: Seq<TraceEvent>, ops: nat, max_live: usize) -> bool {
    let end = biased_state(draws, events, max_live, ops);
    &&& events.len() == ops + end.0.len()
    &&& draws.len() == end.2
    &&& forall|j: int|
        0 <= j < ops ==> #[trigger] events[j] == biased_request(
            biased_state(draws, events, max_live, j as nat),
            draws,
            returned_address(events[j]),
            max_live,
        )
    &&& forall|k: int| 0 <= k < end.0.len() ==> #[trigger] events[ops + k] == (TraceEvent::Freed { record: end.0[k] })
    &&& forall|j: int| 0 <= j < ops ==> #[trigger] biased_step_ok(biased_state(draws, events, max_live, j as nat), draws, max_live)
}

/// Whether a request's sizes and alignment are ones a biased random trace
/// asks for: sizes from one byte to `TRACE_MAX_SIZE`, and a power-of-two
/// alignment up to one page.
pub open spec fn request_in_bounds(event: TraceEvent) -> bool {
    match event {
        TraceEvent::Allocated { size, align, .. } => 1 <= size <= TRACE_MAX_SIZE && valid_alignment(align),
        TraceEvent::Resized { new_size, .. } => 1 <= new_size <= TRACE_MAX_SIZE,
        TraceEvent::Freed { .. } => true,
    }
}

/// The state of a trace depends only on the draws it has read and the
/// requests made so far: extending either leaves every earlier state and
/// request unchanged. Each step reads more draws than the one before.
proof fn lemma_biased_prefix(
    d1: Seq<usize>,
    e1: Seq<TraceEvent>,
    d2: Seq<usize>,
    e2: Seq<TraceEvent>,
    max_live: usize,
    steps: nat,
)
    requires
        steps <= e1.len() <= e2.len(),
        d1.len() <= d2.len(),
        d2.subrange(0, d1.len() as int) == d1,
        e2.subrange(0, e1.len() as int) == e1,
        biased_state(d1, e1, max_live, steps).2 <= d1.len(),
    ensures
        forall|j: nat|
            j <= steps ==> #[trigger] biased_state(d2, e2, max_live, j) == biased_state(d1, e1, max_live, j)
                && 0 <= biased_state(d1, e1, max_live, j).2 <= biased_state(d1, e1, max_live, steps).2,
        forall|j: int|
            0 <= j < steps ==> biased_request(
                #[trigger] biased_state(d2, e2, max_live, j as nat),
                d2,
                returned_address(e2[j]),
                max_live,
            ) == biased_request(biased_state(d1, e1, max_live, j as nat), d1, returned_address(e1[j]), max_live),
        forall|j: int|
            0 <= j < steps ==> biased_step_ok(#[trigger] biased_state(d2, e2, max_live, j as nat), d2, max_live)
                == biased_step_ok(biased_state(d1, e1, max_live, j as nat), d1, max_live),
    decreases steps,
{
    if steps > 0 {
        let prev = (steps - 1) as nat;
        let s = biased_state(d1, e1, max_live, prev);
        let at = s.2;
        let step = spec_trace_step(d1[at], s.0.len() as usize, max_live);
        assert(biased_state(d1, e1, max_live, steps).2 >= at + 2);
        lemma_biased_prefix(d1, e1, d2, e2, max_live, prev);
        assert(biased_state(d2, e2, max_live, prev) == s);
        assert(0 <= at);
        assert(e2[prev as int] == e1[prev as int]);
        let reads = if step == TraceStep::Allocate {
            4int
        } else if step == TraceStep::Free {
            2int
        } else {
            3int
        };
        assert(biased_state(d1, e1, max_live, steps).2 == at + reads);
        assert forall|i: int| 0 <= i < at + reads implies d2[i] == d1[i] by {
            assert(d2.subrange(0, d1.len() as int)[i] == d2[i]);
        }
        assert(d2[at] == d1[at]);
        assert(d2[at + 1] == d1[at + 1]);
        if step != TraceStep::Free {
            assert(d2[at + 2] == d1[at + 2]);
        }
        if step == TraceStep::Allocate {
            assert(d2[at + 3] == d1[at + 3]);
        }
        assert(biased_request(s, d2, returned_address(e2[prev as int]), max_live) == biased_request(
            s,
            d1,
            returned_address(e1[prev as int]),
            max_live,
        ));
        assert(biased_state(d2, e2, max_live, steps) == biased_state(d1, e1, max_live, steps));
        assert(biased_step_ok(s, d2, max_live) == biased_step_ok(s, d1, max_live));
        assert forall|j: int|
            0 <= j < steps implies biased_step_ok(#[trigger] biased_state(d2, e2, max_live, j as nat), d2, max_live)
                == biased_step_ok(biased_state(d1, e1, max_live, j as nat), d1, max_live) by {
            if j < prev {
                assert(biased_state(d2, e2, max_live, j as nat) == biased_state(d1, e1, max_live, j as nat));
            }
        }
        assert forall|j: nat| j <= steps implies #[trigger] biased_state(d2, e2, max_live, j) == biased_state(d1, e1, max_live, j)
            && 0 <= biased_state(d1, e1, max_live, j).2 <= biased_state(d1, e1, max_live, steps).2 by {
            if j < steps {
                assert(biased_state(d2, e2, max_live, j) == biased_state(d1, e1, max_live, j));
            }
        }
    } else {
        assert forall|j: nat| j <= steps implies #[trigger] biased_state(d2, e2, max_live, j) == biased_state(d1, e1, max_live, j)
            && 0 <= biased_state(d1, e1, max_live, j).2 <= biased_state(d1, e1, max_live, steps).2 by {
            assert(j == 0);
        }
    }
}

/// Two runs over the same draws whose requests got the same addresses back
/// reach the same state.
proof fn lemma_biased_states_agree(draws: Seq<usize>, e1: Seq<TraceEvent>, e2: Seq<TraceEvent>, max_live: usize, n: nat)
    requires
        forall|j: int| 0 <= j < n ==> returned_address(#[trigger] e1[j]) == returned_address(e2[j]),
    ensures
        biased_state(draws, e1, max_live, n) == biased_state(draws, e2, max_live, n),
    decreases n,
{
    if n > 0 {
        lemma_biased_states_agree(draws, e1, e2, max_live, (n - 1) as nat);
        assert(returned_address(e1[n - 1]) == returned_address(e2[n - 1]));
    }
}

/// A biased random trace is fixed by the values drawn and the addresses the
/// target returns: two traces of the same number of steps over the same
/// draws, whose steps got the same addresses back, are the same requests.
#[verifier::spinoff_prover]
pub proof fn lemma_biased_trace_determined(draws: Seq<usize>, e1: Seq<TraceEvent>, e2: Seq<TraceEvent>, ops: nat, max_live: usize)
    requires
        biased_trace(draws, e1, ops, max_live),
        biased_trace(draws, e2, ops, max_live),
        forall|j: int| 0 <= j < ops ==> returned_address(#[trigger] e1[j]) == returned_address(e2[j]),
    ensures
        e1 == e2,
{
    lemma_biased_states_agree(draws, e1, e2, max_live, ops);
    let end = biased_state(draws, e1, max_live, ops);
    assert forall|i: int| 0 <= i < e1.len() implies e1[i] == e2[i] by {
        if i < ops {
            lemma_biased_states_agree(draws, e1, e2, max_live, i as nat);
            assert(e1[i] == biased_request(biased_state(draws, e1, max_live, i as nat), draws, returned_address(e1[i]), max_live));
            assert(e2[i] == biased_request(biased_state(draws, e2, max_live, i as nat), draws, returned_address(e2[i]), max_live));
        } else {
            let k = i - ops;
            assert(e1[ops + k] == (TraceEvent::Freed { record: end.0[k] }));
            assert(e2[ops + k] == (TraceEvent::Freed { record: end.0[k] }));
        }
    }
    assert(e1 =~= e2);
}

/// A record with its address left out.
pub open spec fn unplaced(record: AllocationRecord) -> AllocationRecord {
    AllocationRecord { id: record.id, address: 0, size: record.size, align: record.align }
}

/// A request with every address left out: what it asks for, whatever the
/// target returned so far or returns for it.
pub open spec fn request_shape(event: TraceEvent) -> TraceEvent {
    match event {
        TraceEvent::Allocated { id, size, align, zeroed, .. } => TraceEvent::Allocated { id, size, align, zeroed, address: 0 },
        TraceEvent::Resized { record, new_size, .. } => TraceEvent::Resized { record: unplaced(record), new_size, new_address: 0 },
        TraceEvent::Freed { record } => TraceEvent::Freed { record: unplaced(record) },
    }
}

/// Whether two trace states differ at most in the addresses of their records.
pub open spec fn same_shape(s1: BiasedState, s2: BiasedState) -> bool {
    &&& s1.0.len() == s2.0.len()
    &&& s1.1 == s2.1
    &&& s1.2 == s2.2
    &&& forall|i: int| 0 <= i < s1.0.len() ==> #[trigger] unplaced(s1.0[i]) == unplaced(s2.0[i])
}

/// Two runs over the same draws reach states that differ at most in
/// addresses, whatever addresses their targets returned.
#[verifier::spinoff_prover]
proof fn lemma_biased_states_shape(draws: Seq<usize>, e1: Seq<TraceEvent>, e2: Seq<TraceEvent>, max_live: usize, n: nat)
    requires
        forall|j: int| 0 <= j < n ==> #[trigger] biased_step_ok(biased_state(draws, e1, max_live, j as nat), draws, max_live),
    ensures
        same_shape(biased_state(draws, e1, max_live, n), biased_state(draws, e2, max_live, n)),
        n > 0 ==> request_shape(
            biased_request(
                biased_state(draws, e1, max_live, (n - 1) as nat),
                draws,
                returned_address(e1[n - 1]),
                max_live,
            ),
        ) == request_shape(
            biased_request(
                biased_state(draws, e2, max_live, (n - 1) as nat),
                draws,
                returned_address(e2[n - 1]),
                max_live,
            ),
        ),
    decreases n,
{
    if n > 0 {
        let m = (n - 1) as nat;
        lemma_biased_states_shape(draws, e1, e2, max_live, m);
        let s1 = biased_state(draws, e1, max_live, m);
        let s2 = biased_state(draws, e2, max_live, m);
        let a1 = returned_address(e1[m as int]);
        let a2 = returned_address(e2[m as int]);
        let at = s1.2;
        assert(biased_step_ok(biased_state(draws, e1, max_live, m), draws, max_live));
        let step = spec_trace_step(draws[at], s1.0.len() as usize, max_live);
        assert(step == spec_trace_step(draws[s2.2], s2.0.len() as usize, max_live));
        let r1 = biased_request(s1, draws, a1, max_live);
        let r2 = biased_request(s2, draws, a2, max_live);
        let t1 = biased_next(s1, draws, a1, max_live);
        let t2 = biased_next(s2, draws, a2, max_live);
        assert(biased_state(draws, e1, max_live, n) == t1);
        assert(biased_state(draws, e2, max_live, n) == t2);
        let k = draws[at + 1] as int;
        if s1.0.len() == 0 {
            assert(s1.0 =~= s2.0);
        }
        if step == TraceStep::Allocate {
            assert forall|i: int| 0 <= i < t1.0.len() implies #[trigger] unplaced(t1.0[i]) == unplaced(t2.0[i]) by {
                if i < s1.0.len() {
                    assert(unplaced(s1.0[i]) == unplaced(s2.0[i]));
                }
            }
        } else if step == TraceStep::Free {
            if 0 <= k < s1.0.len() {
                assert(unplaced(s1.0[k]) == unplaced(s2.0[k]));
            }
            assert(unplaced(s1.0[s1.0.len() - 1]) == unplaced(s2.0[s2.0.len() - 1]));
            assert forall|i: int| 0 <= i < t1.0.len() implies #[trigger] unplaced(t1.0[i]) == unplaced(t2.0[i]) by {
                if i != k {
                    assert(unplaced(s1.0[i]) == unplaced(s2.0[i]));
                }
            }
        } else {
            if 0 <= k < s1.0.len() {
                assert(unplaced(s1.0[k]) == unplaced(s2.0[k]));
            }
            assert forall|i: int| 0 <= i < t1.0.len() implies #[trigger] unplaced(t1.0[i]) == unplaced(t2.0[i]) by {
                if i != k {
                    assert(unplaced(s1.0[i]) == unplaced(s2.0[i]));
                }
            }
        }
    }
}

/// What a biased random trace asks of its target does not depend on the
/// addresses the target returns: two traces of the same number of steps
/// over the same draws make the same number of requests, and each request
/// asks for the same thing, up to addresses.
#[verifier::spinoff_prover]
#[verifier::rlimit(30)]
pub proof fn lemma_biased_trace_shape(draws: Seq<usize>, e1: Seq<TraceEvent>, e2: Seq<TraceEvent>, ops: nat, max_live: usize)
    requires
        biased_trace(draws, e1, ops, max_live),
        biased_trace(draws, e2, ops, max_live),
    ensures
        e1.len() == e2.len(),
        forall|j: int| 0 <= j < e1.len() ==> #[trigger] request_shape(e1[j]) == request_shape(e2[j]),
{
    lemma_biased_states_shape(draws, e1, e2, max_live, ops);
    let end1 = biased_state(draws, e1, max_live, ops);
    let end2 = biased_state(draws, e2, max_live, ops);
    assert forall|j: int| 0 <= j < e1.len() implies #[trigger] request_shape(e1[j]) == request_shape(e2[j]) by {
        if j < ops {
            lemma_biased_states_shape(draws, e1, e2, max_live, (j + 1) as nat);
            assert(e1[j] == biased_request(biased_state(draws, e1, max_live, j as nat), draws, returned_address(e1[j]), max_live));
            assert(e2[j] == biased_request(biased_state(draws, e2, max_live, j as nat), draws, returned_address(e2[j]), max_live));
        } else {
            let k = j - ops;
            assert(e1[ops + k] == (TraceEvent::Freed { record: end1.0[k] }));
            assert(e2[ops + k] == (TraceEvent::Freed { record: end2.0[k] }));
            assert(unplaced(end1.0[k]) == unplaced(end2.0[k]));
        }
    }
}

/// The values a source of choices handed out during a call, given what it
/// had handed out before.
pub open spec fn new_draws(before: Seq<usize>, after: Seq<usize>) -> Seq<usize> {
    after.subrange(before.len() as int, after.len() as int)
}

/// Whether `events` are the first `steps` requests of a biased random trace
/// that has read exactly `draws` and reached `state`: each request is the
/// one its step makes, given the address the target returned, and each
/// step's draws are ones the trace can make.
#[verifier::opaque]
pub open spec fn biased_steps(draws: Seq<usize>, events: Seq<TraceEvent>, steps: nat, max_live: usize, state: BiasedState) -> bool {
    &&& events.len() == steps
    &&& biased_state(draws, events, max_live, steps) == state
    &&& state.2 == draws.len()
    &&& forall|j: int|
        0 <= j < steps ==> #[trigger] events[j] == biased_request(
            biased_state(draws, events, max_live, j as nat),
            draws,
            returned_address(events[j]),
            max_live,
        )
    &&& forall|j: int| 0 <= j < steps ==> #[trigger] biased_step_ok(biased_state(draws, events, max_live, j as nat), draws, max_live)
}

/// One more step keeps a trace's steps in order: a request that is the one
/// the next step makes, over draws that extend those read so far, extends
/// the steps to the next state.
#[verifier::spinoff_prover]
#[verifier::rlimit(40)]
proof fn lemma_biased_step(
    d0: Seq<usize>,
    t0: Seq<TraceEvent>,
    d1: Seq<usize>,
    e: TraceEvent,
    max_live: usize,
    op: nat,
    state: BiasedState,
)
    requires
        biased_steps(d0, t0, op, max_live, state),
        d0.len() <= d1.len(),
        d1.subrange(0, d0.len() as int) == d0,
        biased_step_ok(state, d1, max_live),
        e == biased_request(state, d1, returned_address(e), max_live),
        biased_next(state, d1, returned_address(e), max_live).2 == d1.len(),
    ensures
        biased_steps(d1, t0.push(e), op + 1, max_live, biased_next(state, d1, returned_address(e), max_live)),
{
    reveal(biased_steps);
    let t1 = t0.push(e);
    assert(t1.subrange(0, t0.len() as int) =~= t0);
    assert(biased_state(d1, t1, max_live, op) == biased_state(d0, t0, max_live, op)) by {
        lemma_biased_prefix(d0, t0, d1, t1, max_live, op);
    }
    assert(t1[op as int] == e);
    assert forall|j: int|
        0 <= j < op + 1 implies #[trigger] biased_step_ok(biased_state(d1, t1, max_live, j as nat), d1, max_live) by {
        if j < op {
            lemma_biased_prefix(d0, t0, d1, t1, max_live, op);
            assert(biased_step_ok(biased_state(d0, t0, max_live, j as nat), d0, max_live));
        }
    }
    assert forall|j: int|
        0 <= j < op + 1 implies #[trigger] t1[j] == biased_request(
            biased_state(d1, t1, max_live, j as nat),
            d1,
            returned_address(t1[j]),
            max_live,
        ) by {
        if j < op {
            lemma_biased_prefix(d0, t0, d1, t1, max_live, op);
            assert(t1[j] == t0[j]);
            assert(biased_state(d1, t1, max_live, j as nat) == biased_state(d0, t0, max_live, j as nat));
        }
    }
}

/// The steps of a trace followed by a free of each record still live, in
/// order, make the whole trace.
proof fn lemma_biased_finish(draws: Seq<usize>, steps: Seq<TraceEvent>, events: Seq<TraceEvent>, ops: nat, max_live: usize, state: BiasedState)
    requires
        biased_steps(draws, steps, ops, max_live, state),
        events.len() == ops + state.0.len(),
        events.subrange(0, ops as int) == steps,
        forall|k: int| 0 <= k < state.0.len() ==> #[trigger] events[ops + k] == (TraceEvent::Freed { record: state.0[k] }),
    ensures
        biased_trace(draws, events, ops, max_live),
{
    reveal(biased_steps);
    assert(draws.subrange(0, draws.len() as int) =~= draws);
    lemma_biased_prefix(draws, steps, draws, events, max_live, ops);
    assert(biased_state(draws, events, max_live, ops) == state);
    assert forall|j: int|
        0 <= j < ops implies #[trigger] events[j] == biased_request(
            biased_state(draws, events, max_live, j as nat),
            draws,
            returned_address(events[j]),
            max_live,
        ) by {
        assert(events[j] == steps[j]);
        assert(biased_state(draws, events, max_live, j as nat) == biased_state(draws, steps, max_live, j as nat));
    }
    assert forall|j: int| 0 <= j < ops implies #[trigger] biased_step_ok(biased_state(draws, events, max_live, j as nat), draws, max_live) by {
        assert(biased_state(draws, events, max_live, j as nat) == biased_state(draws, steps, max_live, j as nat));
    }
}

/// A random allocation trace biased towards allocation: with `ops` steps,
/// each allocating (always when nothing is live, otherwise 60% of the time
/// while fewer than `max_live` records are live), freeing a random live
/// record (30%), or resizing one (10%); afterwards every live record is
/// freed. The requests are exactly those of `biased_trace` over the values
/// `rng` handed out, with sizes and alignments in bounds. Every request is
/// sound, it leaves nothing allocated, at no point are more than `max_live`
/// records (at least one) live, and it returns the checksum of its requests.
#[verifier::rlimit(50)]
#[verifier::spinoff_prover]
pub fn small_biased_random<T: AllocatorTarget, R: TraceRandom>(target: &mut TracedTarget<T>, rng: &mut R, ops: usize, max_live: usize) -> (r: usize)
    ensures
        final(target).target_requests() == old(target).target_requests() + requests_of(
            new_events(old(target).log(), final(target).log()),
        ),
        biased_trace(
            new_draws(old(rng).drawn(), final(rng).drawn()),
            new_events(old(target).log(), final(target).log()),
            ops as nat,
            max_live,
        ),
        forall|j: int|
            0 <= j < new_events(old(target).log(), final(target).log()).len() ==> request_in_bounds(
                #[trigger] new_events(old(target).log(), final(target).log())[j],
            ),
        valid_trace(new_events(old(target).log(), final(target).log())),
        live_after(new_events(old(target).log(), final(target).log())) == Map::<u64, AllocationRecord>::empty(),
        r == trace_checksum(new_events(old(target).log(), final(target).log())),
        live_within(new_events(old(target).log(), final(target).log()), live_bound(max_live)),
{
    let ghost start_events = target.log();
    let ghost start_requests = target.target_requests();
    let ghost start_draws = rng.drawn();
    let ghost mut trace: Seq<TraceEvent> = Seq::empty();
    proof {
        assert forall|k: int| 0 <= k <= trace.len() implies #[trigger] live_after(trace.take(k)).len() <= live_bound(max_live) by {
            assert(trace.take(k) =~= Seq::<TraceEvent>::empty());
            assert(live_after(trace.take(k)) =~= Map::<u64, AllocationRecord>::empty());
        }
        assert(rng.drawn().subrange(0, start_draws.len() as int) =~= start_draws);
        assert(new_draws(start_draws, rng.drawn()) =~= Seq::<usize>::empty());
        reveal(biased_steps);
    }
    let mut live: Vec<AllocationRecord> = Vec::with_capacity(max_live);
    let mut next_id: u64 = 0;
    let mut checksum: usize = 0;
    let mut op: usize = 0;
    while op < ops
        invariant
            op <= ops,
            next_id <= op,
            start_events == old(target).log(),
            target.log() == start_events + trace,
            target.target_requests() == start_requests + requests_of(trace),
            start_requests == old(target).target_requests(),
            start_draws == old(rng).drawn(),
            start_draws.len() <= rng.drawn().len(),
            rng.drawn().subrange(0, start_draws.len() as int) == start_draws,
            valid_trace(trace),
            tracks(live@, live_after(trace)),
            forall|k: int| 0 <= k < live.len() ==> (#[trigger] live@[k]).id < next_id,
            checksum == trace_checksum(trace),
            live.len() <= live_bound(max_live),
            live_within(trace, live_bound(max_live)),
            trace.len() == op,
            biased_steps(
                new_draws(start_draws, rng.drawn()),
                trace,
                op as nat,
                max_live,
                (live@, next_id, new_draws(start_draws, rng.drawn()).len() as int),
            ),
            forall|j: int| 0 <= j < trace.len() ==> request_in_bounds(#[trigger] trace[j]),
        decreases ops - op,
    {
        let ghost d0 = new_draws(start_draws, rng.drawn());
        let ghost drawn0 = rng.drawn();
        let action = rng.next_usize(100);
        let step = trace_step(action, live.len(), max_live);
        if step == TraceStep::Allocate {
            let size = rng.biased_size(TRACE_MAX_SIZE);
            let align = rng.alignment();
            let z = rng.next_usize(8);
            let zeroed = z == 0;
            let address = target.allocate(next_id, size, align, zeroed);
            let record = AllocationRecord { id: next_id, address, size, align };
            proof {
                let e = TraceEvent::Allocated { id: next_id, size, align, zeroed, address };
                let d1 = new_draws(start_draws, rng.drawn());
                assert(rng.drawn() == drawn0.push(action).push(size).push(align).push(z));
                assert(d1 =~= d0.push(action).push(size).push(align).push(z));
                assert(rng.drawn().subrange(0, start_draws.len() as int) =~= start_draws);
                assert(d1.subrange(0, d0.len() as int) =~= d0);
                assert(d1[d0.len() as int] == action);
                assert(d1[d0.len() + 1int] == size);
                assert(d1[d0.len() + 2int] == align);
                assert(d1[d0.len() + 3int] == z);
                lemma_biased_step(d0, trace, d1, e, max_live, op as nat, (live@, next_id, d0.len() as int));
                lemma_trace_push(trace, e);
                assert(target.log() =~= start_events + trace.push(e));
                lemma_requests_push(start_requests, trace, e);
                if live_after(trace).contains_key(next_id) {
                    let k = choose|k: int| 0 <= k < live.len() && live@[k].id == next_id;
                    assert(live@[k].id < next_id);
                }
                lemma_tracks_push(live@, live_after(trace), record);
                lemma_tracks_len(live@.push(record), live_after(trace.push(e)));
                lemma_live_within_push(trace, e, live_bound(max_live));
                let t0 = trace;
                trace = trace.push(e);
                assert forall|j: int| 0 <= j < trace.len() implies request_in_bounds(#[trigger] trace[j]) by {
                    if j < t0.len() {
                        assert(trace[j] == t0[j]);
                    }
                }
            }
            checksum = checksum ^ record.address;
            live.push(record);
            next_id = next_id + 1;
        } else if step == TraceStep::Free {
            let index = rng.next_usize(live.len());
            let ghost before = live@;
            let record = live.swap_remove(index);
            proof {
                let e = TraceEvent::Freed { record };
                let d1 = new_draws(start_draws, rng.drawn());
                assert(rng.drawn() == drawn0.push(action).push(index));
                assert(d1 =~= d0.push(action).push(index));
                assert(rng.drawn().subrange(0, start_draws.len() as int) =~= start_draws);
                assert(d1.subrange(0, d0.len() as int) =~= d0);
                assert(d1[d0.len() as int] == action);
                assert(d1[d0.len() + 1int] == index);
                lemma_biased_step(d0, trace, d1, e, max_live, op as nat, (before, next_id, d0.len() as int));
                lemma_trace_push(trace, e);
                lemma_tracks_swap_remove(before, live_after(trace), index as int);
                assert(live@ =~= before.update(index as int, before.last()).drop_last());
                lemma_tracks_len(live@, live_after(trace.push(e)));
                lemma_live_within_push(trace, e, live_bound(max_live));
            }
            checksum = checksum ^ record.size;
            target.release(record);
            proof {
                let e = TraceEvent::Freed { record };
                assert(target.log() =~= start_events + trace.push(e));
                lemma_requests_push(start_requests, trace, e);
                let t0 = trace;
                trace = trace.push(e);
                assert forall|j: int| 0 <= j < trace.len() implies request_in_bounds(#[trigger] trace[j]) by {
                    if j < t0.len() {
                        assert(trace[j] == t0[j]);
                    }
                }
            }
        } else {
            let index = rng.next_usize(live.len());
            let new_size = rng.biased_size(TRACE_MAX_SIZE);
            let record = live[index];
            let new_address = target.resize(&record, new_size);
            let resized = AllocationRecord { id: record.id, address: new_address, size: new_size, align: record.align };
            proof {
                let e = TraceEvent::Resized { record, new_size, new_address };
                let d1 = new_draws(start_draws, rng.drawn());
                assert(rng.drawn() == drawn0.push(action).push(index).push(new_size));
                assert(d1 =~= d0.push(action).push(index).push(new_size));
                assert(rng.drawn().subrange(0, start_draws.len() as int) =~= start_draws);
                assert(d1.subrange(0, d0.len() as int) =~= d0);
                assert(d1[d0.len() as int] == action);
                assert(d1[d0.len() + 1int] == index);
                assert(d1[d0.len() + 2int] == new_size);
                lemma_biased_step(d0, trace, d1, e, max_live, op as nat, (live@, next_id, d0.len() as int));
                lemma_trace_push(trace, e);
                assert(target.log() =~= start_events + trace.push(e));
                lemma_requests_push(start_requests, trace, e);
                lemma_tracks_set(live@, live_after(trace), index as int, resized);
                lemma_tracks_len(live@.update(index as int, resized), live_after(trace.push(e)));
                lemma_live_within_push(trace, e, live_bound(max_live));
                let t0 = trace;
                trace = trace.push(e);
                assert forall|j: int| 0 <= j < trace.len() implies request_in_bounds(#[trigger] trace[j]) by {
                    if j < t0.len() {
                        assert(trace[j] == t0[j]);
                    }
                }
            }
            live.set(index, resized);
            checksum = checksum ^ new_size;
        }
        op = op + 1;
    }
    let ghost steps = trace;
    let ghost draws = new_draws(start_draws, rng.drawn());
    assert(live@.skip(0) =~= live@);
    assert(trace.subrange(0, ops as int) =~= steps);
    let mut k: usize = 0;
    while k < live.len()
        invariant
            k <= live.len(),
            start_events == old(target).log(),
            target.log() == start_events + trace,
            target.target_requests() == start_requests + requests_of(trace),
            start_requests == old(target).target_requests(),
            start_draws == old(rng).drawn(),
            draws == new_draws(start_draws, rng.drawn()),
            valid_trace(trace),
            tracks(live@.skip(k as int), live_after(trace)),
            checksum == trace_checksum(trace),
            live.len() <= live_bound(max_live),
            live_within(trace, live_bound(max_live)),
            steps.len() == ops,
            trace.len() == ops + k,
            trace.subrange(0, ops as int) == steps,
            biased_steps(draws, steps, ops as nat, max_live, (live@, next_id, draws.len() as int)),
            forall|j: int| 0 <= j < k ==> #[trigger] trace[ops + j] == (TraceEvent::Freed { record: live@[j] }),
            forall|j: int| 0 <= j < trace.len() ==> request_in_bounds(#[trigger] trace[j]),
        decreases live.len() - k,
    {
        let record = live[k];
        proof {
            let rest = live@.skip(k as int);
            assert(rest[0] == record);
            lemma_tracks_drop_first(rest, live_after(trace));
            assert(rest.drop_first() =~= live@.skip(k + 1));
            let e = TraceEvent::Freed { record };
            lemma_trace_push(trace, e);
            lemma_tracks_len(live@.skip(k + 1), live_after(trace.push(e)));
            lemma_live_within_push(trace, e, live_bound(max_live));
        }
        checksum = checksum ^ record.size;
        target.release(record);
        proof {
            let e = TraceEvent::Freed { record };
            assert(target.log() =~= start_events + trace.push(e));
            lemma_requests_push(start_requests, trace, e);
            let t0 = trace;
            trace = trace.push(e);
            assert(trace.subrange(0, ops as int) =~= t0.subrange(0, ops as int));
            assert forall|j: int| 0 <= j < trace.len() implies request_in_bounds(#[trigger] trace[j]) by {
                if j < t0.len() {
                    assert(trace[j] == t0[j]);
                }
            }
            assert forall|j: int| 0 <= j < k + 1 implies #[trigger] trace[ops + j] == (TraceEvent::Freed { record: live@[j] }) by {
                if j < k {
                    assert(trace[ops + j] == t0[ops + j]);
                }
            }
        }
        k = k + 1;
    }
    proof {
        assert(live@.skip(live.len() as int) =~= Seq::<AllocationRecord>::empty());
        lemma_tracks_empty(live_after(trace));
        assert(new_events(start_events, target.log()) =~= trace);
        lemma_biased_finish(draws, steps, trace, ops as nat, max_live, (live@, next_id, draws.len() as int));
    }
    black_box(checksum)
}

/// A target that touches no memory: it hands out page-spaced stand-in
/// addresses, one new address per allocation or resize.
pub struct SimulatedTarget {
    next_address: usize,
    history: RequestHistory,
}

impl SimulatedTarget {
    /// The address the next allocation or resize gets.
    pub closed spec fn upcoming(&self) -> usize {
        self.next_address
    }

    /// A target whose first address is one page.
    pub fn new() -> (r: SimulatedTarget)
        ensures
            r.upcoming() == 4096,
            r.requests()@ == Seq::<TargetRequest>::empty(),
    {
        SimulatedTarget { next_address: 4096, history: RequestHistory::new() }
    }

    fn place(&mut self) -> (r: usize)
        ensures
            r == old(self).next_address,
            final(self).next_address == r.wrapping_add(4096),
            final(self).history == old(self).history,
    {
        let address = self.next_address;
        self.next_address = self.next_address.wrapping_add(4096);
        address
    }
}

impl AllocatorTarget for SimulatedTarget {
    closed spec fn requests(&self) -> RequestHistory {
        self.history
    }

    fn allocate(&mut self, id: u64, size: usize, align: usize, zeroed: bool) -> (r: usize)
        ensures
            r == old(self).upcoming(),
            final(self).upcoming() == r.wrapping_add(4096),
    {
        self.history.record(TargetRequest::Allocate { id, size, align, zeroed });
        self.place()
    }

    fn resize(&mut self, record: &AllocationRecord, new_size: usize) -> (r: usize)
        ensures
            r == old(self).upcoming(),
            final(self).upcoming() == r.wrapping_add(4096),
    {
        self.history.record(TargetRequest::Resize { record: *record, new_size });
        self.place()
    }

    fn release(&mut self, record: AllocationRecord)
        ensures
            final(self).upcoming() == old(self).upcoming(),
    {
        self.history.record(TargetRequest::Release { record });
    }
}

/// A source of trace choices that replays a fixed list of draws in a cycle,
/// reducing each to the range asked for.
pub struct ScriptedRandom {
    draws: Vec<usize>,
    position: usize,
    handed_out: Ghost<Seq<usize>>,
}

impl ScriptedRandom {
    /// The draws replayed.
    pub closed spec fn script(&self) -> Seq<usize> {
        self.draws@
    }

    /// Where in the script the next draw is read: the stored position while
    /// it lies in the script, the first draw otherwise.
    pub closed spec fn cursor(&self) -> int {
        if self.position < self.draws@.len() {
            self.position as int
        } else {
            0
        }
    }

    /// The draw the next choice reduces: the scripted value at the cursor,
    /// or zero for an empty script.
    pub open spec fn upcoming(&self) -> usize {
        if self.script().len() == 0 {
            0
        } else {
            self.script()[self.cursor()]
        }
    }

    /// The cursor after one draw: the next position, back to the first after
    /// the last.
    pub open spec fn next_cursor(&self) -> int {
        if self.script().len() == 0 {
            0
        } else {
            (self.cursor() + 1) % (self.script().len() as int)
        }
    }

    /// The cursor lies in the script whenever the script is not empty.
    pub proof fn lemma_cursor_in_script(&self)
        ensures
            self.script().len() > 0 ==> 0 <= self.cursor() < self.script().len(),
    {
    }

    /// Two sources with the same script and cursor reduce the same draw for
    /// their next choice and move to the same cursor after it, so given the
    /// same requests they hand out the same values.
    pub proof fn lemma_same_script_same_draws(a: ScriptedRandom, b: ScriptedRandom)
        requires
            a.script() == b.script(),
            a.cursor() == b.cursor(),
        ensures
            a.upcoming() == b.upcoming(),
            a.next_cursor() == b.next_cursor(),
    {
    }

    /// Replays `draws` from the first; an empty list replays zeros.
    pub fn new(draws: Vec<usize>) -> (r: ScriptedRandom)
        ensures
            r.script() == draws@,
            r.cursor() == 0,
            r.drawn() == Seq::<usize>::empty(),
    {
        ScriptedRandom { draws, position: 0, handed_out: Ghost(Seq::empty()) }
    }

    fn next(&mut self) -> (r: usize)
        ensures
            r == old(self).upcoming(),
            final(self).script() == old(self).script(),
            final(self).cursor() == old(self).next_cursor(),
            final(self).handed_out == old(self).handed_out,
    {
        if self.draws.len() == 0 {
            return 0;
        }
        let position = if self.position < self.draws.len() {
            self.position
        } else {
            0
        };
        let value = self.draws[position];
        self.position = if position + 1 < self.draws.len() {
            position + 1
        } else {
            0
        };
        proof {
            lemma_ring_next(position as int, self.draws@.len() as int);
        }
        value
    }
}

impl TraceRandom for ScriptedRandom {
    closed spec fn drawn(&self) -> Seq<usize> {
        self.handed_out@
    }

    fn next_usize(&mut self, bound: usize) -> (r: usize)
        ensures
            r == old(self).upcoming() % bound,
            final(self).script() == old(self).script(),
            final(self).cursor() == old(self).next_cursor(),
    {
        let r = self.next() % bound;
        self.handed_out = Ghost(self.handed_out@.push(r));
        r
    }

    fn biased_size(&mut self, max: usize) -> (r: usize)
        ensures
            r == old(self).upcoming() % max + 1,
            final(self).script() == old(self).script(),
            final(self).cursor() == old(self).next_cursor(),
    {
        let r = self.next() % max + 1;
        self.handed_out = Ghost(self.handed_out@.push(r));
        r
    }

    fn alignment(&mut self) -> (r: usize)
        ensures
            r == 1usize << (old(self).upcoming() % 13),
            final(self).script() == old(self).script(),
            final(self).cursor() == old(self).next_cursor(),
    {
        let shift = self.next() % 13;
        let r = 1usize << shift;
        assert(valid_alignment(r)) by (bit_vector)
            requires
                r == 1usize << shift,
                shift < 13,
        ;
        self.handed_out = Ghost(self.handed_out@.push(r));
        r
    }
}

} // verus!
