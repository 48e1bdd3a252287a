//! The allocator: bootstraps a chain of region trackers inside memory
//! it carves out of the very pool it manages, then serves frame
//! allocation and deallocation requests across the whole chain.

use vstd::prelude::*;

use crate::tracker::RegionTracker;
use crate::tracker::count_free_from;
use crate::tracker::div_ceil_usize;
use crate::tracker::first_free_from;
use crate::tracker::lemma_allocation_consumes_one_free_frame;
use crate::tracker::lemma_exhausted_iff_no_free;
use crate::tracker::spec_div_ceil;

verus! {

broadcast use RegionTracker::lemma_frames_len;

/// Bytes set aside in the metadata buffer for one tracker record; the
/// sizing step reserves two of these per region as alignment headroom.
pub const TRACKER_SLOT_BYTES: usize = 64;

/// Every distinguishable failure of the allocator.
#[derive(Clone, Copy, Debug, PartialEq, Eq, Structural)]
pub enum PmmError {
    /// No usable region is large enough to host the allocator's own
    /// bookkeeping; construction must abort.
    NoSuitableRegion,
    /// Every tracked frame is allocated.
    OutOfMemory,
    /// A frame index at or past the end of its region was freed.
    OutOfRange,
    /// An already-free frame was freed again.
    DoubleFree,
    /// A frame whose address no tracked region contains was freed.
    InvalidFrame,
}

/// What a firmware-reported memory region is good for.
#[derive(Clone, Copy, Debug, PartialEq, Eq, Structural)]
pub enum RegionKind {
    /// General-purpose memory the allocator may hand out.
    Usable,
    /// Anything else: reserved, device, firmware-owned memory.
    Other,
}

/// One region descriptor as the firmware reports it: a byte range of
/// physical memory and what it may be used for.
#[derive(Clone, Copy, Debug, PartialEq, Eq, Structural)]
pub struct RegionDescriptor {
    /// Physical base address of the region.
    pub base: usize,
    /// Length of the region in bytes.
    pub length: usize,
    /// What the region is good for.
    pub kind: RegionKind,
}

/// An opaque identifier for one page-aligned frame of physical memory.
#[derive(Clone, Copy, Debug, PartialEq, Eq, Structural)]
pub struct Frame {
    address: usize,
}

impl Frame {
    /// The frame's page-aligned physical address.
    pub closed spec fn spec_address(self) -> usize {
        self.address
    }

    /// The frame containing `address`: the address rounded down to page
    /// granularity.
    pub fn containing_address(address: usize, page_size: usize) -> (r: Frame)
        requires
            page_size >= 1,
        ensures
            r.spec_address() == address - (address % page_size),
    {
        proof {
            assert(address % page_size <= address) by (nonlinear_arith)
                requires
                    page_size >= 1,
            ;
        }
        Frame { address: address - (address % page_size) }
    }

    /// The frame's physical address.
    pub fn address(&self) -> (r: usize)
        ensures
            r == self.spec_address(),
    {
        self.address
    }
}

/// `a` rounded down to a multiple of `align`.
pub open spec fn round_down(a: int, align: int) -> int
    recommends
        align >= 1,
{
    a - a % align
}

/// `a` rounded up to a multiple of `align`.
pub open spec fn spec_align_up(a: int, align: int) -> int
    recommends
        a >= 0,
        align >= 1,
{
    spec_div_ceil(a, align) * align
}

/// True for 1, 2, 4, 8, ...
pub open spec fn is_power_of_two(n: int) -> bool
    decreases n,
{
    if n <= 0 {
        false
    } else if n == 1 {
        true
    } else {
        n % 2 == 0 && is_power_of_two(n / 2)
    }
}

/// Relies on linked_list_allocator::align_up_size: for a power-of-two
/// `align` it returns `size` rounded up to the next multiple of
/// `align`.
#[verifier::external_body]
fn align_up_to(size: usize, align: usize) -> (r: usize)
    requires
        is_power_of_two(align as int),
        size + align <= usize::MAX,
    ensures
        r == spec_align_up(size as int, align as int),
{
    linked_list_allocator::align_up_size(size, align)
}

/// The usable region descriptors of `rs`, in report order.
pub open spec fn usable_regions(rs: Seq<RegionDescriptor>) -> Seq<RegionDescriptor>
    decreases rs.len(),
{
    if rs.len() == 0 {
        Seq::empty()
    } else if rs.last().kind == RegionKind::Usable {
        usable_regions(rs.drop_last()).push(rs.last())
    } else {
        usable_regions(rs.drop_last())
    }
}

/// Metadata bytes one usable region contributes: two tracker-record
/// slots of headroom plus its bitmap bytes.
pub open spec fn region_metadata_bytes(r: RegionDescriptor, page_size: int) -> int
    recommends
        page_size >= 1,
{
    2 * TRACKER_SLOT_BYTES + spec_div_ceil(spec_div_ceil(r.length as int, page_size), 8)
}

/// Total metadata bytes the allocator needs for the usable regions of
/// `rs`.
pub open spec fn metadata_bytes(rs: Seq<RegionDescriptor>, page_size: int) -> int
    decreases rs.len(),
{
    if rs.len() == 0 {
        0
    } else {
        metadata_bytes(rs.drop_last(), page_size) + if rs.last().kind == RegionKind::Usable {
            region_metadata_bytes(rs.last(), page_size)
        } else {
            0
        }
    }
}

/// Index of the first region at or after `i` that is usable and at
/// least `need` bytes long; `rs.len()` when none qualifies.
pub open spec fn first_host_from(rs: Seq<RegionDescriptor>, need: int, i: int) -> int
    decreases rs.len() - i,
{
    if i < 0 || i >= rs.len() {
        rs.len() as int
    } else if rs[i].kind == RegionKind::Usable && need <= rs[i].length {
        i
    } else {
        first_host_from(rs, need, i + 1)
    }
}

/// Extending the scanned prefix by one region extends its usable
/// selection by that region exactly when it is usable.
pub proof fn lemma_usable_take_succ(rs: Seq<RegionDescriptor>, i: int)
    requires
        0 <= i < rs.len(),
    ensures
        usable_regions(rs.take(i + 1)) == if rs[i].kind == RegionKind::Usable {
            usable_regions(rs.take(i)).push(rs[i])
        } else {
            usable_regions(rs.take(i))
        },
{
    assert(rs.take(i + 1).drop_last() =~= rs.take(i));
    assert(rs.take(i + 1).last() == rs[i]);
}

/// Extending the scanned prefix by one region grows the metadata total
/// by that region's contribution exactly when it is usable.
pub proof fn lemma_metadata_take_succ(rs: Seq<RegionDescriptor>, page_size: int, i: int)
    requires
        0 <= i < rs.len(),
    ensures
        metadata_bytes(rs.take(i + 1), page_size) == metadata_bytes(rs.take(i), page_size) + if rs[
            i
        ].kind == RegionKind::Usable {
            region_metadata_bytes(rs[i], page_size)
        } else {
            0
        },
{
    assert(rs.take(i + 1).drop_last() =~= rs.take(i));
    assert(rs.take(i + 1).last() == rs[i]);
}

/// Ceiling division of a nonnegative number is nonnegative, and the
/// quotient scaled back up brackets the dividend.
pub proof fn lemma_div_ceil_bounds(a: int, p: int)
    by (nonlinear_arith)
    requires
        a >= 0,
        p >= 1,
    ensures
        spec_div_ceil(a, p) >= 0,
        a <= spec_div_ceil(a, p) * p < a + p,
{
}

/// Ceiling division is monotone in the dividend.
pub proof fn lemma_div_ceil_mono(a: int, b: int, p: int)
    by (nonlinear_arith)
    requires
        0 <= a <= b,
        p >= 1,
    ensures
        spec_div_ceil(a, p) <= spec_div_ceil(b, p),
{
}

/// Every region's metadata contribution is nonnegative, so the total
/// over a prefix never exceeds the total over the whole report.
pub proof fn lemma_metadata_prefix_le(rs: Seq<RegionDescriptor>, page_size: int, i: int)
    requires
        page_size >= 1,
        0 <= i <= rs.len(),
    ensures
        metadata_bytes(rs.take(i), page_size) <= metadata_bytes(rs, page_size),
    decreases rs.len() - i,
{
    if i == rs.len() {
        assert(rs.take(i) =~= rs);
    } else {
        lemma_metadata_take_succ(rs, page_size, i);
        if rs[i].kind == RegionKind::Usable {
            lemma_div_ceil_bounds(rs[i].length as int, page_size);
            lemma_div_ceil_bounds(spec_div_ceil(rs[i].length as int, page_size), 8);
        }
        lemma_metadata_prefix_le(rs, page_size, i + 1);
    }
}

/// `first_host_from` returns the unique index `r` such that no earlier
/// region qualifies and `r` either qualifies or is the end.
pub proof fn lemma_first_host_characterize(rs: Seq<RegionDescriptor>, need: int, i: int, r: int)
    requires
        0 <= i <= r <= rs.len(),
        forall|j: int|
            i <= j < r ==> !((#[trigger] rs[j]).kind == RegionKind::Usable && need <= rs[j].length),
        r < rs.len() ==> rs[r].kind == RegionKind::Usable && need <= rs[r].length,
    ensures
        first_host_from(rs, need, i) == r,
    decreases r - i,
{
    if i < r {
        lemma_first_host_characterize(rs, need, i + 1, r);
    }
}

/// A metadata size past the address-space limit fits in no region.
pub proof fn lemma_no_host_when_oversized(rs: Seq<RegionDescriptor>, need: int, i: int)
    requires
        0 <= i <= rs.len(),
        need > usize::MAX,
    ensures
        first_host_from(rs, need, i) == rs.len(),
    decreases rs.len() - i,
{
    if i < rs.len() {
        lemma_no_host_when_oversized(rs, need, i + 1);
    }
}

/// Index of the first tracker at or after `i` that still has a free
/// frame; `ts.len()` when the whole chain is exhausted.
pub open spec fn first_tracker_with_free(ts: Seq<RegionTracker>, i: int) -> int
    decreases ts.len() - i,
{
    if i < 0 || i >= ts.len() {
        ts.len() as int
    } else if first_free_from(ts[i].frames(), 0) < ts[i].count() {
        i
    } else {
        first_tracker_with_free(ts, i + 1)
    }
}

/// `first_tracker_with_free` returns the unique index `r` such that
/// every tracker before it is exhausted and `r` either has a free frame
/// or is the end of the chain.
pub proof fn lemma_first_tracker_characterize(ts: Seq<RegionTracker>, i: int, r: int)
    requires
        0 <= i <= r <= ts.len(),
        forall|j: int|
            i <= j < r ==> first_free_from((#[trigger] ts[j]).frames(), 0) == ts[j].count(),
        r < ts.len() ==> first_free_from(ts[r].frames(), 0) < ts[r].count(),
        forall|j: int|
            i <= j < ts.len() ==> first_free_from((#[trigger] ts[j]).frames(), 0) <= ts[j].count(),
    ensures
        first_tracker_with_free(ts, i) == r,
    decreases r - i,
{
    if i < r {
        lemma_first_tracker_characterize(ts, i + 1, r);
    }
}

/// True when `address` falls inside the region `t` tracks.
pub open spec fn tracker_contains(t: RegionTracker, address: int) -> bool {
    t.start() <= address < t.start() + t.count() * t.page()
}

/// Index of the first tracker at or after `i` whose region contains
/// `address`; `ts.len()` when none does.
pub open spec fn first_containing(ts: Seq<RegionTracker>, address: int, i: int) -> int
    decreases ts.len() - i,
{
    if i < 0 || i >= ts.len() {
        ts.len() as int
    } else if tracker_contains(ts[i], address) {
        i
    } else {
        first_containing(ts, address, i + 1)
    }
}

/// `first_containing` returns the unique index `r` such that no earlier
/// tracker contains the address and `r` either contains it or is the
/// end of the chain.
pub proof fn lemma_first_containing_characterize(
    ts: Seq<RegionTracker>,
    address: int,
    i: int,
    r: int,
)
    requires
        0 <= i <= r <= ts.len(),
        forall|j: int| i <= j < r ==> !tracker_contains(#[trigger] ts[j], address),
        r < ts.len() ==> tracker_contains(ts[r], address),
    ensures
        first_containing(ts, address, i) == r,
    decreases r - i,
{
    if i < r {
        lemma_first_containing_characterize(ts, address, i + 1, r);
    }
}

/// Free frames left in the whole chain from tracker `i` on.
pub open spec fn total_free(ts: Seq<RegionTracker>, i: int) -> int
    decreases ts.len() - i,
{
    if i < 0 || i >= ts.len() {
        0
    } else {
        count_free_from(ts[i].frames(), 0) + total_free(ts, i + 1)
    }
}

/// The chain is exhausted exactly when no tracker has a free frame
/// left: a chain allocation fails precisely when the total free count
/// across all trackers is zero.
pub proof fn lemma_chain_exhausted_iff_no_free(ts: Seq<RegionTracker>, i: int)
    requires
        0 <= i <= ts.len(),
    ensures
        total_free(ts, i) >= 0,
        first_tracker_with_free(ts, i) == ts.len() <==> total_free(ts, i) == 0,
    decreases ts.len() - i,
{
    if i < ts.len() {
        lemma_chain_exhausted_iff_no_free(ts, i + 1);
        lemma_exhausted_iff_no_free(ts[i].frames(), 0);
        crate::tracker::lemma_first_free_props(ts[i].frames(), 0);
    }
}

/// A successful chain allocation — the first tracker with a free frame
/// takes its first free frame — lowers the total free count across the
/// chain by exactly one. Together with
/// `lemma_chain_exhausted_iff_no_free` this says the chain serves
/// exactly as many allocations as it has free frames.
pub proof fn lemma_chain_allocation_total(
    ts: Seq<RegionTracker>,
    ts2: Seq<RegionTracker>,
    k: int,
    i: int,
)
    requires
        0 <= k < ts.len(),
        ts2.len() == ts.len(),
        0 <= i <= ts.len(),
        forall|j: int| 0 <= j < ts.len() && j != k ==> ts2[j] == ts[j],
        first_free_from(ts[k].frames(), 0) < ts[k].count(),
        ts2[k].frames() == ts[k].frames().update(first_free_from(ts[k].frames(), 0), true),
    ensures
        total_free(ts2, i) == total_free(ts, i) - if i <= k {
            1int
        } else {
            0int
        },
    decreases ts.len() - i,
{
    if i < ts.len() {
        lemma_chain_allocation_total(ts, ts2, k, i + 1);
        if i == k {
            lemma_allocation_consumes_one_free_frame(ts[k].frames());
        }
    }
}

/// The frame allocator: an ordered chain of region trackers, built once
/// from the firmware memory report inside memory carved out of the
/// first region large enough to host the allocator's own bookkeeping.
pub struct StaticLinearAllocator {
    trackers: Vec<RegionTracker>,
    page_size: usize,
    metadata_base: usize,
}

impl StaticLinearAllocator {
    /// The tracker chain, in firmware report order of usable regions.
    pub closed spec fn chain(self) -> Seq<RegionTracker> {
        self.trackers@
    }

    /// The frame granularity the allocator was constructed with.
    pub closed spec fn page(self) -> usize {
        self.page_size
    }

    /// The directly accessible, page-aligned base address of the
    /// allocator's own metadata buffer.
    pub closed spec fn metadata(self) -> usize {
        self.metadata_base
    }

    /// Well-formedness: every tracker in the chain is well-formed and
    /// shares the allocator's page size.
    pub closed spec fn wf(self) -> bool {
        &&& self.page_size >= 1
        &&& forall|k: int|
            0 <= k < self.trackers@.len() ==> (#[trigger] self.trackers@[k]).wf()
                && self.trackers@[k].page() == self.page_size
    }

    /// The directly accessible base address of the metadata buffer.
    pub fn metadata_base(&self) -> (r: usize)
        ensures
            r == self.metadata(),
    {
        self.metadata_base
    }

    /// The number of tracked regions.
    pub fn region_count(&self) -> (r: usize)
        ensures
            r == self.chain().len(),
    {
        self.trackers.len()
    }

    /// Builds the allocator from the firmware memory report. It sizes
    /// the metadata needed to track every usable region, picks the
    /// first usable region large enough to host it (failing with
    /// `NoSuitableRegion` when none is), translates that region's base
    /// through the direct-map offset and rounds it up to page
    /// alignment, carves one tracker per usable region in report order,
    /// and finally marks the frames backing the metadata itself
    /// allocated in the host region's tracker so they are never handed
    /// out.
    pub fn new(
        memory_regions: &Vec<RegionDescriptor>,
        page_size: usize,
        direct_map_offset: usize,
    ) -> (r: Result<StaticLinearAllocator, PmmError>)
        requires
            page_size >= 1,
            is_power_of_two(page_size as int),
            forall|k: int|
                0 <= k < memory_regions@.len() && (#[trigger] memory_regions@[k]).kind
                    == RegionKind::Usable ==> memory_regions@[k].base + memory_regions@[k].length
                    + page_size <= usize::MAX && memory_regions@[k].base + direct_map_offset
                    + page_size <= usize::MAX,
        ensures
            ({
                let rs = memory_regions@;
                let need = metadata_bytes(rs, page_size as int);
                let h = first_host_from(rs, need, 0);
                if h == rs.len() {
                    r == Err::<StaticLinearAllocator, PmmError>(PmmError::NoSuitableRegion)
                } else {
                    let u = usable_regions(rs);
                    let hu = usable_regions(rs.take(h)).len();
                    let reserved = spec_div_ceil(need, page_size as int);
                    r matches Ok(a) && {
                        &&& a.wf()
                        &&& a.page() == page_size
                        &&& a.metadata() == spec_align_up(
                            rs[h].base + direct_map_offset,
                            page_size as int,
                        )
                        &&& a.chain().len() == u.len()
                        &&& forall|j: int|
                            0 <= j < u.len() ==> (#[trigger] a.chain()[j]).start() == u[j].base
                                && a.chain()[j].page() == page_size && a.chain()[j].count()
                                == spec_div_ceil(u[j].length as int, page_size as int)
                        &&& forall|j: int, f: int|
                            0 <= j < u.len() && 0 <= f < a.chain()[j].count() ==> (#[trigger] a
                                .chain()[j].frames()[f]) == (j == hu && f < reserved)
                    }
                }
            }),
    {
        let ghost rs = memory_regions@;
        let ghost p = page_size as int;
        let ghost need_math = metadata_bytes(rs, p);

        // Size the metadata for all usable regions; treat a total past
        // the address space as unhostable.
        let mut total: usize = 0;
        let mut overflow: bool = false;
        let mut i: usize = 0;
        while i < memory_regions.len()
            invariant
                rs == memory_regions@,
                p == page_size as int,
                page_size >= 1,
                i <= rs.len(),
                !overflow ==> total == metadata_bytes(rs.take(i as int), p),
                overflow ==> metadata_bytes(rs.take(i as int), p) > usize::MAX,
            decreases rs.len() - i,
        {
            let region: RegionDescriptor = memory_regions[i];
            proof {
                lemma_metadata_take_succ(rs, p, i as int);
            }
            match region.kind {
                RegionKind::Usable => {
                    let fc: usize = div_ceil_usize(region.length, page_size);
                    let bs: usize = div_ceil_usize(fc, 8);
                    if bs > usize::MAX - 2 * TRACKER_SLOT_BYTES {
                        overflow = true;
                    } else {
                        let term: usize = 2 * TRACKER_SLOT_BYTES + bs;
                        if total > usize::MAX - term {
                            overflow = true;
                        } else {
                            total = total + term;
                        }
                    }
                },
                RegionKind::Other => {
                },
            }
            i += 1;
        }
        proof {
            assert(rs.take(rs.len() as int) =~= rs);
        }

        // Pick the first usable region that can host the metadata.
        let host: usize = if overflow {
            proof {
                lemma_no_host_when_oversized(rs, need_math, 0);
            }
            memory_regions.len()
        } else {
            find_host(memory_regions, total)
        };
        if host == memory_regions.len() {
            proof {
                if !overflow {
                    lemma_first_host_characterize(rs, need_math, 0, rs.len() as int);
                }
            }
            return Err(PmmError::NoSuitableRegion);
        }
        proof {
            if overflow {
                assert(false);
            }
            lemma_first_host_characterize(rs, need_math, 0, host as int);
        }

        // Translate the host region's base into an accessible metadata
        // buffer address, rounded up to page alignment.
        let host_region: RegionDescriptor = memory_regions[host];
        let metadata_base: usize = align_up_to(host_region.base + direct_map_offset, page_size);

        // Carve one tracker per usable region, in report order.
        let mut trackers: Vec<RegionTracker> = Vec::new();
        let mut host_slot: usize = 0;
        let mut k: usize = 0;
        while k < memory_regions.len()
            invariant
                rs == memory_regions@,
                p == page_size as int,
                page_size >= 1,
                k <= rs.len(),
                host < rs.len(),
                rs[host as int].kind == RegionKind::Usable,
                forall|t: int|
                    0 <= t < rs.len() && (#[trigger] rs[t]).kind == RegionKind::Usable ==> rs[
                        t
                    ].base + rs[t].length + page_size <= usize::MAX,
                trackers@.len() == usable_regions(rs.take(k as int)).len(),
                forall|t: int|
                    0 <= t < trackers@.len() ==> (#[trigger] trackers@[t]).wf()
                        && trackers@[t].start() == usable_regions(rs.take(k as int))[t].base
                        && trackers@[t].page() == page_size && trackers@[t].count()
                        == spec_div_ceil(usable_regions(rs.take(k as int))[t].length as int, p),
                forall|t: int, f: int|
                    0 <= t < trackers@.len() && 0 <= f < trackers@[t].count()
                        ==> !(#[trigger] trackers@[t].frames()[f]),
                host < k ==> host_slot == usable_regions(rs.take(host as int)).len()
                    && host_slot < trackers@.len() && usable_regions(rs.take(k as int))[
                    host_slot as int
                ] == rs[host as int],
            decreases rs.len() - k,
        {
            let region: RegionDescriptor = memory_regions[k];
            proof {
                lemma_usable_take_succ(rs, k as int);
            }
            match region.kind {
                RegionKind::Usable => {
                    let fc: usize = div_ceil_usize(region.length, page_size);
                    let bs: usize = div_ceil_usize(fc, 8);
                    let storage: Vec<u8> = zeroed_buffer(bs);
                    if k == host {
                        host_slot = trackers.len();
                    }
                    proof {
                        lemma_div_ceil_bounds(region.length as int, p);
                    }
                    let t: RegionTracker = RegionTracker::initialize(
                        region.base,
                        region.length,
                        page_size,
                        storage,
                    );
                    trackers.push(t);
                },
                RegionKind::Other => {
                },
            }
            k += 1;
        }
        proof {
            assert(rs.take(rs.len() as int) =~= rs);
        }

        // Reserve the allocator's own backing frames in the host
        // tracker so they are never handed out.
        let reserved: usize = div_ceil_usize(total, page_size);
        proof {
            lemma_div_ceil_mono(total as int, rs[host as int].length as int, p);
            assert(usable_regions(rs)[host_slot as int] == rs[host as int]);
            assert(trackers@[host_slot as int].count() == spec_div_ceil(
                rs[host as int].length as int,
                p,
            ));
        }
        let ghost before = trackers@;
        let host_tracker: &mut RegionTracker = &mut trackers[host_slot];
        host_tracker.mark_range_allocated(0, reserved);

        let allocator = StaticLinearAllocator { trackers, page_size, metadata_base };
        proof {
            let u = usable_regions(rs);
            let hu = usable_regions(rs.take(host as int)).len();
            let reserved_math = spec_div_ceil(need_math, p);
            assert forall|j: int, f: int|
                0 <= j < u.len() && 0 <= f < allocator.chain()[j].count() implies (#[trigger] allocator
                .chain()[j].frames()[f]) == (j == hu && f < reserved_math) by {
                if j != host_slot as int {
                    assert(allocator.chain()[j] == before[j]);
                } else {
                    assert(allocator.chain()[j].frames() == Seq::new(
                        before[j].count() as nat,
                        |x: int| 0 <= x < reserved || before[j].frames()[x],
                    ));
                }
            }
        }
        Ok(allocator)
    }

    /// Serves one frame: walks the chain in order, takes the first
    /// free frame of the first tracker that still has one, and returns
    /// it as a page-aligned `Frame`; fails with `OutOfMemory` when
    /// every tracker is exhausted. A frame that is already allocated —
    /// including the frames reserved for the allocator's own metadata —
    /// is never the one returned, and stays allocated.
    pub fn allocate_frame(&mut self) -> (r: Result<Frame, PmmError>)
        requires
            old(self).wf(),
        ensures
            final(self).wf(),
            final(self).page() == old(self).page(),
            final(self).metadata() == old(self).metadata(),
            final(self).chain().len() == old(self).chain().len(),
            forall|j: int, f: int|
                0 <= j < old(self).chain().len() && 0 <= f < old(self).chain()[j].count() && (
                #[trigger] old(self).chain()[j].frames()[f]) ==> final(self).chain()[j].frames()[f],
            ({
                let k = first_tracker_with_free(old(self).chain(), 0);
                if k < old(self).chain().len() {
                    let t = old(self).chain()[k];
                    let ff = first_free_from(t.frames(), 0);
                    &&& r matches Ok(frame) && frame.spec_address() == round_down(
                        t.start() + ff * t.page(),
                        t.page() as int,
                    )
                    &&& final(self).chain()[k].frames() == t.frames().update(ff, true)
                    &&& final(self).chain()[k].start() == t.start()
                    &&& final(self).chain()[k].page() == t.page()
                    &&& final(self).chain()[k].count() == t.count()
                    &&& forall|j: int|
                        0 <= j < old(self).chain().len() && j != k ==> final(self).chain()[j]
                            == old(self).chain()[j]
                } else {
                    &&& r == Err::<Frame, PmmError>(PmmError::OutOfMemory)
                    &&& final(self).chain() == old(self).chain()
                }
            }),
    {
        let n: usize = self.trackers.len();
        let mut idx: usize = 0;
        while idx < n
            invariant
                old(self).wf(),
                n == self.trackers@.len(),
                idx <= n,
                self.trackers@ == old(self).trackers@,
                self.page_size == old(self).page_size,
                self.metadata_base == old(self).metadata_base,
                forall|j: int|
                    0 <= j < idx ==> first_free_from((#[trigger] self.trackers@[j]).frames(), 0)
                        == self.trackers@[j].count(),
            decreases n - idx,
        {
            let ghost pre = self.trackers@;
            let tracker: &mut RegionTracker = &mut self.trackers[idx];
            let page: usize = tracker.page_size();
            let start: usize = tracker.start_address();
            let result: Option<usize> = tracker.allocate_one();
            match result {
                Some(address) => {
                    proof {
                        assert forall|j: int|
                            0 <= j < pre.len() implies first_free_from(
                            (#[trigger] pre[j]).frames(),
                            0,
                        ) <= pre[j].count() by {
                            crate::tracker::lemma_first_free_props(pre[j].frames(), 0);
                        }
                        lemma_first_tracker_characterize(pre, 0, idx as int);
                        let ff = first_free_from(pre[idx as int].frames(), 0);
                        crate::tracker::lemma_first_free_props(pre[idx as int].frames(), 0);
                        assert(0 <= ff < pre[idx as int].count());
                        assert(self.trackers@[idx as int].frames() == pre[
                            idx as int
                        ].frames().update(ff, true));
                        assert(forall|j: int|
                            0 <= j < pre.len() && j != idx ==> self.trackers@[j] == pre[j]);
                        assert(self.trackers@.len() == pre.len());
                        assert(self.trackers@[idx as int].wf());
                        assert(self.trackers@[idx as int].start() == pre[idx as int].start());
                        assert(self.trackers@[idx as int].page() == pre[idx as int].page());
                        assert(self.trackers@[idx as int].count() == pre[idx as int].count());
                        assert forall|j: int, f: int|
                            0 <= j < pre.len() && 0 <= f < pre[j].count() && pre[j].frames()[f]
                            implies self.trackers@[j].frames()[f] by {
                            assert(pre[j].frames().len() == pre[j].count());
                            if j == idx as int {
                                assert(self.trackers@[j].frames() == pre[j].frames().update(
                                    ff,
                                    true,
                                ));
                                if f == ff {
                                    assert(self.trackers@[j].frames()[f]);
                                } else {
                                    assert(self.trackers@[j].frames()[f] == pre[
                                        j
                                    ].frames().update(ff, true)[f]);
                                    assert(pre[j].frames().update(ff, true)[f] == pre[
                                        j
                                    ].frames()[f]);
                                }
                            }
                        }
                    }
                    let frame: Frame = Frame::containing_address(address, page);
                    return Ok(frame);
                },
                None => {
                    proof {
                        assert(self.trackers@ =~= pre);
                        assert(pre[idx as int].frames().len() == pre[idx as int].count());
                        crate::tracker::lemma_first_free_props(pre[idx as int].frames(), 0);
                        assert(first_free_from(pre[idx as int].frames(), 0) == pre[
                            idx as int
                        ].count());
                    }
                },
            }
            idx += 1;
        }
        proof {
            assert forall|j: int|
                0 <= j < self.trackers@.len() implies first_free_from(
                (#[trigger] self.trackers@[j]).frames(),
                0,
            ) <= self.trackers@[j].count() by {
                crate::tracker::lemma_first_free_props(self.trackers@[j].frames(), 0);
            }
            lemma_first_tracker_characterize(self.trackers@, 0, self.trackers@.len() as int);
        }
        Err(PmmError::OutOfMemory)
    }

    /// Returns a frame to the pool: finds the tracker whose region
    /// contains the frame's address (failing with `InvalidFrame` when
    /// none does) and frees the frame's slot in its bitmap, failing
    /// with `DoubleFree` when that slot is already free.
    pub fn deallocate_frame(&mut self, frame: Frame) -> (r: Result<(), PmmError>)
        requires
            old(self).wf(),
        ensures
            final(self).wf(),
            final(self).page() == old(self).page(),
            final(self).metadata() == old(self).metadata(),
            final(self).chain().len() == old(self).chain().len(),
            ({
                let k = first_containing(old(self).chain(), frame.spec_address() as int, 0);
                if k == old(self).chain().len() {
                    &&& r == Err::<(), PmmError>(PmmError::InvalidFrame)
                    &&& final(self).chain() == old(self).chain()
                } else {
                    let t = old(self).chain()[k];
                    let fi = (frame.spec_address() - t.start()) / t.page() as int;
                    &&& 0 <= fi < t.count()
                    &&& forall|j: int|
                        0 <= j < old(self).chain().len() && j != k ==> final(self).chain()[j]
                            == old(self).chain()[j]
                    &&& final(self).chain()[k].start() == t.start()
                    &&& final(self).chain()[k].page() == t.page()
                    &&& final(self).chain()[k].count() == t.count()
                    &&& if t.frames()[fi] {
                        r == Ok::<(), PmmError>(()) && final(self).chain()[k].frames()
                            == t.frames().update(fi, false)
                    } else {
                        r == Err::<(), PmmError>(PmmError::DoubleFree) && final(self).chain()
                            == old(self).chain()
                    }
                }
            }),
    {
        let address: usize = frame.address();
        let n: usize = self.trackers.len();
        let mut idx: usize = 0;
        while idx < n
            invariant
                old(self).wf(),
                n == self.trackers@.len(),
                idx <= n,
                self.trackers@ == old(self).trackers@,
                self.page_size == old(self).page_size,
                self.metadata_base == old(self).metadata_base,
                address == frame.spec_address(),
                forall|j: int|
                    0 <= j < idx ==> !tracker_contains(#[trigger] self.trackers@[j], address as int),
            decreases n - idx,
        {
            let ghost pre = self.trackers@;
            let start: usize = self.trackers[idx].start_address();
            let count: usize = self.trackers[idx].frame_count();
            let page: usize = self.trackers[idx].page_size();
            proof {
                pre[idx as int].lemma_wf_bounds();
            }
            if address >= start && address - start < count * page {
                let frame_index: usize = (address - start) / page;
                proof {
                    lemma_first_containing_characterize(pre, address as int, 0, idx as int);
                    assert(frame_index < count) by (nonlinear_arith)
                        requires
                            page >= 1,
                            frame_index == ((address - start) as int) / (page as int),
                            ((address - start) as int) < (count as int) * (page as int),
                    ;
                }
                let tracker: &mut RegionTracker = &mut self.trackers[idx];
                let result: Result<(), PmmError> = tracker.deallocate_one(frame_index);
                proof {
                    if pre[idx as int].frames()[frame_index as int] {
                        assert(self.trackers@[idx as int].frames() == pre[
                            idx as int
                        ].frames().update(frame_index as int, false));
                    } else {
                        assert(self.trackers@ =~= pre);
                    }
                    assert(forall|j: int|
                        0 <= j < pre.len() && j != idx ==> self.trackers@[j] == pre[j]);
                }
                return result;
            }
            idx += 1;
        }
        proof {
            lemma_first_containing_characterize(
                self.trackers@,
                address as int,
                0,
                self.trackers@.len() as int,
            );
        }
        Err(PmmError::InvalidFrame)
    }
}

/// A freshly allocated buffer of `n` bytes for a carved bitmap slice.
fn zeroed_buffer(n: usize) -> (r: Vec<u8>)
    ensures
        r@.len() == n,
{
    let mut v: Vec<u8> = Vec::new();
    while v.len() < n
        invariant
            v@.len() <= n,
        decreases n - v@.len(),
    {
        v.push(0u8);
    }
    v
}

/// Scans the report for the first usable region of at least `need`
/// bytes; returns the report length when none qualifies.
fn find_host(memory_regions: &Vec<RegionDescriptor>, need: usize) -> (r: usize)
    ensures
        r <= memory_regions@.len(),
        forall|j: int|
            0 <= j < r ==> !((#[trigger] memory_regions@[j]).kind == RegionKind::Usable && need
                <= memory_regions@[j].length),
        r < memory_regions@.len() ==> memory_regions@[r as int].kind == RegionKind::Usable && need
            <= memory_regions@[r as int].length,
{
    let mut j: usize = 0;
    while j < memory_regions.len()
        invariant
            j <= memory_regions@.len(),
            forall|t: int|
                0 <= t < j ==> !((#[trigger] memory_regions@[t]).kind == RegionKind::Usable && need
                    <= memory_regions@[t].length),
        decreases memory_regions@.len() - j,
    {
        let region: RegionDescriptor = memory_regions[j];
        let usable: bool = match region.kind {
            RegionKind::Usable => true,
            RegionKind::Other => false,
        };
        if usable && region.length >= need {
            return j;
        }
        j += 1;
    }
    memory_regions.len()
}

} // verus!

