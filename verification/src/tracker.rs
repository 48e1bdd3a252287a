//! The region tracker: free/allocated bookkeeping for the frames of one
//! contiguous physical memory region.
//!
//! Each tracker owns a bitmap with one bit per frame and caches, in its
//! free hint, the index of the lowest free frame (or nothing when the
//! region is exhausted). That cache is the tracker's core invariant: it
//! always points at the first free frame, which makes allocation O(1)
//! amortized.

use vstd::prelude::*;

use crate::bits::frame_bit;
use crate::bits::get_frame_bit;
use crate::bits::lemma_zero_byte_all_free;
use crate::bits::set_frame_bit;
use crate::allocator::PmmError;

verus! {

/// Index of the first free frame of `s` at or after `i`; `s.len()` when
/// every frame from `i` on is allocated. `true` means allocated.
pub open spec fn first_free_from(s: Seq<bool>, i: int) -> int
    recommends
        0 <= i <= s.len(),
    decreases s.len() - i,
{
    if i < 0 || i >= s.len() {
        s.len() as int
    } else if !s[i] {
        i
    } else {
        first_free_from(s, i + 1)
    }
}

/// Number of free frames of `s` at or after `i`.
pub open spec fn count_free_from(s: Seq<bool>, i: int) -> int
    recommends
        0 <= i <= s.len(),
    decreases s.len() - i,
{
    if i < 0 || i >= s.len() {
        0
    } else {
        (if !s[i] {
            1int
        } else {
            0int
        }) + count_free_from(s, i + 1)
    }
}

/// `first_free_from` returns the unique index `r` such that every frame
/// in `[i, r)` is allocated and `r` is either free or the end.
pub proof fn lemma_first_free_characterize(s: Seq<bool>, i: int, r: int)
    requires
        0 <= i <= r <= s.len(),
        forall|j: int| i <= j < r ==> s[j],
        r < s.len() ==> !s[r],
    ensures
        first_free_from(s, i) == r,
    decreases r - i,
{
    if i < r {
        lemma_first_free_characterize(s, i + 1, r);
    }
}

/// Basic shape of `first_free_from`: it lands between `i` and the end,
/// every frame before it (from `i` on) is allocated, and when it is not
/// the end it points at a free frame.
pub proof fn lemma_first_free_props(s: Seq<bool>, i: int)
    requires
        0 <= i <= s.len(),
    ensures
        i <= first_free_from(s, i) <= s.len(),
        forall|j: int| i <= j < first_free_from(s, i) ==> s[j],
        first_free_from(s, i) < s.len() ==> !s[first_free_from(s, i)],
    decreases s.len() - i,
{
    if i < s.len() && s[i] {
        lemma_first_free_props(s, i + 1);
    }
}

/// A free frame bounds the search: the first free frame is at or below
/// any index known to be free. Freeing frame `j` therefore makes the
/// next allocation return an index no larger than `j`.
pub proof fn lemma_first_free_le_free_index(s: Seq<bool>, i: int, j: int)
    requires
        0 <= i <= j < s.len(),
        !s[j],
    ensures
        first_free_from(s, i) <= j,
    decreases j - i,
{
    if i < j && s[i] {
        lemma_first_free_le_free_index(s, i + 1, j);
    }
}

/// An allocated frame is never the one the free-frame search returns,
/// so a subsequent allocation cannot hand it out again.
pub proof fn lemma_allocated_frame_not_returned(s: Seq<bool>, i: int)
    requires
        0 <= i < s.len(),
        s[i],
    ensures
        first_free_from(s, 0) != i,
{
    lemma_first_free_props(s, 0);
}

/// The free-frame search fails exactly when no free frame remains.
pub proof fn lemma_exhausted_iff_no_free(s: Seq<bool>, i: int)
    requires
        0 <= i <= s.len(),
    ensures
        count_free_from(s, i) >= 0,
        first_free_from(s, i) == s.len() <==> count_free_from(s, i) == 0,
    decreases s.len() - i,
{
    if i < s.len() {
        lemma_exhausted_iff_no_free(s, i + 1);
    }
}

/// Writing frame `j` changes the free-frame count by exactly the change
/// at `j`, and only when `j` lies in the counted suffix.
pub proof fn lemma_count_free_update(s: Seq<bool>, i: int, j: int, b: bool)
    requires
        0 <= i <= s.len(),
        0 <= j < s.len(),
    ensures
        count_free_from(s.update(j, b), i) == count_free_from(s, i) + if i <= j {
            (if b {
                0int
            } else {
                1int
            }) - (if s[j] {
                0int
            } else {
                1int
            })
        } else {
            0int
        },
    decreases s.len() - i,
{
    if i < s.len() {
        lemma_count_free_update(s, i + 1, j, b);
    }
}

/// Allocating the first free frame consumes exactly one free frame:
/// the attempt succeeds only while the free count is positive, and each
/// success lowers that count by one.
pub proof fn lemma_allocation_consumes_one_free_frame(s: Seq<bool>)
    requires
        first_free_from(s, 0) < s.len(),
    ensures
        count_free_from(s, 0) > 0,
        count_free_from(s.update(first_free_from(s, 0), true), 0) == count_free_from(s, 0) - 1,
{
    let ff = first_free_from(s, 0);
    lemma_first_free_props(s, 0);
    lemma_exhausted_iff_no_free(s, 0);
    lemma_count_free_update(s, 0, ff, true);
}

/// On a fully free region the first allocation takes frame 0, that is,
/// the frame at the region's start address.
pub proof fn lemma_first_allocation_is_start(s: Seq<bool>)
    requires
        s.len() >= 1,
        forall|i: int| 0 <= i < s.len() ==> !s[i],
    ensures
        first_free_from(s, 0) == 0,
{
}

/// Ceiling division, `ceil(a / b)`.
pub open spec fn spec_div_ceil(a: int, b: int) -> int
    recommends
        a >= 0,
        b >= 1,
{
    a / b + if a % b == 0 {
        0int
    } else {
        1int
    }
}

/// Computes `ceil(a / b)` without intermediate overflow.
pub fn div_ceil_usize(a: usize, b: usize) -> (r: usize)
    requires
        b >= 1,
    ensures
        r == spec_div_ceil(a as int, b as int),
{
    let q: usize = a / b;
    if a % b == 0 {
        q
    } else {
        proof {
            assert(b >= 2);
            vstd::arithmetic::div_mod::lemma_div_is_ordered_by_denominator(a as int, 2, b as int);
        }
        q + 1
    }
}

/// Scans the bitmap for the first free frame in `[from, limit)`;
/// returns `limit` when every one of those frames is allocated.
fn find_first_free(bm: &Vec<u8>, from: usize, limit: usize) -> (r: usize)
    requires
        from <= limit,
        limit <= 8 * bm@.len(),
    ensures
        from <= r <= limit,
        forall|t: int| from <= t < r ==> frame_bit(bm@, t),
        r < limit ==> !frame_bit(bm@, r as int),
{
    let mut j: usize = from;
    while j < limit
        invariant
            from <= j <= limit,
            limit <= 8 * bm@.len(),
            forall|t: int| from <= t < j ==> frame_bit(bm@, t),
        decreases limit - j,
    {
        if !get_frame_bit(bm, j) {
            return j;
        }
        j += 1;
    }
    limit
}

/// Bookkeeping for one contiguous physical region: a bitmap with one
/// bit per frame (set means allocated) plus a cached lowest-free-frame
/// hint.
pub struct RegionTracker {
    start_address: usize,
    page_size: usize,
    frame_count: usize,
    bitmap_size: usize,
    bitmap: Vec<u8>,
    free_hint: Option<usize>,
}

impl RegionTracker {
    /// Physical base address of the tracked region.
    pub closed spec fn start(self) -> usize {
        self.start_address
    }

    /// Frame granularity the tracker was initialized with.
    pub closed spec fn page(self) -> usize {
        self.page_size
    }

    /// Number of frames the region is partitioned into.
    pub closed spec fn count(self) -> usize {
        self.frame_count
    }

    /// Number of bitmap bytes in use, `ceil(frame_count / 8)`.
    pub closed spec fn bitmap_bytes(self) -> usize {
        self.bitmap_size
    }

    /// Per-frame allocation state: `true` means allocated.
    pub closed spec fn frames(self) -> Seq<bool> {
        Seq::new(self.frame_count as nat, |i: int| frame_bit(self.bitmap@, i))
    }

    /// Well-formedness: the bitmap is large enough, frame addresses fit
    /// the address space, and the hint caches exactly the first free
    /// frame (or nothing when the region is exhausted).
    pub closed spec fn wf(self) -> bool {
        &&& self.page_size >= 1
        &&& self.bitmap_size == spec_div_ceil(self.frame_count as int, 8)
        &&& self.bitmap@.len() >= self.bitmap_size
        &&& self.start_address + self.frame_count * self.page_size <= usize::MAX
        &&& match self.free_hint {
            Some(h) => h < self.frame_count && first_free_from(self.frames(), 0) == h as int,
            None => first_free_from(self.frames(), 0) == self.frame_count as int,
        }
    }

    /// Bounds a well-formed tracker guarantees its callers: a positive
    /// page size and a region that fits the address space.
    pub proof fn lemma_wf_bounds(self)
        requires
            self.wf(),
        ensures
            self.page() >= 1,
            self.start() + self.count() * self.page() <= usize::MAX,
    {
    }

    /// The frame sequence always has exactly one entry per frame.
    pub broadcast proof fn lemma_frames_len(self)
        ensures
            (#[trigger] self.frames()).len() == self.count(),
    {
    }

    /// Eight bitmap bytes cover at least one frame each: the bitmap in
    /// use is never shorter than the region it tracks.
    proof fn lemma_bitmap_covers(self)
        requires
            self.bitmap_size == spec_div_ceil(self.frame_count as int, 8),
        ensures
            8 * self.bitmap_size >= self.frame_count,
    {
    }

    /// The region's base address.
    pub fn start_address(&self) -> (r: usize)
        ensures
            r == self.start(),
    {
        self.start_address
    }

    /// The region's frame count.
    pub fn frame_count(&self) -> (r: usize)
        ensures
            r == self.count(),
    {
        self.frame_count
    }

    /// The number of bitmap bytes in use.
    pub fn bitmap_size(&self) -> (r: usize)
        ensures
            r == self.bitmap_bytes(),
    {
        self.bitmap_size
    }

    /// The frame granularity.
    pub fn page_size(&self) -> (r: usize)
        ensures
            r == self.page(),
    {
        self.page_size
    }

    /// Builds the tracker for the region of `region_size_bytes` bytes at
    /// `start_address`: partitions it into `ceil(size / page_size)`
    /// frames, zero-fills the bitmap storage (all frames start free) and
    /// points the hint at frame 0. The storage must already be large
    /// enough for `ceil(frame_count / 8)` bytes.
    pub fn initialize(
        start_address: usize,
        region_size_bytes: usize,
        page_size: usize,
        bitmap_storage: Vec<u8>,
    ) -> (r: RegionTracker)
        requires
            page_size >= 1,
            start_address + spec_div_ceil(region_size_bytes as int, page_size as int) * page_size
                <= usize::MAX,
            bitmap_storage@.len() >= spec_div_ceil(
                spec_div_ceil(region_size_bytes as int, page_size as int),
                8,
            ),
        ensures
            r.wf(),
            r.start() == start_address,
            r.page() == page_size,
            r.count() == spec_div_ceil(region_size_bytes as int, page_size as int),
            r.bitmap_bytes() == spec_div_ceil(r.count() as int, 8),
            forall|i: int| 0 <= i < r.count() ==> !r.frames()[i],
    {
        let frame_count: usize = div_ceil_usize(region_size_bytes, page_size);
        let bitmap_size: usize = div_ceil_usize(frame_count, 8);
        let mut bitmap: Vec<u8> = bitmap_storage;
        let mut j: usize = 0;
        let ghost storage_len = bitmap@.len();
        while j < bitmap.len()
            invariant
                j <= bitmap@.len(),
                bitmap@.len() == storage_len,
                forall|t: int| 0 <= t < j ==> bitmap@[t] == 0u8,
            decreases bitmap@.len() - j,
        {
            bitmap[j] = 0u8;
            j += 1;
        }
        let free_hint: Option<usize> = if frame_count > 0 {
            Some(0usize)
        } else {
            None
        };
        let r = RegionTracker {
            start_address,
            page_size,
            frame_count,
            bitmap_size,
            bitmap,
            free_hint,
        };
        proof {
            r.lemma_bitmap_covers();
            assert forall|i: int| 0 <= i < r.count() implies !r.frames()[i] by {
                assert(i / 8 < r.bitmap@.len());
                assert(r.bitmap@[i / 8] == 0u8);
                lemma_zero_byte_all_free(i % 8);
            }
            lemma_first_free_characterize(r.frames(), 0, 0);
        }
        r
    }

    /// Allocates the lowest free frame and returns its physical address,
    /// or returns `None` when the region is exhausted. The hint keeps
    /// pointing at the first free frame.
    pub fn allocate_one(&mut self) -> (r: Option<usize>)
        requires
            old(self).wf(),
        ensures
            final(self).wf(),
            final(self).start() == old(self).start(),
            final(self).page() == old(self).page(),
            final(self).count() == old(self).count(),
            final(self).bitmap_bytes() == old(self).bitmap_bytes(),
            ({
                let ff = first_free_from(old(self).frames(), 0);
                if ff < old(self).count() {
                    &&& old(self).start() + ff * old(self).page() <= usize::MAX
                    &&& r == Some((old(self).start() + ff * old(self).page()) as usize)
                    &&& final(self).frames() == old(self).frames().update(ff, true)
                } else {
                    &&& r is None
                    &&& *final(self) == *old(self)
                }
            }),
    {
        proof {
            lemma_first_free_props(old(self).frames(), 0);
            old(self).lemma_bitmap_covers();
        }
        match self.free_hint {
            None => None,
            Some(i) => {
                proof {
                    assert((i + 1) * self.page_size as int <= self.frame_count as int
                        * self.page_size as int) by (nonlinear_arith)
                        requires
                            i as int + 1 <= self.frame_count as int,
                            self.page_size as int >= 1,
                    ;
                    assert((i + 1) * self.page_size as int == i as int * self.page_size as int
                        + self.page_size as int) by (nonlinear_arith);
                }
                let address: usize = self.start_address + i * self.page_size;
                set_frame_bit(&mut self.bitmap, i, true);
                proof {
                    assert(self.frames() =~= old(self).frames().update(i as int, true));
                }
                let next: usize = find_first_free(&self.bitmap, i + 1, self.frame_count);
                self.free_hint = if next < self.frame_count {
                    Some(next)
                } else {
                    None
                };
                proof {
                    assert forall|t: int| 0 <= t < next implies self.frames()[t] by {
                        if t < i as int {
                            assert(old(self).frames()[t]);
                        }
                    }
                    lemma_first_free_characterize(self.frames(), 0, next as int);
                }
                Some(address)
            },
        }
    }

    /// Frees frame `frame_index`. Fails with `OutOfRange` when the index
    /// is outside the region and with `DoubleFree` when the frame is
    /// already free; otherwise clears the frame's bit and lowers the
    /// hint to the freed frame when that frame is below it.
    pub fn deallocate_one(&mut self, frame_index: usize) -> (r: Result<(), PmmError>)
        requires
            old(self).wf(),
        ensures
            final(self).wf(),
            final(self).start() == old(self).start(),
            final(self).page() == old(self).page(),
            final(self).count() == old(self).count(),
            final(self).bitmap_bytes() == old(self).bitmap_bytes(),
            frame_index >= old(self).count() ==> r == Err::<(), PmmError>(PmmError::OutOfRange)
                && *final(self) == *old(self),
            frame_index < old(self).count() && !old(self).frames()[frame_index as int] ==> r
                == Err::<(), PmmError>(PmmError::DoubleFree) && *final(self) == *old(self),
            frame_index < old(self).count() && old(self).frames()[frame_index as int] ==> r
                == Ok::<(), PmmError>(()) && final(self).frames() == old(self).frames().update(
                frame_index as int,
                false,
            ),
    {
        if frame_index >= self.frame_count {
            return Err(PmmError::OutOfRange);
        }
        proof {
            old(self).lemma_bitmap_covers();
            lemma_first_free_props(old(self).frames(), 0);
        }
        if get_frame_bit(&self.bitmap, frame_index) {
            set_frame_bit(&mut self.bitmap, frame_index, false);
            proof {
                assert(self.frames() =~= old(self).frames().update(frame_index as int, false));
            }
            let update_hint: bool = match self.free_hint {
                None => true,
                Some(h) => frame_index < h,
            };
            if update_hint {
                self.free_hint = Some(frame_index);
            }
            proof {
                match old(self).free_hint {
                    None => {
                        lemma_first_free_characterize(self.frames(), 0, frame_index as int);
                    },
                    Some(h) => {
                        if frame_index < h {
                            lemma_first_free_characterize(self.frames(), 0, frame_index as int);
                        } else {
                            lemma_first_free_characterize(self.frames(), 0, h as int);
                        }
                    },
                }
            }
            Ok(())
        } else {
            Err(PmmError::DoubleFree)
        }
    }

    /// Administrative bootstrap operation: marks the frames
    /// `[first_index, first_index + count)` allocated, then re-validates
    /// the hint — when the old hint fell inside the marked range (or the
    /// region looked exhausted) it rescans from the end of the range for
    /// the next free frame.
    pub fn mark_range_allocated(&mut self, first_index: usize, count: usize)
        requires
            old(self).wf(),
            first_index + count <= old(self).count(),
        ensures
            final(self).wf(),
            final(self).start() == old(self).start(),
            final(self).page() == old(self).page(),
            final(self).count() == old(self).count(),
            final(self).bitmap_bytes() == old(self).bitmap_bytes(),
            final(self).frames() == Seq::new(
                old(self).count() as nat,
                |i: int| first_index <= i < first_index + count || old(self).frames()[i],
            ),
    {
        proof {
            old(self).lemma_bitmap_covers();
            lemma_first_free_props(old(self).frames(), 0);
        }
        let ghost target = Seq::new(
            old(self).count() as nat,
            |i: int| first_index <= i < first_index + count || old(self).frames()[i],
        );
        let mut j: usize = first_index;
        while j < first_index + count
            invariant
                first_index <= j <= first_index + count,
                first_index + count <= self.frame_count,
                self.frame_count == old(self).count(),
                self.bitmap_size == old(self).bitmap_bytes(),
                8 * self.bitmap_size >= self.frame_count,
                self.bitmap@.len() >= self.bitmap_size,
                self.start_address == old(self).start_address,
                self.page_size == old(self).page_size,
                self.free_hint == old(self).free_hint,
                forall|t: int|
                    0 <= t < self.frame_count ==> self.frames()[t] == (first_index <= t < j || old(
                        self,
                    ).frames()[t]),
            decreases first_index + count - j,
        {
            let ghost prev = self.frames();
            set_frame_bit(&mut self.bitmap, j, true);
            proof {
                assert forall|t: int|
                    0 <= t < self.frame_count implies self.frames()[t] == (first_index <= t < j + 1
                    || old(self).frames()[t]) by {
                    assert(t / 8 < self.bitmap@.len());
                    if t != j {
                        assert(self.frames()[t] == prev[t]);
                    }
                }
            }
            j += 1;
        }
        proof {
            assert(self.frames() =~= target);
        }
        let stale: bool = match self.free_hint {
            None => true,
            Some(h) => first_index <= h && h < first_index + count,
        };
        if stale {
            let next: usize = find_first_free(&self.bitmap, first_index + count, self.frame_count);
            self.free_hint = if next < self.frame_count {
                Some(next)
            } else {
                None
            };
            proof {
                assert forall|t: int| 0 <= t < next implies self.frames()[t] by {
                    if t < first_index as int {
                        assert(old(self).frames()[t]);
                    }
                }
                lemma_first_free_characterize(self.frames(), 0, next as int);
            }
        } else {
            proof {
                let h = old(self).free_hint->Some_0 as int;
                assert(!self.frames()[h]);
                lemma_first_free_characterize(self.frames(), 0, h);
            }
        }
    }
}

} // verus!
