use pmm::PmmError;
use pmm::RegionTracker;

const PAGE: usize = 4096;

fn fresh(start: usize, size: usize) -> RegionTracker {
    let frames = size.div_ceil(PAGE);
    let storage = vec![0xAAu8; frames.div_ceil(8)];
    RegionTracker::initialize(start, size, PAGE, storage)
}

#[test]
fn bitmap_size_is_ceil_of_frame_count() {
    let cases: [(usize, usize, usize); 6] = [
        (0x4000, 4, 1),
        (0x2000, 2, 1),
        (0x20000, 32, 4),
        (0x21000, 33, 5),
        (0x8000, 8, 1),
        (0x1234, 2, 1),
    ];
    for (size, frames, bytes) in cases {
        let t = fresh(0x100000, size);
        assert_eq!(t.frame_count(), frames);
        assert_eq!(t.bitmap_size(), bytes);
        assert_eq!(t.bitmap_size(), t.frame_count().div_ceil(8));
    }
}

#[test]
fn zero_sized_region_has_no_frames() {
    let mut t = fresh(0x100000, 0);
    assert_eq!(t.frame_count(), 0);
    assert_eq!(t.bitmap_size(), 0);
    assert_eq!(t.allocate_one(), None);
    assert_eq!(t.deallocate_one(0), Err(PmmError::OutOfRange));
}

#[test]
fn first_allocation_returns_start_address() {
    let mut t = fresh(0x100000, 0x4000);
    assert_eq!(t.start_address(), 0x100000);
    assert_eq!(t.allocate_one(), Some(0x100000));
}

#[test]
fn capacity_n_gives_exactly_n_allocations() {
    let mut t = fresh(0x100000, 0x4000);
    for i in 0..4 {
        assert_eq!(t.allocate_one(), Some(0x100000 + i * PAGE));
    }
    assert_eq!(t.allocate_one(), None);
    assert_eq!(t.allocate_one(), None);
}

#[test]
fn allocation_after_free_returns_lowest_free_frame() {
    let mut t = fresh(0x100000, 0x4000);
    for _ in 0..4 {
        t.allocate_one().unwrap();
    }
    assert_eq!(t.deallocate_one(2), Ok(()));
    assert_eq!(t.allocate_one(), Some(0x100000 + 2 * PAGE));
    assert_eq!(t.deallocate_one(3), Ok(()));
    assert_eq!(t.deallocate_one(1), Ok(()));
    assert_eq!(t.allocate_one(), Some(0x100000 + 1 * PAGE));
    assert_eq!(t.allocate_one(), Some(0x100000 + 3 * PAGE));
    assert_eq!(t.allocate_one(), None);
}

#[test]
fn double_free_is_rejected() {
    let mut t = fresh(0x100000, 0x4000);
    t.allocate_one().unwrap();
    t.allocate_one().unwrap();
    assert_eq!(t.deallocate_one(1), Ok(()));
    assert_eq!(t.deallocate_one(1), Err(PmmError::DoubleFree));
    assert_eq!(t.deallocate_one(3), Err(PmmError::DoubleFree));
}

#[test]
fn out_of_range_free_is_rejected() {
    let mut t = fresh(0x100000, 0x4000);
    assert_eq!(t.deallocate_one(4), Err(PmmError::OutOfRange));
    assert_eq!(t.deallocate_one(100), Err(PmmError::OutOfRange));
}

#[test]
fn marked_range_is_skipped_by_allocation() {
    let mut t = fresh(0x100000, 0x4000);
    t.mark_range_allocated(0, 1);
    assert_eq!(t.allocate_one(), Some(0x100000 + 1 * PAGE));
    assert_eq!(t.allocate_one(), Some(0x100000 + 2 * PAGE));
    assert_eq!(t.allocate_one(), Some(0x100000 + 3 * PAGE));
    assert_eq!(t.allocate_one(), None);
}

#[test]
fn mark_range_revalidates_stale_hint() {
    let mut t = fresh(0x100000, 0x4000);
    assert_eq!(t.allocate_one(), Some(0x100000));
    // The hint now points at frame 1; marking frames 1..3 makes it
    // stale, so the tracker must rescan past the marked range.
    t.mark_range_allocated(1, 2);
    assert_eq!(t.allocate_one(), Some(0x100000 + 3 * PAGE));
    assert_eq!(t.allocate_one(), None);
}

#[test]
fn mark_range_keeps_lower_free_hint() {
    let mut t = fresh(0x100000, 0x8000);
    t.mark_range_allocated(4, 4);
    assert_eq!(t.allocate_one(), Some(0x100000));
    assert_eq!(t.allocate_one(), Some(0x100000 + 1 * PAGE));
}

#[test]
fn freed_marked_frame_can_be_reused() {
    let mut t = fresh(0x100000, 0x4000);
    t.mark_range_allocated(0, 4);
    assert_eq!(t.allocate_one(), None);
    assert_eq!(t.deallocate_one(0), Ok(()));
    assert_eq!(t.allocate_one(), Some(0x100000));
}
