//! A physical frame allocator: it partitions contiguous physical memory
//! regions into fixed-size frames, tracks their allocation state in
//! per-region bitmaps, and serves allocate/deallocate requests across an
//! ordered chain of region trackers.

pub mod bits;
pub mod tracker;
pub mod allocator;

pub use allocator::Frame;
pub use allocator::PmmError;
pub use allocator::RegionDescriptor;
pub use allocator::RegionKind;
pub use allocator::StaticLinearAllocator;
pub use tracker::RegionTracker;
