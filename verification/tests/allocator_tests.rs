use pmm::Frame;
use pmm::PmmError;
use pmm::RegionDescriptor;
use pmm::RegionKind;
use pmm::StaticLinearAllocator;

const PAGE: usize = 4096;
const HHDM: usize = 0xFFFF_8000_0000_0000;

fn usable(base: usize, length: usize) -> RegionDescriptor {
    RegionDescriptor { base, length, kind: RegionKind::Usable }
}

fn other(base: usize, length: usize) -> RegionDescriptor {
    RegionDescriptor { base, length, kind: RegionKind::Other }
}

fn two_region_setup() -> StaticLinearAllocator {
    // Region A: 4 frames; region B: 2 frames. The metadata (two
    // tracker slots of headroom per region plus one bitmap byte each)
    // fits in exactly one frame, hosted in A.
    let regions = vec![usable(0x100000, 0x4000), usable(0x200000, 0x2000)];
    StaticLinearAllocator::new(&regions, PAGE, HHDM).unwrap()
}

#[test]
fn two_region_scenario_allocates_in_report_order() {
    let mut a = two_region_setup();
    let expected: [usize; 5] = [0x101000, 0x102000, 0x103000, 0x200000, 0x201000];
    for want in expected {
        let frame = a.allocate_frame().unwrap();
        assert_eq!(frame.address(), want);
    }
    assert_eq!(a.allocate_frame().unwrap_err(), PmmError::OutOfMemory);
}

#[test]
fn first_region_is_exhausted_before_the_next() {
    let mut a = two_region_setup();
    let mut addresses = Vec::new();
    while let Ok(frame) = a.allocate_frame() {
        addresses.push(frame.address());
    }
    let from_a = addresses.iter().take_while(|&&x| x < 0x200000).count();
    assert_eq!(from_a, 3);
    assert!(addresses[from_a..].iter().all(|&x| x >= 0x200000));
}

#[test]
fn total_allocatable_is_sum_of_free_frames_after_reservation() {
    let mut a = two_region_setup();
    assert_eq!(a.region_count(), 2);
    let mut served = 0;
    while a.allocate_frame().is_ok() {
        served += 1;
    }
    // 4 frames in A minus 1 self-reserved, plus 2 frames in B.
    assert_eq!(served, (4 - 1) + 2);
}

#[test]
fn metadata_frame_is_never_handed_out() {
    let mut a = two_region_setup();
    let mut addresses = Vec::new();
    while let Ok(frame) = a.allocate_frame() {
        addresses.push(frame.address());
    }
    assert!(!addresses.contains(&0x100000));

    // Even after every other frame is returned and drawn again, the
    // self-reserved frame stays out of the pool.
    for &addr in &addresses {
        a.deallocate_frame(Frame::containing_address(addr, PAGE)).unwrap();
    }
    let mut again = Vec::new();
    while let Ok(frame) = a.allocate_frame() {
        again.push(frame.address());
    }
    assert!(!again.contains(&0x100000));
    assert_eq!(again.len(), addresses.len());
}

#[test]
fn construction_fails_without_a_large_enough_usable_region() {
    // The lone usable region needs 129 metadata bytes (two 64-byte
    // tracker slots plus one bitmap byte) but only offers 128.
    let regions = vec![other(0x0, 0x100000), usable(0x100000, 0x80)];
    assert!(matches!(
        StaticLinearAllocator::new(&regions, PAGE, HHDM),
        Err(PmmError::NoSuitableRegion)
    ));

    let none: Vec<RegionDescriptor> = Vec::new();
    assert!(matches!(
        StaticLinearAllocator::new(&none, PAGE, HHDM),
        Err(PmmError::NoSuitableRegion)
    ));

    let reserved_only = vec![other(0x100000, 0x10000000)];
    assert!(matches!(
        StaticLinearAllocator::new(&reserved_only, PAGE, HHDM),
        Err(PmmError::NoSuitableRegion)
    ));
}

#[test]
fn non_usable_regions_are_ignored() {
    let regions = vec![
        other(0x0, 0x80000),
        usable(0x100000, 0x4000),
        other(0x180000, 0x1000),
        usable(0x200000, 0x2000),
    ];
    let mut a = StaticLinearAllocator::new(&regions, PAGE, HHDM).unwrap();
    assert_eq!(a.region_count(), 2);
    assert_eq!(a.allocate_frame().unwrap().address(), 0x101000);
}

#[test]
fn metadata_base_is_page_aligned_translation_of_host_base() {
    let a = two_region_setup();
    // The host region's base is already page aligned, so rounding up
    // changes nothing.
    assert_eq!(a.metadata_base(), HHDM + 0x100000);

    // With an offset that lands inside a page, the base must be
    // rounded up to the next page boundary.
    let regions = vec![usable(0x100000, 0x4000)];
    let b = StaticLinearAllocator::new(&regions, PAGE, 0x10).unwrap();
    assert_eq!(b.metadata_base(), 0x101000);
}

#[test]
fn deallocate_unknown_address_is_invalid() {
    let mut a = two_region_setup();
    let stray = Frame::containing_address(0x300000, PAGE);
    assert_eq!(a.deallocate_frame(stray), Err(PmmError::InvalidFrame));
    let below = Frame::containing_address(0x0FF000, PAGE);
    assert_eq!(a.deallocate_frame(below), Err(PmmError::InvalidFrame));
}

#[test]
fn deallocate_then_allocate_round_trips() {
    let mut a = two_region_setup();
    let f1 = a.allocate_frame().unwrap();
    let f2 = a.allocate_frame().unwrap();
    assert_eq!(a.deallocate_frame(f1), Ok(()));
    assert_eq!(a.deallocate_frame(f1), Err(PmmError::DoubleFree));
    let f3 = a.allocate_frame().unwrap();
    assert_eq!(f3.address(), f1.address());
    assert_ne!(f2.address(), f3.address());
}

#[test]
fn deallocating_a_free_frame_in_range_is_double_free() {
    let mut a = two_region_setup();
    let untouched = Frame::containing_address(0x201000, PAGE);
    assert_eq!(a.deallocate_frame(untouched), Err(PmmError::DoubleFree));
}

#[test]
fn frame_rounds_addresses_down_to_page_granularity() {
    assert_eq!(Frame::containing_address(0x101234, PAGE).address(), 0x101000);
    assert_eq!(Frame::containing_address(0x101000, PAGE).address(), 0x101000);
    assert_eq!(Frame::containing_address(0xFFF, PAGE).address(), 0x0);
}
