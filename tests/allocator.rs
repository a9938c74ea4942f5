use bootloader::allocator::UefiFrameAllocator;
use bootloader::frame::{MemoryDescriptor, MemoryType, PhysFrame};
use bootloader::memory_map::{
    MemoryMapBuilder, MemoryMapFull, MemoryRegion, MemoryRegionKind, MEMORY_MAP_CAPACITY,
};
use bootloader::two_frames::TwoFrames;

fn desc(phys_start: u64, page_count: u64, ty: MemoryType) -> MemoryDescriptor {
    MemoryDescriptor { phys_start, page_count, ty }
}

fn sample() -> Vec<MemoryDescriptor> {
    vec![
        desc(0, 10, MemoryType::Conventional),
        desc(0xA000, 5, MemoryType::Reserved),
        desc(0xF000, 20, MemoryType::Conventional),
    ]
}

fn regions(builder: MemoryMapBuilder) -> Vec<MemoryRegion> {
    let map = builder.finalize();
    (0..map.len()).map(|i| map.region(i)).collect()
}

#[test]
fn twelve_frames_then_memory_map() {
    let mut alloc = UefiFrameAllocator::new(sample());
    let mut got = Vec::new();
    for _ in 0..12 {
        got.push(alloc.allocate_frame().unwrap().start_address());
    }
    let expected: Vec<u64> = (0..10u64).map(|n| n * 0x1000).chain([0xF000, 0x10000]).collect();
    assert_eq!(got, expected);
    let mut builder = MemoryMapBuilder::new();
    assert_eq!(alloc.construct_memory_map(&mut builder), Ok(()));
    assert_eq!(
        regions(builder),
        vec![
            MemoryRegion { start: 0, end: 0xA000, kind: MemoryRegionKind::Bootloader },
            MemoryRegion { start: 0xA000, end: 0xF000, kind: MemoryRegionKind::Reserved },
            MemoryRegion { start: 0xF000, end: 0x11000, kind: MemoryRegionKind::Bootloader },
            MemoryRegion { start: 0x11000, end: 0xF000 + 20 * 4096, kind: MemoryRegionKind::Usable },
        ]
    );
}

#[test]
fn frames_strictly_increase() {
    let descs = vec![
        desc(0x3000, 2, MemoryType::Conventional),
        desc(0x1000, 4, MemoryType::Conventional),
        desc(0x8000, 1, MemoryType::Other(7)),
        desc(0x20000, 3, MemoryType::Conventional),
    ];
    let mut alloc = UefiFrameAllocator::new(descs);
    let mut got = Vec::new();
    while let Some(f) = alloc.allocate_frame() {
        got.push(f.number);
    }
    assert_eq!(got, vec![3, 4, 0x20, 0x21, 0x22]);
    for w in got.windows(2) {
        assert!(w[0] < w[1]);
    }
}

#[test]
fn exhaustion_after_free_pages() {
    let mut alloc = UefiFrameAllocator::new(sample());
    for _ in 0..30 {
        assert!(alloc.allocate_frame().is_some());
    }
    assert_eq!(alloc.allocate_frame(), None);
    assert_eq!(alloc.allocate_frame(), None);
}

#[test]
fn empty_map_has_no_frames() {
    let mut alloc = UefiFrameAllocator::new(Vec::new());
    assert_eq!(alloc.allocate_frame(), None);
    let mut builder = MemoryMapBuilder::new();
    assert_eq!(alloc.construct_memory_map(&mut builder), Ok(()));
    assert_eq!(regions(builder), vec![]);
}

#[test]
fn unaligned_start_is_rounded_up() {
    let mut alloc = UefiFrameAllocator::new(vec![desc(0x1800, 2, MemoryType::Conventional)]);
    assert_eq!(alloc.allocate_frame(), Some(PhysFrame { number: 2 }));
    assert_eq!(alloc.allocate_frame(), Some(PhysFrame { number: 3 }));
    assert_eq!(alloc.allocate_frame(), None);
}

#[test]
fn untouched_and_consumed_descriptors() {
    let descs = vec![
        desc(0, 2, MemoryType::Conventional),
        desc(0x2000, 1, MemoryType::Other(3)),
        desc(0x5000, 3, MemoryType::Conventional),
    ];
    let mut alloc = UefiFrameAllocator::new(descs);
    alloc.allocate_frame();
    alloc.allocate_frame();
    assert_eq!(alloc.next_frame(), 2);
    let mut builder = MemoryMapBuilder::new();
    assert_eq!(alloc.construct_memory_map(&mut builder), Ok(()));
    assert_eq!(
        regions(builder),
        vec![
            MemoryRegion { start: 0, end: 0x2000, kind: MemoryRegionKind::Bootloader },
            MemoryRegion { start: 0x5000, end: 0x8000, kind: MemoryRegionKind::Usable },
        ]
    );
}

#[test]
fn full_builder_is_left_unchanged() {
    let mut builder = MemoryMapBuilder::new();
    let r = MemoryRegion { start: 0, end: 0x1000, kind: MemoryRegionKind::Reserved };
    for _ in 0..MEMORY_MAP_CAPACITY {
        assert_eq!(builder.add_region(r), Ok(()));
    }
    assert_eq!(builder.add_region(r), Err(MemoryMapFull));
    let alloc = UefiFrameAllocator::new(sample());
    let mut small = MemoryMapBuilder::new();
    for _ in 0..MEMORY_MAP_CAPACITY - 2 {
        small.add_region(r).unwrap();
    }
    assert_eq!(alloc.construct_memory_map(&mut small), Err(MemoryMapFull));
    assert_eq!(small.len(), MEMORY_MAP_CAPACITY - 2);
}

#[test]
fn reserved_pair_hands_out_two_then_none() {
    let mut alloc = UefiFrameAllocator::new(sample());
    let earlier: Vec<PhysFrame> = (0..5).map(|_| alloc.allocate_frame().unwrap()).collect();
    let mut pair = TwoFrames::new(&mut alloc).unwrap();
    let a = pair.allocate_frame().unwrap();
    let b = pair.allocate_frame().unwrap();
    assert_ne!(a, b);
    assert!(!earlier.contains(&a) && !earlier.contains(&b));
    assert_eq!((a.number, b.number), (5, 6));
    assert_eq!(pair.allocate_frame(), None);
    assert_eq!(alloc.allocate_frame(), Some(PhysFrame { number: 7 }));
}

#[test]
fn reserved_pair_needs_two_frames() {
    let mut alloc = UefiFrameAllocator::new(vec![desc(0, 1, MemoryType::Conventional)]);
    assert!(TwoFrames::new(&mut alloc).is_none());
}

#[test]
fn regions_cover_free_and_reserved_ranges_without_overlap() {
    let descs = vec![
        desc(0x1000, 3, MemoryType::Conventional),
        desc(0x4000, 1, MemoryType::Other(9)),
        desc(0x5000, 2, MemoryType::Reserved),
        desc(0x7000, 4, MemoryType::Conventional),
    ];
    let mut alloc = UefiFrameAllocator::new(descs);
    for _ in 0..5 {
        alloc.allocate_frame().unwrap();
    }
    assert_eq!(alloc.next_frame(), 9);
    let mut builder = MemoryMapBuilder::new();
    alloc.construct_memory_map(&mut builder).unwrap();
    let rs = regions(builder);
    assert_eq!(
        rs,
        vec![
            MemoryRegion { start: 0x1000, end: 0x4000, kind: MemoryRegionKind::Bootloader },
            MemoryRegion { start: 0x5000, end: 0x7000, kind: MemoryRegionKind::Reserved },
            MemoryRegion { start: 0x7000, end: 0x9000, kind: MemoryRegionKind::Bootloader },
            MemoryRegion { start: 0x9000, end: 0xB000, kind: MemoryRegionKind::Usable },
        ]
    );
    for w in rs.windows(2) {
        assert!(w[0].start < w[0].end && w[0].end <= w[1].start);
    }
    let covered = |a: u64| rs.iter().any(|r| r.start <= a && a < r.end);
    assert!(!covered(0x4000) && covered(0x3FFF) && covered(0x5000) && !covered(0xB000));
}

#[test]
fn frame_addresses() {
    assert_eq!(PhysFrame::containing_address(0x1FFF), PhysFrame { number: 1 });
    assert_eq!(PhysFrame { number: 3 }.start_address(), 0x3000);
}

#[test]
fn descriptors_without_pages_add_no_region() {
    let descs = vec![
        desc(0x1000, 0, MemoryType::Conventional),
        desc(0x2000, 0, MemoryType::Reserved),
        desc(0x3000, 2, MemoryType::Conventional),
    ];
    let mut alloc = UefiFrameAllocator::new(descs);
    assert_eq!(alloc.allocate_frame(), Some(PhysFrame { number: 3 }));
    let mut builder = MemoryMapBuilder::new();
    alloc.construct_memory_map(&mut builder).unwrap();
    let rs = regions(builder);
    assert_eq!(
        rs,
        vec![
            MemoryRegion { start: 0x3000, end: 0x4000, kind: MemoryRegionKind::Bootloader },
            MemoryRegion { start: 0x4000, end: 0x5000, kind: MemoryRegionKind::Usable },
        ]
    );
    assert!(rs.iter().all(|r| r.start < r.end));
}

#[test]
fn memory_map_fits_one_frame() {
    assert!(std::mem::size_of::<bootloader::memory_map::MemoryMap>() <= 4096);
    assert!(std::mem::size_of::<bootloader::boot::BootInfo>() <= 4096);
}
