use roxy_kernel::frame_allocator::BootInfoFrameAllocator;
use roxy_kernel::frame_allocator::RawRegion;
use roxy_kernel::frame_allocator::RawRegionKind;
use roxy_kernel::frame_allocator::build_memory_map;
use roxy_kernel::memory_map::MemoryPurpose;
use roxy_kernel::memory_map::MemoryRegion;
use roxy_kernel::memory_map::MemoryRegionKind;
use roxy_kernel::memory_map::ReservedMemoryKind;

fn raw(start: u64, end: u64, kind: RawRegionKind) -> RawRegion {
    RawRegion { start, end, kind }
}

#[test]
pub fn builds_accurate_memory_map() {
    let regions = vec![
        raw(0x0000_0000, 0x0040_0000, RawRegionKind::Usable),
        raw(0x0040_0000, 0x1000_0000, RawRegionKind::Usable),
        raw(0x1000_0000, 0x2000_0000, RawRegionKind::Bootloader),
        raw(0x2000_0000, 0x2000_1000, RawRegionKind::Usable),
        raw(0x2000_1000, 0x4000_0000, RawRegionKind::Usable),
        raw(0x4000_0000, 0x5000_0000, RawRegionKind::Usable),
    ];

    // Splatter some used frames in there
    let used_frames: Vec<u64> = vec![
        0x0000_2000,
        0x0FFF_F000, // On the trailing edge of the first region
        // Three contiguous frames
        0x2000_0000,
        0x2000_1000,
        0x2000_2000,
        0x3000_3000,
    ];

    let map = build_memory_map(&regions, &used_frames);

    assert_eq!(
        &vec![
            MemoryRegion {
                start: 0x0000_0000,
                end: 0x0000_2000,
                kind: MemoryRegionKind::Usable,
            },
            MemoryRegion {
                start: 0x0000_2000,
                end: 0x0000_3000,
                kind: MemoryRegionKind::InUse(MemoryPurpose::KernelHeap),
            },
            MemoryRegion {
                start: 0x0000_3000,
                end: 0x0FFF_F000,
                kind: MemoryRegionKind::Usable,
            },
            MemoryRegion {
                start: 0x0FFF_F000,
                end: 0x1000_0000,
                kind: MemoryRegionKind::InUse(MemoryPurpose::KernelHeap),
            },
            MemoryRegion {
                start: 0x1000_0000,
                end: 0x2000_0000,
                kind: MemoryRegionKind::Reserved(ReservedMemoryKind::ReservedByBootloader),
            },
            MemoryRegion {
                start: 0x2000_0000,
                end: 0x2000_3000,
                kind: MemoryRegionKind::InUse(MemoryPurpose::KernelHeap),
            },
            MemoryRegion {
                start: 0x2000_3000,
                end: 0x3000_3000,
                kind: MemoryRegionKind::Usable,
            },
            MemoryRegion {
                start: 0x3000_3000,
                end: 0x3000_4000,
                kind: MemoryRegionKind::InUse(MemoryPurpose::KernelHeap),
            },
            MemoryRegion {
                start: 0x3000_4000,
                end: 0x5000_0000,
                kind: MemoryRegionKind::Usable,
            },
        ],
        map.regions()
    )
}

#[test]
fn accurate_map_totals_satisfy_aggregate_identity() {
    let regions = vec![
        raw(0x0000_0000, 0x1000_0000, RawRegionKind::Usable),
        raw(0x1000_0000, 0x2000_0000, RawRegionKind::Bootloader),
        raw(0x2000_0000, 0x5000_0000, RawRegionKind::Usable),
    ];
    let used_frames: Vec<u64> = vec![0x2000, 0x2000_0000];
    let map = build_memory_map(&regions, &used_frames);
    assert_eq!(0x5000_0000, map.total_memory());
    assert_eq!(0x4000_0000, map.usable_memory());
    assert_eq!(0x1000_0000, map.reserved_memory());
    assert_eq!(
        map.total_memory(),
        map.usable_memory() + map.reserved_memory()
    );
}

#[test]
fn empty_used_frames_reproduce_catalog() {
    let regions = vec![
        raw(0x0000_0000, 0x1000_0000, RawRegionKind::Usable),
        raw(0x1000_0000, 0x2000_0000, RawRegionKind::Bootloader),
        raw(0x2000_0000, 0x2000_1000, RawRegionKind::UnknownBios(7)),
        raw(0x2000_1000, 0x4000_0000, RawRegionKind::Usable),
    ];
    let used_frames: Vec<u64> = Vec::new();
    let map = build_memory_map(&regions, &used_frames);
    assert_eq!(
        &vec![
            MemoryRegion::new(0x0000_0000, 0x1000_0000, MemoryRegionKind::Usable),
            MemoryRegion::new(
                0x1000_0000,
                0x2000_0000,
                MemoryRegionKind::Reserved(ReservedMemoryKind::ReservedByBootloader)
            ),
            MemoryRegion::new(
                0x2000_0000,
                0x2000_1000,
                MemoryRegionKind::Reserved(ReservedMemoryKind::ReservedByBios(7))
            ),
            MemoryRegion::new(0x2000_1000, 0x4000_0000, MemoryRegionKind::Usable),
        ],
        map.regions()
    );
}

#[test]
fn empty_used_frames_coalesce_adjacent_same_kind_catalog() {
    // the scenario catalog: neighbouring usable regions merge
    let regions = vec![
        raw(0x0000_0000, 0x0040_0000, RawRegionKind::Usable),
        raw(0x0040_0000, 0x1000_0000, RawRegionKind::Usable),
        raw(0x1000_0000, 0x2000_0000, RawRegionKind::Bootloader),
        raw(0x2000_0000, 0x2000_1000, RawRegionKind::Usable),
        raw(0x2000_1000, 0x4000_0000, RawRegionKind::Usable),
        raw(0x4000_0000, 0x5000_0000, RawRegionKind::Usable),
    ];
    let used_frames: Vec<u64> = Vec::new();
    let map = build_memory_map(&regions, &used_frames);
    assert_eq!(
        &vec![
            MemoryRegion::new(0x0000_0000, 0x1000_0000, MemoryRegionKind::Usable),
            MemoryRegion::new(
                0x1000_0000,
                0x2000_0000,
                MemoryRegionKind::Reserved(ReservedMemoryKind::ReservedByBootloader)
            ),
            MemoryRegion::new(0x2000_0000, 0x5000_0000, MemoryRegionKind::Usable),
        ],
        map.regions()
    );
}

#[test]
fn frame_exactly_filling_region_becomes_in_use() {
    let regions = vec![
        raw(0x0000, 0x1000, RawRegionKind::Usable),
        raw(0x1000, 0x3000, RawRegionKind::Bootloader),
    ];
    let used_frames: Vec<u64> = vec![0x0000];
    let map = build_memory_map(&regions, &used_frames);
    assert_eq!(
        &vec![
            MemoryRegion::new(
                0x0000,
                0x1000,
                MemoryRegionKind::InUse(MemoryPurpose::KernelHeap)
            ),
            MemoryRegion::new(
                0x1000,
                0x3000,
                MemoryRegionKind::Reserved(ReservedMemoryKind::ReservedByBootloader)
            ),
        ],
        map.regions()
    );
}

#[test]
fn frame_on_trailing_edge_splits_without_remainder() {
    let regions = vec![raw(0x0000, 0x2000, RawRegionKind::Usable)];
    let used_frames: Vec<u64> = vec![0x1000];
    let map = build_memory_map(&regions, &used_frames);
    assert_eq!(
        &vec![
            MemoryRegion::new(0x0000, 0x1000, MemoryRegionKind::Usable),
            MemoryRegion::new(
                0x1000,
                0x2000,
                MemoryRegionKind::InUse(MemoryPurpose::KernelHeap)
            ),
        ],
        map.regions()
    );
}

#[test]
fn conversion_maps_every_raw_kind() {
    assert_eq!(
        MemoryRegionKind::Usable,
        MemoryRegionKind::from(RawRegionKind::Usable)
    );
    assert_eq!(
        MemoryRegionKind::Reserved(ReservedMemoryKind::ReservedByBootloader),
        MemoryRegionKind::from(RawRegionKind::Bootloader)
    );
    assert_eq!(
        MemoryRegionKind::Reserved(ReservedMemoryKind::ReservedByBios(3)),
        MemoryRegionKind::from(RawRegionKind::UnknownBios(3))
    );
    assert_eq!(
        MemoryRegionKind::Reserved(ReservedMemoryKind::ReservedByUefi(9)),
        MemoryRegionKind::from(RawRegionKind::UnknownUefi(9))
    );
    assert_eq!(
        MemoryRegionKind::Reserved(ReservedMemoryKind::Unknown),
        MemoryRegionKind::from(RawRegionKind::Unknown)
    );
}

#[test]
fn usable_frames_skip_reserved_regions() {
    let allocator = BootInfoFrameAllocator::init(vec![
        raw(0x0000, 0x2000, RawRegionKind::Usable),
        raw(0x2000, 0x3000, RawRegionKind::Bootloader),
        raw(0x3000, 0x5000, RawRegionKind::Usable),
    ]);
    assert_eq!(
        vec![0x0000, 0x1000, 0x3000, 0x4000],
        allocator.usable_frames()
    );
}

#[test]
fn allocate_issues_ascending_frames_across_fragments() {
    let mut allocator = BootInfoFrameAllocator::init(vec![
        raw(0x0000, 0x2000, RawRegionKind::Usable),
        raw(0x2000, 0x3000, RawRegionKind::Bootloader),
        raw(0x3000, 0x5000, RawRegionKind::Usable),
    ]);
    assert_eq!(Some(0x0000), allocator.allocate_frame());
    assert_eq!(Some(0x1000), allocator.allocate_frame());
    assert_eq!(Some(0x3000), allocator.allocate_frame());
    assert_eq!(Some(0x4000), allocator.allocate_frame());
    assert_eq!(4, allocator.frames_issued());
}

#[test]
fn allocate_failure_is_permanent() {
    let mut allocator = BootInfoFrameAllocator::init(vec![
        raw(0x0000, 0x1000, RawRegionKind::Usable),
        raw(0x1000, 0x2000, RawRegionKind::Bootloader),
    ]);
    assert_eq!(Some(0x0000), allocator.allocate_frame());
    assert_eq!(None, allocator.allocate_frame());
    assert_eq!(None, allocator.allocate_frame());
    assert_eq!(None, allocator.allocate_frame());
}

#[test]
fn allocator_with_no_usable_memory_fails_immediately() {
    let mut allocator = BootInfoFrameAllocator::init(vec![
        raw(0x0000, 0x1000, RawRegionKind::Bootloader),
        raw(0x1000, 0x2000, RawRegionKind::Unknown),
    ]);
    assert_eq!(None, allocator.allocate_frame());
    let map = allocator.into_memory_map();
    assert_eq!(
        &vec![
            MemoryRegion::new(
                0x0000,
                0x1000,
                MemoryRegionKind::Reserved(ReservedMemoryKind::ReservedByBootloader)
            ),
            MemoryRegion::new(
                0x1000,
                0x2000,
                MemoryRegionKind::Reserved(ReservedMemoryKind::Unknown)
            ),
        ],
        map.regions()
    );
}

#[test]
fn retire_marks_exactly_the_issued_frames() {
    let mut allocator = BootInfoFrameAllocator::init(vec![
        raw(0x0000, 0x2000, RawRegionKind::Usable),
        raw(0x2000, 0x3000, RawRegionKind::Bootloader),
        raw(0x3000, 0x5000, RawRegionKind::Usable),
    ]);
    assert_eq!(Some(0x0000), allocator.allocate_frame());
    assert_eq!(Some(0x1000), allocator.allocate_frame());
    assert_eq!(Some(0x3000), allocator.allocate_frame());
    let map = allocator.into_memory_map();
    assert_eq!(
        &vec![
            MemoryRegion::new(
                0x0000,
                0x2000,
                MemoryRegionKind::InUse(MemoryPurpose::KernelHeap)
            ),
            MemoryRegion::new(
                0x2000,
                0x3000,
                MemoryRegionKind::Reserved(ReservedMemoryKind::ReservedByBootloader)
            ),
            MemoryRegion::new(
                0x3000,
                0x4000,
                MemoryRegionKind::InUse(MemoryPurpose::KernelHeap)
            ),
            MemoryRegion::new(0x4000, 0x5000, MemoryRegionKind::Usable),
        ],
        map.regions()
    );
}

#[test]
fn retire_after_exhaustion_marks_every_usable_frame() {
    let mut allocator = BootInfoFrameAllocator::init(vec![
        raw(0x0000, 0x1000, RawRegionKind::Usable),
        raw(0x1000, 0x2000, RawRegionKind::Bootloader),
    ]);
    assert_eq!(Some(0x0000), allocator.allocate_frame());
    assert_eq!(None, allocator.allocate_frame());
    assert_eq!(None, allocator.allocate_frame());
    let map = allocator.into_memory_map();
    assert_eq!(
        &vec![
            MemoryRegion::new(
                0x0000,
                0x1000,
                MemoryRegionKind::InUse(MemoryPurpose::KernelHeap)
            ),
            MemoryRegion::new(
                0x1000,
                0x2000,
                MemoryRegionKind::Reserved(ReservedMemoryKind::ReservedByBootloader)
            ),
        ],
        map.regions()
    );
}

#[test]
fn empty_catalog_builds_empty_map() {
    let allocator = BootInfoFrameAllocator::init(Vec::new());
    let map = allocator.into_memory_map();
    assert_eq!(0, map.regions().len());
    assert_eq!(0, map.total_memory());
}
