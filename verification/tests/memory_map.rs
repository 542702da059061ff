use roxy_kernel::memory_map::MemoryMap;
use roxy_kernel::memory_map::MemoryPurpose;
use roxy_kernel::memory_map::MemoryRegion;
use roxy_kernel::memory_map::MemoryRegionKind;
use roxy_kernel::memory_map::ReservedMemoryKind;

#[test]
pub fn try_merge_non_overlapping_or_adjacent() {
    let left = MemoryRegion::new(0x0000, 0x1000, MemoryRegionKind::Usable);
    let right = MemoryRegion::new(0x2000, 0x3000, MemoryRegionKind::Usable);
    assert_eq!(
        (left.clone(), Some(right.clone()), None),
        left.try_merge(right),
    );
}

#[test]
pub fn try_merge_adjacent_same_kind() {
    let left = MemoryRegion::new(0x0000, 0x1000, MemoryRegionKind::Usable);
    let right = MemoryRegion::new(0x1000, 0x2000, MemoryRegionKind::Usable);
    assert_eq!(
        (
            MemoryRegion::new(left.start, right.end, left.kind),
            None,
            None
        ),
        left.try_merge(right),
    );
}

#[test]
pub fn try_merge_adjacent_different_kind() {
    let left = MemoryRegion::new(0x0000, 0x1000, MemoryRegionKind::Usable);
    let right = MemoryRegion::new(
        0x1000,
        0x2000,
        MemoryRegionKind::InUse(MemoryPurpose::KernelHeap),
    );
    assert_eq!(
        (left.clone(), Some(right.clone()), None),
        left.try_merge(right),
    );
}

#[test]
pub fn try_merge_split_overlap_at_start() {
    let left = MemoryRegion::new(0x0000, 0x2000, MemoryRegionKind::Usable);
    let right = MemoryRegion::new(
        0x0000,
        0x1000,
        MemoryRegionKind::InUse(MemoryPurpose::KernelHeap),
    );
    assert_eq!(
        (
            right.clone(),
            Some(MemoryRegion::new(right.end, left.end, left.kind)),
            None
        ),
        left.try_merge(right),
    );
}

#[test]
pub fn try_merge_split_overlap_at_end() {
    let left = MemoryRegion::new(0x0000, 0x2000, MemoryRegionKind::Usable);
    let right = MemoryRegion::new(
        0x1000,
        0x2000,
        MemoryRegionKind::InUse(MemoryPurpose::KernelHeap),
    );
    assert_eq!(
        (
            MemoryRegion::new(left.start, right.start, left.kind),
            Some(right.clone()),
            None
        ),
        left.try_merge(right),
    );
}

#[test]
pub fn try_merge_split_overlap_in_middle() {
    let left = MemoryRegion::new(0x0000, 0x4000, MemoryRegionKind::Usable);
    let right = MemoryRegion::new(
        0x1000,
        0x2000,
        MemoryRegionKind::InUse(MemoryPurpose::KernelHeap),
    );
    assert_eq!(
        (
            MemoryRegion::new(left.start, right.start, left.kind),
            Some(MemoryRegion::new(right.start, right.end, right.kind)),
            Some(MemoryRegion::new(right.end, left.end, left.kind)),
        ),
        left.try_merge(right),
    );
}

#[test]
pub fn try_merge_absorb_overlap() {
    let left = MemoryRegion::new(0x0000, 0x4000, MemoryRegionKind::Usable);
    let right = MemoryRegion::new(0x1000, 0x2000, MemoryRegionKind::Usable);
    assert_eq!((left.clone(), None, None,), left.try_merge(right),);
}

#[test]
fn try_append_extends_adjacent_same_kind() {
    let mut current = MemoryRegion::new(0x0000, 0x1000, MemoryRegionKind::Usable);
    let next = MemoryRegion::new(0x1000, 0x3000, MemoryRegionKind::Usable);
    assert!(current.try_append(&next));
    assert_eq!(
        current,
        MemoryRegion::new(0x0000, 0x3000, MemoryRegionKind::Usable)
    );
}

#[test]
fn try_append_rejects_different_kind_or_gap() {
    let mut current = MemoryRegion::new(0x0000, 0x1000, MemoryRegionKind::Usable);
    let other_kind = MemoryRegion::new(
        0x1000,
        0x2000,
        MemoryRegionKind::Reserved(ReservedMemoryKind::Unknown),
    );
    assert!(!current.try_append(&other_kind));
    let with_gap = MemoryRegion::new(0x2000, 0x3000, MemoryRegionKind::Usable);
    assert!(!current.try_append(&with_gap));
    assert_eq!(
        current,
        MemoryRegion::new(0x0000, 0x1000, MemoryRegionKind::Usable)
    );
}

#[test]
fn region_size_is_byte_width() {
    let region = MemoryRegion::new(0x1000, 0x4000, MemoryRegionKind::Usable);
    assert_eq!(0x3000, region.size());
}

#[test]
fn builder_coalesces_adjacent_same_kind() {
    let mut builder = MemoryMap::builder();
    builder.add_region(MemoryRegion::new(0x0000, 0x1000, MemoryRegionKind::Usable));
    builder.add_region(MemoryRegion::new(0x1000, 0x2000, MemoryRegionKind::Usable));
    builder.add_region(MemoryRegion::new(
        0x2000,
        0x3000,
        MemoryRegionKind::Reserved(ReservedMemoryKind::Unknown),
    ));
    let map = builder.build();
    assert_eq!(
        &vec![
            MemoryRegion::new(0x0000, 0x2000, MemoryRegionKind::Usable),
            MemoryRegion::new(
                0x2000,
                0x3000,
                MemoryRegionKind::Reserved(ReservedMemoryKind::Unknown)
            ),
        ],
        map.regions()
    );
}

#[test]
fn builder_keeps_separated_regions_apart() {
    let mut builder = MemoryMap::builder();
    builder.add_region(MemoryRegion::new(0x0000, 0x1000, MemoryRegionKind::Usable));
    builder.add_region(MemoryRegion::new(0x2000, 0x3000, MemoryRegionKind::Usable));
    let map = builder.build();
    assert_eq!(2, map.regions().len());
    assert_eq!(0x2000, map.total_memory());
}

#[test]
fn built_map_totals_satisfy_aggregate_identity() {
    let mut builder = MemoryMap::builder();
    builder.add_region(MemoryRegion::new(0x0000, 0x4000, MemoryRegionKind::Usable));
    builder.add_region(MemoryRegion::new(
        0x4000,
        0x6000,
        MemoryRegionKind::Reserved(ReservedMemoryKind::ReservedByBootloader),
    ));
    builder.add_region(MemoryRegion::new(
        0x6000,
        0x7000,
        MemoryRegionKind::InUse(MemoryPurpose::KernelHeap),
    ));
    let map = builder.build();
    assert_eq!(0x7000, map.total_memory());
    assert_eq!(0x5000, map.usable_memory());
    assert_eq!(0x2000, map.reserved_memory());
    assert_eq!(
        map.total_memory(),
        map.usable_memory() + map.reserved_memory()
    );
}

#[test]
fn empty_builder_builds_empty_map() {
    let map = MemoryMap::builder().build();
    assert_eq!(0, map.regions().len());
    assert_eq!(0, map.total_memory());
    assert_eq!(0, map.usable_memory());
    assert_eq!(0, map.reserved_memory());
}
