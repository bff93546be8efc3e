use kernel_core::memory::mapper::{to_kernel_address, to_physical_address};
use kernel_core::memory::physical_buddy_allocator::{
    PhysicalBuddyAllocator, ALLOCATION_SIZE, L0_SIZE, L7_SIZE, LAYER_COUNT,
};
use kernel_core::memory::{PhysicalAddress, VirtualAddress};
use kernel_core::{allocator_placement, Region, RegionKind, Regions};

fn regions(list: &[(RegionKind, u64, u64)]) -> Regions {
    Regions { data: list.iter().map(|&(kind, start, end)| Region::new(kind, start, end)).collect() }
}

fn sorted(mut v: Vec<u64>) -> Vec<u64> {
    v.sort();
    v
}

fn setup(list: &[(RegionKind, u64, u64)], kernel_end: u64) -> (PhysicalBuddyAllocator, u64) {
    let regions = regions(list);
    let base = allocator_placement(&regions, kernel_end).expect("no room for the allocator");
    let mut allocator = PhysicalBuddyAllocator::new();
    let max = allocator.initialize(base, &regions, PhysicalAddress::new(kernel_end));
    (allocator, max.value())
}

#[test]
fn smallest_allocation_comes_from_the_region_and_returns() {
    let (mut allocator, max) = setup(&[(RegionKind::Available, 0x0100_0000, 0x0200_0000)], 0x0110_0000);
    assert_eq!(max, 0x0200_0000);
    let before = sorted(allocator.free_slabs(0));
    let address = allocator.allocate(64);
    let physical = to_physical_address(address.value());
    assert_eq!(address.value(), to_kernel_address(physical));
    assert_eq!(physical % 0x1000, 0);
    assert!(physical >= 0x0110_0000 && physical + 0x1000 <= 0x0200_0000);
    assert!(!allocator.is_available(7, physical));
    assert!(allocator.owns(address));
    assert_eq!(allocator.deallocate(address), 7);
    assert_eq!(sorted(allocator.free_slabs(0)), before);
    for depth in 1..LAYER_COUNT {
        assert!(allocator.free_slabs(depth).is_empty());
        assert!(allocator.is_available(depth, physical));
    }
}

#[test]
fn initial_free_list_starts_above_the_kernel() {
    let (allocator, _) = setup(&[(RegionKind::Available, 0x0100_0000, 0x0200_0000)], 0x0110_0000);
    let free = allocator.free_slabs(0);
    let expected: Vec<u64> = (34..64).map(|i| i * L0_SIZE).collect();
    assert_eq!(free, expected);
    assert!(ALLOCATION_SIZE < L0_SIZE);
    assert!(!allocator.is_available(0, 0x0100_0000));
}

#[test]
fn split_chain_places_one_buddy_per_layer_and_merges_back() {
    let (mut allocator, _) = setup(&[(RegionKind::Available, 0x0100_0000, 0x0200_0000)], 0x0110_0000);
    let l0_before = sorted(allocator.free_slabs(0));
    let address = allocator.allocate(1);
    let slab = to_physical_address(address.value());
    assert_eq!(slab, 34 * L0_SIZE);
    let mut new_entries = 0;
    for depth in 1..LAYER_COUNT {
        let list = allocator.free_slabs(depth);
        assert_eq!(list, vec![slab + (L0_SIZE >> depth)]);
        new_entries += list.len();
    }
    assert_eq!(new_entries, 7);
    assert_eq!(allocator.free_slabs(0).len(), l0_before.len() - 1);
    allocator.deallocate(address);
    for depth in 1..LAYER_COUNT {
        assert!(allocator.free_slabs(depth).is_empty());
    }
    assert_eq!(sorted(allocator.free_slabs(0)), l0_before);
}

#[test]
fn single_slab_free_list_is_restored_exactly() {
    let (mut allocator, _) = setup(
        &[
            (RegionKind::Available, 0x0100_0000, 0x0200_0000),
            (RegionKind::Reserved, 0x0110_0000 + L0_SIZE, 0x0200_0000),
        ],
        0x0110_0000,
    );
    let before = allocator.free_slabs(0);
    assert_eq!(before, vec![0x0110_0000]);
    let address = allocator.allocate(1);
    allocator.deallocate(address);
    assert_eq!(allocator.free_slabs(0), before);
}

#[test]
fn reserved_region_across_two_slabs_forbids_both() {
    let reserved_start = 48 * L0_SIZE - 0x2000;
    let reserved_end = reserved_start + 10 * 1024;
    let (mut allocator, _) = setup(
        &[
            (RegionKind::Available, 0x0100_0000, 0x0200_0000),
            (RegionKind::Reserved, reserved_start, reserved_end),
        ],
        0x0110_0000,
    );
    assert!(!allocator.is_available(0, 47 * L0_SIZE));
    assert!(!allocator.is_available(0, 48 * L0_SIZE));
    assert!(allocator.is_available(0, 49 * L0_SIZE));
    let mut count = 0;
    while allocator.can_allocate(L0_SIZE as usize) {
        let address = allocator.allocate(L0_SIZE as usize);
        let physical = to_physical_address(address.value());
        assert!(physical + L0_SIZE <= 47 * L0_SIZE || physical >= 49 * L0_SIZE);
        count += 1;
    }
    assert_eq!(count, 30 - 2);
}

#[test]
fn allocations_are_disjoint_and_aligned() {
    let (mut allocator, _) = setup(&[(RegionKind::Available, 0x0100_0000, 0x0200_0000)], 0x0110_0000);
    let sizes = [1usize, 4096, 5000, 0x8000, 0x1_0000, 0x4_0000, 64, 0x2001];
    let mut live: Vec<(u64, u64)> = Vec::new();
    for &size in sizes.iter() {
        let address = allocator.allocate(size);
        let physical = to_physical_address(address.value());
        let slab = (size as u64).next_power_of_two().max(L7_SIZE);
        assert_eq!(physical % slab, 0);
        for &(start, length) in live.iter() {
            assert!(physical + slab <= start || start + length <= physical);
        }
        live.push((physical, slab));
    }
    for &(start, _) in live.iter() {
        allocator.deallocate(VirtualAddress::new(to_kernel_address(start)));
    }
    for depth in 1..LAYER_COUNT {
        assert!(allocator.free_slabs(depth).is_empty());
    }
    assert_eq!(allocator.free_slabs(0).len(), 30);
}

#[test]
fn request_larger_than_top_slab_fails() {
    let (mut allocator, _) = setup(&[(RegionKind::Available, 0x0100_0000, 0x0200_0000)], 0x0110_0000);
    assert!(!allocator.can_allocate(L0_SIZE as usize + 1));
    assert!(allocator.can_allocate(L0_SIZE as usize));
}

#[test]
fn exhausted_memory_gives_none() {
    let (mut allocator, _) = setup(&[(RegionKind::Available, 0x0100_0000, 0x0120_0000)], 0x0110_0000);
    assert_eq!(allocator.free_slabs(0).len(), 2);
    allocator.allocate(L0_SIZE as usize);
    assert!(allocator.can_allocate(1));
    allocator.allocate(L0_SIZE as usize);
    assert!(!allocator.can_allocate(1));
}

#[test]
fn freeing_twice_or_foreign_addresses_is_refused() {
    let (mut allocator, _) = setup(&[(RegionKind::Available, 0x0100_0000, 0x0200_0000)], 0x0110_0000);
    let address = allocator.allocate(4096);
    assert!(allocator.owns(address));
    assert_eq!(allocator.deallocate(address), 7);
    assert!(!allocator.owns(address));
    assert!(!allocator.owns(VirtualAddress::new(0x1000)));
    assert!(!allocator.owns(VirtualAddress::new(to_kernel_address(0x0150_0010))));
    assert!(!allocator.owns(VirtualAddress::new(to_kernel_address(0x1_0000_0000))));
    assert!(!allocator.owns(VirtualAddress::new(to_kernel_address(0x0100_0000))));
}

#[test]
fn layer_selection_by_size() {
    assert_eq!(PhysicalBuddyAllocator::get_layer_index_by_size(0), Some(7));
    assert_eq!(PhysicalBuddyAllocator::get_layer_index_by_size(4096), Some(7));
    assert_eq!(PhysicalBuddyAllocator::get_layer_index_by_size(4097), Some(6));
    assert_eq!(PhysicalBuddyAllocator::get_layer_index_by_size(0x40000), Some(1));
    assert_eq!(PhysicalBuddyAllocator::get_layer_index_by_size(0x40001), Some(0));
    assert_eq!(PhysicalBuddyAllocator::get_layer_index_by_size(0x80000), Some(0));
    assert_eq!(PhysicalBuddyAllocator::get_layer_index_by_size(0x80001), None);
}

#[test]
fn placement_and_memory_end() {
    let list = regions(&[
        (RegionKind::Reserved, 0, 0x10_0000),
        (RegionKind::Available, 0x10_0000, 0x12_0000),
        (RegionKind::Available, 0x0100_0000, 0x0200_0000),
        (RegionKind::Unknown, 0x0200_0000, 0x0300_0000),
    ]);
    assert_eq!(allocator_placement(&list, 0x0110_0000), Some(PhysicalAddress::new(0x0100_0000)));
    assert_eq!(allocator_placement(&list, 0x0300_0000), None);
    assert_eq!(list.find_end(Some(RegionKind::Available)), 0x0200_0000);
    assert_eq!(list.find_end(None), 0x0300_0000);
    assert_eq!(regions(&[]).find_end(None), 0);
}

#[test]
fn split_slabs_are_inferred_and_not_freed() {
    let (mut allocator, _) = setup(&[(RegionKind::Available, 0x0100_0000, 0x0200_0000)], 0x0110_0000);
    let first = allocator.allocate(4096);
    let second = allocator.allocate(4096);
    let slab = to_physical_address(first.value());
    assert_eq!(to_physical_address(second.value()), slab + 4096);
    assert!(allocator.is_split(0, slab));
    assert!(allocator.is_split(6, slab));
    assert!(!allocator.is_split(7, slab));
    assert_eq!(allocator.deallocate(first), 7);
    assert!(!allocator.owns(first));
    assert_eq!(allocator.deallocate(second), 7);
    assert!(!allocator.is_split(0, slab));
    for depth in 1..LAYER_COUNT {
        assert!(allocator.free_slabs(depth).is_empty());
    }
}

#[test]
fn slab_zero_never_joins_a_free_list() {
    let (mut allocator, _) = setup(&[(RegionKind::Available, 0x0010_0000, 0x0100_0000)], 0);
    assert!(!allocator.free_slabs(0).contains(&0));
    assert_eq!(allocator.free_slabs(0)[0], L0_SIZE);
    while allocator.can_allocate(4096) {
        let address = allocator.allocate(4096);
        assert_ne!(to_physical_address(address.value()), 0);
    }
}
