use kernel_core::memory::mapper::{
    kernel_paging_entries, map_kernel_page_unaligned, to_kernel_address, KERNEL_ENTRY_FLAGS,
};
use kernel_core::memory::paging_table::{
    MapError, PagingFlags, PagingTable, ENTRY_CACHED, ENTRY_PAGE_SIZE_EXTENSION, ENTRY_PRESENT, ENTRY_USER,
    ENTRY_WRITABLE, FLAG_NO_CACHE, FLAG_NO_FLUSH, FLAG_USER, PAGE_ENTRY_PHYSICAL_ADDRESS_MASK,
};
use kernel_core::memory::physical_buddy_allocator::PhysicalBuddyAllocator;
use kernel_core::memory::{PhysicalAddress, VirtualAddress};
use kernel_core::{Region, RegionKind, Regions};

fn allocator() -> PhysicalBuddyAllocator {
    let regions = Regions { data: vec![Region::new(RegionKind::Available, 0x0100_0000, 0x0200_0000)] };
    let mut allocator = PhysicalBuddyAllocator::new();
    allocator.initialize(PhysicalAddress::new(0x0100_0000), &regions, PhysicalAddress::new(0x0110_0000));
    allocator
}

fn walk(table: &PagingTable, v: u64) -> Option<u64> {
    let find = |address: u64| table.tables.iter().position(|t| t.address == address);
    let l4 = table.entries[((v >> 39) & 0x1ff) as usize];
    if l4 & ENTRY_PRESENT == 0 {
        return None;
    }
    let t3 = find(l4 & PAGE_ENTRY_PHYSICAL_ADDRESS_MASK)?;
    let l3 = table.tables[t3].entries[((v >> 30) & 0x1ff) as usize];
    if l3 & ENTRY_PRESENT == 0 {
        return None;
    }
    let t2 = find(l3 & PAGE_ENTRY_PHYSICAL_ADDRESS_MASK)?;
    Some(table.tables[t2].entries[((v >> 21) & 0x1ff) as usize])
}

#[test]
fn mapped_page_is_reached_by_a_walk() {
    let mut allocator = allocator();
    let mut table = PagingTable::new(vec![0u64; 512]);
    let v = 0xFFFF_8000_FEC0_0000;
    let p = 0xFEC0_0000;
    let flush = table
        .map_page(&mut allocator, VirtualAddress::new(v), PhysicalAddress::new(p), PagingFlags::from_bits(FLAG_NO_CACHE))
        .expect("mapping failed");
    assert!(flush);
    assert_eq!(table.tables.len(), 2);
    let leaf = walk(&table, v).expect("walk failed");
    assert_eq!(leaf & PAGE_ENTRY_PHYSICAL_ADDRESS_MASK, p);
    assert_ne!(leaf & ENTRY_PAGE_SIZE_EXTENSION, 0);
    assert_ne!(leaf & ENTRY_WRITABLE, 0);
    assert_ne!(leaf & ENTRY_PRESENT, 0);
    assert_eq!(leaf & ENTRY_CACHED, 0);
    assert_eq!(leaf & ENTRY_USER, 0);
}

#[test]
fn second_mapping_reuses_tables() {
    let mut allocator = allocator();
    let mut table = PagingTable::new(vec![0u64; 512]);
    let flags = PagingFlags::from_bits(FLAG_USER | FLAG_NO_FLUSH);
    let flush = table
        .map_page(&mut allocator, VirtualAddress::new(0x4000_0000), PhysicalAddress::new(0x20_0000), flags)
        .expect("mapping failed");
    assert!(!flush);
    table
        .map_page(&mut allocator, VirtualAddress::new(0x4020_0000), PhysicalAddress::new(0x40_0000), flags)
        .expect("mapping failed");
    assert_eq!(table.tables.len(), 2);
    let leaf = walk(&table, 0x4020_0000).expect("walk failed");
    assert_eq!(leaf & PAGE_ENTRY_PHYSICAL_ADDRESS_MASK, 0x40_0000);
    assert_ne!(leaf & ENTRY_USER, 0);
    assert_ne!(leaf & ENTRY_CACHED, 0);
    let first = walk(&table, 0x4000_0000).expect("walk failed");
    assert_eq!(first & PAGE_ENTRY_PHYSICAL_ADDRESS_MASK, 0x20_0000);
}

#[test]
fn device_page_keeps_its_offset() {
    let mut allocator = allocator();
    let mut table = PagingTable::new(vec![0u64; 512]);
    let v = map_kernel_page_unaligned(
        &mut table,
        &mut allocator,
        PhysicalAddress::new(0xFEE0_00F0),
        PagingFlags::from_bits(FLAG_NO_CACHE),
    )
    .expect("mapping failed");
    assert_eq!(v.value(), to_kernel_address(0xFEE0_00F0));
    let leaf = walk(&table, to_kernel_address(0xFEE0_0000)).expect("walk failed");
    assert_eq!(leaf & PAGE_ENTRY_PHYSICAL_ADDRESS_MASK, 0xFEE0_0000);
}

#[test]
fn entry_setters() {
    let mut e = 0u64;
    PagingTable::set_address(&mut e, 0x1234_5678_9000);
    assert_eq!(PagingTable::physical_address_from_entry(e), 0x1234_5678_9000);
    PagingTable::set_writable(&mut e);
    PagingTable::set_present(&mut e);
    assert!(PagingTable::is_present(e));
    PagingTable::set_cached(&mut e, true);
    PagingTable::set_user_accessability(&mut e, true);
    PagingTable::set_page_size_extension(&mut e, true);
    assert_eq!(e, 0x1234_5678_9000 | 0x97);
    PagingTable::set_cached(&mut e, false);
    PagingTable::set_user_accessability(&mut e, false);
    PagingTable::set_page_size_extension(&mut e, false);
    assert_eq!(e, 0x1234_5678_9003);
}

fn walk_block(entries: &[u64], base: u64, v: u64) -> Option<u64> {
    let at = |address: u64, index: u64| entries[((address - base) / 8 + index) as usize];
    let l4 = entries[((v >> 39) & 0x1ff) as usize];
    let l3 = at(l4 & PAGE_ENTRY_PHYSICAL_ADDRESS_MASK, (v >> 30) & 0x1ff);
    let l2 = at(l3 & PAGE_ENTRY_PHYSICAL_ADDRESS_MASK, (v >> 21) & 0x1ff);
    if l2 & ENTRY_PRESENT == 0 {
        return None;
    }
    Some((l2 & PAGE_ENTRY_PHYSICAL_ADDRESS_MASK) + (v & 0x1f_ffff))
}

#[test]
fn boot_map_covers_memory_twice() {
    let base = 0x0200_0000;
    let max = 0x1_2345_6789;
    let entries = kernel_paging_entries(PhysicalAddress::new(max), base);
    assert_eq!(entries.len(), 512 + 512 + 2560);
    assert_eq!(entries[0], (base + 4096) | KERNEL_ENTRY_FLAGS);
    assert_eq!(entries[0x100], entries[0]);
    assert_eq!(entries[512 + 1], (base + 3 * 4096) | KERNEL_ENTRY_FLAGS);
    assert_eq!(entries[512 + 512 + 3], (3 * 0x20_0000) | KERNEL_ENTRY_FLAGS);
    let limit = (max + 0x1f_ffff) / 0x20_0000 * 0x20_0000;
    for &p in [0u64, 0x1234, 0x20_0000, 0x4000_0000, limit - 1].iter() {
        assert_eq!(walk_block(&entries, base, p), Some(p));
        assert_eq!(walk_block(&entries, base, to_kernel_address(p)), Some(p));
    }
    assert_eq!(walk_block(&entries, base, limit), None);
}

#[test]
fn boot_map_at_the_largest_size() {
    let entries = kernel_paging_entries(PhysicalAddress::new(0x80_0000_0000), 0);
    assert_eq!(entries.len(), 512 + 512 + 262144);
    assert_eq!(entries[512 + 511], (4096 + 4096 + 511 * 4096) | KERNEL_ENTRY_FLAGS);
}

#[test]
fn broken_paths_and_exhaustion_are_reported_without_writes() {
    let mut allocator = allocator();
    let mut entries = vec![0u64; 512];
    entries[0] = 0x9000 | ENTRY_PRESENT;
    let mut table = PagingTable::new(entries.clone());
    let flags = PagingFlags::from_bits(0);
    assert_eq!(
        table.map_page(&mut allocator, VirtualAddress::new(0x20_0000), PhysicalAddress::new(0), flags),
        Err(MapError::TableMissing)
    );
    assert_eq!(table.entries, entries);

    let mut looped = PagingTable::new(vec![0u64; 512]);
    looped.entries[0] = 0x9000 | ENTRY_PRESENT;
    let mut own = vec![0u64; 512];
    own[0] = 0x9000 | ENTRY_PRESENT;
    looped.tables.push(kernel_core::memory::paging_table::ChildTable { address: 0x9000, entries: own });
    assert_eq!(
        looped.map_page(&mut allocator, VirtualAddress::new(0x20_0000), PhysicalAddress::new(0), flags),
        Err(MapError::TableClash)
    );

    let regions = Regions { data: vec![Region::new(RegionKind::Available, 0x0100_0000, 0x0108_0000)] };
    let mut empty = PhysicalBuddyAllocator::new();
    empty.initialize(PhysicalAddress::new(0x0100_0000), &regions, PhysicalAddress::new(0x0100_0000));
    assert!(empty.free_slabs(0).is_empty());
    let mut fresh = PagingTable::new(vec![0u64; 512]);
    assert_eq!(
        fresh.map_page(&mut empty, VirtualAddress::new(0x20_0000), PhysicalAddress::new(0), flags),
        Err(MapError::OutOfMemory)
    );
    assert!(fresh.tables.is_empty());
}

#[test]
fn mapping_touches_only_the_path() {
    let mut allocator = allocator();
    let mut entries = vec![0u64; 512];
    entries[7] = 0x1234;
    let mut table = PagingTable::new(entries);
    let v = 0x8000_0000u64;
    table
        .map_page(&mut allocator, VirtualAddress::new(v), PhysicalAddress::new(0x60_0000), PagingFlags::from_bits(0))
        .expect("mapping failed");
    assert_eq!(table.entries[7], 0x1234);
    for (j, e) in table.entries.iter().enumerate() {
        if j != 0 && j != 7 {
            assert_eq!(*e, 0);
        }
    }
    let l3 = ((v >> 30) & 0x1ff) as usize;
    let l2 = ((v >> 21) & 0x1ff) as usize;
    for (j, e) in table.tables[0].entries.iter().enumerate() {
        assert!(j == l3 || *e == 0);
    }
    for (j, e) in table.tables[1].entries.iter().enumerate() {
        assert!(j == l2 || *e == 0);
    }
    assert_eq!(table.entries[0] & !PAGE_ENTRY_PHYSICAL_ADDRESS_MASK, ENTRY_PRESENT | ENTRY_WRITABLE | ENTRY_USER);
    assert_ne!(table.tables[0].address, table.tables[1].address);
}

#[test]
fn mapping_preconditions_can_be_checked() {
    let mut allocator = allocator();
    assert!(allocator.free_slabs_disjoint());
    let mut table = PagingTable::new(vec![0u64; 512]);
    assert!(allocator.addresses_outside_free(&table.frames()));
    table
        .map_page(&mut allocator, VirtualAddress::new(0x4000_0000), PhysicalAddress::new(0x20_0000), PagingFlags::from_bits(0))
        .expect("mapping failed");
    assert_eq!(table.frames().len(), 2);
    assert!(allocator.free_slabs_disjoint());
    assert!(allocator.addresses_outside_free(&table.frames()));
    let free_l6 = allocator.free_slabs(6);
    assert_eq!(free_l6.len(), 1);
    assert!(!allocator.addresses_outside_free(&free_l6));
}
