//! The kernel's direct map of physical memory.
use vstd::prelude::*;

use crate::memory::paging_table::{
    entry_frame, entry_has, l2_index, l3_index, l4_index, MapError, PagingFlags, PagingTable,
    ENTRY_PRESENT,
};
use crate::memory::physical_buddy_allocator::{has_two_frames, outside_free, PhysicalBuddyAllocator};
use crate::memory::{align_down, PhysicalAddress, VirtualAddress, HUGE_PAGE_SIZE};

verus! {

/// Index of the top-level entry that maps the direct-map window.
pub const KERNEL_ENTRY_INDEX: usize = 0x100;
/// Start of the higher-half window that mirrors all of physical memory.
pub const KERNEL_MAP_BASE: u64 = 0xFFFF800000000000;

/// The direct-map address of physical address `pointer`: the window bits set.
pub open spec fn spec_to_kernel(pointer: u64) -> u64 {
    pointer | KERNEL_MAP_BASE
}

/// The physical address behind `value`: the window bits cleared.
pub open spec fn spec_to_physical(value: u64) -> u64 {
    value & !KERNEL_MAP_BASE
}

/// An address whose window bits are all set.
pub open spec fn spec_is_kernel(value: u64) -> bool {
    value & KERNEL_MAP_BASE == KERNEL_MAP_BASE
}

pub proof fn lemma_window_arithmetic(p: u64)
    ensures
        p < 0x800000000000 ==> spec_to_kernel(p) == p + KERNEL_MAP_BASE,
        spec_is_kernel(p) ==> spec_to_physical(p) == p - KERNEL_MAP_BASE,
        spec_is_kernel(spec_to_kernel(p)),
        p < 0x800000000000 ==> spec_to_physical(p) == p,
{
    assert(p < 0x800000000000u64 ==> (p | 0xFFFF800000000000u64) == p + 0xFFFF800000000000u64)
        by (bit_vector);
    assert(((p & 0xFFFF800000000000u64) == 0xFFFF800000000000u64) ==> (p & !0xFFFF800000000000u64)
        == p - 0xFFFF800000000000u64) by (bit_vector);
    assert((p | 0xFFFF800000000000u64) & 0xFFFF800000000000u64 == 0xFFFF800000000000u64)
        by (bit_vector);
    assert(p < 0x800000000000u64 ==> (p & !0xFFFF800000000000u64) == p) by (bit_vector);
}

/// Round trip through the direct map: a physical address below 2^47 comes back
/// unchanged from its window address, and a window address comes back unchanged
/// from its physical address.
pub proof fn lemma_address_translation_round_trip(p: u64, v: u64)
    ensures
        p < 0x800000000000 ==> spec_to_physical(spec_to_kernel(p)) == p,
        spec_is_kernel(v) ==> spec_to_kernel(spec_to_physical(v)) == v,
{
    assert(p < 0x800000000000u64 ==> ((p | 0xFFFF800000000000u64) & !0xFFFF800000000000u64) == p)
        by (bit_vector);
    assert(((v & 0xFFFF800000000000u64) == 0xFFFF800000000000u64) ==> ((v
        & !0xFFFF800000000000u64) | 0xFFFF800000000000u64) == v) by (bit_vector);
}

pub fn to_kernel_address(pointer: u64) -> (r: u64)
    ensures
        r == spec_to_kernel(pointer),
        pointer < 0x800000000000 ==> r == pointer + KERNEL_MAP_BASE,
{
    proof {
        lemma_window_arithmetic(pointer);
    }
    pointer | KERNEL_MAP_BASE
}

pub fn is_kernel_address(value: u64) -> (r: bool)
    ensures
        r == spec_is_kernel(value),
{
    (value & KERNEL_MAP_BASE) == KERNEL_MAP_BASE
}

pub fn to_physical_address(value: u64) -> (r: u64)
    ensures
        r == spec_to_physical(value),
        spec_is_kernel(value) ==> r == value - KERNEL_MAP_BASE,
{
    proof {
        lemma_window_arithmetic(value);
    }
    value & !KERNEL_MAP_BASE
}

pub fn to_physical_address_u64(value: u64) -> (r: u64)
    ensures
        r == spec_to_physical(value),
        spec_is_kernel(value) ==> r == value - KERNEL_MAP_BASE,
{
    to_physical_address(value)
}

/// Maps the 2 MiB page holding physical address `physical_address` into the
/// direct map of `paging_table` and returns the direct-map address of
/// `physical_address` itself, so that offsets within the page are kept.
pub fn map_kernel_page_unaligned(
    paging_table: &mut PagingTable,
    allocator: &mut PhysicalBuddyAllocator,
    physical_address: PhysicalAddress,
    flags: PagingFlags,
) -> (r: Result<VirtualAddress, MapError>)
    requires
        old(paging_table).wf(),
        old(allocator).wf(),
        old(allocator).free_disjoint(),
        outside_free(old(paging_table).addresses(), *old(allocator)),
        physical_address.0 < 0x800000000000,
    ensures
        final(paging_table).wf(),
        final(allocator).wf(),
        final(allocator).reserved@ == old(allocator).reserved@,
        final(allocator).free_disjoint(),
        outside_free(final(paging_table).addresses(), *final(allocator)),
        ({
            let v = align_down(spec_to_kernel(physical_address.0), HUGE_PAGE_SIZE) as u64;
            let t = old(paging_table);
            let needed = t.tables_needed(v);
            let no_frames = needed >= 1 && old(allocator).allocation_source(7) < 0 || needed == 2 && !has_two_frames(
                *old(allocator),
            );
            &&& t.path_missing(v) ==> r == Err::<VirtualAddress, MapError>(MapError::TableMissing)
            &&& !t.path_missing(v) && t.path_clash(v) ==> r == Err::<VirtualAddress, MapError>(MapError::TableClash)
            &&& !t.path_missing(v) && !t.path_clash(v) && no_frames ==> r == Err::<VirtualAddress, MapError>(
                MapError::OutOfMemory,
            )
            &&& !t.path_missing(v) && !t.path_clash(v) && !no_frames ==> r is Ok
            &&& r is Ok ==> r->Ok_0.0 == spec_to_kernel(physical_address.0) && PagingTable::mapped(
                old(paging_table),
                final(paging_table),
                *old(allocator),
                *final(allocator),
                v,
                align_down(physical_address.0, HUGE_PAGE_SIZE) as u64,
                flags,
            )
            &&& r is Err ==> final(paging_table).entries@ == old(paging_table).entries@ && final(paging_table).tables@
                == old(paging_table).tables@
        }),
{
    proof {
        assert(0x200000u64 & ((0x200000u64 - 1) as u64) == 0) by (bit_vector);
    }
    let virtual_address = VirtualAddress::to_kernel(physical_address);
    let aligned_physical_address = physical_address.align(HUGE_PAGE_SIZE);
    let aligned_virtual_address = virtual_address.align(HUGE_PAGE_SIZE);
    proof {
        let v = aligned_virtual_address.0;
        let p = aligned_physical_address.0;
        assert(v % HUGE_PAGE_SIZE == 0 && p % HUGE_PAGE_SIZE == 0) by {
            vstd::arithmetic::div_mod::lemma_fundamental_div_mod(virtual_address.0 as int, HUGE_PAGE_SIZE as int);
            vstd::arithmetic::div_mod::lemma_fundamental_div_mod(physical_address.0 as int, HUGE_PAGE_SIZE as int);
            vstd::arithmetic::div_mod::lemma_mod_multiples_basic(virtual_address.0 as int / HUGE_PAGE_SIZE as int, HUGE_PAGE_SIZE as int);
            vstd::arithmetic::div_mod::lemma_mod_multiples_basic(physical_address.0 as int / HUGE_PAGE_SIZE as int, HUGE_PAGE_SIZE as int);
            assert(v == HUGE_PAGE_SIZE * (virtual_address.0 as int / HUGE_PAGE_SIZE as int));
            assert(p == HUGE_PAGE_SIZE * (physical_address.0 as int / HUGE_PAGE_SIZE as int));
            assert((virtual_address.0 as int / HUGE_PAGE_SIZE as int) * HUGE_PAGE_SIZE == HUGE_PAGE_SIZE * (virtual_address.0 as int / HUGE_PAGE_SIZE as int)) by (nonlinear_arith);
            assert((physical_address.0 as int / HUGE_PAGE_SIZE as int) * HUGE_PAGE_SIZE == HUGE_PAGE_SIZE * (physical_address.0 as int / HUGE_PAGE_SIZE as int)) by (nonlinear_arith);
        }
    }
    match paging_table.map_page(allocator, aligned_virtual_address, aligned_physical_address, flags) {
        Ok(_) => Ok(virtual_address),
        Err(e) => Err(e),
    }
}

/// Span of one top-level entry: 512 GiB.
pub const L4_SPAN: u64 = 0x8000000000;
/// Span of one L3 entry: 1 GiB.
pub const L3_SPAN: u64 = 0x40000000;
/// Span of one L2 entry: a 2 MiB page.
pub const L2_SPAN: u64 = 0x200000;
/// Flags of every entry of the boot-time map: 2 MiB page, writable, present.
pub const KERNEL_ENTRY_FLAGS: u64 = 0x83;
pub const ENTRIES_PER_TABLE: usize = 512;

/// Number of entries of `span` bytes that cover `max` bytes.
pub open spec fn covering(max: u64, span: u64) -> int {
    (max as int + span - 1) / (span as int)
}

/// `count` rounded up to whole tables of 512 entries.
pub open spec fn whole_tables(count: int) -> int {
    (count + 511) / 512 * 512
}

/// Entry `k` of the boot-time table block that starts at physical `base` and
/// maps `max` bytes of physical memory: 512 L4 entries, then the L3 tables,
/// then the L2 tables.
pub open spec fn kernel_entry(max: u64, base: u64, k: int) -> u64 {
    let l3_count = whole_tables(covering(max, L3_SPAN));
    let l3_base = base + 8 * 512;
    let l2_base = l3_base + 8 * l3_count;
    if k == 0 || k == KERNEL_ENTRY_INDEX {
        (l3_base as u64) | KERNEL_ENTRY_FLAGS
    } else if 512 <= k < 512 + covering(max, L3_SPAN) {
        ((l2_base + (k - 512) * 4096) as u64) | KERNEL_ENTRY_FLAGS
    } else if 512 + l3_count <= k < 512 + l3_count + covering(max, L2_SPAN) {
        (((k - 512 - l3_count) * L2_SPAN) as u64) | KERNEL_ENTRY_FLAGS
    } else {
        0
    }
}

/// Builds the entries of the boot-time page tables in one block at physical
/// `entries_physical`: 2 MiB pages map `[0, max)` both at address zero and at
/// the direct-map window, through the same L3 and L2 tables. Memory must be
/// non-empty and fit under one top-level entry (512 GiB).
pub fn kernel_paging_entries(max_available_physical_address: PhysicalAddress, entries_physical: u64) -> (r: Vec<u64>)
    requires
        entries_physical + 8 * (512 + 512 + 262144) <= u64::MAX,
        0 < max_available_physical_address.0 <= L4_SPAN,
    ensures
        ({
            let max = max_available_physical_address.0;
            &&& r@.len() == 512 + whole_tables(covering(max, L3_SPAN)) + whole_tables(covering(max, L2_SPAN))
            &&& forall|k: int| 0 <= k < r@.len() ==> #[trigger] r@[k] == kernel_entry(max, entries_physical, k)
        }),
{
    let max = max_available_physical_address.value();
    let l3_required = ((max + L3_SPAN - 1) / L3_SPAN) as usize;
    let l2_required = ((max + L2_SPAN - 1) / L2_SPAN) as usize;
    proof {
        assert(l3_required <= 512) by (nonlinear_arith)
            requires
                l3_required == (max + L3_SPAN - 1) / (L3_SPAN as int),
                max <= L4_SPAN,
        ;
        assert(l2_required <= 262144) by (nonlinear_arith)
            requires
                l2_required == (max + L2_SPAN - 1) / (L2_SPAN as int),
                max <= L4_SPAN,
        ;
    }
    let l3_count = (l3_required + 511) / 512 * 512;
    let l2_count = (l2_required + 511) / 512 * 512;
    let total = ENTRIES_PER_TABLE + l3_count + l2_count;
    let l3_base = entries_physical + 8 * 512;
    let l2_base = l3_base + 8 * (l3_count as u64);
    let ghost target = Seq::new(total as nat, |k: int| kernel_entry(max, entries_physical, k));
    let mut entries: Vec<u64> = Vec::new();
    let mut k: usize = 0;
    while k < total
        invariant
            k <= total,
            total == 512 + l3_count + l2_count,
            l3_count == whole_tables(covering(max, L3_SPAN)),
            l2_count == whole_tables(covering(max, L2_SPAN)),
            l3_required == covering(max, L3_SPAN),
            l2_required == covering(max, L2_SPAN),
            l3_required <= 512,
            l2_required <= 262144,
            l3_count <= 512,
            l2_count <= 262144,
            l3_base == entries_physical + 8 * 512,
            l2_base == l3_base + 8 * l3_count,
            entries_physical + 8 * (512 + 512 + 262144) <= u64::MAX,
            target == Seq::new(total as nat, |k: int| kernel_entry(max, entries_physical, k)),
            entries@ == target.take(k as int),
        decreases total - k,
    {
        let value = if k == 0 || k == KERNEL_ENTRY_INDEX {
            l3_base | KERNEL_ENTRY_FLAGS
        } else if 512 <= k && k < 512 + l3_required {
            (l2_base + ((k - 512) as u64) * 4096) | KERNEL_ENTRY_FLAGS
        } else if 512 + l3_count <= k && k < 512 + l3_count + l2_required {
            (((k - 512 - l3_count) as u64) * L2_SPAN) | KERNEL_ENTRY_FLAGS
        } else {
            0
        };
        entries.push(value);
        proof {
            assert(entries@ =~= target.take(k as int + 1));
        }
        k = k + 1;
    }
    proof {
        assert(entries@ =~= target);
    }
    entries
}

/// What a walk of the boot-time block `entries` (at physical `base`, with
/// every table reached through its physical address) gives for `v`: the
/// physical address it maps to, if the L2 entry is present.
pub open spec fn block_walk(entries: Seq<u64>, base: u64, v: u64) -> Option<int> {
    let l4 = entries[l4_index(v)];
    let l3 = entries[(entry_frame(l4) - base) / 8 + l3_index(v)];
    let l2 = entries[(entry_frame(l3) - base) / 8 + l2_index(v)];
    if entry_has(l2, ENTRY_PRESENT) {
        Some(entry_frame(l2) as int + (v as int) % (L2_SPAN as int))
    } else {
        None
    }
}

proof fn lemma_kernel_entry_bits(x: u64)
    requires
        x % 4096 == 0,
        x < 0x10000000000000,
    ensures
        entry_frame(x | KERNEL_ENTRY_FLAGS) == x,
        entry_has(x | KERNEL_ENTRY_FLAGS, ENTRY_PRESENT),
{
    assert(entry_frame(x | 0x83u64) == x && entry_has(x | 0x83u64, 1u64)) by (bit_vector)
        requires
            x % 4096 == 0,
            x < 0x10000000000000,
    ;
}

proof fn lemma_window_indexes(p: u64)
    requires
        p < 0x8000000000,
    ensures
        l4_index(p) == 0,
        l4_index(spec_to_kernel(p)) == KERNEL_ENTRY_INDEX,
        l3_index(p) == p / 0x40000000,
        l3_index(spec_to_kernel(p)) == p / 0x40000000,
        l2_index(p) == (p / 0x200000) % 512,
        l2_index(spec_to_kernel(p)) == (p / 0x200000) % 512,
        spec_to_kernel(p) % 0x200000 == p % 0x200000,
{
    let v = p | 0xFFFF800000000000u64;
    assert((p >> 39u64) & 0x1ffu64 == 0 && (v >> 39u64) & 0x1ffu64 == 0x100) by (bit_vector)
        requires
            p < 0x8000000000,
            v == p | 0xFFFF800000000000u64,
    ;
    assert((p >> 30u64) & 0x1ffu64 == p / 0x40000000 && (v >> 30u64) & 0x1ffu64 == p / 0x40000000) by (bit_vector)
        requires
            p < 0x8000000000,
            v == p | 0xFFFF800000000000u64,
    ;
    assert((p >> 21u64) & 0x1ffu64 == (p / 0x200000) % 512 && (v >> 21u64) & 0x1ffu64 == (p / 0x200000) % 512)
        by (bit_vector)
        requires
            p < 0x8000000000,
            v == p | 0xFFFF800000000000u64,
    ;
    assert(v % 0x200000 == p % 0x200000) by (bit_vector)
        requires
            v == p | 0xFFFF800000000000u64,
    ;
}

/// Identity coverage of the boot-time map: every physical address below the
/// end of memory rounded up to 2 MiB is mapped to itself, both at its own
/// address and at its direct-map address.
pub proof fn lemma_identity_coverage(max: u64, base: u64, entries: Seq<u64>, p: u64)
    requires
        0 < max <= L4_SPAN,
        base % 4096 == 0,
        base + 8 * (512 + 512 + 262144) < 0x10000000000000,
        entries.len() == 512 + whole_tables(covering(max, L3_SPAN)) + whole_tables(covering(max, L2_SPAN)),
        forall|k: int| 0 <= k < entries.len() ==> #[trigger] entries[k] == kernel_entry(max, base, k),
        p < covering(max, L2_SPAN) * L2_SPAN,
    ensures
        block_walk(entries, base, p) == Some(p as int),
        block_walk(entries, base, spec_to_kernel(p)) == Some(p as int),
{
    let c2 = covering(max, L2_SPAN);
    let c3 = covering(max, L3_SPAN);
    let l3c = whole_tables(c3);
    let l2c = whole_tables(c2);
    let j = p / 0x200000;
    let i3 = p / 0x40000000;
    let i2 = j % 512;
    assert(c2 <= 262144 && c3 <= 512) by (nonlinear_arith)
        requires
            c2 == (max + 0x200000 - 1) / 0x200000,
            c3 == (max + 0x40000000 - 1) / 0x40000000,
            0 < max <= 0x8000000000,
    ;
    assert(l3c >= c3 && l3c <= 512 && l3c % 512 == 0) by (nonlinear_arith)
        requires
            l3c == (c3 + 511) / 512 * 512,
            0 <= c3 <= 512,
    ;
    assert(l2c >= c2 && l2c <= 262144 && l2c % 512 == 0) by (nonlinear_arith)
        requires
            l2c == (c2 + 511) / 512 * 512,
            0 <= c2 <= 262144,
    ;
    assert(p < 0x8000000000 && j < c2) by (nonlinear_arith)
        requires
            p < c2 * 0x200000,
            c2 <= 262144,
            j == p / 0x200000,
    ;
    assert(i3 == j / 512) by {
        vstd::arithmetic::div_mod::lemma_div_denominator(p as int, 0x200000, 512);
    }
    assert(j == 512 * i3 + i2) by {
        vstd::arithmetic::div_mod::lemma_fundamental_div_mod(j as int, 512);
    }
    assert(i3 < c3) by (nonlinear_arith)
        requires
            j < c2,
            c2 == (max + 0x200000 - 1) / 0x200000,
            c3 == (max + 0x40000000 - 1) / 0x40000000,
            j == 512 * i3 + i2,
            0 <= i2 < 512,
            i3 >= 0,
            max > 0,
    {
        assert(j * 0x200000 < max) by (nonlinear_arith)
            requires
                j < c2,
                c2 == (max + 0x200000 - 1) / 0x200000,
                j >= 0,
        ;
        assert(i3 * 0x40000000 <= j * 0x200000) by (nonlinear_arith)
            requires
                j == 512 * i3 + i2,
                i2 >= 0,
        ;
    }
    lemma_window_indexes(p);
    let l3_base = base + 8 * 512;
    let l2_base = l3_base + 8 * l3c;
    lemma_kernel_entry_bits(l3_base as u64);
    assert(entries[0] == (l3_base as u64) | KERNEL_ENTRY_FLAGS);
    assert(entries[KERNEL_ENTRY_INDEX as int] == (l3_base as u64) | KERNEL_ENTRY_FLAGS);
    let k3 = 512 + i3;
    assert((entry_frame((l3_base as u64) | KERNEL_ENTRY_FLAGS) - base) / 8 + i3 == k3);
    let t2 = (l2_base + i3 * 4096) as u64;
    assert(entries[k3] == t2 | KERNEL_ENTRY_FLAGS);
    assert(t2 % 4096 == 0 && t2 < 0x10000000000000) by (nonlinear_arith)
        requires
            t2 == base + 8 * 512 + 8 * l3c + i3 * 4096,
            base % 4096 == 0,
            l3c % 512 == 0,
            l3c <= 512,
            i3 < 512,
            i3 >= 0,
            base + 8 * (512 + 512 + 262144) < 0x10000000000000,
    ;
    lemma_kernel_entry_bits(t2);
    let k2 = 512 + l3c + j;
    assert((t2 - base) / 8 + i2 == k2) by (nonlinear_arith)
        requires
            t2 == base + 8 * 512 + 8 * l3c + i3 * 4096,
            k2 == 512 + l3c + j,
            j == 512 * i3 + i2,
    ;
    let leaf = (j * L2_SPAN) as u64;
    assert(entries[k2] == leaf | KERNEL_ENTRY_FLAGS);
    assert(leaf % 4096 == 0 && leaf < 0x10000000000000 && leaf + p % 0x200000 == p) by (nonlinear_arith)
        requires
            leaf == j * 0x200000,
            j == p / 0x200000,
            j < 262144,
            j >= 0,
    {
        vstd::arithmetic::div_mod::lemma_fundamental_div_mod(p as int, 0x200000);
    }
    lemma_kernel_entry_bits(leaf);
}

} // verus!
