//! Four-level x86-64 page tables with 2 MiB leaves at the third level.
use vstd::prelude::*;

use crate::memory::physical_buddy_allocator::{
    has_two_frames, lemma_frame_allocation, lemma_second_frame, outside_free, PhysicalBuddyAllocator, MAX_MEMORY,
};
use crate::memory::{PhysicalAddress, VirtualAddress, HUGE_PAGE_SIZE};

verus! {

pub const PAGING_TABLE_ENTRY_COUNT: usize = 512;
/// Bits 12..51 of an entry: the physical frame it refers to.
pub const PAGE_ENTRY_PHYSICAL_ADDRESS_MASK: u64 = 0x000FFFFFFFFFF000;

pub const ENTRY_PRESENT: u64 = 0x1;
pub const ENTRY_WRITABLE: u64 = 0x2;
pub const ENTRY_USER: u64 = 0x4;
pub const ENTRY_CACHED: u64 = 0x10;
pub const ENTRY_PAGE_SIZE_EXTENSION: u64 = 0x80;
/// The bits that a leaf written by `map_page` gets from its arguments: the frame and P, W, U, C, PS.
pub const LEAF_BITS: u64 = 0x000FFFFFFFFFF097;

pub const FLAG_NO_CACHE: u32 = 0x1;
pub const FLAG_NO_FLUSH: u32 = 0x2;
pub const FLAG_USER: u32 = 0x4;

/// The caller's choices for a mapping: no caching, no TLB flush, user access.
#[derive(Clone, Copy, Debug, PartialEq, Eq, Structural)]
pub struct PagingFlags {
    pub bits: u32,
}

impl PagingFlags {
    pub open spec fn has(&self, flag: u32) -> bool {
        self.bits & flag != 0
    }

    pub fn from_bits(bits: u32) -> (r: PagingFlags)
        ensures
            r.bits == bits,
    {
        PagingFlags { bits }
    }

    pub fn contains(&self, flag: u32) -> (r: bool)
        ensures
            r == self.has(flag),
    {
        self.bits & flag != 0
    }
}

pub open spec fn entry_frame(entry: u64) -> u64 {
    entry & PAGE_ENTRY_PHYSICAL_ADDRESS_MASK
}

pub open spec fn entry_has(entry: u64, bit: u64) -> bool {
    entry & bit != 0
}

pub open spec fn l4_index(v: u64) -> int {
    ((v >> 39u64) & 0x1ffu64) as int
}

pub open spec fn l3_index(v: u64) -> int {
    ((v >> 30u64) & 0x1ffu64) as int
}

pub open spec fn l2_index(v: u64) -> int {
    ((v >> 21u64) & 0x1ffu64) as int
}

pub open spec fn layer_for_size_4096() -> bool {
    crate::memory::physical_buddy_allocator::layer_for_size(4096) == Some(7int)
}

/// Takes a 4 KiB frame for a new table from `allocator`; the tables already
/// at `addrs` lie outside the free slabs, so the frame is none of them.
fn take_frame(allocator: &mut PhysicalBuddyAllocator, addrs: Ghost<Seq<u64>>) -> (r: Option<u64>)
    requires
        old(allocator).wf(),
        old(allocator).free_disjoint(),
        outside_free(addrs@, *old(allocator)),
    ensures
        final(allocator).wf(),
        final(allocator).reserved@ == old(allocator).reserved@,
        r is None <==> old(allocator).allocation_source(7) < 0,
        r is None ==> final(allocator).layers@ == old(allocator).layers@,
        r matches Some(f) ==> {
            &&& PhysicalBuddyAllocator::allocation_result(&*old(allocator), &*final(allocator), 4096, Some(PhysicalAddress(f)))
            &&& !addrs@.contains(f)
            &&& outside_free(addrs@.push(f), *final(allocator))
            &&& final(allocator).free_disjoint()
            &&& entry_frame(f) == f
        },
{
    let ghost before = *allocator;
    let r = allocator.allocate_physical_region(4096);
    proof {
        assert(layer_for_size_4096());
        before.lemma_deepest_nonempty(7);
    }
    match r {
        Some(a) => {
            proof {
                lemma_frame_allocation(addrs@, before, *allocator, a.0);
                let f = a.0;
                assert(f < 0x100000000u64 && f % 0x1000 == 0 ==> f & 0x000FFFFFFFFFF000u64 == f) by (bit_vector);
            }
            Some(a.0)
        },
        None => None,
    }
}

proof fn lemma_outside_same(addrs: Seq<u64>, a: PhysicalBuddyAllocator, b: PhysicalBuddyAllocator)
    requires
        outside_free(addrs, a),
        a.layers@ == b.layers@,
    ensures
        outside_free(addrs, b),
{
    assert forall|k: int, l: int, i: int|
        #![trigger addrs[k], b.free_list(l)[i]]
        0 <= k < addrs.len() && 0 <= l < crate::memory::physical_buddy_allocator::LAYER_COUNT && 0 <= i
            < b.free_list(l).len() implies !(b.free_list(l)[i] <= addrs[k] < b.free_list(l)[i]
        + crate::memory::physical_buddy_allocator::layer_size(l)) by {
        assert(a.free_list(l) == b.free_list(l));
    }
}

proof fn lemma_outside_prefix(addrs: Seq<u64>, f: u64, allocator: PhysicalBuddyAllocator)
    requires
        outside_free(addrs.push(f), allocator),
    ensures
        outside_free(addrs, allocator),
{
    let all = addrs.push(f);
    assert forall|k: int, l: int, i: int|
        #![trigger addrs[k], allocator.free_list(l)[i]]
        0 <= k < addrs.len() && 0 <= l < crate::memory::physical_buddy_allocator::LAYER_COUNT && 0 <= i
            < allocator.free_list(l).len() implies !(allocator.free_list(l)[i] <= addrs[k] < allocator.free_list(l)[i]
        + crate::memory::physical_buddy_allocator::layer_size(l)) by {
        assert(all[k] == addrs[k]);
    }
}

/// Tables at the same addresses are found at the same positions.
proof fn lemma_same_addresses(a: PagingTable, b: PagingTable)
    requires
        a.tables@.len() == b.tables@.len(),
        forall|k: int| 0 <= k < a.tables@.len() ==> #[trigger] a.tables@[k].address == b.tables@[k].address,
    ensures
        forall|x: u64| #[trigger] a.find(x) == b.find(x),
        a.addresses() == b.addresses(),
{
    assert forall|x: u64| #[trigger] a.find(x) == b.find(x) by {
        lemma_table_index_same(a.tables@, b.tables@, x, a.tables@.len() as int);
    }
    assert(a.addresses() =~= b.addresses());
}

/// A page table below the root, at its physical address.
pub struct ChildTable {
    pub address: u64,
    pub entries: Vec<u64>,
}

/// Position of the first of the first `n` tables that sits at `address`; -1 if none.
pub open spec fn table_index(tables: Seq<ChildTable>, address: u64, n: int) -> int
    decreases n,
{
    if n <= 0 {
        -1
    } else {
        let earlier = table_index(tables, address, n - 1);
        if earlier >= 0 {
            earlier
        } else if tables[n - 1].address == address {
            n - 1
        } else {
            -1
        }
    }
}

proof fn lemma_table_index(tables: Seq<ChildTable>, address: u64, n: int)
    requires
        0 <= n <= tables.len(),
    ensures
        -1 <= table_index(tables, address, n) < n,
        table_index(tables, address, n) >= 0 ==> tables[table_index(tables, address, n)].address
            == address,
        table_index(tables, address, n) < 0 ==> forall|k: int| 0 <= k < n ==> #[trigger] tables[k].address != address,
    decreases n,
{
    if n > 0 {
        lemma_table_index(tables, address, n - 1);
    }
}

proof fn lemma_table_index_prefix(tables: Seq<ChildTable>, address: u64, n: int)
    requires
        0 <= n <= tables.len(),
    ensures
        table_index(tables, address, n) == -1 <==> forall|k: int| 0 <= k < n ==> #[trigger] tables[k].address != address,
        table_index(tables, address, n) >= 0 ==> tables[table_index(tables, address, n)].address == address,
        -1 <= table_index(tables, address, n) < n,
    decreases n,
{
    lemma_table_index(tables, address, n);
    if n > 0 {
        lemma_table_index_prefix(tables, address, n - 1);
    }
}

proof fn lemma_table_index_stable(tables: Seq<ChildTable>, address: u64, n: int, m: int)
    requires
        0 <= n <= m <= tables.len(),
        table_index(tables, address, n) >= 0,
    ensures
        table_index(tables, address, m) == table_index(tables, address, n),
    decreases m - n,
{
    if m > n {
        lemma_table_index_stable(tables, address, n, m - 1);
    }
}

proof fn lemma_find_kept(before: Seq<ChildTable>, after: Seq<ChildTable>, address: u64)
    requires
        before.len() <= after.len(),
        forall|k: int| 0 <= k < before.len() ==> #[trigger] before[k].address == after[k].address,
        table_index(before, address, before.len() as int) >= 0,
    ensures
        table_index(after, address, after.len() as int) == table_index(before, address, before.len() as int),
{
    lemma_table_index_same(before, after, address, before.len() as int);
    lemma_table_index_stable(after, address, before.len() as int, after.len() as int);
}

/// A leaf entry's bits after `map_page` wrote it: the frame of `physical`,
/// writable, a 2 MiB page, present, user and cached as the flags ask.
pub open spec fn leaf_matches(entry: u64, physical: u64, flags: PagingFlags) -> bool {
    &&& entry_frame(entry) == entry_frame(physical)
    &&& entry_has(entry, ENTRY_PRESENT)
    &&& entry_has(entry, ENTRY_WRITABLE)
    &&& entry_has(entry, ENTRY_PAGE_SIZE_EXTENSION)
    &&& entry_has(entry, ENTRY_USER) == flags.has(FLAG_USER)
    &&& entry_has(entry, ENTRY_CACHED) == !flags.has(FLAG_NO_CACHE)
}

proof fn lemma_table_index_extend(tables: Seq<ChildTable>, extra: ChildTable, address: u64)
    ensures
        table_index(tables.push(extra), address, tables.len() as int + 1) == (if table_index(tables, address, tables.len() as int) >= 0 {
            table_index(tables, address, tables.len() as int)
        } else if extra.address == address {
            tables.len() as int
        } else {
            -1
        }),
{
    lemma_table_index_same(tables, tables.push(extra), address, tables.len() as int);
}

proof fn lemma_table_index_same(a: Seq<ChildTable>, b: Seq<ChildTable>, address: u64, n: int)
    requires
        n <= a.len(),
        n <= b.len(),
        forall|k: int| 0 <= k < n ==> #[trigger] a[k].address == b[k].address,
    ensures
        table_index(a, address, n) == table_index(b, address, n),
    decreases n,
{
    if n > 0 {
        lemma_table_index_same(a, b, address, n - 1);
    }
}

/// A page-table hierarchy: the root's 512 entries and every lower table it reaches.
pub struct PagingTable {
    pub entries: Vec<u64>,
    pub tables: Vec<ChildTable>,
}

/// Why a page could not be mapped.
#[derive(Clone, Copy, Debug, PartialEq, Eq, Structural)]
pub enum MapError {
    /// No frame was left for a new table.
    OutOfMemory,
    /// A present entry refers to a table that is not in the hierarchy.
    TableMissing,
    /// A new table would overlap one in use.
    TableClash,
}

impl PagingTable {
    pub open spec fn wf(&self) -> bool {
        &&& self.entries@.len() == PAGING_TABLE_ENTRY_COUNT
        &&& forall|k: int| 0 <= k < self.tables@.len() ==> #[trigger] self.tables@[k].entries@.len()
            == PAGING_TABLE_ENTRY_COUNT
    }

    pub open spec fn find(&self, address: u64) -> int {
        table_index(self.tables@, address, self.tables@.len() as int)
    }

    /// The L2 entry that a walk from the root reaches for `v`, if any.
    pub open spec fn walk(&self, v: u64) -> Option<u64> {
        let l4 = self.entries@[l4_index(v)];
        if !entry_has(l4, ENTRY_PRESENT) {
            None
        } else {
            let t3 = self.find(entry_frame(l4));
            if t3 < 0 {
                None
            } else {
                let l3 = self.tables@[t3].entries@[l3_index(v)];
                if !entry_has(l3, ENTRY_PRESENT) {
                    None
                } else {
                    let t2 = self.find(entry_frame(l3));
                    if t2 < 0 {
                        None
                    } else {
                        Some(self.tables@[t2].entries@[l2_index(v)])
                    }
                }
            }
        }
    }

    pub fn new(entries: Vec<u64>) -> (r: PagingTable)
        requires
            entries@.len() == PAGING_TABLE_ENTRY_COUNT,
        ensures
            r.wf(),
            r.entries@ == entries@,
            r.tables@.len() == 0,
    {
        PagingTable { entries, tables: Vec::new() }
    }

    pub fn set_address(entry: &mut u64, address: u64)
        ensures
            entry_frame(*final(entry)) == entry_frame(address),
            *final(entry) & !PAGE_ENTRY_PHYSICAL_ADDRESS_MASK == *old(entry) & !PAGE_ENTRY_PHYSICAL_ADDRESS_MASK,
    {
        let value = (*entry & !PAGE_ENTRY_PHYSICAL_ADDRESS_MASK) | (address & PAGE_ENTRY_PHYSICAL_ADDRESS_MASK);
        let e = *entry;
        assert(entry_frame(value) == entry_frame(address) && value & !0x000FFFFFFFFFF000u64 == e
            & !0x000FFFFFFFFFF000u64) by (bit_vector)
            requires
                value == (e & !0x000FFFFFFFFFF000u64) | (address & 0x000FFFFFFFFFF000u64),
        ;
        *entry = value;
    }

    pub fn set_page_size_extension(entry: &mut u64, enabled: bool)
        ensures
            *final(entry) == (if enabled {
                *old(entry) | ENTRY_PAGE_SIZE_EXTENSION
            } else {
                *old(entry) & !ENTRY_PAGE_SIZE_EXTENSION
            }),
    {
        if enabled {
            *entry = *entry | ENTRY_PAGE_SIZE_EXTENSION;
        } else {
            *entry = *entry & !ENTRY_PAGE_SIZE_EXTENSION;
        }
    }

    pub fn set_user_accessability(entry: &mut u64, enabled: bool)
        ensures
            *final(entry) == (if enabled {
                *old(entry) | ENTRY_USER
            } else {
                *old(entry) & !ENTRY_USER
            }),
    {
        if enabled {
            *entry = *entry | ENTRY_USER;
        } else {
            *entry = *entry & !ENTRY_USER;
        }
    }

    pub fn set_cached(entry: &mut u64, enabled: bool)
        ensures
            *final(entry) == (if enabled {
                *old(entry) | ENTRY_CACHED
            } else {
                *old(entry) & !ENTRY_CACHED
            }),
    {
        if enabled {
            *entry = *entry | ENTRY_CACHED;
        } else {
            *entry = *entry & !ENTRY_CACHED;
        }
    }

    pub fn set_present(entry: &mut u64)
        ensures
            *final(entry) == *old(entry) | ENTRY_PRESENT,
    {
        *entry = *entry | ENTRY_PRESENT;
    }

    pub fn set_writable(entry: &mut u64)
        ensures
            *final(entry) == *old(entry) | ENTRY_WRITABLE,
    {
        *entry = *entry | ENTRY_WRITABLE;
    }

    pub fn is_present(entry: u64) -> (r: bool)
        ensures
            r == entry_has(entry, ENTRY_PRESENT),
    {
        (entry & ENTRY_PRESENT) != 0
    }

    pub fn physical_address_from_entry(entry: u64) -> (r: u64)
        ensures
            r == entry_frame(entry),
    {
        entry & PAGE_ENTRY_PHYSICAL_ADDRESS_MASK
    }

    /// Position of the first lower table at `address`.
    pub fn find_table(&self, address: u64) -> (r: Option<usize>)
        ensures
            r is Some ==> r->Some_0 as int == self.find(address),
            r is None ==> self.find(address) < 0,
    {
        let mut index: usize = 0;
        while index < self.tables.len()
            invariant
                index <= self.tables@.len(),
                table_index(self.tables@, address, index as int) == -1,
            decreases self.tables@.len() - index,
        {
            if self.tables[index].address == address {
                proof {
                    assert(table_index(self.tables@, address, index as int + 1) == index);
                    lemma_table_index_stable(self.tables@, address, index as int + 1, self.tables@.len() as int);
                }
                return Some(index);
            }
            proof {
                lemma_table_index_prefix(self.tables@, address, index as int + 1);
            }
            index = index + 1;
        }
        proof {
            lemma_table_index_prefix(self.tables@, address, index as int);
        }
        None
    }

    /// The physical addresses of the lower tables, in order.
    pub open spec fn addresses(&self) -> Seq<u64> {
        Seq::new(self.tables@.len(), |k: int| self.tables@[k].address)
    }

    /// The root entry on the path of `v`.
    pub open spec fn l4_entry(&self, v: u64) -> u64 {
        self.entries@[l4_index(v)]
    }

    /// The L3 table that the root entry of `v` refers to.
    pub open spec fn l3_table(&self, v: u64) -> int {
        self.find(entry_frame(self.l4_entry(v)))
    }

    /// The L3 entry on the path of `v`.
    pub open spec fn l3_entry(&self, v: u64) -> u64 {
        self.tables@[self.l3_table(v)].entries@[l3_index(v)]
    }

    /// The L2 table that the L3 entry of `v` refers to.
    pub open spec fn l2_table(&self, v: u64) -> int {
        self.find(entry_frame(self.l3_entry(v)))
    }

    /// A present entry on the path of `v` refers to a table the hierarchy lacks.
    pub open spec fn path_missing(&self, v: u64) -> bool {
        entry_has(self.l4_entry(v), ENTRY_PRESENT) && (self.l3_table(v) < 0 || entry_has(self.l3_entry(v), ENTRY_PRESENT)
            && self.l2_table(v) < 0)
    }

    /// The L3 entry on the path of `v` refers back to its own table.
    pub open spec fn path_clash(&self, v: u64) -> bool {
        entry_has(self.l4_entry(v), ENTRY_PRESENT) && self.l3_table(v) >= 0 && entry_has(self.l3_entry(v), ENTRY_PRESENT)
            && self.l2_table(v) == self.l3_table(v)
    }

    /// How many new tables mapping `v` needs: both when the root entry is
    /// absent, the L2 table when the L3 entry is absent, none otherwise.
    pub open spec fn tables_needed(&self, v: u64) -> int {
        if !entry_has(self.l4_entry(v), ENTRY_PRESENT) {
            2
        } else if !entry_has(self.l3_entry(v), ENTRY_PRESENT) {
            1
        } else {
            0
        }
    }

    /// The leaf entry on the path of `v` before mapping: zero in a new table.
    pub open spec fn old_leaf(&self, v: u64) -> u64 {
        if self.tables_needed(v) == 0 {
            self.tables@[self.l2_table(v)].entries@[l2_index(v)]
        } else {
            0
        }
    }

    /// What a successful `map_page` of `v` to `p` did to the tables, from
    /// `before` to `after`: the walk of `v` reaches a leaf for `p` with the
    /// flags' bits and the old leaf's other bits; present entries on the path
    /// are kept; each absent one now refers to a new zeroed table; nothing
    /// else changed.
    pub open spec fn mapped_tables(before: &Self, after: &Self, v: u64, p: u64, flags: PagingFlags) -> bool {
        let n = before.tables@.len() as int;
        let needed = before.tables_needed(v);
        &&& after.walk(v) is Some
        &&& leaf_matches(after.walk(v)->Some_0, p, flags)
        &&& after.walk(v)->Some_0 & !LEAF_BITS == before.old_leaf(v) & !LEAF_BITS
        &&& after.tables@.len() == n + needed
        &&& forall|k: int| 0 <= k < n ==> #[trigger] after.tables@[k].address == before.tables@[k].address
        &&& forall|j: int|
            0 <= j < PAGING_TABLE_ENTRY_COUNT && (j != l4_index(v) || needed < 2) ==> #[trigger] after.entries@[j]
                == before.entries@[j]
        &&& forall|k: int, j: int|
            0 <= k < n && 0 <= j < PAGING_TABLE_ENTRY_COUNT ==> #[trigger] after.tables@[k].entries@[j]
                == before.tables@[k].entries@[j] || (needed == 1 && k == before.l3_table(v) && j == l3_index(v)) || (
            needed == 0 && k == before.l2_table(v) && j == l2_index(v))
        &&& forall|k: int, j: int|
            n <= k < n + needed && 0 <= j < PAGING_TABLE_ENTRY_COUNT ==> #[trigger] after.tables@[k].entries@[j]
                == 0 || (k == n && needed == 2 && j == l3_index(v)) || (k == n + needed - 1 && j == l2_index(v))
        &&& needed == 2 ==> after.entries@[l4_index(v)] & !PAGE_ENTRY_PHYSICAL_ADDRESS_MASK == before.entries@[l4_index(
            v,
        )] & !PAGE_ENTRY_PHYSICAL_ADDRESS_MASK | ENTRY_PRESENT | ENTRY_WRITABLE | ENTRY_USER
        &&& needed == 2 ==> entry_frame(after.entries@[l4_index(v)]) == after.tables@[n].address
        &&& needed == 2 ==> entry_frame(after.tables@[n].entries@[l3_index(v)]) == after.tables@[n + 1].address
        &&& needed == 2 ==> after.tables@[n].entries@[l3_index(v)] & !PAGE_ENTRY_PHYSICAL_ADDRESS_MASK
            == ENTRY_PRESENT | ENTRY_WRITABLE | ENTRY_USER
        &&& needed == 1 ==> entry_frame(after.tables@[before.l3_table(v)].entries@[l3_index(v)]) == after.tables@[n].address
        &&& needed == 1 ==> after.tables@[before.l3_table(v)].entries@[l3_index(v)] & !PAGE_ENTRY_PHYSICAL_ADDRESS_MASK
            == before.l3_entry(v) & !PAGE_ENTRY_PHYSICAL_ADDRESS_MASK | ENTRY_PRESENT | ENTRY_WRITABLE | ENTRY_USER
    }

    /// What a successful `map_page` of `v` to `p` did, to the tables (see
    /// `mapped_tables`) and to the allocator, from `ab` to `aa`: one 4 KiB
    /// allocation for each new table, in order, at the new table's address.
    pub open spec fn mapped(
        before: &Self,
        after: &Self,
        ab: PhysicalBuddyAllocator,
        aa: PhysicalBuddyAllocator,
        v: u64,
        p: u64,
        flags: PagingFlags,
    ) -> bool {
        let n = before.tables@.len() as int;
        let needed = before.tables_needed(v);
        &&& Self::mapped_tables(before, after, v, p, flags)
        &&& needed == 0 ==> aa.layers@ == ab.layers@
        &&& needed == 1 ==> PhysicalBuddyAllocator::allocation_result(
            &ab,
            &aa,
            4096,
            Some(PhysicalAddress(after.tables@[n].address)),
        )
        &&& needed == 2 ==> exists|mid: PhysicalBuddyAllocator|
            PhysicalBuddyAllocator::allocation_result(
                &ab,
                &mid,
                4096,
                Some(PhysicalAddress(after.tables@[n].address)),
            ) && #[trigger] PhysicalBuddyAllocator::allocation_result(
                &mid,
                &aa,
                4096,
                Some(PhysicalAddress(after.tables@[n + 1].address)),
            )
    }

    /// The physical addresses of the lower tables, in order.
    pub fn frames(&self) -> (r: Vec<u64>)
        ensures
            r@ == self.addresses(),
    {
        let mut out: Vec<u64> = Vec::new();
        let mut k: usize = 0;
        while k < self.tables.len()
            invariant
                k <= self.tables@.len(),
                out@ == self.addresses().take(k as int),
            decreases self.tables@.len() - k,
        {
            out.push(self.tables[k].address);
            proof {
                assert(out@ =~= self.addresses().take(k as int + 1));
            }
            k = k + 1;
        }
        proof {
            assert(out@ =~= self.addresses());
        }
        out
    }

    /// Adds a zeroed table at physical `frame`, which no table uses yet.
    fn push_table(&mut self, frame: u64) -> (r: usize)
        requires
            old(self).wf(),
            !old(self).addresses().contains(frame),
        ensures
            final(self).wf(),
            r == old(self).tables@.len(),
            final(self).entries@ == old(self).entries@,
            final(self).tables@.len() == r + 1,
            forall|k: int| 0 <= k < r ==> #[trigger] final(self).tables@[k] == old(self).tables@[k],
            final(self).tables@[r as int].address == frame,
            forall|j: int| 0 <= j < PAGING_TABLE_ENTRY_COUNT ==> #[trigger] final(self).tables@[r as int].entries@[j] == 0,
            final(self).find(frame) == r,
            final(self).addresses() == old(self).addresses().push(frame),
            forall|a: u64| old(self).find(a) >= 0 ==> #[trigger] final(self).find(a) == old(self).find(a),
    {
        let mut entries: Vec<u64> = Vec::new();
        while entries.len() < PAGING_TABLE_ENTRY_COUNT
            invariant
                entries@.len() <= PAGING_TABLE_ENTRY_COUNT,
                forall|j: int| 0 <= j < entries@.len() ==> #[trigger] entries@[j] == 0,
                self.tables@ == old(self).tables@,
                self.entries@ == old(self).entries@,
            decreases PAGING_TABLE_ENTRY_COUNT - entries@.len(),
        {
            entries.push(0);
        }
        let ghost before = self.tables@;
        let ghost zeros = entries@;
        assert(zeros.len() == PAGING_TABLE_ENTRY_COUNT);
        self.tables.push(ChildTable { address: frame, entries });
        proof {
            assert(self.tables@ == before.push(self.tables@[before.len() as int]));
            assert(self.tables@[before.len() as int].entries@ == zeros);
            assert forall|k: int| 0 <= k < self.tables@.len() implies #[trigger] self.tables@[k].entries@.len()
                == PAGING_TABLE_ENTRY_COUNT by {
                if k < before.len() {
                    assert(self.tables@[k] == old(self).tables@[k]);
                    assert(old(self).tables@[k].entries@.len() == PAGING_TABLE_ENTRY_COUNT);
                }
            }
            lemma_table_index_extend(before, self.tables@[before.len() as int], frame);
            lemma_table_index_prefix(before, frame, before.len() as int);
            assert forall|k: int| 0 <= k < before.len() implies #[trigger] before[k].address != frame by {
                assert(old(self).addresses()[k] == before[k].address);
            }
            assert(self.addresses() =~= old(self).addresses().push(frame));
            assert forall|a: u64| old(self).find(a) >= 0 implies #[trigger] self.find(a) == old(self).find(a) by {
                lemma_table_index_extend(before, self.tables@[before.len() as int], a);
            }
        }
        self.tables.len() - 1
    }

    /// The entry that refers to a lower table at `address`: present, writable, user.
    fn table_entry(entry: u64, address: u64) -> (r: u64)
        ensures
            entry_frame(r) == entry_frame(address),
            entry_has(r, ENTRY_PRESENT),
            r & !PAGE_ENTRY_PHYSICAL_ADDRESS_MASK == entry & !PAGE_ENTRY_PHYSICAL_ADDRESS_MASK | ENTRY_PRESENT
                | ENTRY_WRITABLE | ENTRY_USER,
    {
        let mut e = entry;
        Self::set_address(&mut e, address);
        let e1 = e;
        Self::set_writable(&mut e);
        Self::set_user_accessability(&mut e, true);
        Self::set_present(&mut e);
        assert(entry_frame(e) == entry_frame(e1) && entry_has(e, ENTRY_PRESENT) && e & !0x000FFFFFFFFFF000u64 == entry
            & !0x000FFFFFFFFFF000u64 | 1u64 | 2u64 | 4u64) by (bit_vector)
            requires
                e == ((e1 | 2u64) | 4u64) | 1u64,
                e1 & !0x000FFFFFFFFFF000u64 == entry & !0x000FFFFFFFFFF000u64,
        ;
        e
    }

    /// The leaf entry for a 2 MiB page at `physical` with `flags`; the other
    /// bits of `entry` stay as they were.
    fn leaf_entry(entry: u64, physical: u64, flags: PagingFlags) -> (r: u64)
        ensures
            leaf_matches(r, physical, flags),
            r & !LEAF_BITS == entry & !LEAF_BITS,
    {
        let mut e = entry;
        Self::set_address(&mut e, physical);
        let e1 = e;
        Self::set_writable(&mut e);
        let e2 = e;
        let cached = !flags.contains(FLAG_NO_CACHE);
        Self::set_cached(&mut e, cached);
        let e3 = e;
        let user = flags.contains(FLAG_USER);
        Self::set_user_accessability(&mut e, user);
        let e4 = e;
        Self::set_page_size_extension(&mut e, true);
        Self::set_present(&mut e);
        assert(entry_frame(e) == entry_frame(e1) && entry_has(e, ENTRY_PRESENT) && entry_has(e, ENTRY_WRITABLE)
            && entry_has(e, ENTRY_PAGE_SIZE_EXTENSION) && entry_has(e, ENTRY_USER) == user && entry_has(e, ENTRY_CACHED)
            == cached && e & !0x000FFFFFFFFFF097u64 == entry & !0x000FFFFFFFFFF097u64) by (bit_vector)
            requires
                e1 & !0x000FFFFFFFFFF000u64 == entry & !0x000FFFFFFFFFF000u64,
                e2 == e1 | 2u64,
                e3 == (if cached {
                    e2 | 0x10u64
                } else {
                    e2 & !0x10u64
                }),
                e4 == (if user {
                    e3 | 4u64
                } else {
                    e3 & !4u64
                }),
                e == (e4 | 0x80u64) | 1u64,
        ;
        e
    }


    /// The tables on the path of `v`: how many new ones mapping `v` needs,
    /// the L3 table (when the root entry is present) and the L2 table (when
    /// the L3 entry is present too).
    fn resolve_path(&self, v: u64) -> (r: Result<(usize, usize, usize), MapError>)
        requires
            self.wf(),
        ensures
            self.path_missing(v) ==> r == Err::<(usize, usize, usize), MapError>(MapError::TableMissing),
            !self.path_missing(v) && self.path_clash(v) ==> r == Err::<(usize, usize, usize), MapError>(MapError::TableClash),
            !self.path_missing(v) && !self.path_clash(v) ==> r is Ok,
            r matches Ok((needed, t3, t2)) ==> {
                &&& needed == self.tables_needed(v)
                &&& needed <= 1 ==> t3 == self.l3_table(v) && t3 < self.tables@.len()
                &&& needed == 0 ==> t2 == self.l2_table(v) && t2 < self.tables@.len() && t2 != t3
            },
    {
        let l3 = ((v >> 30u64) & 0x1ffu64) as usize;
        let l4 = ((v >> 39u64) & 0x1ffu64) as usize;
        proof {
            assert((v >> 30u64) & 0x1ffu64 < 512 && (v >> 39u64) & 0x1ffu64 < 512) by (bit_vector);
        }
        let e4 = self.entries[l4];
        if !Self::is_present(e4) {
            return Ok((2, 0, 0));
        }
        let found = self.find_table(Self::physical_address_from_entry(e4));
        proof {
            lemma_table_index(self.tables@, entry_frame(e4), self.tables@.len() as int);
        }
        let t3 = match found {
            Some(i) => i,
            None => return Err(MapError::TableMissing),
        };
        let e3 = self.tables[t3].entries[l3];
        if !Self::is_present(e3) {
            return Ok((1, t3, 0));
        }
        let found = self.find_table(Self::physical_address_from_entry(e3));
        proof {
            lemma_table_index(self.tables@, entry_frame(e3), self.tables@.len() as int);
        }
        match found {
            Some(i) => {
                if i == t3 {
                    return Err(MapError::TableClash);
                }
                Ok((0, t3, i))
            },
            None => Err(MapError::TableMissing),
        }
    }

    /// Writes the leaf of `v` in the existing L2 table `t2`.
    #[verifier::spinoff_prover]
    fn build_leaf_only(&mut self, v: u64, p: u64, flags: PagingFlags, t3: usize, t2: usize)
        requires
            old(self).wf(),
            !old(self).path_missing(v),
            !old(self).path_clash(v),
            old(self).tables_needed(v) == 0,
            t3 == old(self).l3_table(v),
            t2 == old(self).l2_table(v),
            t2 < old(self).tables@.len(),
        ensures
            final(self).wf(),
            Self::mapped_tables(old(self), final(self), v, p, flags),
            final(self).addresses() == old(self).addresses(),
    {
        let l2 = ((v >> 21u64) & 0x1ffu64) as usize;
        proof {
            assert((v >> 21u64) & 0x1ffu64 < 512) by (bit_vector);
            lemma_table_index(old(self).tables@, entry_frame(old(self).l4_entry(v)), old(self).tables@.len() as int);
        }
        let e2 = self.tables[t2].entries[l2];
        let leaf = Self::leaf_entry(e2, p, flags);
        self.tables[t2].entries.set(l2, leaf);
        proof {
            lemma_same_addresses(*old(self), *self);
            assert(self.tables@[t3 as int] == old(self).tables@[t3 as int]);
            assert(self.walk(v) == Some(leaf));
        }
    }

    /// Adds the L2 table at `f1` below the existing L3 table `t3` and writes the leaf of `v` there.
    #[verifier::spinoff_prover]
    fn build_l2(&mut self, v: u64, p: u64, flags: PagingFlags, t3: usize, f1: u64)
        requires
            old(self).wf(),
            !old(self).path_missing(v),
            old(self).tables_needed(v) == 1,
            t3 == old(self).l3_table(v),
            t3 < old(self).tables@.len(),
            !old(self).addresses().contains(f1),
            entry_frame(f1) == f1,
        ensures
            final(self).wf(),
            Self::mapped_tables(old(self), final(self), v, p, flags),
            final(self).addresses() == old(self).addresses().push(f1),
            final(self).tables@[old(self).tables@.len() as int].address == f1,
    {
        let l2 = ((v >> 21u64) & 0x1ffu64) as usize;
        let l3 = ((v >> 30u64) & 0x1ffu64) as usize;
        proof {
            assert((v >> 21u64) & 0x1ffu64 < 512 && (v >> 30u64) & 0x1ffu64 < 512) by (bit_vector);
        }
        let e3 = self.tables[t3].entries[l3];
        let i1 = self.push_table(f1);
        let ghost pushed = *self;
        self.tables[t3].entries.set(l3, Self::table_entry(e3, f1));
        let e = self.tables[i1].entries[l2];
        let leaf = Self::leaf_entry(e, p, flags);
        self.tables[i1].entries.set(l2, leaf);
        proof {
            lemma_same_addresses(pushed, *self);
            assert(self.find(f1) == i1);
            assert(old(self).find(entry_frame(old(self).l4_entry(v))) == t3);
            assert(pushed.find(entry_frame(old(self).l4_entry(v))) == t3);
            assert(self.find(entry_frame(old(self).l4_entry(v))) == t3);
            assert forall|k: int| 0 <= k < old(self).tables@.len() implies #[trigger] self.tables@[k].address
                == old(self).tables@[k].address by {
                assert(pushed.tables@[k] == old(self).tables@[k]);
            }
            assert forall|k: int, j: int|
                0 <= k < old(self).tables@.len() && 0 <= j < PAGING_TABLE_ENTRY_COUNT implies #[trigger] self.tables@[k].entries@[j]
                    == old(self).tables@[k].entries@[j] || (k == t3 && j == l3) by {
                assert(pushed.tables@[k] == old(self).tables@[k]);
            }
            assert(self.walk(v) == Some(leaf));
        }
    }

    /// Adds the L3 table at `f1` and the L2 table at `f2` below the root and writes the leaf of `v`.
    #[verifier::spinoff_prover]
    fn build_l3_l2(&mut self, v: u64, p: u64, flags: PagingFlags, f1: u64, f2: u64)
        requires
            old(self).wf(),
            old(self).tables_needed(v) == 2,
            !old(self).addresses().contains(f1),
            !old(self).addresses().push(f1).contains(f2),
            entry_frame(f1) == f1,
            entry_frame(f2) == f2,
        ensures
            final(self).wf(),
            Self::mapped_tables(old(self), final(self), v, p, flags),
            final(self).addresses() == old(self).addresses().push(f1).push(f2),
            final(self).tables@[old(self).tables@.len() as int].address == f1,
            final(self).tables@[old(self).tables@.len() as int + 1].address == f2,
    {
        let l2 = ((v >> 21u64) & 0x1ffu64) as usize;
        let l3 = ((v >> 30u64) & 0x1ffu64) as usize;
        let l4 = ((v >> 39u64) & 0x1ffu64) as usize;
        proof {
            assert((v >> 21u64) & 0x1ffu64 < 512 && (v >> 30u64) & 0x1ffu64 < 512 && (v >> 39u64) & 0x1ffu64 < 512)
                by (bit_vector);
        }
        let e4 = self.entries[l4];
        let i1 = self.push_table(f1);
        let ghost first = *self;
        proof {
            assert(first.addresses() == old(self).addresses().push(f1));
        }
        let i2 = self.push_table(f2);
        proof {
            assert(first.find(f1) == i1);
            assert(self.find(f1) == i1);
        }
        let ghost pushed = *self;
        self.entries.set(l4, Self::table_entry(e4, f1));
        let e = self.tables[i1].entries[l3];
        let l3_value = Self::table_entry(e, f2);
        self.tables[i1].entries.set(l3, l3_value);
        proof {
            assert(e == 0);
            assert((0u64 & !0x000FFFFFFFFFF000u64) | 1u64 | 2u64 | 4u64 == 1u64 | 2u64 | 4u64) by (bit_vector);
        }
        let e = self.tables[i2].entries[l2];
        let leaf = Self::leaf_entry(e, p, flags);
        self.tables[i2].entries.set(l2, leaf);
        proof {
            lemma_same_addresses(pushed, *self);
            assert(self.find(f1) == i1 && self.find(f2) == i2);
            assert(self.tables@[i1 as int].entries@[l3 as int] == l3_value);
            assert(entry_frame(self.entries@[l4 as int]) == f1);
            assert(entry_frame(l3_value) == f2);
            assert forall|k: int| 0 <= k < old(self).tables@.len() implies #[trigger] self.tables@[k].address
                == old(self).tables@[k].address by {
                assert(pushed.tables@[k] == old(self).tables@[k]);
            }
            assert forall|k: int, j: int|
                0 <= k < old(self).tables@.len() && 0 <= j < PAGING_TABLE_ENTRY_COUNT implies #[trigger] self.tables@[k].entries@[j]
                    == old(self).tables@[k].entries@[j] by {
                assert(pushed.tables@[k] == old(self).tables@[k]);
            }
            assert(self.walk(v) == Some(leaf));
        }
    }

    /// Maps the 2 MiB page at `virtual_address` to `physical_address`, making
    /// the L3 and L2 tables it needs from 4 KiB frames of `allocator`. Returns
    /// whether the TLB is to be flushed (unless the flags say not to). On an
    /// error no entry is written; when the second of two frames is missing,
    /// the first stays taken from the allocator.
    #[verifier::spinoff_prover]
    #[verifier::rlimit(100)]
    pub fn map_page(
        &mut self,
        allocator: &mut PhysicalBuddyAllocator,
        virtual_address: VirtualAddress,
        physical_address: PhysicalAddress,
        flags: PagingFlags,
    ) -> (r: Result<bool, MapError>)
        requires
            old(self).wf(),
            old(allocator).wf(),
            old(allocator).free_disjoint(),
            outside_free(old(self).addresses(), *old(allocator)),
            virtual_address.0 % HUGE_PAGE_SIZE == 0,
            physical_address.0 % HUGE_PAGE_SIZE == 0,
        ensures
            final(self).wf(),
            final(allocator).wf(),
            final(allocator).reserved@ == old(allocator).reserved@,
            final(allocator).free_disjoint(),
            outside_free(final(self).addresses(), *final(allocator)),
            ({
                let v = virtual_address.0;
                let needed = old(self).tables_needed(v);
                let no_frames = needed >= 1 && old(allocator).allocation_source(7) < 0 || needed == 2 && !has_two_frames(
                    *old(allocator),
                );
                &&& old(self).path_missing(v) ==> r == Err::<bool, MapError>(MapError::TableMissing)
                &&& !old(self).path_missing(v) && old(self).path_clash(v) ==> r == Err::<bool, MapError>(
                    MapError::TableClash,
                )
                &&& !old(self).path_missing(v) && !old(self).path_clash(v) && no_frames ==> r == Err::<
                    bool,
                    MapError,
                >(MapError::OutOfMemory)
                &&& !old(self).path_missing(v) && !old(self).path_clash(v) && !no_frames ==> r is Ok
                &&& r == Err::<bool, MapError>(MapError::OutOfMemory) && needed == 2 && old(allocator).allocation_source(7)
                    >= 0 ==> exists|taken: PhysicalBuddyAllocator|
                    #[trigger] PhysicalBuddyAllocator::allocation_result(
                        &*old(allocator),
                        &taken,
                        4096,
                        Some(PhysicalAddress(old(allocator).free_list(old(allocator).allocation_source(7))[0])),
                    ) && final(allocator).layers@ == taken.layers@
            }),
            r is Err ==> final(self).entries@ == old(self).entries@ && final(self).tables@ == old(self).tables@,
            r is Err && (r != Err::<bool, MapError>(MapError::OutOfMemory) || old(self).tables_needed(virtual_address.0) < 2
                || old(allocator).allocation_source(7) < 0) ==> final(allocator).layers@ == old(allocator).layers@,
            r is Ok ==> r->Ok_0 == !flags.has(FLAG_NO_FLUSH) && Self::mapped(
                old(self),
                final(self),
                *old(allocator),
                *final(allocator),
                virtual_address.0,
                physical_address.0,
                flags,
            ),
    {
        let v = virtual_address.value();
        let (needed, t3, t2) = match self.resolve_path(v) {
            Ok(path) => path,
            Err(e) => return Err(e),
        };
        let ghost start = *self;
        let ghost alloc_start = *allocator;
        let mut f1: u64 = 0;
        let mut f2: u64 = 0;
        if needed >= 1 {
            match take_frame(allocator, Ghost(self.addresses())) {
                Some(f) => {
                    f1 = f;
                },
                None => {
                    proof {
                        lemma_outside_same(self.addresses(), alloc_start, *allocator);
                    }
                    return Err(MapError::OutOfMemory);
                },
            }
        }
        let ghost alloc_mid = *allocator;
        if needed == 2 {
            proof {
                lemma_second_frame(alloc_start, alloc_mid, f1);
            }
            match take_frame(allocator, Ghost(self.addresses().push(f1))) {
                Some(f) => {
                    f2 = f;
                },
                None => {
                    proof {
                        assert(layer_for_size_4096());
                        alloc_start.lemma_deepest_nonempty(7);
                        assert(f1 == alloc_start.free_list(alloc_start.allocation_source(7))[0]);
                        assert(PhysicalBuddyAllocator::allocation_result(&alloc_start, &alloc_mid, 4096, Some(PhysicalAddress(f1))));
                        lemma_outside_same(self.addresses().push(f1), alloc_mid, *allocator);
                        lemma_outside_prefix(self.addresses(), f1, *allocator);
                    }
                    return Err(MapError::OutOfMemory);
                },
            }
        }
        proof {
            if needed == 0 {
                lemma_outside_same(self.addresses(), alloc_start, *allocator);
            }
        }
        if needed == 2 {
            self.build_l3_l2(v, physical_address.value(), flags, f1, f2);
            proof {
                assert(self.addresses() == start.addresses().push(f1).push(f2));
                assert(PhysicalBuddyAllocator::allocation_result(&alloc_start, &alloc_mid, 4096, Some(PhysicalAddress(self.tables@[start.tables@.len() as int].address))));
            }
        } else if needed == 1 {
            self.build_l2(v, physical_address.value(), flags, t3, f1);
            proof {
                assert(self.addresses() == start.addresses().push(f1));
            }
        } else {
            self.build_leaf_only(v, physical_address.value(), flags, t3, t2);
        }
        Ok(!flags.contains(FLAG_NO_FLUSH))
    }
}

} // verus!
