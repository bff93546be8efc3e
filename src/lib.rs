//! Memory-management and interrupt-dispatch core of a small x86-64 kernel:
//! address arithmetic, a buddy frame allocator, a page-table walker, the
//! kernel direct map, interrupt tables and the ACPI/APIC bring-up logic.
use vstd::prelude::*;

pub mod interrupts;
pub mod memory;
pub mod processor;

use crate::memory::physical_buddy_allocator::ALLOCATION_SIZE;
use crate::memory::PhysicalAddress;

verus! {

/// What firmware says a physical memory range holds.
#[derive(Clone, Copy, Debug, PartialEq, Eq, Structural)]
pub enum RegionKind {
    Unknown,
    Available,
    Reserved,
}

/// A half-open physical range `[start, end)`.
#[derive(Clone, Copy, Debug, PartialEq, Eq, Structural)]
pub struct Region {
    pub kind: RegionKind,
    pub start: u64,
    pub end: u64,
}

impl Region {
    pub fn new(kind: RegionKind, start: u64, end: u64) -> (r: Region)
        ensures
            r == (Region { kind, start, end }),
    {
        Self { kind, start, end }
    }

    pub fn size(&self) -> (r: u64)
        requires
            self.start <= self.end,
        ensures
            r == self.end - self.start,
    {
        self.end - self.start
    }
}

/// Whether `region` is counted by a search for regions of `kind` (all when `None`).
pub open spec fn region_selected(region: Region, kind: Option<RegionKind>) -> bool {
    match kind {
        Some(k) => region.kind == k,
        None => true,
    }
}

/// The largest end among the first `n` regions selected by `kind`, zero if none.
pub open spec fn max_end(regions: Seq<Region>, kind: Option<RegionKind>, n: int) -> u64
    decreases n,
{
    if n <= 0 {
        0
    } else {
        let rest = max_end(regions, kind, n - 1);
        if region_selected(regions[n - 1], kind) && regions[n - 1].end > rest {
            regions[n - 1].end
        } else {
            rest
        }
    }
}

/// The memory map that firmware hands over.
pub struct Regions {
    pub data: Vec<Region>,
}

impl Regions {
    pub fn length(&self) -> (r: usize)
        ensures
            r == self.data@.len(),
    {
        self.data.len()
    }

    /// The largest end of the regions of `kind` (of all regions when `None`);
    /// zero when there is none.
    pub fn find_end(&self, kind: Option<RegionKind>) -> (r: u64)
        ensures
            r == max_end(self.data@, kind, self.data@.len() as int),
    {
        let mut end: u64 = 0;
        let mut index: usize = 0;
        while index < self.data.len()
            invariant
                index <= self.data@.len(),
                end == max_end(self.data@, kind, index as int),
            decreases self.data@.len() - index,
        {
            let region = self.data[index];
            let selected = match kind {
                Some(k) => region.kind == k,
                None => true,
            };
            if selected && region.end > end {
                end = region.end;
            }
            index = index + 1;
        }
        end
    }
}

/// The framebuffer that firmware set up.
pub struct GraphicsInfo {
    pub framebuffer: u64,
    pub width: u32,
    pub height: u32,
    pub stride: u32,
}

/// Everything firmware hands to the kernel at entry.
pub struct BootInfo {
    pub regions: Regions,
    pub kernel_regions: Regions,
    pub graphics: GraphicsInfo,
    pub rsdp_physical_address: u64,
}

/// Whether `region` can hold the allocator: available, large enough, and
/// ending at or after `kernel_end`.
pub open spec fn can_hold_allocator(region: Region, kernel_end: u64) -> bool {
    &&& region.kind == RegionKind::Available
    &&& region.start <= region.end
    &&& region.end - region.start >= ALLOCATION_SIZE
    &&& region.end >= kernel_end
}

/// Position of the first of the first `n` regions that can hold the allocator; -1 if none.
pub open spec fn first_placement(regions: Seq<Region>, kernel_end: u64, n: int) -> int
    decreases n,
{
    if n <= 0 {
        -1
    } else {
        let earlier = first_placement(regions, kernel_end, n - 1);
        if earlier >= 0 {
            earlier
        } else if can_hold_allocator(regions[n - 1], kernel_end) {
            n - 1
        } else {
            -1
        }
    }
}

proof fn lemma_first_placement(regions: Seq<Region>, kernel_end: u64, n: int, m: int)
    requires
        0 <= n <= m,
        first_placement(regions, kernel_end, n) >= 0,
    ensures
        first_placement(regions, kernel_end, m) == first_placement(regions, kernel_end, n),
    decreases m - n,
{
    if m > n {
        lemma_first_placement(regions, kernel_end, n, m - 1);
    }
}

/// Where the buddy allocator goes: the start of the first available region
/// that holds it and ends at or after `kernel_end`.
pub fn allocator_placement(regions: &Regions, kernel_end: u64) -> (r: Option<PhysicalAddress>)
    ensures
        ({
            let i = first_placement(regions.data@, kernel_end, regions.data@.len() as int);
            &&& i < 0 ==> r.is_none()
            &&& i >= 0 ==> r == Some(PhysicalAddress(regions.data@[i].start))
        }),
{
    let mut index: usize = 0;
    while index < regions.data.len()
        invariant
            index <= regions.data@.len(),
            first_placement(regions.data@, kernel_end, index as int) == -1,
        decreases regions.data@.len() - index,
    {
        let region = regions.data[index];
        if region.kind == RegionKind::Available && region.start <= region.end && region.size()
            >= ALLOCATION_SIZE && region.end >= kernel_end {
            proof {
                assert(first_placement(regions.data@, kernel_end, index as int + 1) == index);
                lemma_first_placement(regions.data@, kernel_end, index as int + 1, regions.data@.len() as int);
            }
            return Some(PhysicalAddress::new(region.start));
        }
        index = index + 1;
    }
    None
}

/// The boot sequence, each stage reached only from the one before.
#[derive(Clone, Copy, Debug, PartialEq, Eq, Structural)]
pub enum BootStage {
    Boot,
    PagingOn,
    IdtLoaded,
    ApicReady,
    IrqsEnabled,
}

/// The stage after `stage`, if any.
pub open spec fn successor(stage: BootStage) -> Option<BootStage> {
    match stage {
        BootStage::Boot => Some(BootStage::PagingOn),
        BootStage::PagingOn => Some(BootStage::IdtLoaded),
        BootStage::IdtLoaded => Some(BootStage::ApicReady),
        BootStage::ApicReady => Some(BootStage::IrqsEnabled),
        BootStage::IrqsEnabled => None,
    }
}

impl BootStage {
    pub fn next(self) -> (r: Option<BootStage>)
        ensures
            r == successor(self),
    {
        match self {
            BootStage::Boot => Some(BootStage::PagingOn),
            BootStage::PagingOn => Some(BootStage::IdtLoaded),
            BootStage::IdtLoaded => Some(BootStage::ApicReady),
            BootStage::ApicReady => Some(BootStage::IrqsEnabled),
            BootStage::IrqsEnabled => None,
        }
    }

    /// Moves to `to` if it is the next stage; `None` otherwise.
    pub fn advance(self, to: BootStage) -> (r: Option<BootStage>)
        ensures
            r == (if successor(self) == Some(to) {
                Some(to)
            } else {
                None::<BootStage>
            }),
    {
        match self.next() {
            Some(n) => {
                if n == to {
                    Some(to)
                } else {
                    None
                }
            },
            None => None,
        }
    }
}

} // verus!
