//! Physical and virtual addresses, and the constants of the memory layout.
use vstd::arithmetic::power2::pow2;
use vstd::prelude::*;

pub mod mapper;
pub mod paging_table;
pub mod physical_buddy_allocator;

use crate::memory::mapper::{
    is_kernel_address, spec_is_kernel, spec_to_kernel, spec_to_physical, to_kernel_address, to_physical_address,
    KERNEL_MAP_BASE,
};

verus! {

#[allow(non_upper_case_globals)]
pub const KiB: u64 = 0x400;
#[allow(non_upper_case_globals)]
pub const MiB: u64 = 0x100000;
#[allow(non_upper_case_globals)]
pub const GiB: u64 = 0x40000000;
pub const PAGE_SIZE: u64 = 0x1000;
pub const HUGE_PAGE_SIZE: u64 = 0x200000;

pub const KERNEL_CODE_SELECTOR: u16 = 0x8;
pub const KERNEL_DATA_SELECTOR: u16 = 0x10;
pub const USER_CODE_SELECTOR: u16 = 0x18;
pub const USER_DATA_SELECTOR: u16 = 0x20;

/// True when `alignment` is a power of two.
pub open spec fn is_power_of_two(alignment: u64) -> bool {
    alignment != 0 && alignment & ((alignment - 1) as u64) == 0
}

/// The largest multiple of `alignment` that is not above `value`.
pub open spec fn align_down(value: u64, alignment: u64) -> int
    recommends
        alignment != 0,
{
    value - value % alignment
}

/// The smallest multiple of `alignment` that is not below `value`.
pub open spec fn align_up(value: u64, alignment: u64) -> int
    recommends
        alignment != 0,
{
    if value % alignment == 0 {
        value as int
    } else {
        value + (alignment - value % alignment)
    }
}

proof fn lemma_power_of_two_exponent(alignment: u64) -> (n: nat)
    requires
        is_power_of_two(alignment),
    ensures
        n < 64,
        alignment == pow2(n),
    decreases alignment,
{
    if alignment == 1 {
        vstd::arithmetic::power2::lemma2_to64();
        0
    } else {
        let half = alignment / 2;
        assert(alignment % 2 == 0 && half != 0 && half & ((half - 1) as u64) == 0) by (bit_vector)
            requires
                alignment != 1,
                alignment != 0,
                alignment & ((alignment - 1) as u64) == 0,
                half == alignment / 2,
        ;
        let m = lemma_power_of_two_exponent(half);
        vstd::arithmetic::power2::lemma_pow2_unfold(m + 1);
        if m == 63 {
            vstd::arithmetic::power2::lemma2_to64_rest();
            assert(false);
        }
        m + 1
    }
}

proof fn lemma_mask_is_mod(value: u64, alignment: u64)
    requires
        is_power_of_two(alignment),
    ensures
        value & ((alignment - 1) as u64) == value % alignment,
        value & !((alignment - 1) as u64) == value - value % alignment,
{
    let n = lemma_power_of_two_exponent(alignment);
    vstd::bits::lemma_u64_low_bits_mask_is_mod(value, n);
    let mask = (alignment - 1) as u64;
    assert(value & !mask == value - (value & mask)) by (bit_vector);
}

fn mask_of(alignment: u64) -> (r: u64)
    requires
        is_power_of_two(alignment),
    ensures
        r == alignment - 1,
{
    alignment - 1
}

/// Rounds `value` down to `alignment`.
fn floor_to(value: u64, alignment: u64) -> (r: u64)
    requires
        is_power_of_two(alignment),
    ensures
        r == align_down(value, alignment),
{
    proof {
        lemma_mask_is_mod(value, alignment);
    }
    value & !mask_of(alignment)
}

/// Rounds `value` up to `alignment`.
fn ceil_to(value: u64, alignment: u64) -> (r: u64)
    requires
        is_power_of_two(alignment),
        value + alignment - 1 <= u64::MAX,
    ensures
        r == align_up(value, alignment),
{
    let sum = value + mask_of(alignment);
    proof {
        lemma_mask_is_mod(sum, alignment);
        assert(align_down(sum, alignment) == align_up(value, alignment)) by (nonlinear_arith)
            requires
                sum == value + alignment - 1,
                alignment > 0,
        {
            lemma_ceil_by_floor(value as int, alignment as int);
        }
    }
    sum & !mask_of(alignment)
}

proof fn lemma_ceil_by_floor(value: int, alignment: int)
    requires
        value >= 0,
        alignment > 0,
    ensures
        (value + alignment - 1) - (value + alignment - 1) % alignment == if value % alignment == 0 {
            value
        } else {
            value + (alignment - value % alignment)
        },
{
    let q = value / alignment;
    let r = value % alignment;
    vstd::arithmetic::div_mod::lemma_fundamental_div_mod(value, alignment);
    if r == 0 {
        vstd::arithmetic::div_mod::lemma_mod_multiples_vanish(q, alignment - 1, alignment);
        vstd::arithmetic::div_mod::lemma_small_mod((alignment - 1) as nat, alignment as nat);
    } else {
        vstd::arithmetic::div_mod::lemma_mod_multiples_vanish(q + 1, r - 1, alignment);
        vstd::arithmetic::div_mod::lemma_small_mod((r - 1) as nat, alignment as nat);
        assert(value + alignment - 1 == alignment * (q + 1) + (r - 1)) by (nonlinear_arith)
            requires
                value == alignment * q + r,
        ;
    }
}

/// A physical memory address.
#[derive(Copy, Clone, Debug, PartialEq, Eq, PartialOrd, Ord, Structural)]
pub struct PhysicalAddress(pub u64);

impl PhysicalAddress {
    pub fn new(address: u64) -> (r: Self)
        ensures
            r.0 == address,
    {
        PhysicalAddress(address)
    }

    pub fn null() -> (r: Self)
        ensures
            r.0 == 0,
    {
        PhysicalAddress(0)
    }

    pub fn is_aligned(self, alignment: u64) -> (r: bool)
        requires
            is_power_of_two(alignment),
        ensures
            r == (self.0 % alignment == 0),
    {
        proof {
            lemma_mask_is_mod(self.0, alignment);
        }
        (self.0 & mask_of(alignment)) == 0
    }

    pub fn align(self, alignment: u64) -> (r: Self)
        requires
            is_power_of_two(alignment),
        ensures
            r.0 == align_down(self.0, alignment),
    {
        Self::new(floor_to(self.0, alignment))
    }

    pub fn ceil(self, alignment: u64) -> (r: Self)
        requires
            is_power_of_two(alignment),
            self.0 + alignment - 1 <= u64::MAX,
        ensures
            r.0 == align_up(self.0, alignment),
    {
        Self::new(ceil_to(self.0, alignment))
    }

    pub fn value(self) -> (r: u64)
        ensures
            r == self.0,
    {
        self.0
    }
}

/// A virtual memory address.
#[derive(Copy, Clone, Debug, PartialEq, Eq, PartialOrd, Ord, Structural)]
pub struct VirtualAddress(pub u64);

impl VirtualAddress {
    pub fn new(address: u64) -> (r: Self)
        ensures
            r.0 == address,
    {
        VirtualAddress(address)
    }

    pub fn null() -> (r: Self)
        ensures
            r.0 == 0,
    {
        VirtualAddress(0)
    }

    /// The address of a physical address inside the kernel's direct map.
    pub fn to_kernel(address: PhysicalAddress) -> (r: VirtualAddress)
        ensures
            r.0 == spec_to_kernel(address.0),
            address.0 < 0x800000000000 ==> r.0 == address.0 + KERNEL_MAP_BASE,
    {
        VirtualAddress(to_kernel_address(address.value()))
    }

    pub fn is_aligned(self, alignment: u64) -> (r: bool)
        requires
            is_power_of_two(alignment),
        ensures
            r == (self.0 % alignment == 0),
    {
        proof {
            lemma_mask_is_mod(self.0, alignment);
        }
        (self.0 & mask_of(alignment)) == 0
    }

    pub fn align(self, alignment: u64) -> (r: Self)
        requires
            is_power_of_two(alignment),
        ensures
            r.0 == align_down(self.0, alignment),
    {
        Self(floor_to(self.0, alignment))
    }

    pub fn ceil(self, alignment: u64) -> (r: Self)
        requires
            is_power_of_two(alignment),
            self.0 + alignment - 1 <= u64::MAX,
        ensures
            r.0 == align_up(self.0, alignment),
    {
        Self(ceil_to(self.0, alignment))
    }

    pub fn value(self) -> (r: u64)
        ensures
            r == self.0,
    {
        self.0
    }
}

impl From<u64> for PhysicalAddress {
    fn from(value: u64) -> (r: Self) {
        PhysicalAddress::new(value)
    }
}

impl vstd::std_specs::convert::FromSpecImpl<u64> for PhysicalAddress {
    open spec fn obeys_from_spec() -> bool {
        true
    }

    open spec fn from_spec(v: u64) -> PhysicalAddress {
        PhysicalAddress(v)
    }
}

impl From<usize> for PhysicalAddress {
    fn from(value: usize) -> (r: Self) {
        PhysicalAddress::new(value as u64)
    }
}

impl vstd::std_specs::convert::FromSpecImpl<usize> for PhysicalAddress {
    open spec fn obeys_from_spec() -> bool {
        true
    }

    open spec fn from_spec(v: usize) -> PhysicalAddress {
        PhysicalAddress(v as u64)
    }
}

/// A virtual address that lies outside the kernel's direct map has no physical address there.
#[derive(Clone, Copy, Debug, PartialEq, Eq, Structural)]
pub struct NotKernelAddress;

impl TryFrom<VirtualAddress> for PhysicalAddress {
    type Error = NotKernelAddress;

    fn try_from(address: VirtualAddress) -> (r: Result<Self, NotKernelAddress>) {
        if is_kernel_address(address.value()) {
            Ok(PhysicalAddress::new(to_physical_address(address.value())))
        } else {
            Err(NotKernelAddress)
        }
    }
}

impl vstd::std_specs::convert::TryFromSpecImpl<VirtualAddress> for PhysicalAddress {
    open spec fn obeys_try_from_spec() -> bool {
        true
    }

    open spec fn try_from_spec(v: VirtualAddress) -> Result<PhysicalAddress, NotKernelAddress> {
        if spec_is_kernel(v.0) {
            Ok(PhysicalAddress(spec_to_physical(v.0)))
        } else {
            Err(NotKernelAddress)
        }
    }
}

} // verus!
