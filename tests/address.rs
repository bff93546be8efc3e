use kernel_core::memory::mapper::{
    is_kernel_address, to_kernel_address, to_physical_address, to_physical_address_u64, KERNEL_MAP_BASE,
};
use kernel_core::memory::{PhysicalAddress, VirtualAddress};
use kernel_core::processor::Processor;
use kernel_core::BootStage;

#[test]
fn translation_round_trip() {
    for &p in [0u64, 0x1000, 0xFEC0_0000, 0x7FFF_FFFF_FFFF].iter() {
        assert_eq!(to_physical_address(to_kernel_address(p)), p);
        assert_eq!(to_kernel_address(p), p + KERNEL_MAP_BASE);
        assert!(is_kernel_address(to_kernel_address(p)));
    }
    for &v in [KERNEL_MAP_BASE, 0xFFFF_8000_0010_0000, u64::MAX].iter() {
        assert_eq!(to_kernel_address(to_physical_address(v)), v);
    }
    assert!(!is_kernel_address(0x1000));
    assert_eq!(to_physical_address_u64(0xFFFF_8000_0000_1234), 0x1234);
}

#[test]
fn alignment_operations() {
    let p = PhysicalAddress::new(0x12345);
    assert!(!p.is_aligned(0x1000));
    assert_eq!(p.align(0x1000).value(), 0x12000);
    assert_eq!(p.ceil(0x1000).value(), 0x13000);
    assert_eq!(PhysicalAddress::new(0x13000).ceil(0x1000).value(), 0x13000);
    assert!(PhysicalAddress::null().is_aligned(0x20_0000));
    let v = VirtualAddress::new(0xFFFF_8000_0030_0001);
    assert_eq!(v.align(0x20_0000).value(), 0xFFFF_8000_0020_0000);
    assert_eq!(v.ceil(0x20_0000).value(), 0xFFFF_8000_0040_0000);
    assert!(VirtualAddress::to_kernel(PhysicalAddress::new(0x20_0000)).is_aligned(0x20_0000));
    assert_eq!(VirtualAddress::null().value(), 0);
}

#[test]
fn boot_stages_advance_in_order() {
    assert_eq!(BootStage::Boot.advance(BootStage::PagingOn), Some(BootStage::PagingOn));
    assert_eq!(BootStage::Boot.advance(BootStage::IdtLoaded), None);
    assert_eq!(BootStage::ApicReady.next(), Some(BootStage::IrqsEnabled));
    assert_eq!(BootStage::IrqsEnabled.next(), None);
}

#[test]
fn processor_block_starts_on_the_kernel_stack() {
    let p = Processor::new(VirtualAddress::new(0x8000), VirtualAddress::null(), 3);
    assert_eq!(p.general_kernel_stack_pointer, VirtualAddress::new(0x8000));
    assert_eq!(p.user_stack_pointer.value(), 0);
    assert_eq!(p.index, 3);
}

#[test]
fn conversions_into_physical_addresses() {
    assert_eq!(PhysicalAddress::from(0x1000u64), PhysicalAddress::new(0x1000));
    assert_eq!(PhysicalAddress::from(0x2000usize), PhysicalAddress::new(0x2000));
    assert_eq!(
        PhysicalAddress::try_from(VirtualAddress::new(0xFFFF_8000_0000_3000)),
        Ok(PhysicalAddress::new(0x3000))
    );
    assert!(PhysicalAddress::try_from(VirtualAddress::new(0x3000)).is_err());
}
