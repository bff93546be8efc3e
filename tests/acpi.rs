use kernel_core::interrupts::apic::{
    apic_base_from_msr, apic_base_msr_value, enabled_spurious_register, AcpiError, MadtError, APICInfo, MADT, RSDP20,
};
use kernel_core::memory::mapper::to_kernel_address;

fn header(signature: &[u8; 4], length: u32) -> Vec<u8> {
    let mut bytes = Vec::new();
    bytes.extend_from_slice(signature);
    bytes.extend_from_slice(&length.to_le_bytes());
    bytes.resize(36, 0);
    bytes
}

fn madt(entries: &[Vec<u8>]) -> Vec<u8> {
    let body: usize = entries.iter().map(|e| e.len()).sum();
    let mut bytes = header(b"APIC", (44 + body) as u32);
    bytes.extend_from_slice(&0xFEE0_0000u32.to_le_bytes());
    bytes.extend_from_slice(&1u32.to_le_bytes());
    for e in entries {
        bytes.extend_from_slice(e);
    }
    bytes
}

fn local_apic(id: u8) -> Vec<u8> {
    vec![0, 8, id, id, 1, 0, 0, 0]
}

fn io_apic(address: u32) -> Vec<u8> {
    let mut e = vec![1, 12, 0, 0];
    e.extend_from_slice(&address.to_le_bytes());
    e.extend_from_slice(&0u32.to_le_bytes());
    e
}

fn override_entry(address: u64) -> Vec<u8> {
    let mut e = vec![5, 12, 0, 0];
    e.extend_from_slice(&address.to_le_bytes());
    e
}

fn rsdp(revision: u8) -> RSDP20 {
    RSDP20 {
        signature: 0,
        checksum_1: 0,
        oem_id: [0; 6],
        revision,
        rsdt_address: 0x1000,
        xsdt_address: 0x2000,
        checksum_2: 0,
        reserved: [0; 3],
    }
}

#[test]
fn madt_parse_collects_controllers() {
    let bytes = madt(&[
        local_apic(0),
        io_apic(0xFEC0_0000),
        override_entry(0xFEE0_0000_0000_0000),
        local_apic(1),
    ]);
    let info = MADT::process(&bytes).expect("parse failed");
    assert_eq!(info.local_apic_ids, vec![0, 1]);
    assert_eq!(info.local_apic_count, 2);
    assert_eq!(info.ioapic_registers, to_kernel_address(0xFEC0_0000));
    assert_eq!(info.local_apic_registers, to_kernel_address(0xFEE0_0000_0000_0000));
}

#[test]
fn madt_keeps_first_ioapic_and_skips_unknown_kinds() {
    let bytes = madt(&[io_apic(0xFEC0_0000), vec![9, 6, 0, 0, 0, 0], io_apic(0xFEC1_0000)]);
    let info = MADT::process(&bytes).expect("parse failed");
    assert_eq!(info.ioapic_registers, to_kernel_address(0xFEC0_0000));
    assert_eq!(info.local_apic_registers, to_kernel_address(0xFEE0_0000));
    assert!(info.local_apic_ids.is_empty());
}

#[test]
fn madt_errors() {
    assert!(matches!(MADT::process(&[0u8; 10]), Err(MadtError::TooShort)));
    let mut truncated = madt(&[local_apic(0)]);
    truncated.pop();
    assert!(matches!(MADT::process(&truncated), Err(MadtError::TooShort)));
    assert!(matches!(MADT::process(&madt(&[vec![0, 0]])), Err(MadtError::MalformedEntry)));
    assert!(matches!(MADT::process(&madt(&[vec![0, 3, 0]])), Err(MadtError::MalformedEntry)));
    let many: Vec<Vec<u8>> = (0..257).map(|i| local_apic(i as u8)).collect();
    assert!(matches!(MADT::process(&madt(&many)), Err(MadtError::TooManyLocalApics)));
    let info = APICInfo::new();
    assert_eq!(info.local_apic_count, 0);
}

#[test]
fn signature_and_table_search() {
    let apic = RSDP20::signature_to_u32("APIC");
    assert_eq!(apic, 0x4349_5041);
    let mut rsdt = header(b"RSDT", 36 + 3 * 4);
    for address in [0x3000u32, 0x4000, 0x5000].iter() {
        rsdt.extend_from_slice(&address.to_le_bytes());
    }
    let facp = RSDP20::signature_to_u32("FACP");
    let found = rsdp(0).find_table(&rsdt, &[facp, apic, apic], "APIC").expect("search failed");
    assert_eq!(found, Some(to_kernel_address(0x4000)));
    assert_eq!(rsdp(0).find_table(&rsdt, &[facp, facp, facp], "APIC"), Ok(None));
    let mut xsdt = header(b"XSDT", 36 + 2 * 8);
    for address in [0x1_0000_3000u64, 0x6000].iter() {
        xsdt.extend_from_slice(&address.to_le_bytes());
    }
    assert_eq!(rsdp(2).table_addresses(&xsdt), Ok(vec![0x1_0000_3000, 0x6000]));
    assert_eq!(rsdp(0).table_addresses(&rsdt), Ok(vec![0x3000, 0x4000, 0x5000]));
    assert_eq!(rsdp(0).table_addresses(&rsdt[..20]), Err(AcpiError::TooShort));
    assert_eq!(
        RSDP20::find_table_with_signature(&[0x10, 0x20], &[facp, apic], apic),
        Some(to_kernel_address(0x20))
    );
}

#[test]
fn local_apic_register_values() {
    assert_eq!(apic_base_from_msr(0xFEE0_0900), 0xFEE0_0000);
    assert_eq!(apic_base_msr_value(0xFF_FEE0_0123), 0xFF_FEE0_0800);
    assert_eq!(enabled_spurious_register(0x0F), 0x1FF);
}
