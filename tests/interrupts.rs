use kernel_core::interrupts::ioapic::{RegisterWrite, IOAPIC};
use kernel_core::interrupts::{
    build_interrupt_tables, configure_interrupt, jump_reaches, stubs_reach_handler, write_interrupt_stub, GateKind,
    IDT, IDT_SIZE,
};
use kernel_core::memory::KERNEL_CODE_SELECTOR;

fn le32(bytes: &[u8]) -> u32 {
    u32::from_le_bytes([bytes[0], bytes[1], bytes[2], bytes[3]])
}

#[test]
fn idt_entry_thirty_three_is_a_present_trap_gate() {
    let stubs_base = 0xFFFF_8000_0010_2000u64;
    let handler = 0xFFFF_8000_0020_0000u64;
    let tables = build_interrupt_tables(0xFFFF_8000_0010_1000, stubs_base, handler);
    let entry = tables.idt[33];
    assert_eq!(entry.type_attributes, 0xF | 0x80);
    assert_eq!(entry.selector, KERNEL_CODE_SELECTOR);
    assert_eq!(entry.interrupt_stack_table_offset, 1);
    assert_eq!(entry.offset(), stubs_base + 33 * 16);
    assert_eq!(tables.idt[3].type_attributes, 0xE | 0x80);
    assert_eq!(tables.idtr.size as usize, IDT_SIZE - 1);
    assert_eq!(tables.idtr.table, 0xFFFF_8000_0010_1000);
    assert_eq!(tables.stubs.len(), 4096);
}

#[test]
fn stubs_push_the_vector_and_jump_to_the_entry() {
    let stubs_base = 0x10_2000u64;
    let handler = 0x8000u64;
    let tables = build_interrupt_tables(0x10_1000, stubs_base, handler);
    for n in 0..256u64 {
        let stub = &tables.stubs[(n * 16) as usize..(n * 16 + 16) as usize];
        let address = stubs_base + n * 16;
        assert_eq!(stub[0], 0x68);
        assert_eq!(le32(&stub[1..5]) as u64, n);
        let jump = if n < 32 { 5 } else {
            assert_eq!(stub[5], 0x68);
            assert_eq!(le32(&stub[6..10]) as u64, n);
            10
        };
        assert_eq!(stub[jump], 0xE9);
        let displacement = le32(&stub[jump + 1..jump + 5]) as i32 as i64;
        assert_eq!((address + jump as u64 + 5) as i64 + displacement, handler as i64);
        assert!(stub[jump + 5..].iter().all(|&b| b == 0x90));
    }
}

#[test]
fn far_handler_is_detected() {
    assert!(!jump_reaches(0x10_0000, 0x10_0000 + 0x4000_0000 + 11, 1));
    assert!(jump_reaches(0x10_0000, 0x10_0000 + 0x4000_0000 + 10, 1));
    assert!(!jump_reaches(0x4000_0000 + 0x10_0000, 0x10_0000 - 11, 40));
    let mut stubs = Vec::new();
    write_interrupt_stub(&mut stubs, 0x10_0000, 0x10_0000 + 0x4000_0000 + 10, 1);
    assert_eq!(stubs.len(), 16);
    assert!(!stubs_reach_handler(0x1_0000_0000, 0));
    assert!(stubs_reach_handler(0x10_2000, 0x8000));
}

#[test]
fn descriptor_fields() {
    let mut idt = vec![IDT::empty(); 4];
    configure_interrupt(&mut idt, 2, GateKind::Interrupt, 3, 0x1234_5678_9ABC_DEF0);
    assert_eq!(idt[2].offset_1, 0xDEF0);
    assert_eq!(idt[2].offset_2, 0x9ABC);
    assert_eq!(idt[2].offset_3, 0x1234_5678);
    assert_eq!(idt[2].type_attributes, 0xE | 0x80 | 0x60);
    assert_eq!(idt[2].offset(), 0x1234_5678_9ABC_DEF0);
    assert_eq!(idt[1], IDT::empty());
}

#[test]
fn keyboard_redirect_register_writes() {
    let ioapic = IOAPIC::new(0xFFFF_8000_FEC0_0000);
    let writes = ioapic.redirect(1, 0);
    assert_eq!(
        writes,
        vec![
            RegisterWrite { index: 0x12, value: 0x10000 },
            RegisterWrite { index: 0x13, value: 0 },
            RegisterWrite { index: 0x12, value: 0x21 },
            RegisterWrite { index: 0x13, value: 0 },
        ]
    );
    assert_eq!(IOAPIC::get_redirection_entry_register(3), 0x16);
    let to_cpu = ioapic.redirect(2, 5);
    assert_eq!(to_cpu[3], RegisterWrite { index: 0x15, value: 5 << 24 });
}
