//! Programming the I/O APIC's redirection table.
use vstd::prelude::*;

use crate::interrupts::INTERRUPT_BASE;

verus! {

/// Offset of the register that selects which register the window reaches.
pub const IOREGSEL: u64 = 0x00;
/// Offset of the window onto the selected register.
pub const IOWIN: u64 = 0x04;
/// Index of the first redirection entry.
pub const IOREDTBL: u32 = 0x10;

pub const DISABLE_FLAG: u32 = 0x10000;

/// One register store: `index` goes to IOREGSEL, then `value` to IOWIN.
#[derive(Clone, Copy, Debug, PartialEq, Eq, Structural)]
pub struct RegisterWrite {
    pub index: u32,
    pub value: u32,
}

/// The low word of a redirection entry.
pub open spec fn redirection_low(
    destination_interrupt: u8,
    delivery_mode: u8,
    logical_destination: bool,
    active_low: bool,
    trigger_level_mode: bool,
    masked: bool,
) -> u32 {
    destination_interrupt as u32 | (((delivery_mode as u32) & 7) << 8u32) | ((if logical_destination {
        1u32
    } else {
        0u32
    }) << 11u32) | ((if active_low {
        1u32
    } else {
        0u32
    }) << 13u32) | ((if trigger_level_mode {
        1u32
    } else {
        0u32
    }) << 15u32) | ((if masked {
        1u32
    } else {
        0u32
    }) << 16u32)
}

/// An I/O APIC reached through its memory-mapped registers at `registers`.
pub struct IOAPIC {
    pub registers: u64,
}

impl IOAPIC {
    pub fn new(registers: u64) -> (r: Self)
        ensures
            r.registers == registers,
    {
        Self { registers }
    }

    fn write_register(writes: &mut Vec<RegisterWrite>, index: u32, value: u32)
        ensures
            final(writes)@ == old(writes)@.push(RegisterWrite { index, value }),
    {
        writes.push(RegisterWrite { index, value });
    }

    /// Index of the low register of the redirection entry of `interrupt`.
    pub fn get_redirection_entry_register(interrupt: u8) -> (r: u32)
        ensures
            r == IOREDTBL + 2 * interrupt,
    {
        IOREDTBL + (interrupt as u32) * 2
    }

    /// Masks `interrupt`: its entry's low word becomes the mask bit, its high word zero.
    pub fn disable(&self, interrupt: u8, writes: &mut Vec<RegisterWrite>)
        ensures
            final(writes)@ == old(writes)@ + seq![
                RegisterWrite { index: (IOREDTBL + 2 * interrupt) as u32, value: DISABLE_FLAG },
                RegisterWrite { index: (IOREDTBL + 2 * interrupt + 1) as u32, value: 0 },
            ],
    {
        let register = Self::get_redirection_entry_register(interrupt);
        Self::write_register(writes, register, DISABLE_FLAG);
        Self::write_register(writes, register + 1, 0);
        assert(writes@ =~= old(writes)@ + seq![
            RegisterWrite { index: (IOREDTBL + 2 * interrupt) as u32, value: DISABLE_FLAG },
            RegisterWrite { index: (IOREDTBL + 2 * interrupt + 1) as u32, value: 0 },
        ]);
    }

    /// Points `source_interrupt` at vector `destination_interrupt` on `cpu`.
    pub fn redirect_extended(
        &self,
        writes: &mut Vec<RegisterWrite>,
        source_interrupt: u8,
        destination_interrupt: u8,
        delivery_mode: u8,
        logical_destination: bool,
        active_low: bool,
        trigger_level_mode: bool,
        masked: bool,
        cpu: u8,
    )
        ensures
            final(writes)@ == old(writes)@ + seq![
                RegisterWrite {
                    index: (IOREDTBL + 2 * source_interrupt) as u32,
                    value: redirection_low(
                        destination_interrupt,
                        delivery_mode,
                        logical_destination,
                        active_low,
                        trigger_level_mode,
                        masked,
                    ),
                },
                RegisterWrite {
                    index: (IOREDTBL + 2 * source_interrupt + 1) as u32,
                    value: ((cpu as u32) << 24u32) as u32,
                },
            ],
    {
        let redirection_entry_1 = destination_interrupt as u32 | (((delivery_mode as u32) & 7) << 8u32) | ((if logical_destination {
            1u32
        } else {
            0u32
        }) << 11u32) | ((if active_low {
            1u32
        } else {
            0u32
        }) << 13u32) | ((if trigger_level_mode {
            1u32
        } else {
            0u32
        }) << 15u32) | ((if masked {
            1u32
        } else {
            0u32
        }) << 16u32);
        let redirection_entry_2 = (cpu as u32) << 24u32;
        let register = Self::get_redirection_entry_register(source_interrupt);
        Self::write_register(writes, register, redirection_entry_1);
        Self::write_register(writes, register + 1, redirection_entry_2);
        assert(writes@ =~= old(writes)@ + seq![
            RegisterWrite {
                index: (IOREDTBL + 2 * source_interrupt) as u32,
                value: redirection_low(
                    destination_interrupt,
                    delivery_mode,
                    logical_destination,
                    active_low,
                    trigger_level_mode,
                    masked,
                ),
            },
            RegisterWrite { index: (IOREDTBL + 2 * source_interrupt + 1) as u32, value: ((cpu as u32) << 24u32) as u32 },
        ]);
    }

    /// The register writes that route `interrupt` to vector `INTERRUPT_BASE +
    /// interrupt` on `cpu`, edge-triggered, active high, physical destination:
    /// the entry is masked first, then written.
    pub fn redirect(&self, interrupt: u8, cpu: u8) -> (r: Vec<RegisterWrite>)
        requires
            interrupt + INTERRUPT_BASE <= 0xff,
        ensures
            r@ == seq![
                RegisterWrite { index: (IOREDTBL + 2 * interrupt) as u32, value: DISABLE_FLAG },
                RegisterWrite { index: (IOREDTBL + 2 * interrupt + 1) as u32, value: 0 },
                RegisterWrite {
                    index: (IOREDTBL + 2 * interrupt) as u32,
                    value: (INTERRUPT_BASE + interrupt) as u32,
                },
                RegisterWrite {
                    index: (IOREDTBL + 2 * interrupt + 1) as u32,
                    value: ((cpu as u32) << 24u32) as u32,
                },
            ],
    {
        let destination_interrupt = INTERRUPT_BASE + interrupt;
        let mut writes: Vec<RegisterWrite> = Vec::new();
        self.disable(interrupt, &mut writes);
        self.redirect_extended(&mut writes, interrupt, destination_interrupt, 0, false, false, false, false, cpu);
        let d = destination_interrupt as u32;
        assert(redirection_low(destination_interrupt, 0, false, false, false, false) == d) by (bit_vector)
            requires
                d == destination_interrupt as u32,
        ;
        assert(writes@ =~= seq![
            RegisterWrite { index: (IOREDTBL + 2 * interrupt) as u32, value: DISABLE_FLAG },
            RegisterWrite { index: (IOREDTBL + 2 * interrupt + 1) as u32, value: 0 },
            RegisterWrite { index: (IOREDTBL + 2 * interrupt) as u32, value: (INTERRUPT_BASE + interrupt) as u32 },
            RegisterWrite { index: (IOREDTBL + 2 * interrupt + 1) as u32, value: ((cpu as u32) << 24u32) as u32 },
        ]);
        writes
    }
}

} // verus!
