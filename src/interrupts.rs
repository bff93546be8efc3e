//! The interrupt descriptor table and the per-vector trampoline stubs.
use vstd::prelude::*;

pub mod apic;
pub mod ioapic;

use crate::memory::{GiB, KERNEL_CODE_SELECTOR};

verus! {

pub const INTERRUPT_BASE: u8 = 0x20;
pub const MAX_INTERRUPT_COUNT: usize = 256;
pub const EXCEPTION_COUNT: usize = 32;
/// Bytes of the descriptor table: 256 entries of 16 bytes.
pub const IDT_SIZE: usize = 4096;
pub const PRESENT_BIT: u8 = 0x80;
/// Bytes between consecutive stubs.
pub const STUB_SIZE: u64 = 16;

pub const PUSH_IMM32: u8 = 0x68;
pub const JMP_REL32: u8 = 0xe9;
pub const NOP: u8 = 0x90;

/// Interrupt gates serve CPU exceptions, trap gates device interrupts.
#[derive(Clone, Copy, Debug, PartialEq, Eq, Structural)]
pub enum GateKind {
    Interrupt,
    Trap,
}

pub open spec fn gate_bits(gate: GateKind) -> u8 {
    match gate {
        GateKind::Interrupt => 0xe,
        GateKind::Trap => 0xf,
    }
}

/// One 16-byte interrupt descriptor.
#[derive(Clone, Copy, Debug, PartialEq, Eq, Structural)]
pub struct IDT {
    pub offset_1: u16,
    pub selector: u16,
    pub interrupt_stack_table_offset: u8,
    pub type_attributes: u8,
    pub offset_2: u16,
    pub offset_3: u32,
    pub reserved: u32,
}

/// The handler address that a descriptor holds, from its three pieces.
pub open spec fn idt_offset(entry: IDT) -> int {
    entry.offset_1 as int + entry.offset_2 as int * 0x10000 + entry.offset_3 as int * 0x100000000
}

/// The descriptor for a handler at `handler`.
pub open spec fn descriptor(gate: GateKind, privilege: u8, handler: u64) -> IDT {
    IDT {
        offset_1: (handler & 0xffff) as u16,
        selector: KERNEL_CODE_SELECTOR,
        interrupt_stack_table_offset: 1,
        type_attributes: gate_bits(gate) | PRESENT_BIT | ((privilege & 3) << 5u8),
        offset_2: ((handler >> 16u64) & 0xffff) as u16,
        offset_3: (handler >> 32u64) as u32,
        reserved: 0,
    }
}

/// The little-endian bytes of `x`.
pub open spec fn le32(x: u32) -> Seq<u8> {
    seq![(x & 0xff) as u8, ((x >> 8u32) & 0xff) as u8, ((x >> 16u32) & 0xff) as u8, (x >> 24u32) as u8]
}

/// `x` read as a signed 32-bit number.
pub open spec fn signed32(x: u32) -> int {
    if x < 0x80000000 {
        x as int
    } else {
        x as int - 0x100000000
    }
}

/// Offset within a stub of the first byte after its jump.
pub open spec fn jump_end(vector: u32) -> int {
    if vector < EXCEPTION_COUNT {
        10
    } else {
        15
    }
}

/// Whether the jump from the stub at `stub_address` reaches `handler` within 1 GiB.
pub open spec fn jump_in_range(stub_address: u64, handler: u64, vector: u32) -> bool {
    let from = stub_address + jump_end(vector);
    -(GiB as int) <= handler - from <= GiB
}

/// The 16 bytes of the stub for `vector`: `push vector` (twice from vector 32
/// on, so every frame has an error-code slot), `jmp` by `displacement`, `nop`s.
pub open spec fn stub_bytes(vector: u32, displacement: u32) -> Seq<u8> {
    if vector < EXCEPTION_COUNT {
        seq![PUSH_IMM32] + le32(vector) + seq![JMP_REL32] + le32(displacement) + seq![
            NOP,
            NOP,
            NOP,
            NOP,
            NOP,
            NOP,
        ]
    } else {
        seq![PUSH_IMM32] + le32(vector) + seq![PUSH_IMM32] + le32(vector) + seq![JMP_REL32] + le32(
            displacement,
        ) + seq![NOP]
    }
}

/// The stub for vector `n` stands at its 16-byte slot of `stubs` and its jump
/// lands on `handler`.
pub open spec fn stub_in_place(stubs: Seq<u8>, stubs_address: u64, handler: u64, n: int) -> bool {
    exists|d: u32|
        #![trigger stub_bytes(n as u32, d)]
        stubs_address + n * STUB_SIZE + jump_end(n as u32) + signed32(d) == handler && stubs.subrange(
            n * STUB_SIZE,
            n * STUB_SIZE + STUB_SIZE,
        ) == stub_bytes(n as u32, d)
}

impl IDT {
    pub fn empty() -> (r: IDT)
        ensures
            r == (IDT {
                offset_1: 0,
                selector: 0,
                interrupt_stack_table_offset: 0,
                type_attributes: 0,
                offset_2: 0,
                offset_3: 0,
                reserved: 0,
            }),
    {
        IDT {
            offset_1: 0,
            selector: 0,
            interrupt_stack_table_offset: 0,
            type_attributes: 0,
            offset_2: 0,
            offset_3: 0,
            reserved: 0,
        }
    }

    /// The handler address this descriptor holds.
    pub fn offset(&self) -> (r: u64)
        ensures
            r == idt_offset(*self),
    {
        let low = self.offset_1 as u64;
        let middle = self.offset_2 as u64;
        let high = self.offset_3 as u64;
        assert(low + middle * 0x10000 + high * 0x100000000 <= u64::MAX) by (nonlinear_arith)
            requires
                low < 0x10000,
                middle < 0x10000,
                high < 0x100000000,
        ;
        low + middle * 0x10000 + high * 0x100000000
    }
}

proof fn lemma_offset_pieces(handler: u64)
    ensures
        (handler & 0xffff) as u16 as int + ((handler >> 16u64) & 0xffff) as u16 as int * 0x10000 + (handler
            >> 32u64) as u32 as int * 0x100000000 == handler,
{
    let a = handler & 0xffff;
    let b = (handler >> 16u64) & 0xffff;
    let c = handler >> 32u64;
    assert(a + b * 0x10000 + c * 0x100000000 == handler && a < 0x10000 && b < 0x10000 && c < 0x100000000)
        by (bit_vector)
        requires
            a == handler & 0xffff,
            b == (handler >> 16u64) & 0xffff,
            c == handler >> 32u64,
    ;
}

/// Fills descriptor `index` of `idt` for a handler at `handler`.
pub fn configure_interrupt(idt: &mut Vec<IDT>, index: usize, gate: GateKind, privilege: u8, handler: u64)
    requires
        index < old(idt)@.len(),
    ensures
        final(idt)@ == old(idt)@.update(index as int, descriptor(gate, privilege, handler)),
        idt_offset(descriptor(gate, privilege, handler)) == handler,
{
    let bits: u8 = match gate {
        GateKind::Interrupt => 0xe,
        GateKind::Trap => 0xf,
    };
    proof {
        lemma_offset_pieces(handler);
    }
    idt.set(
        index,
        IDT {
            offset_1: (handler & 0xffff) as u16,
            selector: KERNEL_CODE_SELECTOR,
            interrupt_stack_table_offset: 1,
            type_attributes: bits | PRESENT_BIT | ((privilege & 3) << 5u8),
            offset_2: ((handler >> 16u64) & 0xffff) as u16,
            offset_3: (handler >> 32u64) as u32,
            reserved: 0,
        },
    );
}

fn push_le32(bytes: &mut Vec<u8>, x: u32)
    ensures
        final(bytes)@ == old(bytes)@ + le32(x),
{
    bytes.push((x & 0xff) as u8);
    bytes.push(((x >> 8u32) & 0xff) as u8);
    bytes.push(((x >> 16u32) & 0xff) as u8);
    bytes.push((x >> 24u32) as u8);
    assert(bytes@ =~= old(bytes)@ + le32(x));
}

/// Whether the jump of the stub for `vector` at `stub_address` reaches `handler` within 1 GiB.
pub fn jump_reaches(stub_address: u64, handler: u64, vector: u32) -> (r: bool)
    requires
        stub_address + STUB_SIZE <= u64::MAX,
    ensures
        r == jump_in_range(stub_address, handler, vector),
{
    let from = if vector < EXCEPTION_COUNT as u32 {
        stub_address + 10
    } else {
        stub_address + 15
    };
    if handler >= from {
        handler - from <= GiB
    } else {
        from - handler <= GiB
    }
}

/// Whether every one of the 256 stubs, 16 bytes apart from `stubs_address`,
/// reaches `handler` within 1 GiB; building the tables needs it.
pub fn stubs_reach_handler(stubs_address: u64, handler: u64) -> (r: bool)
    requires
        stubs_address + 4096 <= u64::MAX,
    ensures
        r == forall|n: int|
            0 <= n < MAX_INTERRUPT_COUNT ==> #[trigger] jump_in_range(
                (stubs_address + n * STUB_SIZE) as u64,
                handler,
                n as u32,
            ),
{
    let mut vector: usize = 0;
    while vector < MAX_INTERRUPT_COUNT
        invariant
            vector <= MAX_INTERRUPT_COUNT,
            stubs_address + 4096 <= u64::MAX,
            forall|n: int|
                0 <= n < vector ==> #[trigger] jump_in_range((stubs_address + n * STUB_SIZE) as u64, handler, n as u32),
        decreases MAX_INTERRUPT_COUNT - vector,
    {
        if !jump_reaches(stubs_address + (vector as u64) * STUB_SIZE, handler, vector as u32) {
            return false;
        }
        vector = vector + 1;
    }
    true
}

/// Appends to `stubs` the 16-byte stub for `interrupt_number`, placed at
/// `stub_address`, that jumps to `interrupt_handler`.
pub fn write_interrupt_stub(
    stubs: &mut Vec<u8>,
    stub_address: u64,
    interrupt_handler: u64,
    interrupt_number: u32,
)
    requires
        stub_address + STUB_SIZE <= u64::MAX,
        jump_in_range(stub_address, interrupt_handler, interrupt_number),
    ensures
        exists|d: u32|
            #![trigger stub_bytes(interrupt_number, d)]
            stub_address + jump_end(interrupt_number) + signed32(d) == interrupt_handler
                && final(stubs)@ == old(stubs)@ + stub_bytes(interrupt_number, d),
{
    let exception = interrupt_number < EXCEPTION_COUNT as u32;
    let from = if exception {
        stub_address + 10
    } else {
        stub_address + 15
    };
    let displacement: u32 = if interrupt_handler >= from {
        (interrupt_handler - from) as u32
    } else {
        (0x100000000u64 - (from - interrupt_handler)) as u32
    };
    let ghost start = stubs@;
    stubs.push(PUSH_IMM32);
    push_le32(stubs, interrupt_number);
    if !exception {
        stubs.push(PUSH_IMM32);
        push_le32(stubs, interrupt_number);
    }
    stubs.push(JMP_REL32);
    push_le32(stubs, displacement);
    if exception {
        let mut pad: usize = 0;
        while pad < 6
            invariant
                pad <= 6,
                stubs@ == start + seq![PUSH_IMM32] + le32(interrupt_number) + seq![JMP_REL32] + le32(displacement)
                    + Seq::new(pad as nat, |i: int| NOP),
            decreases 6 - pad,
        {
            stubs.push(NOP);
            pad = pad + 1;
            assert(Seq::new(pad as nat, |i: int| NOP) =~= Seq::new((pad - 1) as nat, |i: int| NOP).push(NOP));
        }
        assert(Seq::new(6, |i: int| NOP) =~= seq![NOP, NOP, NOP, NOP, NOP, NOP]);
    } else {
        stubs.push(NOP);
    }
    proof {
        assert(stub_address + jump_end(interrupt_number) + signed32(displacement) == interrupt_handler);
        assert(stubs@ =~= start + stub_bytes(interrupt_number, displacement));
    }
}

/// The 10-byte pseudo-descriptor that `lidt` loads.
#[derive(Clone, Copy, Debug, PartialEq, Eq, Structural)]
pub struct IDTR {
    pub size: u16,
    pub table: u64,
}

/// The descriptor table, its pseudo-descriptor and the stubs, ready to copy in place.
pub struct InterruptTables {
    pub idtr: IDTR,
    pub idt: Vec<IDT>,
    pub stubs: Vec<u8>,
}

/// Builds the 256 descriptors and their stubs: the stubs sit 16 bytes apart
/// from `stubs_address`, each jumping to `interrupt_handler`; vectors below 32
/// get interrupt gates, the others trap gates.
pub fn build_interrupt_tables(idt_address: u64, stubs_address: u64, interrupt_handler: u64) -> (t: InterruptTables)
    requires
        stubs_address + 4096 <= u64::MAX,
        forall|n: int|
            0 <= n < MAX_INTERRUPT_COUNT ==> #[trigger] jump_in_range(
                (stubs_address + n * STUB_SIZE) as u64,
                interrupt_handler,
                n as u32,
            ),
    ensures
        ({
            &&& t.idtr == (IDTR { size: (IDT_SIZE - 1) as u16, table: idt_address })
            &&& t.idt@.len() == MAX_INTERRUPT_COUNT
            &&& t.stubs@.len() == MAX_INTERRUPT_COUNT * STUB_SIZE
            &&& forall|n: int|
                0 <= n < MAX_INTERRUPT_COUNT ==> #[trigger] t.idt@[n] == descriptor(
                    if n < EXCEPTION_COUNT {
                        GateKind::Interrupt
                    } else {
                        GateKind::Trap
                    },
                    0,
                    (stubs_address + n * STUB_SIZE) as u64,
                )
            &&& forall|n: int|
                0 <= n < MAX_INTERRUPT_COUNT ==> #[trigger] stub_in_place(t.stubs@, stubs_address, interrupt_handler, n)
        }),
{
    let mut idt: Vec<IDT> = Vec::new();
    while idt.len() < MAX_INTERRUPT_COUNT
        invariant
            idt@.len() <= MAX_INTERRUPT_COUNT,
        decreases MAX_INTERRUPT_COUNT - idt@.len(),
    {
        idt.push(IDT::empty());
    }
    let mut stubs: Vec<u8> = Vec::new();
    let mut vector: usize = 0;
    while vector < MAX_INTERRUPT_COUNT
        invariant
            vector <= MAX_INTERRUPT_COUNT,
            stubs_address + 4096 <= u64::MAX,
            idt@.len() == MAX_INTERRUPT_COUNT,
            stubs@.len() == vector * STUB_SIZE,
            forall|n: int|
                0 <= n < MAX_INTERRUPT_COUNT ==> #[trigger] jump_in_range(
                    (stubs_address + n * STUB_SIZE) as u64,
                    interrupt_handler,
                    n as u32,
                ),
            forall|n: int|
                0 <= n < vector ==> #[trigger] idt@[n] == descriptor(
                    if n < EXCEPTION_COUNT {
                        GateKind::Interrupt
                    } else {
                        GateKind::Trap
                    },
                    0,
                    (stubs_address + n * STUB_SIZE) as u64,
                ),
            forall|n: int|
                0 <= n < vector ==> #[trigger] stub_in_place(stubs@, stubs_address, interrupt_handler, n),
        decreases MAX_INTERRUPT_COUNT - vector,
    {
        let gate = if vector < EXCEPTION_COUNT {
            GateKind::Interrupt
        } else {
            GateKind::Trap
        };
        let stub_address = stubs_address + (vector as u64) * STUB_SIZE;
        configure_interrupt(&mut idt, vector, gate, 0, stub_address);
        let ghost before = stubs@;
        proof {
            assert(jump_in_range((stubs_address + vector * STUB_SIZE) as u64, interrupt_handler, vector as u32));
        }
        write_interrupt_stub(&mut stubs, stub_address, interrupt_handler, vector as u32);
        proof {
            let d = choose|d: u32|
                #![trigger stub_bytes(vector as u32, d)]
                stub_address + jump_end(vector as u32) + signed32(d) == interrupt_handler && stubs@ == before
                    + stub_bytes(vector as u32, d);
            assert forall|n: int| 0 <= n < vector + 1 implies #[trigger] stub_in_place(stubs@, stubs_address, interrupt_handler, n) by {
                if n < vector {
                    assert(stub_in_place(before, stubs_address, interrupt_handler, n));
                    let dn = choose|dn: u32|
                        #![trigger stub_bytes(n as u32, dn)]
                        stubs_address + n * STUB_SIZE + jump_end(n as u32) + signed32(dn) == interrupt_handler
                            && before.subrange(n * STUB_SIZE, n * STUB_SIZE + STUB_SIZE) == stub_bytes(n as u32, dn);
                    assert(stubs@.subrange(n * STUB_SIZE, n * STUB_SIZE + STUB_SIZE) =~= before.subrange(
                        n * STUB_SIZE,
                        n * STUB_SIZE + STUB_SIZE,
                    ));
                    assert(stubs_address + n * STUB_SIZE + jump_end(n as u32) + signed32(dn) == interrupt_handler
                        && stubs@.subrange(n * STUB_SIZE, n * STUB_SIZE + STUB_SIZE) == stub_bytes(n as u32, dn));
                } else {
                    assert(stubs@.subrange(n * STUB_SIZE, n * STUB_SIZE + STUB_SIZE) =~= stub_bytes(vector as u32, d));
                }
            }
        }
        vector = vector + 1;
    }
    InterruptTables { idtr: IDTR { size: (IDT_SIZE - 1) as u16, table: idt_address }, idt, stubs }
}

} // verus!
