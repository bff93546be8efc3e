//! The per-CPU control block that interrupt entry reaches through GS.
use vstd::prelude::*;

use crate::memory::VirtualAddress;

verus! {

/// Model-specific register that holds the per-CPU block's address.
pub const MSR_GS_BASE: u32 = 0xc0000101;

/// One CPU's control block.
pub struct Processor {
    pub padding: u64,
    pub kernel_stack_pointer: VirtualAddress,
    pub user_stack_pointer: VirtualAddress,
    pub general_kernel_stack_pointer: VirtualAddress,
    pub gdtr_physical_address: VirtualAddress,
    pub index: u32,
}

impl Processor {
    /// A block for CPU `index` that starts on `kernel_stack_pointer`.
    pub fn new(kernel_stack_pointer: VirtualAddress, gdtr_physical_address: VirtualAddress, index: u32) -> (r: Processor)
        ensures
            r.padding == 0,
            r.kernel_stack_pointer == kernel_stack_pointer,
            r.user_stack_pointer.0 == 0,
            r.general_kernel_stack_pointer == kernel_stack_pointer,
            r.gdtr_physical_address == gdtr_physical_address,
            r.index == index,
    {
        Processor {
            padding: 0,
            kernel_stack_pointer,
            user_stack_pointer: VirtualAddress::null(),
            general_kernel_stack_pointer: kernel_stack_pointer,
            gdtr_physical_address,
            index,
        }
    }
}

} // verus!
