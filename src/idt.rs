use vstd::prelude::*;

verus! {

/// Code segment selector of the 64-bit kernel code segment.
pub const KERNEL_CODE_SELECTOR: u16 = 0x18;

/// Gate attributes: present, ring 0, interrupt gate.
pub const INTERRUPT_GATE: u8 = 0x8E;

/// What the CPU pushes before it enters an interrupt handler.
#[derive(Debug)]
pub struct InterruptStackFrame {
    pub instruction_pointer: u64,
    pub code_segment: u64,
    pub cpu_flags: u64,
    pub stack_pointer: u64,
    pub stack_segment: u64,
}

/// One gate of the interrupt descriptor table, with the handler address
/// split over three fields.
#[derive(Debug, Clone, Copy)]
pub struct IdtEntry {
    pub offset_low: u16,
    pub selector: u16,
    pub ist: u8,
    pub type_attr: u8,
    pub offset_middle: u16,
    pub offset_high: u32,
    pub zero: u32,
}

/// The operand of `lidt`: size of the table less one, and its address.
pub struct IdtPtr {
    pub limit: u16,
    pub base: u64,
}

/// The handler address that the three offset fields of `e` spell.
pub open spec fn handler_of(e: IdtEntry) -> int {
    e.offset_low + e.offset_middle * 0x1_0000 + e.offset_high * 0x1_0000_0000
}

impl IdtEntry {
    /// An empty, not-present gate.
    pub fn new() -> (r: Self)
        ensures
            r.offset_low == 0 && r.selector == 0 && r.ist == 0 && r.type_attr == 0,
            r.offset_middle == 0 && r.offset_high == 0 && r.zero == 0,
    {
        IdtEntry {
            offset_low: 0,
            selector: 0,
            ist: 0,
            type_attr: 0,
            offset_middle: 0,
            offset_high: 0,
            zero: 0,
        }
    }

    /// Sets the handler address, selector and type of this entry.
    pub fn set_handler(&mut self, handler: u64)
        ensures
            final(self).offset_low == handler % 0x1_0000,
            final(self).offset_middle == (handler / 0x1_0000) % 0x1_0000,
            final(self).offset_high == handler / 0x1_0000_0000,
            handler_of(*final(self)) == handler,
            final(self).selector == KERNEL_CODE_SELECTOR,
            final(self).ist == 0,
            final(self).type_attr == INTERRUPT_GATE,
            final(self).zero == old(self).zero,
    {
        self.offset_low = (handler % 0x1_0000) as u16;
        self.selector = KERNEL_CODE_SELECTOR;
        self.ist = 0;
        self.type_attr = INTERRUPT_GATE;
        self.offset_middle = ((handler / 0x1_0000) % 0x1_0000) as u16;
        self.offset_high = (handler / 0x1_0000_0000) as u32;
    }
}

} // verus!
