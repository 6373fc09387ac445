use vstd::prelude::*;

verus! {

/// An interrupt gate.
#[derive(Clone, Copy)]
pub struct GateDescriptor {
    pub offset: u16,
    pub seg: u16,
    pub ist_and_reversed: u8,
    pub flags: u8,
    pub offset_mid: u16,
    pub offset_hi: u32,
    pub reversed: u32,
}

/// The handler address a gate holds.
pub open spec fn gate_address(g: GateDescriptor) -> u64 {
    (g.offset as u64) | ((g.offset_mid as u64) << 16u64) | ((g.offset_hi as u64) << 32u64)
}

/// The kernel code segment selector.
pub const KERNEL_CODE_SELECTOR: u16 = 0x28;

/// Present, ring 3, 64-bit interrupt gate.
pub const GATE_FLAGS: u8 = 0xEE;

/// Number of gates in the interrupt descriptor table.
pub const IDT_ENTRIES: usize = 256;

impl GateDescriptor {
    /// An empty gate.
    pub fn new() -> (r: Self)
        ensures
            r.offset == 0 && r.seg == 0 && r.ist_and_reversed == 0 && r.flags == 0,
            r.offset_mid == 0 && r.offset_hi == 0 && r.reversed == 0,
    {
        GateDescriptor {
            offset: 0,
            seg: 0,
            ist_and_reversed: 0,
            flags: 0,
            offset_mid: 0,
            offset_hi: 0,
            reversed: 0,
        }
    }
}

/// The register frame that the interrupt stubs build on the stack.
#[derive(Clone, Copy)]
pub struct Registers {
    pub int: usize,
    pub r15: usize,
    pub r14: usize,
    pub r13: usize,
    pub r12: usize,
    pub r11: usize,
    pub r10: usize,
    pub r9: usize,
    pub r8: usize,
    pub rdi: usize,
    pub rsi: usize,
    pub rdx: usize,
    pub rcx: usize,
    pub rbx: usize,
    pub rax: usize,
    pub rbp: usize,
    pub error_code: usize,
    pub rip: usize,
    pub cs: usize,
    pub rflags: usize,
    pub rsp: usize,
    pub ss: usize,
}

/// The interrupt descriptor table.
pub struct Idt {
    gates: Vec<GateDescriptor>,
}

impl View for Idt {
    type V = Seq<GateDescriptor>;

    closed spec fn view(&self) -> Seq<GateDescriptor> {
        self.gates@
    }
}

impl Idt {
    /// A table of 256 empty gates.
    pub fn new() -> (r: Idt)
        ensures
            r@.len() == IDT_ENTRIES,
            forall|i: int| 0 <= i < IDT_ENTRIES ==> #[trigger] r@[i] == GateDescriptor::new_spec(),
    {
        let mut gates: Vec<GateDescriptor> = Vec::new();
        let mut i: usize = 0;
        while i < IDT_ENTRIES
            invariant
                i <= IDT_ENTRIES,
                gates@.len() == i,
                forall|j: int| 0 <= j < i ==> #[trigger] gates@[j] == GateDescriptor::new_spec(),
            decreases IDT_ENTRIES - i,
        {
            gates.push(GateDescriptor::new());
            i = i + 1;
        }
        Idt { gates }
    }

    /// Gate `i`.
    pub fn gate(&self, i: usize) -> (g: GateDescriptor)
        requires
            i < self@.len(),
        ensures
            g == self@[i as int],
    {
        self.gates[i]
    }
}

impl GateDescriptor {
    pub open spec fn new_spec() -> GateDescriptor {
        GateDescriptor {
            offset: 0,
            seg: 0,
            ist_and_reversed: 0,
            flags: 0,
            offset_mid: 0,
            offset_hi: 0,
            reversed: 0,
        }
    }
}

/// An interrupt gate that points at `function_ptr` in the kernel code
/// segment, with no interrupt stack, zero reserved bits and the flags of a
/// present ring-3 interrupt gate.
pub open spec fn handler_gate(function_ptr: u64) -> GateDescriptor {
    GateDescriptor {
        offset: (function_ptr & 0xFFFF) as u16,
        offset_mid: ((function_ptr >> 16u64) & 0xFFFF) as u16,
        offset_hi: ((function_ptr >> 32u64) & 0xFFFFFFFF) as u32,
        seg: KERNEL_CODE_SELECTOR,
        ist_and_reversed: 0,
        reversed: 0,
        flags: GATE_FLAGS,
    }
}

/// Points gate `num` at the handler at `function_ptr`, in the kernel code
/// segment with the flags of a present ring-3 interrupt gate.
pub fn idt_set_gate(idt: &mut Idt, num: u8, function_ptr: u64)
    requires
        old(idt)@.len() == IDT_ENTRIES,
    ensures
        final(idt)@ == old(idt)@.update(num as int, handler_gate(function_ptr)),
        gate_address(final(idt)@[num as int]) == function_ptr,
{
    let base = function_ptr;
    let g = GateDescriptor {
        offset: (base & 0xFFFF) as u16,
        offset_mid: ((base >> 16) & 0xFFFF) as u16,
        offset_hi: ((base >> 32) & 0xFFFFFFFF) as u32,
        seg: KERNEL_CODE_SELECTOR,
        ist_and_reversed: 0,
        reversed: 0,
        flags: GATE_FLAGS,
    };
    proof {
        let lo = (base & 0xFFFF) as u16;
        let mid = ((base >> 16u64) & 0xFFFF) as u16;
        let hi = ((base >> 32u64) & 0xFFFFFFFF) as u32;
        assert((lo as u64) | ((mid as u64) << 16u64) | ((hi as u64) << 32u64) == base) by (bit_vector)
            requires
                lo == (base & 0xFFFF) as u16,
                mid == ((base >> 16u64) & 0xFFFF) as u16,
                hi == ((base >> 32u64) & 0xFFFFFFFF) as u32,
        ;
    }
    idt.gates.set(num as usize, g);
}

/// An interrupt manager: it fills the gates of the kernel's handlers.
pub struct InterruptManager {}

/// Vectors of the handlers the kernel installs.
pub const VEC_DIVIDE_ERROR: u8 = 0x00;
pub const VEC_INVALID_OPCODE: u8 = 0x06;
pub const VEC_DOUBLE_FAULT: u8 = 0x08;
pub const VEC_GENERAL_PROTECTION: u8 = 0x0D;
pub const VEC_PAGE_FAULT: u8 = 0x0E;
pub const VEC_SCHEDULER: u8 = 34;

/// The limit of the descriptor of a full table: 256 gates of 16 bytes, less one.
pub const IDT_LIMIT: u16 = 4095;

impl InterruptManager {
    /// Points the gates of the divide error, invalid opcode, double fault,
    /// general protection fault, page fault and scheduler vectors at their
    /// handlers.
    pub fn start_idt(
        idt: &mut Idt,
        div_error: u64,
        invalid_opcode: u64,
        double_fault: u64,
        general_protection_fault: u64,
        page_fault: u64,
        schede: u64,
    )
        requires
            old(idt)@.len() == IDT_ENTRIES,
        ensures
            final(idt)@.len() == IDT_ENTRIES,
            final(idt)@[VEC_DIVIDE_ERROR as int] == handler_gate(div_error),
            final(idt)@[VEC_INVALID_OPCODE as int] == handler_gate(invalid_opcode),
            final(idt)@[VEC_DOUBLE_FAULT as int] == handler_gate(double_fault),
            final(idt)@[VEC_GENERAL_PROTECTION as int] == handler_gate(general_protection_fault),
            final(idt)@[VEC_PAGE_FAULT as int] == handler_gate(page_fault),
            final(idt)@[VEC_SCHEDULER as int] == handler_gate(schede),
            gate_address(final(idt)@[VEC_DIVIDE_ERROR as int]) == div_error,
            gate_address(final(idt)@[VEC_INVALID_OPCODE as int]) == invalid_opcode,
            gate_address(final(idt)@[VEC_DOUBLE_FAULT as int]) == double_fault,
            gate_address(final(idt)@[VEC_GENERAL_PROTECTION as int]) == general_protection_fault,
            gate_address(final(idt)@[VEC_PAGE_FAULT as int]) == page_fault,
            gate_address(final(idt)@[VEC_SCHEDULER as int]) == schede,
            forall|i: int|
                0 <= i < IDT_ENTRIES && i != 0x00 && i != 0x06 && i != 0x08 && i != 0x0D && i != 0x0E && i
                    != 34 ==> #[trigger] final(idt)@[i] == old(idt)@[i],
    {
        idt_set_gate(idt, VEC_DIVIDE_ERROR, div_error);
        idt_set_gate(idt, VEC_INVALID_OPCODE, invalid_opcode);
        idt_set_gate(idt, VEC_DOUBLE_FAULT, double_fault);
        idt_set_gate(idt, VEC_GENERAL_PROTECTION, general_protection_fault);
        idt_set_gate(idt, VEC_PAGE_FAULT, page_fault);
        idt_set_gate(idt, VEC_SCHEDULER, schede);
    }
}

} // verus!
