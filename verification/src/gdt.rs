use vstd::prelude::*;

verus! {

/// The operand of `lgdt`: the table's limit and address.
pub struct GDTR {
    pub size: u16,
    pub offset: u64,
}

impl GDTR {
    /// The descriptor of a table of `size` bytes at `table`: its limit is
    /// `size - 1`.
    pub fn new(table: u64, size: u16) -> (r: GDTR)
        requires
            size >= 1,
        ensures
            r.size == size - 1,
            r.offset == table,
    {
        GDTR { size: size - 1, offset: table }
    }
}

/// The descriptors of the kernel's global descriptor table.
pub fn gdt_entries() -> (r: [u64; 9])
    ensures
        r@ == seq![
            0x0u64,
            0x00009a000000ffff,
            0x000093000000ffff,
            0x00cf9a000000ffff,
            0x00cf93000000ffff,
            0x00af9b000000ffff,
            0x00af93000000ffff,
            0x00aff3000000ffff,
            0x00affb000000ffff,
        ],
{
    let r: [u64; 9] = [
        0x0,
        0x00009a000000ffff,
        0x000093000000ffff,
        0x00cf9a000000ffff,
        0x00cf93000000ffff,
        0x00af9b000000ffff,
        0x00af93000000ffff,
        0x00aff3000000ffff,
        0x00affb000000ffff,
    ];
    proof {
        assert(r@ =~= seq![
            0x0u64,
            0x00009a000000ffff,
            0x000093000000ffff,
            0x00cf9a000000ffff,
            0x00cf93000000ffff,
            0x00af9b000000ffff,
            0x00af93000000ffff,
            0x00aff3000000ffff,
            0x00affb000000ffff,
        ]);
    }
    r
}

} // verus!
