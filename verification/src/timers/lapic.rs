use vstd::prelude::*;

verus! {

/// Register offsets of the local APIC.
pub const LAPIC_ID: u64 = 0x20;
pub const LAPIC_EOI: u64 = 0xb0;
pub const LAPIC_SPURIOUS: u64 = 0xf0;
pub const LAPIC_LVT_TIMER: u64 = 0x320;
pub const LAPIC_INITIAL_COUNT: u64 = 0x380;
pub const LAPIC_CURRENT_COUNT: u64 = 0x390;
pub const LAPIC_DIVIDE: u64 = 0x3e0;

/// The count the calibration starts from.
pub const LAPIC_CALIBRATION_START: u32 = 0xffffffff;

/// Where the local APIC's registers are mapped: the base that the APIC base
/// MSR holds, seen through the direct map at `hhdm`.
pub fn get_lapic_addr(msr: u64, hhdm: u64) -> (r: u64)
    requires
        (msr & 0xfffff000) + hhdm <= u64::MAX,
    ensures
        r == (msr & 0xfffff000) + hhdm,
{
    (msr & 0xfffff000) + hhdm
}

/// The timer ticks that passed while the current-count register counted down
/// from the calibration start to `remaining`.
pub fn lapic_ticks(remaining: u32) -> (r: u32)
    ensures
        r == LAPIC_CALIBRATION_START - remaining,
{
    LAPIC_CALIBRATION_START - remaining
}

/// The local vector table entry of the timer: vector 34, masked one-shot
/// while calibrating, unmasked periodic afterwards.
pub fn timer_lvt(periodic: bool) -> (r: u32)
    ensures
        periodic ==> r == 0x2_0022,
        !periodic ==> r == 0x1_0022,
{
    if periodic {
        let r: u32 = 34 | (0 << 16) | (1 << 17);
        assert(34u32 | (0u32 << 16u32) | (1u32 << 17u32) == 0x2_0022u32) by (bit_vector);
        r
    } else {
        let r: u32 = 34 | (1 << 16);
        assert(34u32 | (1u32 << 16u32) == 0x1_0022u32) by (bit_vector);
        r
    }
}

} // verus!
