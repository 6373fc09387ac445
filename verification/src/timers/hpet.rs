use vstd::prelude::*;

verus! {

/// Register offsets of the HPET.
pub const GENERAL_CAP_AND_ID_REGISTER: usize = 0x0;
pub const GENERAL_CONFIG_REGISTER: usize = 0x10;
pub const GENERAL_INTERRUPT_STATUS_REGISTER: usize = 0x20;
pub const MAIN_COUNTER_VALUE_REGISTER: usize = 0xF0;

/// The capability bit of a 64-bit main counter.
pub const COUNTER_64BIT: u64 = 1 << 13;

/// The high-precision event timer: where its registers are mapped and how
/// many nanoseconds a tick of its main counter takes.
pub struct HPET {
    pub hpet: usize,
    pub main_counter_tickns: u32,
}

/// The tick length in nanoseconds that the capability register states: its
/// upper half is the tick period in femtoseconds.
pub open spec fn tick_ns(cap: u64) -> u32 {
    ((cap >> 32u64) as u32 / 1000000u32) as u32
}

/// The tick length is the whole upper half of the capability register, the
/// tick period in femtoseconds, divided by 10^6.
pub proof fn tick_is_period_in_ns(cap: u64)
    ensures
        tick_ns(cap) == (cap / 0x1_0000_0000) / 1_000_000,
{
    assert((cap >> 32u64) as u32 == cap / 0x1_0000_0000) by (bit_vector);
}

impl HPET {
    /// The timer whose registers are mapped at `hpet` and whose capability
    /// register reads `cap`; only timers with a 64-bit main counter are
    /// supported.
    pub fn new(hpet: usize, cap: u64) -> (r: HPET)
        requires
            cap & COUNTER_64BIT != 0,
        ensures
            r.hpet == hpet,
            r.main_counter_tickns == tick_ns(cap),
            r.main_counter_tickns == (cap / 0x1_0000_0000) / 1_000_000,
    {
        proof {
            tick_is_period_in_ns(cap);
        }
        let ctr = (cap >> 32) as u32;
        HPET { hpet, main_counter_tickns: ctr / 1000000 }
    }

    /// One poll of a busy-wait sleep: whether a sleep of `ms` milliseconds
    /// that began at counter value `pol_start` is over at counter value
    /// `pol_cur`.  The caller reads the main counter until this holds.
    pub fn ksleep(&self, pol_start: usize, pol_cur: usize, ms: usize) -> (r: bool)
        requires
            pol_start <= pol_cur,
            (pol_cur - pol_start) * self.main_counter_tickns <= usize::MAX,
            ms * 1000000 <= usize::MAX,
        ensures
            r == ((pol_cur - pol_start) * self.main_counter_tickns >= ms * 1000000),
    {
        !((pol_cur - pol_start) * (self.main_counter_tickns as usize) < ms * 1000000)
    }
}

} // verus!
