//! Local APIC and IO-APIC: the values programmed into their registers and
//! the decisions of timer calibration. Register access itself is port and
//! memory-mapped I/O, done by the caller.
use vstd::prelude::*;
use crate::acpi::MadtInfo;

verus! {

/// Where the IO-APIC sits when the MADT names none.
pub const IOAPIC_DEFAULT_BASE: u64 = 0xFEC0_0000;

/// Interrupt vector of the local APIC timer.
pub const TIMER_VECTOR: u8 = 0x20;

/// What the kernel knows of its APICs.
pub struct ApicState {
    pub ready: bool,
    pub bsp_apic_id: u8,
    pub ioapic_base: u64,
    pub ticks_per_ms: u32,
}

impl ApicState {
    /// Not yet enabled; the IO-APIC at its default address.
    pub fn new() -> (s: Self)
        ensures
            !s.ready && s.bsp_apic_id == 0 && s.ioapic_base == IOAPIC_DEFAULT_BASE && s.ticks_per_ms == 0,
    {
        ApicState { ready: false, bsp_apic_id: 0, ioapic_base: IOAPIC_DEFAULT_BASE, ticks_per_ms: 0 }
    }
}

/// Whether the local APIC has been enabled.
pub fn is_ready(s: &ApicState) -> (r: bool)
    ensures
        r == s.ready,
{
    s.ready
}

/// The APIC ID in the local APIC ID register value `reg` (its top byte).
pub fn lapic_id_of(reg: u32) -> (r: u8)
    ensures
        r == reg / 0x100_0000,
{
    let r = ((reg >> 24) & 0xFF) as u8;
    assert(((reg >> 24) & 0xFF) == reg / 0x100_0000) by (bit_vector);
    r
}

/// The first index from `i` on, below `n`, where `ids` holds `id`; 0 when
/// there is none.
pub open spec fn first_cpu(ids: Seq<u8>, n: int, id: u8, i: int) -> int
    decreases n - i,
{
    if i >= n || i < 0 {
        0
    } else if ids[i] == id {
        i
    } else {
        first_cpu(ids, n, id, i + 1)
    }
}

/// The index in the MADT's processor list of the core with APIC ID `id`;
/// 0 when the APIC is not ready or the ID is not listed.
pub open spec fn cpu_index(ready: bool, madt: MadtInfo, id: u8) -> int {
    if !ready {
        0
    } else {
        first_cpu(madt.cpu_apic_ids@, madt.cpu_count as int, id, 0)
    }
}

/// The index of the running core (APIC ID `id`) in the MADT's list.
pub fn current_cpu_index(s: &ApicState, madt: &MadtInfo, id: u8) -> (r: usize)
    requires
        madt.cpu_count <= 8,
    ensures
        r == cpu_index(s.ready, *madt, id),
{
    if !is_ready(s) {
        return 0;
    }
    let mut i: usize = 0;
    while i < madt.cpu_count
        invariant
            madt.cpu_count <= 8,
            i <= madt.cpu_count,
            cpu_index(s.ready, *madt, id) == first_cpu(madt.cpu_apic_ids@, madt.cpu_count as int, id, i as int),
            s.ready,
        decreases madt.cpu_count - i,
    {
        if madt.cpu_apic_ids[i] == id {
            return i;
        }
        i = i + 1;
    }
    0
}

/// Where the IO-APIC is: the MADT's address, or the default when it names
/// none.
pub fn ioapic_address(madt: &MadtInfo) -> (r: u64)
    ensures
        r == if madt.io_apic_addr != 0 { madt.io_apic_addr } else { IOAPIC_DEFAULT_BASE },
{
    if madt.io_apic_addr != 0 {
        madt.io_apic_addr
    } else {
        IOAPIC_DEFAULT_BASE
    }
}

/// Records that the local APIC is enabled on the bootstrap core, whose
/// local APIC ID register reads `id_reg`: its APIC ID, and the IO-APIC
/// address the MADT gives (or the default).
pub fn record_enabled(s: &mut ApicState, madt: &MadtInfo, id_reg: u32)
    ensures
        final(s).ready,
        final(s).bsp_apic_id == id_reg / 0x100_0000,
        final(s).ioapic_base == if madt.io_apic_addr != 0 { madt.io_apic_addr } else { IOAPIC_DEFAULT_BASE },
        final(s).ticks_per_ms == old(s).ticks_per_ms,
{
    s.bsp_apic_id = lapic_id_of(id_reg);
    s.ioapic_base = ioapic_address(madt);
    s.ready = true;
}

/// The next reload count of timer calibration, from the count `init` and
/// the `ticks` counted in a 100 ms window: none to stop (no tick seen, or
/// the count settled); else `init` scaled by the rate in Hz over 1000, at
/// least 1, truncated to 32 bits.
pub open spec fn next_reload(init: u32, ticks: u64) -> Option<u32> {
    let hz = ticks * 10;
    if hz == 0 {
        None
    } else {
        let scaled = init * hz / 1000;
        let next = (if scaled > 1 { scaled } else { 1 }) as u32;
        if next == init {
            None
        } else {
            Some(next)
        }
    }
}

/// One step of timer calibration, as `next_reload` states.
pub fn calibrate_step(init: u32, ticks: u64) -> (r: Option<u32>)
    requires
        ticks <= 1_000_000,
    ensures
        r == next_reload(init, ticks),
{
    let hz: u64 = ticks * 10;
    if hz == 0 {
        return None;
    }
    assert(init * hz <= 0xFFFF_FFFF * 10_000_000) by (nonlinear_arith)
        requires
            init <= 0xFFFF_FFFF,
            hz <= 10_000_000,
    ;
    let scaled: u64 = (init as u64) * hz / 1000;
    let next = (if scaled > 1 { scaled } else { 1 }) as u32;
    if next == init {
        None
    } else {
        Some(next)
    }
}

/// The spurious-interrupt register value that enables the APIC with the
/// spurious vector 0xFF.
pub fn svr_enable(svr: u32) -> (r: u32)
    ensures
        r == svr | 0x1FF,
{
    let r = svr | 0x100 | 0xFF;
    assert(svr | 0x100u32 | 0xFFu32 == svr | 0x1FFu32) by (bit_vector);
    r
}

/// The high word of an interrupt command to APIC ID `apic_id`.
pub fn icr_destination(apic_id: u8) -> (r: u32)
    ensures
        r == apic_id as u32 * 0x100_0000,
{
    let r = (apic_id as u32) << 24;
    assert((apic_id as u32) << 24 == apic_id as u32 * 0x100_0000) by (bit_vector);
    r
}

/// The low word of a STARTUP interrupt for the 4 KiB page `vector`.
pub fn sipi_command(vector: u8) -> (r: u32)
    ensures
        r == 0x600 + vector,
{
    let r = 0x600 | (vector as u32);
    assert(0x600u32 | (vector as u32) == 0x600 + vector) by (bit_vector);
    r
}

/// The first of the two IO-APIC registers of redirection entry `irq`.
pub fn redirection_register(irq: u32) -> (r: u32)
    requires
        irq <= 0xFF,
    ensures
        r == 0x10 + 2 * irq,
{
    0x10 + irq * 2
}

/// The local APIC timer entry: periodic, unmasked, on `TIMER_VECTOR`.
pub fn timer_lvt() -> (r: u32)
    ensures
        r == 0x20000 + TIMER_VECTOR,
{
    let r = 0x20000u32 | (TIMER_VECTOR as u32);
    assert(0x20000u32 | 0x20u32 == 0x20020u32) by (bit_vector);
    r
}

} // verus!
