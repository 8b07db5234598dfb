//! Interrupt descriptors and the decisions of the interrupt handler.
use vstd::prelude::*;
use crate::fmt::hex_fixed;
use crate::fmt::hex_str_fixed;
use crate::text::concat;

verus! {

/// One 64-bit interrupt gate descriptor.
#[derive(Clone, Copy, Debug, PartialEq, Eq, Structural)]
pub struct IdtEntry {
    pub offset_low: u16,
    pub selector: u16,
    pub ist: u8,
    pub flags: u8,
    pub offset_mid: u16,
    pub offset_high: u32,
    pub reserved: u32,
}

/// Code segment selector of the 64-bit kernel code.
pub const GDT_CODE64: u16 = 0x18;
/// Present, ring 0, 64-bit interrupt gate.
pub const IDT_INTR_GATE: u8 = 0x8E;

/// The interrupt descriptor pointing at the handler at `handler`.
pub fn gate(handler: u64) -> (e: IdtEntry)
    ensures
        e.offset_low == handler % 0x1_0000,
        e.offset_mid == (handler / 0x1_0000) % 0x1_0000,
        e.offset_high == handler / 0x1_0000_0000,
        e.selector == GDT_CODE64,
        e.ist == 0,
        e.flags == IDT_INTR_GATE,
        e.reserved == 0,
{
    IdtEntry {
        offset_low: (handler % 0x1_0000) as u16,
        selector: GDT_CODE64,
        ist: 0,
        flags: IDT_INTR_GATE,
        offset_mid: ((handler / 0x1_0000) % 0x1_0000) as u16,
        offset_high: (handler / 0x1_0000_0000) as u32,
        reserved: 0,
    }
}

/// The all-zero (absent) descriptor.
pub fn empty_gate() -> (e: IdtEntry)
    ensures
        e == (IdtEntry { offset_low: 0, selector: 0, ist: 0, flags: 0, offset_mid: 0, offset_high: 0, reserved: 0 }),
{
    IdtEntry { offset_low: 0, selector: 0, ist: 0, flags: 0, offset_mid: 0, offset_high: 0, reserved: 0 }
}

/// What the interrupt handler does for one interrupt.
#[derive(Clone, Debug)]
pub enum IrqAction {
    /// Timer tick: counted, then end-of-interrupt on IRQ 0.
    Tick,
    /// Keyboard: the scancode is read and decoded, then end-of-interrupt on IRQ 1.
    Keyboard,
    /// A processor exception: the message is shown and the processor halts.
    Halt(Vec<u8>),
}

/// `"EXC #<vector> ERR=<code> -- HALT"` with both numbers as 16 upper-case
/// hexadecimal digits.
pub open spec fn exception_text(int_no: u64, error_code: u64) -> Seq<u8> {
    seq![69u8, 88, 67, 32, 35] + hex_fixed(int_no as nat, 16, true) + seq![32u8, 69, 82, 82, 61] + hex_fixed(
        error_code as nat,
        16,
        true,
    ) + seq![32u8, 45, 45, 32, 72, 65, 76, 84]
}

/// Owns the console used to report exceptions and counts timer ticks.
pub struct InterruptController {
    pub ticks: u64,
}

impl InterruptController {
    /// No tick counted yet.
    pub fn new() -> (c: Self)
        ensures
            c.ticks == 0,
    {
        InterruptController { ticks: 0 }
    }

    /// Decides what interrupt `int_no` (with `error_code`) calls for: vector
    /// 32 is the timer (counted, wrapping), 33 the keyboard, anything else an
    /// exception that halts with [`exception_text`].
    pub fn dispatch(&mut self, int_no: u64, error_code: u64) -> (a: IrqAction)
        ensures
            int_no == 32 ==> a is Tick && final(self).ticks == (if old(self).ticks == u64::MAX {
                0
            } else {
                old(self).ticks + 1
            }),
            int_no != 32 ==> final(self).ticks == old(self).ticks,
            int_no == 33 ==> a is Keyboard,
            int_no != 32 && int_no != 33 ==> (a matches IrqAction::Halt(t) && t@ == exception_text(int_no, error_code)),
    {
        if int_no == 32 {
            self.ticks = self.ticks.wrapping_add(1);
            return IrqAction::Tick;
        }
        if int_no == 33 {
            return IrqAction::Keyboard;
        }
        let head: Vec<u8> = vec![69u8, 88, 67, 32, 35];
        let mid: Vec<u8> = vec![32u8, 69, 82, 82, 61];
        let tail: Vec<u8> = vec![32u8, 45, 45, 32, 72, 65, 76, 84];
        let a = hex_str_fixed(int_no, 16, true);
        let b = hex_str_fixed(error_code, 16, true);
        let t1 = concat(head.as_slice(), a.as_slice());
        let t2 = concat(t1.as_slice(), mid.as_slice());
        let t3 = concat(t2.as_slice(), b.as_slice());
        let t4 = concat(t3.as_slice(), tail.as_slice());
        proof {
            assert(head@ =~= seq![69u8, 88, 67, 32, 35]);
            assert(mid@ =~= seq![32u8, 69, 82, 82, 61]);
            assert(tail@ =~= seq![32u8, 45, 45, 32, 72, 65, 76, 84]);
        }
        IrqAction::Halt(t4)
    }
}

/// The PIC command ports that acknowledge IRQ `irq`: the slave's too for
/// IRQs 8 and up, then the master's.
pub fn eoi_ports(irq: u8) -> (r: Vec<u16>)
    ensures
        r@ == (if irq >= 8 { seq![0xA0u16, 0x20u16] } else { seq![0x20u16] }),
{
    let mut r: Vec<u16> = Vec::new();
    if irq >= 8 {
        r.push(0xA0);
    }
    r.push(0x20);
    proof {
        assert(r@ =~= (if irq >= 8 { seq![0xA0u16, 0x20u16] } else { seq![0x20u16] }));
    }
    r
}

} // verus!
