//! The `heap` applet: a report of the kernel heap's statistics.
use vstd::prelude::*;
use vstd::string::StringSliceAdditionalSpecFns;
use crate::fmt::{dec_digits, dec_str, hex_fixed, hex_str_fixed};
use crate::memory::{HEAP_BASE, HEAP_END};
use crate::text::{push_bytes, push_str};

verus! {

/// `0x` and the sixteen lowercase hexadecimal digits of `v`.
pub open spec fn hex_text(v: nat) -> Seq<u8> {
    seq![48u8, 120u8] + hex_fixed(v, 16, false)
}

/// One labelled line of a report: the label, the value, a newline.
pub open spec fn row(label: &str, value: Seq<u8>) -> Seq<u8> {
    label.spec_bytes() + value + seq![10u8]
}

/// The report shown for a heap with `free` free bytes and `live` live
/// allocations.
pub open spec fn heap_report(free: nat, live: nat) -> Seq<u8> {
    let total = (HEAP_END - HEAP_BASE) as nat;
    let used = (total - free) as nat;
    row("planckOS v0.1 - Heap Allocator", Seq::empty())
        + row("Total heap:     ", hex_text(total))
        + row("Free:           ", hex_text(free))
        + row("Used:           ", hex_text(used))
        + row("Live allocs:    ", dec_digits(live))
        + row("Utilization:    ", dec_digits(used * 100 / total))
        + "%\r\n".spec_bytes()
}

/// `0x` and the sixteen lowercase hexadecimal digits of `v`.
pub fn hex_str(v: usize) -> (r: Vec<u8>)
    ensures
        r@ == hex_text(v as nat),
{
    let mut r: Vec<u8> = Vec::new();
    r.push(48);
    r.push(120);
    let digits = hex_str_fixed(v as u64, 16, false);
    push_bytes(&mut r, digits.as_slice());
    proof {
        assert(r@ =~= hex_text(v as nat));
    }
    r
}

fn push_row(out: &mut Vec<u8>, label: &str, value: &[u8])
    ensures
        final(out)@ == old(out)@ + row(label, value@),
{
    push_str(out, label);
    push_bytes(out, value);
    out.push(10);
    proof {
        assert(final(out)@ =~= old(out)@ + row(label, value@));
    }
}

/// The heap report for `free` free bytes and `live` live allocations; the
/// heap spans `HEAP_BASE` to `HEAP_END`.
pub fn run(free: usize, live: u64) -> (r: Vec<u8>)
    requires
        free <= HEAP_END - HEAP_BASE,
    ensures
        r@ == heap_report(free as nat, live as nat),
{
    let total: usize = HEAP_END - HEAP_BASE;
    let used: usize = total - free;
    assert(used * 100 <= total * 100) by (nonlinear_arith)
        requires
            used <= total,
    ;
    let pct: usize = used * 100 / total;
    let mut out: Vec<u8> = Vec::new();
    let empty: Vec<u8> = Vec::new();
    push_row(&mut out, "planckOS v0.1 - Heap Allocator", empty.as_slice());
    let t = hex_str(total);
    push_row(&mut out, "Total heap:     ", t.as_slice());
    let f = hex_str(free);
    push_row(&mut out, "Free:           ", f.as_slice());
    let u = hex_str(used);
    push_row(&mut out, "Used:           ", u.as_slice());
    let l = dec_str(live);
    push_row(&mut out, "Live allocs:    ", l.as_slice());
    let p = dec_str(pct as u64);
    push_row(&mut out, "Utilization:    ", p.as_slice());
    push_str(&mut out, "%\r\n");
    proof {
        assert(empty@ =~= Seq::<u8>::empty());
        assert(out@ =~= heap_report(free as nat, live as nat));
    }
    out
}

} // verus!
