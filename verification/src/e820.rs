//! The physical memory map.
use vstd::prelude::*;

verus! {

/// One region of the physical memory map.
#[derive(Debug, Clone, Copy, PartialEq, Eq, Structural)]
pub struct MemRegion {
    pub start: u64,
    pub len: u64,
    /// 1 usable, 2 reserved, 3 ACPI reclaimable, 4 ACPI NVS.
    pub typ: u32,
}

/// Region type of usable RAM.
pub const USABLE: u32 = 1;

/// The memory map of the machine the kernel targets (128 MiB).
pub fn regions() -> (r: Vec<MemRegion>)
    ensures
        r@ == map_regions(),
{
    let r = vec![
        MemRegion { start: 0x000000, len: 0x001000, typ: 2 },
        MemRegion { start: 0x001000, len: 0x09F000, typ: 2 },
        MemRegion { start: 0x0A0000, len: 0x060000, typ: 2 },
        MemRegion { start: 0x100000, len: 0x100000, typ: 2 },
        MemRegion { start: 0x200000, len: 0x400000, typ: 2 },
        MemRegion { start: 0x600000, len: 0x7A00000, typ: 1 },
    ];
    proof {
        assert(r@ =~= map_regions());
    }
    r
}

/// The regions [`regions`] returns: firmware and loader areas, the VGA and
/// BIOS window, the kernel image, the kernel heap (all reserved), then the
/// free RAM above 6 MiB.
pub open spec fn map_regions() -> Seq<MemRegion> {
    seq![
        MemRegion { start: 0x000000, len: 0x001000, typ: 2 },
        MemRegion { start: 0x001000, len: 0x09F000, typ: 2 },
        MemRegion { start: 0x0A0000, len: 0x060000, typ: 2 },
        MemRegion { start: 0x100000, len: 0x100000, typ: 2 },
        MemRegion { start: 0x200000, len: 0x400000, typ: 2 },
        MemRegion { start: 0x600000, len: 0x7A00000, typ: 1 },
    ]
}

/// Sum of the lengths of the usable regions of `rs`.
pub open spec fn usable_sum(rs: Seq<MemRegion>) -> int
    decreases rs.len(),
{
    if rs.len() == 0 {
        0
    } else {
        usable_sum(rs.drop_last()) + (if rs.last().typ == USABLE { rs.last().len as int } else { 0 })
    }
}

/// Total bytes of usable memory in the map.
pub fn total_usable() -> (r: u64)
    ensures
        r == usable_sum(map_regions()),
        r == 0x7A00000,
{
    let rs = regions();
    let mut total: u64 = 0;
    let mut i: usize = 0;
    proof {
        reveal_with_fuel(usable_sum, 7);
    }
    while i < rs.len()
        invariant
            rs@ == map_regions(),
            i <= rs@.len(),
            total == usable_sum(rs@.subrange(0, i as int)),
            total <= 0x7A00000,
            usable_sum(map_regions()) == 0x7A00000,
            forall|j: int| 0 <= j <= 6 ==> usable_sum(#[trigger] map_regions().subrange(0, j)) <= 0x7A00000,
        decreases rs.len() - i,
    {
        let r = rs[i];
        proof {
            assert(rs@.subrange(0, i + 1).drop_last() =~= rs@.subrange(0, i as int));
        }
        if r.typ == USABLE {
            total = total + r.len;
        }
        i = i + 1;
        proof {
            assert(usable_sum(rs@.subrange(0, i as int)) <= 0x7A00000);
        }
    }
    proof {
        assert(rs@.subrange(0, rs@.len() as int) =~= rs@);
    }
    total
}

} // verus!
