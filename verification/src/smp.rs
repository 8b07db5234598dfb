//! Application-processor start-up helpers: trampoline patching and the TSS
//! descriptor.
use vstd::prelude::*;
use crate::idt::IdtEntry;

verus! {

/// Per-processor tables and state.
pub struct PerCpu {
    pub idt: Vec<IdtEntry>,
    pub gdt: [u64; 7],
    pub tss: [u8; 104],
    pub stack_top: usize,
    pub apic_id: u8,
    pub index: usize,
    pub state: u8,
    pub ipi_count: usize,
    pub ipi_flag: bool,
}

/// `marker` occurs at `i` of `blob`.
pub open spec fn marker_at(blob: Seq<u8>, marker: [u8; 4], i: int) -> bool {
    0 <= i && i + 4 <= blob.len() && blob.subrange(i, i + 4) == marker@
}

/// The offset just after the first occurrence of `marker` in `blob`.
pub fn find_marker(blob: &[u8], marker: [u8; 4]) -> (r: usize)
    requires
        exists|i: int| marker_at(blob@, marker, i),
    ensures
        marker_at(blob@, marker, r - 4),
        r >= 4,
        forall|j: int| 0 <= j < r - 4 ==> !marker_at(blob@, marker, j),
{
    let len = blob.len();
    let mut i: usize = 0;
    while i + 4 <= len
        invariant
            len == blob@.len(),
            exists|k: int| marker_at(blob@, marker, k),
            forall|j: int| 0 <= j < i ==> !marker_at(blob@, marker, j),
        decreases len - i,
    {
        if blob[i] == marker[0] && blob[i + 1] == marker[1] && blob[i + 2] == marker[2] && blob[i + 3] == marker[3] {
            proof {
                assert(blob@.subrange(i as int, i + 4) =~= marker@);
            }
            return i + 4;
        }
        proof {
            if blob@.subrange(i as int, i + 4) == marker@ {
                assert(blob@.subrange(i as int, i + 4)[0] == marker@[0]);
                assert(blob@.subrange(i as int, i + 4)[1] == marker@[1]);
                assert(blob@.subrange(i as int, i + 4)[2] == marker@[2]);
                assert(blob@.subrange(i as int, i + 4)[3] == marker@[3]);
            }
        }
        i = i + 1;
    }
    proof {
        let k = choose|k: int| marker_at(blob@, marker, k);
        assert(!marker_at(blob@, marker, k));
    }
    0
}

/// Stores `val` little-endian at `off` of `blob`.
pub fn write_u16(blob: &mut Vec<u8>, off: usize, val: u16)
    requires
        off + 2 <= old(blob)@.len(),
    ensures
        final(blob)@ == old(blob)@.update(off as int, (val % 256) as u8).update(off + 1, (val / 256) as u8),
{
    let _l = blob.len();
    blob.set(off, (val % 256) as u8);
    blob.set(off + 1, (val / 256) as u8);
}

/// Byte `i` (little-endian) of `v`.
pub open spec fn byte_of(v: u64, i: int) -> u8 {
    ((v as int / pow256(i)) % 256) as u8
}

/// 256 to the power `i`.
pub open spec fn pow256(i: int) -> int
    decreases i,
{
    if i <= 0 {
        1
    } else {
        256 * pow256(i - 1)
    }
}

/// Stores `val` little-endian at `off` of `blob`.
pub fn write_u64(blob: &mut Vec<u8>, off: usize, val: u64)
    requires
        off + 8 <= old(blob)@.len(),
    ensures
        final(blob)@.len() == old(blob)@.len(),
        forall|i: int| 0 <= i < 8 ==> #[trigger] final(blob)@[off + i] == byte_of(val, i),
        forall|j: int| 0 <= j < old(blob)@.len() && !(off <= j < off + 8) ==> final(blob)@[j] == old(blob)@[j],
{
    let _l = blob.len();
    let mut v = val;
    let mut i: usize = 0;
    while i < 8
        invariant
            off + 8 <= blob@.len(),
            blob@.len() <= usize::MAX,
            blob@.len() == old(blob)@.len(),
            i <= 8,
            v as int == val as int / pow256(i as int),
            forall|k: int| 0 <= k < i ==> #[trigger] blob@[off + k] == byte_of(val, k),
            forall|j: int| 0 <= j < old(blob)@.len() && !(off <= j < off + i) ==> blob@[j] == old(blob)@[j],
        decreases 8 - i,
    {
        blob.set(off + i, (v % 256) as u8);
        proof {
            assert(pow256(i + 1) == 256 * pow256(i as int));
            assert(pow256(i as int) > 0) by {
                lemma_pow256_pos(i as int);
            }
            vstd::arithmetic::div_mod::lemma_div_denominator(val as int, pow256(i as int), 256);
        }
        v = v / 256;
        i = i + 1;
    }
}

proof fn lemma_pow256_pos(i: int)
    ensures
        pow256(i) > 0,
    decreases i,
{
    if i > 0 {
        lemma_pow256_pos(i - 1);
    }
}

/// The low 64 bits of a 64-bit available-TSS descriptor for a TSS at
/// `base` with limit `limit`.
pub open spec fn tss_low(base: u64, limit: u64) -> u64 {
    (limit & 0xFFFF) | ((base & 0xFFFF) << 16u64) | (((base >> 16u64) & 0xFF) << 32u64) | (0x89u64 << 40u64)
        | (((limit >> 16u64) & 0xF) << 48u64) | (((base >> 24u64) & 0xFF) << 56u64)
}

/// Builds the low half of the TSS descriptor: limit bits 0..16, base bits
/// 0..24, type 0x89 (present, available 64-bit TSS), limit bits 16..20, base
/// bits 24..32.
pub fn tss_desc_lo(base: u64, limit: u64) -> (r: u64)
    ensures
        r == tss_low(base, limit),
{
    let mut lo = 0u64;
    lo = lo | (limit & 0xFFFF);
    lo = lo | ((base & 0xFFFF) << 16u64);
    lo = lo | (((base >> 16u64) & 0xFF) << 32u64);
    lo = lo | (0x89u64 << 40u64);
    lo = lo | (((limit >> 16u64) & 0xF) << 48u64);
    lo = lo | (((base >> 24u64) & 0xFF) << 56u64);
    proof {
        assert(0u64 | (limit & 0xFFFF) == limit & 0xFFFF) by (bit_vector);
    }
    lo
}

} // verus!
