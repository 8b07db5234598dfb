//! Decoding of the processor identification leaves.
use vstd::prelude::*;
use crate::text::{all_ascii, is_utf8, utf8_valid, copy_range, position_of, prefix_len_before};

verus! {

/// The four registers one `cpuid` leaf returns.
#[derive(Clone, Copy, Debug)]
pub struct CpuidRegs {
    pub eax: u32,
    pub ebx: u32,
    pub ecx: u32,
    pub edx: u32,
}

/// The raw leaves the processor reported: leaf 0, leaf 1, leaf 0x80000000,
/// leaf 0x80000001 and the three brand-string leaves 0x80000002..=0x80000004.
/// Leaves the processor does not support are left zero by the caller.
#[derive(Clone, Copy, Debug)]
pub struct CpuidLeaves {
    pub basic: CpuidRegs,
    pub info: CpuidRegs,
    pub ext_max: CpuidRegs,
    pub ext_info: CpuidRegs,
    pub brand: [CpuidRegs; 3],
}

/// Processor vendor, model and feature information.
#[derive(Clone, Copy, Debug)]
pub struct CpuInfo {
    pub vendor: [u8; 12],
    pub brand: [u8; 48],
    pub max_leaf: u32,
    pub stepping: u8,
    pub model: u8,
    pub family: u8,
    pub ext_model: u8,
    pub ext_family: u8,
    pub features_edx: u32,
    pub features_ecx: u32,
    pub ext_features_ebx: u32,
}

/// Byte `i` (little-endian) of `w`.
pub open spec fn le_byte(w: u32, i: int) -> u8 {
    ((w >> (8 * i) as u32) & 0xff) as u8
}

/// The little-endian bytes of `w`.
pub open spec fn le_bytes(w: u32) -> Seq<u8> {
    seq![le_byte(w, 0), le_byte(w, 1), le_byte(w, 2), le_byte(w, 3)]
}

/// The vendor string the registers of leaf 0 spell: `ebx`, `edx`, `ecx`.
pub open spec fn vendor_of(r: CpuidRegs) -> Seq<u8> {
    le_bytes(r.ebx) + le_bytes(r.edx) + le_bytes(r.ecx)
}

/// The brand string the three brand leaves spell, each as `eax ebx ecx edx`.
pub open spec fn brand_of(b: [CpuidRegs; 3]) -> Seq<u8> {
    let part = |r: CpuidRegs| le_bytes(r.eax) + le_bytes(r.ebx) + le_bytes(r.ecx) + le_bytes(r.edx);
    part(b@[0]) + part(b@[1]) + part(b@[2])
}

proof fn lemma_le_bytes(w: u32)
    ensures
        le_byte(w, 0) == (w & 0xff) as u8,
        le_byte(w, 1) == ((w >> 8) & 0xff) as u8,
        le_byte(w, 2) == ((w >> 16) & 0xff) as u8,
        le_byte(w, 3) == ((w >> 24) & 0xff) as u8,
{
    assert(((w >> 0u32) & 0xff) as u8 == (w & 0xff) as u8) by (bit_vector);
}

fn put_le(out: &mut [u8; 48], at: usize, w: u32)
    requires
        at + 4 <= 48,
    ensures
        final(out)@ == old(out)@.update(at as int, le_byte(w, 0)).update(at + 1, le_byte(w, 1)).update(
            at + 2,
            le_byte(w, 2),
        ).update(at + 3, le_byte(w, 3)),
{
    proof {
        lemma_le_bytes(w);
    }
    out[at] = (w & 0xff) as u8;
    out[at + 1] = ((w >> 8) & 0xff) as u8;
    out[at + 2] = ((w >> 16) & 0xff) as u8;
    out[at + 3] = ((w >> 24) & 0xff) as u8;
}

fn put_le12(out: &mut [u8; 12], at: usize, w: u32)
    requires
        at + 4 <= 12,
    ensures
        final(out)@ == old(out)@.update(at as int, le_byte(w, 0)).update(at + 1, le_byte(w, 1)).update(
            at + 2,
            le_byte(w, 2),
        ).update(at + 3, le_byte(w, 3)),
{
    proof {
        lemma_le_bytes(w);
    }
    out[at] = (w & 0xff) as u8;
    out[at + 1] = ((w >> 8) & 0xff) as u8;
    out[at + 2] = ((w >> 16) & 0xff) as u8;
    out[at + 3] = ((w >> 24) & 0xff) as u8;
}

/// Decodes the raw leaves into a [`CpuInfo`]: vendor from leaf 0; stepping,
/// model, family, extended model and family and the feature words from leaf
/// 1 when the maximum basic leaf is at least 1; the extended feature word
/// when leaf 0x80000001 exists; the brand string when leaf 0x80000004 exists.
pub fn query(l: &CpuidLeaves) -> (info: CpuInfo)
    ensures
        info.vendor@ == vendor_of(l.basic),
        info.max_leaf == l.basic.eax,
        l.basic.eax >= 1 ==> {
            &&& info.stepping == l.info.eax & 0xF
            &&& info.model == (l.info.eax >> 4) & 0xF
            &&& info.family == (l.info.eax >> 8) & 0xF
            &&& info.ext_model == (l.info.eax >> 16) & 0xF
            &&& info.ext_family == (l.info.eax >> 20) & 0xFF
            &&& info.features_edx == l.info.edx
            &&& info.features_ecx == l.info.ecx
        },
        l.basic.eax < 1 ==> info.stepping == 0 && info.model == 0 && info.family == 0 && info.ext_model == 0
            && info.ext_family == 0 && info.features_edx == 0 && info.features_ecx == 0,
        info.ext_features_ebx == (if l.ext_max.eax >= 0x80000001 { l.ext_info.ebx } else { 0 }),
        l.ext_max.eax >= 0x80000004 ==> info.brand@ == brand_of(l.brand),
        l.ext_max.eax < 0x80000004 ==> info.brand@ == Seq::new(48, |i: int| 0u8),
{
    let mut vendor = [0u8; 12];
    put_le12(&mut vendor, 0, l.basic.ebx);
    put_le12(&mut vendor, 4, l.basic.edx);
    put_le12(&mut vendor, 8, l.basic.ecx);
    proof {
        assert(vendor@ =~= vendor_of(l.basic));
    }
    let mut info = CpuInfo {
        vendor,
        brand: [0u8; 48],
        max_leaf: l.basic.eax,
        stepping: 0,
        model: 0,
        family: 0,
        ext_model: 0,
        ext_family: 0,
        features_edx: 0,
        features_ecx: 0,
        ext_features_ebx: 0,
    };
    proof {
        assert(info.brand@ =~= Seq::new(48, |i: int| 0u8));
    }
    if info.max_leaf >= 1 {
        let eax1 = l.info.eax;
        info.stepping = (eax1 & 0xF) as u8;
        info.model = ((eax1 >> 4) & 0xF) as u8;
        info.family = ((eax1 >> 8) & 0xF) as u8;
        info.ext_model = ((eax1 >> 16) & 0xF) as u8;
        info.ext_family = ((eax1 >> 20) & 0xFF) as u8;
        info.features_edx = l.info.edx;
        info.features_ecx = l.info.ecx;
        proof {
            assert(eax1 & 0xF < 256 && (eax1 >> 4) & 0xF < 256 && (eax1 >> 8) & 0xF < 256 && (eax1 >> 16) & 0xF
                < 256 && (eax1 >> 20) & 0xFF < 256) by (bit_vector);
        }
    }
    if l.ext_max.eax >= 0x80000001 {
        info.ext_features_ebx = l.ext_info.ebx;
    }
    if l.ext_max.eax >= 0x80000004 {
        let mut brand = [0u8; 48];
        let mut i: usize = 0;
        while i < 3
            invariant
                i <= 3,
                forall|j: int| 0 <= j < 16 * i ==> brand@[j] == #[trigger] brand_of(l.brand)[j],
            decreases 3 - i,
        {
            let r = l.brand[i];
            let ghost before = brand@;
            put_le(&mut brand, 16 * i, r.eax);
            put_le(&mut brand, 16 * i + 4, r.ebx);
            put_le(&mut brand, 16 * i + 8, r.ecx);
            put_le(&mut brand, 16 * i + 12, r.edx);
            proof {
                let part = |r: CpuidRegs| le_bytes(r.eax) + le_bytes(r.ebx) + le_bytes(r.ecx) + le_bytes(r.edx);
                assert(brand_of(l.brand) == part(l.brand@[0]) + part(l.brand@[1]) + part(l.brand@[2]));
                assert forall|j: int| 0 <= j < 16 * (i + 1) implies brand@[j] == #[trigger] brand_of(l.brand)[j] by {
                    if j < 16 * i {
                        assert(brand@[j] == before[j]);
                    } else {
                        assert(l.brand@[i as int] == r);
                    }
                }
            }
            i = i + 1;
        }
        info.brand = brand;
        proof {
            assert(info.brand@ =~= brand_of(l.brand));
        }
    }
    info
}

/// Whether bit `bit` of the leaf-1 `edx` feature word is set.
pub fn has_feature_edx(info: &CpuInfo, bit: u8) -> (r: bool)
    requires
        bit < 32,
    ensures
        r == ((info.features_edx >> bit) & 1 != 0),
{
    (info.features_edx >> bit) & 1 != 0
}

/// Whether bit `bit` of the leaf-1 `ecx` feature word is set.
pub fn has_feature_ecx(info: &CpuInfo, bit: u8) -> (r: bool)
    requires
        bit < 32,
    ensures
        r == ((info.features_ecx >> bit) & 1 != 0),
{
    (info.features_ecx >> bit) & 1 != 0
}

/// Text shown when a name is not valid UTF-8 or is empty.
pub open spec fn unknown_text() -> Seq<u8> {
    seq![117u8, 110, 107, 110, 111, 119, 110]
}

fn unknown_bytes() -> (r: Vec<u8>)
    ensures
        r@ == unknown_text(),
{
    let r: Vec<u8> = vec![117u8, 110, 107, 110, 111, 119, 110];
    proof {
        assert(r@ =~= unknown_text());
    }
    r
}

/// The vendor bytes up to the first NUL, or `unknown` when they are not
/// valid UTF-8.
pub open spec fn vendor_text(info: CpuInfo) -> Seq<u8> {
    let name = info.vendor@.subrange(0, prefix_len_before(info.vendor@, 0));
    if utf8_valid(name) {
        name
    } else {
        unknown_text()
    }
}

/// The vendor string: the vendor bytes up to the first NUL, or `unknown`
/// when they are not valid UTF-8.
pub fn vendor_str(info: &CpuInfo) -> (r: Vec<u8>)
    ensures
        r@ == vendor_text(*info),
{
    let v = info.vendor.as_slice();
    let len = position_of(v, 0);
    let name = copy_range(v, 0, len);
    if is_utf8(name.as_slice()) {
        name
    } else {
        unknown_bytes()
    }
}

/// Index of the first byte of `s` that is not a space (0 when all are).
pub open spec fn first_non_space(s: Seq<u8>) -> int {
    if exists|i: int| 0 <= i < s.len() && s[i] != 32 {
        choose|i: int| 0 <= i < s.len() && s[i] != 32 && forall|j: int| 0 <= j < i ==> s[j] == 32
    } else {
        0
    }
}

/// One past the last byte of `s` that is not a space.
pub open spec fn end_non_space(s: Seq<u8>) -> int {
    if exists|i: int| 0 <= i < s.len() && s[i] != 32 {
        1 + choose|i: int| 0 <= i < s.len() && s[i] != 32 && forall|j: int| i < j < s.len() ==> s[j] == 32
    } else {
        s.len() as int + 1
    }
}

/// The brand bytes before the first NUL.
pub open spec fn brand_name(info: CpuInfo) -> Seq<u8> {
    info.brand@.subrange(0, prefix_len_before(info.brand@, 0))
}

/// The brand name cannot be trimmed: it is made of spaces only.
pub open spec fn brand_all_spaces(info: CpuInfo) -> bool {
    let n = brand_name(info);
    n.len() > 0 && forall|i: int| 0 <= i < n.len() ==> n[i] == 32
}

/// The brand bytes before the first NUL with leading and trailing spaces
/// trimmed, or `unknown` when that is empty or not valid UTF-8.
pub open spec fn brand_text(info: CpuInfo) -> Seq<u8> {
    let n = brand_name(info);
    let t = n.subrange(first_non_space(n), end_non_space(n));
    if n.len() == 0 || !utf8_valid(t) {
        unknown_text()
    } else {
        t
    }
}

/// The brand string: the bytes before the first NUL with leading and
/// trailing spaces trimmed, or `unknown` when that is empty or not valid
/// UTF-8.
pub fn brand_str(info: &CpuInfo) -> (r: Vec<u8>)
    requires
        !brand_all_spaces(*info),
    ensures
        r@ == brand_text(*info),
{
    let b = info.brand.as_slice();
    let len = position_of(b, 0);
    if len == 0 {
        return unknown_bytes();
    }
    let ghost n = b@.subrange(0, len as int);
    let mut start: usize = 0;
    while start < len && b[start] == 32
        invariant
            start <= len <= b@.len(),
            forall|j: int| 0 <= j < start ==> b@[j] == 32,
        decreases len - start,
    {
        start = start + 1;
    }
    if start == len {
        proof {
            assert(forall|i: int| 0 <= i < n.len() ==> n[i] == 32);
        }
        return unknown_bytes();
    }
    let mut end: usize = len;
    while end > start && b[end - 1] == 32
        invariant
            start < len,
            b@[start as int] != 32,
            start < end <= len <= b@.len(),
            forall|j: int| end <= j < len ==> b@[j] == 32,
        decreases end,
    {
        end = end - 1;
    }
    proof {
        assert(0 <= start < n.len() && n[start as int] != 32);
        let f = choose|i: int| 0 <= i < n.len() && n[i] != 32 && forall|j: int| 0 <= j < i ==> n[j] == 32;
        if f < start {
            assert(n[f] == 32);
        } else if f > start {
            assert(n[start as int] == 32);
        }
        assert(first_non_space(n) == start);
        assert(0 <= end - 1 < n.len() && n[end - 1] != 32);
        let g = choose|i: int| 0 <= i < n.len() && n[i] != 32 && forall|j: int| i < j < n.len() ==> n[j] == 32;
        if g < end - 1 {
            assert(n[end - 1] == 32);
        } else if g > end - 1 {
            assert(n[g] == 32);
        }
        assert(end_non_space(n) == end);
    }
    let t = copy_range(b, start, end);
    proof {
        assert(t@ =~= n.subrange(start as int, end as int));
    }
    if is_utf8(t.as_slice()) {
        t
    } else {
        unknown_bytes()
    }
}

} // verus!
