//! The `sysinfo` applet: processor, memory and uptime.
use vstd::prelude::*;
use vstd::string::StringSliceAdditionalSpecFns;
use crate::cpuid::{CpuInfo, brand_all_spaces, brand_text, has_feature_ecx, has_feature_edx, vendor_str, brand_str, vendor_text};
use crate::fmt::{dec_digits, dec_str};
use crate::text::{push_bytes, push_str};

verus! {

/// Bit `bit` of leaf-1 `edx`.
pub open spec fn edx_bit(info: CpuInfo, bit: u32) -> bool {
    (info.features_edx >> bit) & 1 != 0
}

/// Bit `bit` of leaf-1 `ecx`.
pub open spec fn ecx_bit(info: CpuInfo, bit: u32) -> bool {
    (info.features_ecx >> bit) & 1 != 0
}

/// `s` with `name` appended when `present`.
pub open spec fn with_if(s: Seq<&'static str>, present: bool, name: &'static str) -> Seq<&'static str> {
    if present {
        s.push(name)
    } else {
        s
    }
}

/// Names of the features the processor reports, in the order shown.
pub open spec fn feature_names(info: CpuInfo) -> Seq<&'static str> {
    let s = with_if(Seq::empty(), edx_bit(info, 0), "FPU");
    let s = with_if(s, edx_bit(info, 4), "TSC");
    let s = with_if(s, edx_bit(info, 23), "MMX");
    let s = with_if(s, edx_bit(info, 25), "SSE");
    let s = with_if(s, edx_bit(info, 26), "SSE2");
    let s = with_if(s, ecx_bit(info, 0), "SSE3");
    let s = with_if(s, ecx_bit(info, 9), "SSSE3");
    let s = with_if(s, ecx_bit(info, 12), "FMA");
    let s = with_if(s, ecx_bit(info, 19), "SSE4.1");
    let s = with_if(s, ecx_bit(info, 20), "SSE4.2");
    let s = with_if(s, ecx_bit(info, 28), "AVX");
    let s = with_if(s, ecx_bit(info, 30), "RDRAND");
    let s = with_if(s, edx_bit(info, 24), "FXSR");
    let s = with_if(s, edx_bit(info, 16), "PAT");
    let s = with_if(s, edx_bit(info, 5), "MSR");
    with_if(s, edx_bit(info, 13), "PSE")
}

/// `names` separated by single spaces.
pub open spec fn joined(names: Seq<&str>) -> Seq<u8>
    decreases names.len(),
{
    if names.len() == 0 {
        Seq::empty()
    } else if names.len() == 1 {
        names[0].spec_bytes()
    } else {
        joined(names.drop_last()) + seq![32u8] + names.last().spec_bytes()
    }
}

/// The system-information report.
pub open spec fn sysinfo_report(info: CpuInfo, usable: u64, ticks: u64) -> Seq<u8> {
    let seconds = ticks / 18u64;
    "planckOS v0.1 - System Information\n\nKernel:       planckOS v0.1 (x86-64, Rust)\r\n".spec_bytes()
        + "CPU Vendor:   ".spec_bytes() + vendor_text(info) + seq![10u8]
        + "CPU Model:    ".spec_bytes() + brand_text(info) + seq![10u8]
        + "CPU Revision: Family ".spec_bytes() + dec_digits(info.family as nat) + ", Model ".spec_bytes()
        + dec_digits(info.model as nat) + ", Stepping ".spec_bytes() + dec_digits(info.stepping as nat)
        + seq![10u8] + "Features:     ".spec_bytes() + joined(feature_names(info)) + seq![10u8]
        + "Memory:       ".spec_bytes() + dec_digits(((usable / 1048576u64) as u32) as nat)
        + " MB usable\n".spec_bytes() + "Uptime:       ".spec_bytes() + dec_digits(((seconds / 60u64) as u32) as nat)
        + "m ".spec_bytes() + dec_digits(((seconds % 60u64) as u32) as nat) + "s\n".spec_bytes()
}

fn add_if(v: &mut Vec<&'static str>, present: bool, name: &'static str)
    ensures
        final(v)@ == with_if(old(v)@, present, name),
{
    if present {
        v.push(name);
    }
}

/// Names of the features the processor reports.
pub fn features(info: &CpuInfo) -> (r: Vec<&'static str>)
    ensures
        r@ == feature_names(*info),
{
    let mut v: Vec<&'static str> = Vec::new();
    add_if(&mut v, has_feature_edx(info, 0), "FPU");
    add_if(&mut v, has_feature_edx(info, 4), "TSC");
    add_if(&mut v, has_feature_edx(info, 23), "MMX");
    add_if(&mut v, has_feature_edx(info, 25), "SSE");
    add_if(&mut v, has_feature_edx(info, 26), "SSE2");
    add_if(&mut v, has_feature_ecx(info, 0), "SSE3");
    add_if(&mut v, has_feature_ecx(info, 9), "SSSE3");
    add_if(&mut v, has_feature_ecx(info, 12), "FMA");
    add_if(&mut v, has_feature_ecx(info, 19), "SSE4.1");
    add_if(&mut v, has_feature_ecx(info, 20), "SSE4.2");
    add_if(&mut v, has_feature_ecx(info, 28), "AVX");
    add_if(&mut v, has_feature_ecx(info, 30), "RDRAND");
    add_if(&mut v, has_feature_edx(info, 24), "FXSR");
    add_if(&mut v, has_feature_edx(info, 16), "PAT");
    add_if(&mut v, has_feature_edx(info, 5), "MSR");
    add_if(&mut v, has_feature_edx(info, 13), "PSE");
    v
}

/// Appends `names` separated by single spaces.
fn push_joined(out: &mut Vec<u8>, names: &Vec<&'static str>)
    ensures
        final(out)@ == old(out)@ + joined(names@),
{
    let ghost start = out@;
    let mut i: usize = 0;
    while i < names.len()
        invariant
            i <= names@.len(),
            out@ == start + joined(names@.take(i as int)),
        decreases names@.len() - i,
    {
        let ghost before = out@;
        if i > 0 {
            out.push(32);
        }
        push_str(out, names[i]);
        proof {
            let t = names@.take(i + 1);
            assert(t.drop_last() =~= names@.take(i as int));
            if i == 0 {
                assert(joined(names@.take(i as int)) =~= Seq::<u8>::empty());
                assert(out@ =~= start + joined(t));
            } else {
                assert(out@ =~= start + joined(t));
            }
        }
        i = i + 1;
    }
    assert(names@.take(names@.len() as int) =~= names@);
}

/// The system-information report for processor `info`, `usable` bytes of
/// usable memory and `ticks` timer ticks (18 per second) since boot.
pub fn run(info: &CpuInfo, usable: u64, ticks: u64) -> (r: Vec<u8>)
    requires
        !brand_all_spaces(*info),
    ensures
        r@ == sysinfo_report(*info, usable, ticks),
{
    let mut out: Vec<u8> = Vec::new();
    push_str(&mut out, "planckOS v0.1 - System Information\n\nKernel:       planckOS v0.1 (x86-64, Rust)\r\n");
    push_str(&mut out, "CPU Vendor:   ");
    let v = vendor_str(info);
    push_bytes(&mut out, v.as_slice());
    out.push(10);
    push_str(&mut out, "CPU Model:    ");
    let b = brand_str(info);
    push_bytes(&mut out, b.as_slice());
    out.push(10);
    push_str(&mut out, "CPU Revision: Family ");
    let f = dec_str(info.family as u64);
    push_bytes(&mut out, f.as_slice());
    push_str(&mut out, ", Model ");
    let m = dec_str(info.model as u64);
    push_bytes(&mut out, m.as_slice());
    push_str(&mut out, ", Stepping ");
    let s = dec_str(info.stepping as u64);
    push_bytes(&mut out, s.as_slice());
    out.push(10);
    push_str(&mut out, "Features:     ");
    let names = features(info);
    push_joined(&mut out, &names);
    out.push(10);
    let mb = (usable / (1024 * 1024)) as u32;
    push_str(&mut out, "Memory:       ");
    let t = dec_str(mb as u64);
    push_bytes(&mut out, t.as_slice());
    push_str(&mut out, " MB usable\n");
    let seconds = ticks / 18;
    let mins = (seconds / 60) as u32;
    let secs = (seconds % 60) as u32;
    push_str(&mut out, "Uptime:       ");
    let a = dec_str(mins as u64);
    push_bytes(&mut out, a.as_slice());
    push_str(&mut out, "m ");
    let c = dec_str(secs as u64);
    push_bytes(&mut out, c.as_slice());
    push_str(&mut out, "s\n");
    proof {
        assert(out@ =~= sysinfo_report(*info, usable, ticks));
    }
    out
}

} // verus!
