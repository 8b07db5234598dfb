//! ACPI table parsing: RSDP discovery, the MADT processor list and the
//! `\_S5` sleep package, and the soft-off command they yield.
use vstd::prelude::*;
use crate::fmt::dec_digits;
use crate::fmt::dec_str;
use crate::text::{concat, le32, le64, read_le32, read_le64};

verus! {

/// Most processors recorded from the MADT.
pub const MAX_CPUS: usize = 8;

/// What the MADT says about the interrupt controllers and processors.
#[derive(Clone, Copy)]
pub struct MadtInfo {
    pub lapic_base: u64,
    pub io_apic_addr: u64,
    pub io_apic_id: u8,
    pub cpu_count: usize,
    pub cpu_apic_ids: [u8; 8],
    pub pcat_compat: bool,
}

/// Abstract view of a [`MadtInfo`].
pub struct MadtV {
    pub lapic_base: u64,
    pub io_apic_addr: u64,
    pub io_apic_id: u8,
    pub cpu_count: int,
    pub cpu_apic_ids: Seq<u8>,
    pub pcat_compat: bool,
}

impl MadtInfo {
    pub open spec fn view(&self) -> MadtV {
        MadtV {
            lapic_base: self.lapic_base,
            io_apic_addr: self.io_apic_addr,
            io_apic_id: self.io_apic_id,
            cpu_count: self.cpu_count as int,
            cpu_apic_ids: self.cpu_apic_ids@,
            pcat_compat: self.pcat_compat,
        }
    }

    /// The state before any MADT was seen: the architectural local-APIC base.
    pub fn new() -> (m: Self)
        ensures
            m.lapic_base == 0xFEE00000,
            m.io_apic_addr == 0,
            m.io_apic_id == 0,
            m.cpu_count == 0,
            m.cpu_apic_ids@ == Seq::new(8, |i: int| 0u8),
            !m.pcat_compat,
    {
        let m = MadtInfo {
            lapic_base: 0xFEE00000,
            io_apic_addr: 0,
            io_apic_id: 0,
            cpu_count: 0,
            cpu_apic_ids: [0u8; 8],
            pcat_compat: false,
        };
        proof {
            assert(m.cpu_apic_ids@ =~= Seq::new(8, |i: int| 0u8));
        }
        m
    }
}

/// `m` after applying the MADT entry of type `t` and length `l` at `off`:
/// an enabled local APIC (type 0) is recorded while there is room, an I/O
/// APIC (type 1) sets its id and address, a local-APIC address override
/// (type 5) replaces the base unless it is zero; other entries are ignored.
pub open spec fn madt_entry(d: Seq<u8>, off: int, t: u8, l: int, m: MadtV) -> MadtV {
    if t == 0 && l >= 8 {
        if le32(d, off + 4) % 2 == 1 && m.cpu_count < MAX_CPUS {
            MadtV { cpu_apic_ids: m.cpu_apic_ids.update(m.cpu_count, d[off + 3]), cpu_count: m.cpu_count + 1, ..m }
        } else {
            m
        }
    } else if t == 1 && l >= 12 {
        MadtV { io_apic_id: d[off + 2], io_apic_addr: le32(d, off + 4) as u64, ..m }
    } else if t == 5 && l >= 12 && le64(d, off + 4) != 0 {
        MadtV { lapic_base: le64(d, off + 4) as u64, ..m }
    } else {
        m
    }
}

/// `m` after the MADT entries from offset `off` on; the walk stops at the end
/// of the table or at an entry whose length is below 2 or runs past the end.
pub open spec fn madt_walk(d: Seq<u8>, off: int, m: MadtV) -> MadtV
    decreases d.len() - off,
{
    if off < 0 || off + 2 > d.len() {
        m
    } else {
        let l = d[off + 1] as int;
        if l < 2 || off + l > d.len() {
            m
        } else {
            madt_walk(d, off + l, madt_entry(d, off, d[off], l, m))
        }
    }
}

/// `m` after parsing the MADT `d`: tables shorter than 48 bytes are ignored;
/// otherwise the local-APIC base and the PC/AT-compatibility flag come from
/// the fixed fields and the entries follow from offset 44.
pub open spec fn madt_parse(d: Seq<u8>, m: MadtV) -> MadtV {
    if d.len() < 48 {
        m
    } else {
        madt_walk(d, 44, MadtV { lapic_base: le32(d, 36) as u64, pcat_compat: le32(d, 40) % 2 == 1, ..m })
    }
}

/// The MADT entries of `d` lead from offset `a` to offset `o`: each entry
/// passed on the way holds at least its two header bytes, lies inside the
/// table and ends at or before `o`.
pub open spec fn madt_entries_reach(d: Seq<u8>, a: int, o: int) -> bool
    decreases o - a,
{
    if a == o {
        true
    } else if a > o || a < 0 || a + 2 > d.len() {
        false
    } else {
        let l = d[a + 1] as int;
        l >= 2 && a + l <= d.len() && a + l <= o && madt_entries_reach(d, a + l, o)
    }
}

/// No MADT entry of `d` from offset `a` on is an I/O APIC entry (type 1,
/// length at least 12), following entries as long as they are well formed.
pub open spec fn no_io_apic_from(d: Seq<u8>, a: int) -> bool
    decreases d.len() - a,
{
    if a < 0 || a + 2 > d.len() {
        true
    } else {
        let l = d[a + 1] as int;
        if l < 2 || a + l > d.len() {
            true
        } else {
            !(d[a] == 1 && l >= 12) && no_io_apic_from(d, a + l)
        }
    }
}

/// Walking entries with no I/O APIC entry among them leaves the recorded
/// I/O APIC as it was.
proof fn lemma_walk_keeps_io_apic(d: Seq<u8>, a: int, m: MadtV)
    requires
        no_io_apic_from(d, a),
    ensures
        madt_walk(d, a, m).io_apic_addr == m.io_apic_addr,
        madt_walk(d, a, m).io_apic_id == m.io_apic_id,
    decreases d.len() - a,
{
    if a >= 0 && a + 2 <= d.len() {
        let l = d[a + 1] as int;
        if l >= 2 && a + l <= d.len() {
            lemma_walk_keeps_io_apic(d, a + l, madt_entry(d, a, d[a], l, m));
        }
    }
}

/// Walking from `a` through the entries up to an I/O APIC entry at `o`
/// after which no other comes records that entry's id and address.
proof fn lemma_walk_records_io_apic(d: Seq<u8>, a: int, o: int, m: MadtV)
    requires
        madt_entries_reach(d, a, o),
        o >= 0,
        o + 12 <= d.len(),
        d[o] == 1,
        d[o + 1] >= 12,
        o + d[o + 1] <= d.len(),
        no_io_apic_from(d, o + d[o + 1]),
    ensures
        madt_walk(d, a, m).io_apic_addr == d[o + 4] + d[o + 5] * 256 + d[o + 6] * 65536 + d[o + 7] * 16777216,
        madt_walk(d, a, m).io_apic_id == d[o + 2],
    decreases o - a,
{
    if a == o {
        let l = d[o + 1] as int;
        let m1 = madt_entry(d, o, d[o], l, m);
        assert(m1.io_apic_addr == d[o + 4] + d[o + 5] * 256 + d[o + 6] * 65536 + d[o + 7] * 16777216);
        lemma_walk_keeps_io_apic(d, o + l, m1);
    } else {
        let l = d[a + 1] as int;
        lemma_walk_records_io_apic(d, a + l, o, madt_entry(d, a, d[a], l, m));
    }
}

/// What an MADT says of its I/O APIC: when the entries from offset 44 lead
/// to an I/O APIC entry (type 1, length at least 12) at `o` and no I/O APIC
/// entry follows it, the parsed I/O APIC address is the little-endian
/// 32-bit field at bytes `o + 4 .. o + 8` of that entry, and its id is byte
/// `o + 2`, whatever the rest of the entry (the interrupt base at `o + 8`)
/// holds.
pub proof fn law_madt_io_apic(d: Seq<u8>, m: MadtV, o: int)
    requires
        d.len() >= 48,
        madt_entries_reach(d, 44, o),
        o + 12 <= d.len(),
        d[o] == 1,
        d[o + 1] >= 12,
        o + d[o + 1] <= d.len(),
        no_io_apic_from(d, o + d[o + 1]),
    ensures
        madt_parse(d, m).io_apic_addr == d[o + 4] + d[o + 5] * 256 + d[o + 6] * 65536 + d[o + 7] * 16777216,
        madt_parse(d, m).io_apic_id == d[o + 2],
{
    lemma_walk_records_io_apic(
        d,
        44,
        o,
        MadtV { lapic_base: le32(d, 36) as u64, pcat_compat: le32(d, 40) % 2 == 1, ..m },
    );
}

/// The APIC ids of the enabled processors (local APIC entries: type 0,
/// length at least 8, flags bit 0 set) among the MADT entries of `d` from
/// offset `a` on, in table order, following entries as long as they are
/// well formed.
pub open spec fn enabled_cpu_ids(d: Seq<u8>, a: int) -> Seq<u8>
    decreases d.len() - a,
{
    if a < 0 || a + 2 > d.len() {
        Seq::empty()
    } else {
        let l = d[a + 1] as int;
        if l < 2 || a + l > d.len() {
            Seq::empty()
        } else if d[a] == 0 && l >= 8 && le32(d, a + 4) % 2 == 1 {
            seq![d[a + 3]] + enabled_cpu_ids(d, a + l)
        } else {
            enabled_cpu_ids(d, a + l)
        }
    }
}

/// The entries from `a` record the enabled processors' APIC ids after those
/// already recorded, in order, as long as there is room for `MAX_CPUS`.
proof fn lemma_walk_records_cpus(d: Seq<u8>, a: int, m: MadtV)
    requires
        0 <= m.cpu_count <= MAX_CPUS,
        m.cpu_apic_ids.len() == MAX_CPUS,
    ensures
        ({
            let r = madt_walk(d, a, m);
            let ids = enabled_cpu_ids(d, a);
            let n = if m.cpu_count + ids.len() < MAX_CPUS { m.cpu_count + ids.len() } else { MAX_CPUS as int };
            &&& r.cpu_count == n
            &&& r.cpu_apic_ids.len() == MAX_CPUS
            &&& forall|k: int| 0 <= k < m.cpu_count ==> #[trigger] r.cpu_apic_ids[k] == m.cpu_apic_ids[k]
            &&& forall|k: int| m.cpu_count <= k < n ==> #[trigger] r.cpu_apic_ids[k] == ids[k - m.cpu_count]
        }),
    decreases d.len() - a,
{
    if a >= 0 && a + 2 <= d.len() {
        let l = d[a + 1] as int;
        if l >= 2 && a + l <= d.len() {
            let m1 = madt_entry(d, a, d[a], l, m);
            lemma_walk_records_cpus(d, a + l, m1);
        }
    }
}

/// What an MADT says of the processors: parsing records, after those
/// already known, the APIC ids (byte 3 of each entry) of the enabled local
/// APIC entries (type 0, flags bit 0 set) reached from offset 44, in table
/// order, up to `MAX_CPUS` processors in all.
pub proof fn law_madt_cpus(d: Seq<u8>, m: MadtV)
    requires
        d.len() >= 48,
        0 <= m.cpu_count <= MAX_CPUS,
        m.cpu_apic_ids.len() == MAX_CPUS,
    ensures
        ({
            let r = madt_parse(d, m);
            let ids = enabled_cpu_ids(d, 44);
            let n = if m.cpu_count + ids.len() < MAX_CPUS { m.cpu_count + ids.len() } else { MAX_CPUS as int };
            &&& r.cpu_count == n
            &&& forall|k: int| 0 <= k < m.cpu_count ==> #[trigger] r.cpu_apic_ids[k] == m.cpu_apic_ids[k]
            &&& forall|k: int| m.cpu_count <= k < n ==> #[trigger] r.cpu_apic_ids[k] == ids[k - m.cpu_count]
        }),
{
    lemma_walk_records_cpus(
        d,
        44,
        MadtV { lapic_base: le32(d, 36) as u64, pcat_compat: le32(d, 40) % 2 == 1, ..m },
    );
}

/// No MADT entry of `d` from offset `a` on overrides the local APIC address
/// (type 5, length at least 12, a non-zero address).
pub open spec fn no_lapic_override_from(d: Seq<u8>, a: int) -> bool
    decreases d.len() - a,
{
    if a < 0 || a + 2 > d.len() {
        true
    } else {
        let l = d[a + 1] as int;
        if l < 2 || a + l > d.len() {
            true
        } else {
            !(d[a] == 5 && l >= 12 && le64(d, a + 4) != 0) && no_lapic_override_from(d, a + l)
        }
    }
}

/// Walking entries with no local APIC override among them leaves the base.
proof fn lemma_walk_keeps_lapic(d: Seq<u8>, a: int, m: MadtV)
    requires
        no_lapic_override_from(d, a),
    ensures
        madt_walk(d, a, m).lapic_base == m.lapic_base,
    decreases d.len() - a,
{
    if a >= 0 && a + 2 <= d.len() {
        let l = d[a + 1] as int;
        if l >= 2 && a + l <= d.len() {
            lemma_walk_keeps_lapic(d, a + l, madt_entry(d, a, d[a], l, m));
        }
    }
}

/// Walking from `a` up to a local APIC override at `o`, after which no other
/// comes, leaves the base that entry gives.
proof fn lemma_walk_records_lapic(d: Seq<u8>, a: int, o: int, m: MadtV)
    requires
        madt_entries_reach(d, a, o),
        o >= 0,
        o + 12 <= d.len(),
        d[o] == 5,
        d[o + 1] >= 12,
        o + d[o + 1] <= d.len(),
        le64(d, o + 4) != 0,
        no_lapic_override_from(d, o + d[o + 1]),
    ensures
        madt_walk(d, a, m).lapic_base == le32(d, o + 4) + le32(d, o + 8) * 0x1_0000_0000,
    decreases o - a,
{
    if a == o {
        let l = d[o + 1] as int;
        lemma_walk_keeps_lapic(d, o + l, madt_entry(d, o, d[o], l, m));
    } else {
        let l = d[a + 1] as int;
        lemma_walk_records_lapic(d, a + l, o, madt_entry(d, a, d[a], l, m));
    }
}

/// What an MADT says of the local APIC address: the 32-bit field at bytes
/// 36..40, unless an override entry (type 5, length at least 12) reached
/// from offset 44 gives a non-zero 64-bit address at its bytes 4..12, in
/// which case the last such entry decides.
pub proof fn law_madt_lapic_base(d: Seq<u8>, m: MadtV, o: int)
    requires
        d.len() >= 48,
    ensures
        no_lapic_override_from(d, 44) ==> madt_parse(d, m).lapic_base == d[36] + d[37] * 256 + d[38] * 65536 + d[39]
            * 16777216,
        madt_entries_reach(d, 44, o) && o + 12 <= d.len() && d[o] == 5 && d[o + 1] >= 12 && o + d[o + 1] <= d.len()
            && le64(d, o + 4) != 0 && no_lapic_override_from(d, o + d[o + 1]) ==> madt_parse(d, m).lapic_base == le32(
            d,
            o + 4,
        ) + le32(d, o + 8) * 0x1_0000_0000,
{
    let m0 = MadtV { lapic_base: le32(d, 36) as u64, pcat_compat: le32(d, 40) % 2 == 1, ..m };
    if no_lapic_override_from(d, 44) {
        lemma_walk_keeps_lapic(d, 44, m0);
    }
    if madt_entries_reach(d, 44, o) && o + 12 <= d.len() && d[o] == 5 && d[o + 1] >= 12 && o + d[o + 1] <= d.len()
        && le64(d, o + 4) != 0 && no_lapic_override_from(d, o + d[o + 1]) {
        assert(o >= 44) by {
            lemma_reach_forward(d, 44, o);
        }
        lemma_walk_records_lapic(d, 44, o, m0);
    }
}

/// Entries reached from `a` lie at or after `a`.
proof fn lemma_reach_forward(d: Seq<u8>, a: int, o: int)
    requires
        madt_entries_reach(d, a, o),
    ensures
        a <= o,
    decreases o - a,
{
    if a != o {
        lemma_reach_forward(d, a + d[a + 1], o);
    }
}

/// Updates `madt` from the MADT bytes `data`.
pub fn parse_madt(data: &[u8], madt: &mut MadtInfo)
    requires
        old(madt).cpu_count <= MAX_CPUS,
    ensures
        final(madt)@ == madt_parse(data@, old(madt)@),
        final(madt).cpu_count <= MAX_CPUS,
{
    let len = data.len();
    if len < 48 {
        return;
    }
    let lapic_addr = read_le32(data, 36);
    let flags = read_le32(data, 40);
    madt.lapic_base = lapic_addr as u64;
    madt.pcat_compat = flags % 2 == 1;
    let mut off: usize = 44;
    while len - off >= 2
        invariant_except_break
            len == data@.len(),
            44 <= off <= len,
            madt.cpu_count <= MAX_CPUS,
            madt_parse(data@, old(madt)@) == madt_walk(data@, off as int, madt@),
        ensures
            madt.cpu_count <= MAX_CPUS,
            madt_parse(data@, old(madt)@) == madt@,
        decreases len - off,
    {
        let etype = data[off];
        let elen = data[off + 1] as usize;
        if elen < 2 || elen > len - off {
            break;
        }
        let ghost before = madt@;
        if etype == 0 {
            if elen >= 8 {
                let apic_id = data[off + 3];
                let ena = read_le32(data, off + 4);
                if ena % 2 == 1 && madt.cpu_count < MAX_CPUS {
                    madt.cpu_apic_ids[madt.cpu_count] = apic_id;
                    madt.cpu_count = madt.cpu_count + 1;
                }
            }
        } else if etype == 1 {
            if elen >= 12 {
                madt.io_apic_id = data[off + 2];
                madt.io_apic_addr = read_le32(data, off + 4) as u64;
            }
        } else if etype == 5 {
            if elen >= 12 {
                let a = read_le64(data, off + 4);
                if a != 0 {
                    madt.lapic_base = a;
                }
            }
        }
        proof {
            assert(madt@ =~= madt_entry(data@, off as int, etype, elen as int, before));
        }
        off = off + elen;
    }
}

/// `"cores detected: "` followed by the decimal count `n`.
pub open spec fn cpus_text(n: nat) -> Seq<u8> {
    seq![99u8, 111, 114, 101, 115, 32, 100, 101, 116, 101, 99, 116, 101, 100, 58, 32] + dec_digits(n)
}

/// The log line announcing how many processors the MADT listed.
pub fn format_cpus(n: usize) -> (r: Vec<u8>)
    ensures
        r@ == cpus_text(n as nat),
{
    let prefix: Vec<u8> = vec![99u8, 111, 114, 101, 115, 32, 100, 101, 116, 101, 99, 116, 101, 100, 58, 32];
    let digits = dec_str(n as u64);
    let r = concat(prefix.as_slice(), digits.as_slice());
    proof {
        assert(prefix@ =~= seq![99u8, 111, 114, 101, 115, 32, 100, 101, 116, 101, 99, 116, 101, 100, 58, 32]);
    }
    r
}

/// The `\_S5` object header (NameOp, `_S5_`) starts at `i`.
pub open spec fn s5_at(d: Seq<u8>, i: int) -> bool {
    &&& d[i] == 0x08
    &&& i + 5 < d.len()
    &&& d[i + 1] == 95
    &&& d[i + 2] == 83
    &&& d[i + 3] == 53
    &&& d[i + 4] == 0
}

/// The scan for `\_S5` covers the offsets below the table length minus 20.
pub open spec fn s5_limit(d: Seq<u8>) -> int {
    d.len() - 20
}

/// Sleep-type values after reading the `\_S5` package that starts at `i`,
/// starting from `(a, b)`: each of the first two package elements that is a
/// byte constant (prefix 0x0A) replaces the corresponding value.
pub open spec fn s5_values(d: Seq<u8>, i: int, a: u8, b: u8) -> (u8, u8) {
    let n = d.len();
    let p = i + 6;
    if !(d[i + 5] == 0x12 && p + 2 < n && p + 1 + d[p] <= n) {
        (a, b)
    } else {
        let o1 = p + 1;
        let (a2, o2) = if o1 < n && d[o1] == 0x0A {
            if o1 + 1 < n {
                (d[o1 + 1], o1 + 2)
            } else {
                (a, o1 + 1)
            }
        } else {
            (a, o1)
        };
        let b2 = if o2 < n && d[o2] == 0x0A && o2 + 1 < n {
            d[o2 + 1]
        } else {
            b
        };
        (a2, b2)
    }
}

/// Where the scan finds `\_S5`: the first offset below [`s5_limit`] that
/// holds it.
pub open spec fn s5_first(d: Seq<u8>, i: int) -> bool {
    &&& 0 <= i < s5_limit(d)
    &&& s5_at(d, i)
    &&& forall|j: int| 0 <= j < i ==> !s5_at(d, j)
}

/// ACPI power-management state gathered at boot.
pub struct AcpiState {
    pub pm1a_cnt_blk: u32,
    pub slp_typa: u8,
    pub slp_typb: u8,
    pub ready: bool,
}

impl AcpiState {
    /// Nothing found yet: soft-off unavailable.
    pub fn new() -> (s: Self)
        ensures
            s.pm1a_cnt_blk == 0 && s.slp_typa == 0 && s.slp_typb == 0 && !s.ready,
    {
        AcpiState { pm1a_cnt_blk: 0, slp_typa: 0, slp_typb: 0, ready: false }
    }

    /// Whether ACPI was initialised (a FADT was found).
    pub fn is_ready(&self) -> (r: bool)
        ensures
            r == self.ready,
    {
        self.ready
    }

    /// Scans the DSDT `data` for the `\_S5` package and records its sleep
    /// types. Returns whether `\_S5` was found.
    pub fn parse_s5(&mut self, data: &[u8]) -> (found: bool)
        requires
            data@.len() >= 20,
        ensures
            final(self).pm1a_cnt_blk == old(self).pm1a_cnt_blk,
            final(self).ready == old(self).ready,
            found <==> exists|i: int| s5_first(data@, i),
            found ==> exists|i: int|
                s5_first(data@, i) && (final(self).slp_typa, final(self).slp_typb) == s5_values(
                    data@,
                    i,
                    old(self).slp_typa,
                    old(self).slp_typb,
                ),
            !found ==> final(self).slp_typa == old(self).slp_typa && final(self).slp_typb == old(self).slp_typb,
    {
        let len = data.len();
        let mut i: usize = 0;
        while i < len - 20
            invariant
                len == data@.len(),
                len >= 20,
                i <= len - 20,
                forall|j: int| 0 <= j < i ==> !s5_at(data@, j),
                *self == *old(self),
            decreases len - 20 - i,
        {
            if data[i] == 0x08 && i + 5 < len && data[i + 1] == 95 && data[i + 2] == 83 && data[i + 3] == 53
                && data[i + 4] == 0 {
                proof {
                    assert(s5_first(data@, i as int));
                }
                if data[i + 5] == 0x12 {
                    let p = i + 6;
                    if p + 2 < len {
                        let plen = data[p] as usize;
                        if plen <= len - p - 1 {
                            let mut off = p + 1;
                            if off < len && data[off] == 0x0A {
                                off = off + 1;
                                if off < len {
                                    self.slp_typa = data[off];
                                    off = off + 1;
                                }
                            }
                            if off < len && data[off] == 0x0A {
                                off = off + 1;
                                if off < len {
                                    self.slp_typb = data[off];
                                }
                            }
                        }
                    }
                }
                return true;
            }
            i = i + 1;
        }
        proof {
            assert forall|k: int| !s5_first(data@, k) by {}
        }
        false
    }

    /// The port and value that put the machine in the S5 soft-off state
    /// (SLP_TYPa in bits 10..13, SLP_EN in bit 13), when ACPI is ready and a
    /// PM1a control block is known.
    pub fn shutdown_command(&self) -> (r: Option<(u16, u16)>)
        ensures
            r == (if self.pm1a_cnt_blk != 0 && self.ready {
                Some((self.pm1a_cnt_blk as u16, (((self.slp_typa as u16) << 2u16) | 0x2000u16) as u16))
            } else {
                None
            }),
    {
        if self.pm1a_cnt_blk != 0 && self.ready {
            let a = self.slp_typa as u16;
            Some((self.pm1a_cnt_blk as u16, (a << 2u16) | 0x2000u16))
        } else {
            None
        }
    }
}

/// The byte sum of `s` modulo 256.
pub open spec fn byte_sum(s: Seq<u8>) -> int
    decreases s.len(),
{
    if s.len() == 0 {
        0
    } else {
        (byte_sum(s.drop_last()) + s.last()) % 256
    }
}

/// Whether the first `len` bytes of `s` sum to zero modulo 256.
pub fn checksum_ok(s: &[u8], len: usize) -> (r: bool)
    requires
        len <= s@.len(),
    ensures
        r == (byte_sum(s@.subrange(0, len as int)) == 0),
{
    let mut sum: u8 = 0;
    let mut i: usize = 0;
    while i < len
        invariant
            i <= len <= s@.len(),
            sum == byte_sum(s@.subrange(0, i as int)),
        decreases len - i,
    {
        proof {
            assert(s@.subrange(0, i + 1).drop_last() =~= s@.subrange(0, i as int));
        }
        sum = sum.wrapping_add(s[i]);
        i = i + 1;
    }
    sum == 0
}

/// The RSDP signature `RSD PTR ` starts at `i`.
pub open spec fn rsdp_at(s: Seq<u8>, i: int) -> bool {
    &&& i + 8 <= s.len()
    &&& s[i] == 82 && s[i + 1] == 83 && s[i + 2] == 68 && s[i + 3] == 32
    &&& s[i + 4] == 80 && s[i + 5] == 84 && s[i + 6] == 82 && s[i + 7] == 32
}

/// Offset of the first 16-byte aligned `RSD PTR ` signature in the BIOS area
/// image `bios`, if any.
pub fn find_rsdp(bios: &[u8]) -> (r: Option<usize>)
    ensures
        r matches Some(i) ==> i % 16 == 0 && rsdp_at(bios@, i as int) && forall|j: int|
            0 <= j < i && j % 16 == 0 ==> !rsdp_at(bios@, j),
        r is None ==> forall|j: int| 0 <= j < bios@.len() && j % 16 == 0 ==> !rsdp_at(bios@, j),
{
    let len = bios.len();
    let mut i: usize = 0;
    while i < len
        invariant
            len == bios@.len(),
            i % 16 == 0,
            forall|j: int| 0 <= j < i && j % 16 == 0 ==> !rsdp_at(bios@, j),
        decreases len - i,
    {
        if len - i >= 8 && bios[i] == 82 && bios[i + 1] == 83 && bios[i + 2] == 68 && bios[i + 3] == 32
            && bios[i + 4] == 80 && bios[i + 5] == 84 && bios[i + 6] == 82 && bios[i + 7] == 32 {
            return Some(i);
        }
        if len - i < 16 {
            return None;
        }
        i = i + 16;
    }
    None
}

/// Physical addresses below this bound are identity mapped at boot (the
/// first gigabyte); tables above it cannot be read.
pub const MAPPED_LIMIT: u64 = 0x4000_0000;

/// Whether the table at physical address `addr` can be read.
pub fn is_mapped(addr: u64) -> (r: bool)
    ensures
        r == (addr < MAPPED_LIMIT),
{
    addr < MAPPED_LIMIT
}

/// Number of RSDP bytes the checksum covers: the `length` field from
/// revision 2 on, else the 20 bytes of the ACPI 1.0 structure.
pub open spec fn rsdp_len(r: Seq<u8>) -> int {
    if r[15] >= 2 {
        le32(r, 20)
    } else {
        20
    }
}

/// The system description table the RSDP bytes `r` point to, with whether
/// it is the XSDT (8-byte entries): none unless the covered bytes sum to
/// zero; the XSDT from revision 2 on when its address is not zero, else the
/// RSDT.
pub open spec fn rsdp_target(r: Seq<u8>) -> Option<(u64, bool)> {
    if r.len() < 20 || (r[15] >= 2 && r.len() < 24) || rsdp_len(r) > r.len() || byte_sum(r.subrange(0, rsdp_len(r))) != 0 {
        None
    } else if r[15] >= 2 && r.len() >= 32 && le64(r, 24) != 0 {
        Some((le64(r, 24) as u64, true))
    } else {
        Some((le32(r, 16) as u64, false))
    }
}

/// Validates the RSDP whose bytes start `rsdp` and gives the address of the
/// table to walk, as [`rsdp_target`] says.
pub fn rsdp_sdt(rsdp: &[u8]) -> (r: Option<(u64, bool)>)
    ensures
        r == rsdp_target(rsdp@),
{
    let n = rsdp.len();
    if n < 20 {
        return None;
    }
    let rev = rsdp[15];
    let len: usize = if rev >= 2 {
        if n < 24 {
            return None;
        }
        let l = read_le32(rsdp, 20);
        if l as usize > n {
            return None;
        }
        l as usize
    } else {
        20
    };
    if !checksum_ok(rsdp, len) {
        return None;
    }
    if rev >= 2 && n >= 32 {
        let x = read_le64(rsdp, 24);
        if x != 0 {
            return Some((x, true));
        }
    }
    Some((read_le32(rsdp, 16) as u64, false))
}

/// Number of `esize`-byte entries after the 36-byte header of the system
/// description table `s`: none when its `length` field is below the header
/// or beyond the bytes given.
pub open spec fn sdt_count(s: Seq<u8>, esize: int) -> int {
    if s.len() < 36 || le32(s, 4) < 36 || le32(s, 4) > s.len() {
        0
    } else {
        (le32(s, 4) - 36) / esize
    }
}

/// The table addresses listed by the system description table `s`: 64-bit
/// entries for the XSDT (`wide`), 32-bit ones for the RSDT.
pub open spec fn entry_addrs(s: Seq<u8>, wide: bool) -> Seq<u64> {
    if wide {
        Seq::new(sdt_count(s, 8) as nat, |i: int| le64(s, 36 + 8 * i) as u64)
    } else {
        Seq::new(sdt_count(s, 4) as nat, |i: int| le32(s, 36 + 4 * i) as u64)
    }
}

/// The table addresses the RSDT or XSDT `sdt` lists, as [`entry_addrs`].
pub fn sdt_entries(sdt: &[u8], wide: bool) -> (r: Vec<u64>)
    ensures
        r@ == entry_addrs(sdt@, wide),
{
    let mut out: Vec<u64> = Vec::new();
    let n = sdt.len();
    if n < 36 {
        return out;
    }
    let len = read_le32(sdt, 4) as usize;
    if len < 36 || len > n {
        return out;
    }
    let esize: usize = if wide {
        8
    } else {
        4
    };
    let count = (len - 36) / esize;
    proof {
        assert(count * esize <= len - 36) by (nonlinear_arith)
            requires
                count == (len - 36) as int / esize as int,
                esize > 0,
                len >= 36,
        ;
    }
    let mut i: usize = 0;
    while i < count
        invariant
            n == sdt@.len(),
            36 <= len <= n,
            len == le32(sdt@, 4),
            esize == (if wide {
                8usize
            } else {
                4usize
            }),
            count == (len - 36) as int / esize as int,
            count * esize <= len - 36,
            i <= count,
            out@ =~= entry_addrs(sdt@, wide).subrange(0, i as int),
        decreases count - i,
    {
        proof {
            assert(36 + esize * i + esize <= len) by (nonlinear_arith)
                requires
                    i < count,
                    count * esize <= len - 36,
                    esize > 0,
            ;
        }
        if wide {
            out.push(read_le64(sdt, 36 + 8 * i));
        } else {
            out.push(read_le32(sdt, 36 + 4 * i) as u64);
        }
        i = i + 1;
    }
    proof {
        assert(out@ =~= entry_addrs(sdt@, wide));
    }
    out
}

/// The FADT field read as the DSDT address: the 64-bit `X_DSDT` when the
/// table holds it and it is not zero, else the 32-bit `DSDT`.
pub open spec fn fadt_dsdt(t: Seq<u8>) -> u64 {
    if t.len() >= 148 && le64(t, 140) != 0 {
        le64(t, 140) as u64
    } else {
        le32(t, 40) as u64
    }
}

/// Whether the table `t` carries the four-byte signature `sig`.
pub open spec fn has_signature(t: Seq<u8>, sig: Seq<u8>) -> bool {
    t.len() >= 4 && t.subrange(0, 4) == sig
}

/// Takes one table met in the RSDT or XSDT walk: the MADT (`APIC`) updates
/// `madt`; the FADT (`FACP`, at least 68 bytes) records the PM1a control
/// block, makes ACPI ready and gives the DSDT address to read next (none
/// when it is zero); any other table changes nothing.
pub fn acpi_table(state: &mut AcpiState, madt: &mut MadtInfo, table: &[u8]) -> (r: Option<u64>)
    requires
        old(madt).cpu_count <= MAX_CPUS,
    ensures
        final(madt).cpu_count <= MAX_CPUS,
        has_signature(table@, seq![65u8, 80, 73, 67]) ==> final(madt)@ == madt_parse(table@, old(madt)@)
            && *final(state) == *old(state) && r is None,
        has_signature(table@, seq![70u8, 65, 67, 80]) && table@.len() >= 68 ==> *final(madt) == *old(madt)
            && final(state).pm1a_cnt_blk == le32(table@, 64) && final(state).ready && final(state).slp_typa
            == old(state).slp_typa && final(state).slp_typb == old(state).slp_typb && r == (if fadt_dsdt(table@)
            == 0 {
            None
        } else {
            Some(fadt_dsdt(table@))
        }),
        !has_signature(table@, seq![65u8, 80, 73, 67]) && !(has_signature(table@, seq![70u8, 65, 67, 80])
            && table@.len() >= 68) ==> *final(madt) == *old(madt) && *final(state) == *old(state) && r is None,
{
    let n = table.len();
    if n < 4 {
        proof {
            assert(!has_signature(table@, seq![65u8, 80, 73, 67]));
            assert(!has_signature(table@, seq![70u8, 65, 67, 80]));
        }
        return None;
    }
    let apic = table[0] == 65 && table[1] == 80 && table[2] == 73 && table[3] == 67;
    let facp = table[0] == 70 && table[1] == 65 && table[2] == 67 && table[3] == 80;
    proof {
        assert(apic == has_signature(table@, seq![65u8, 80, 73, 67])) by {
            if apic {
                assert(table@.subrange(0, 4) =~= seq![65u8, 80, 73, 67]);
            } else if has_signature(table@, seq![65u8, 80, 73, 67]) {
                assert(table@.subrange(0, 4)[0] == 65u8);
                assert(table@.subrange(0, 4)[1] == 80u8);
                assert(table@.subrange(0, 4)[2] == 73u8);
                assert(table@.subrange(0, 4)[3] == 67u8);
            }
        }
        assert(facp == has_signature(table@, seq![70u8, 65, 67, 80])) by {
            if facp {
                assert(table@.subrange(0, 4) =~= seq![70u8, 65, 67, 80]);
            } else if has_signature(table@, seq![70u8, 65, 67, 80]) {
                assert(table@.subrange(0, 4)[0] == 70u8);
                assert(table@.subrange(0, 4)[1] == 65u8);
                assert(table@.subrange(0, 4)[2] == 67u8);
                assert(table@.subrange(0, 4)[3] == 80u8);
            }
        }
    }
    if apic {
        parse_madt(table, madt);
        return None;
    }
    if facp && n >= 68 {
        state.pm1a_cnt_blk = read_le32(table, 64);
        state.ready = true;
        let mut dsdt: u64 = 0;
        if n >= 148 {
            dsdt = read_le64(table, 140);
        }
        if dsdt == 0 {
            dsdt = read_le32(table, 40) as u64;
        }
        if dsdt == 0 {
            return None;
        }
        return Some(dsdt);
    }
    None
}

} // verus!
