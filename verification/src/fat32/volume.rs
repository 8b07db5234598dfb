//! The mounted volume: boot-sector parsing, FAT entries and cluster I/O.
use vstd::prelude::*;
use crate::block::{BlockDevice, SECTOR_SIZE};
use crate::text::{le16, le32, read_le16, read_le32};

verus! {

/// Result codes of the file-system operations.
#[derive(Debug, Clone, Copy, PartialEq, Eq, Structural)]
pub enum FError {
    /// No error (the state of a file that has not failed).
    NoError,
    DiskErr,
    NoFile,
    NoPath,
    NotFound,
    Denied,
    Exists,
    Invalid,
    WriteProtected,
    MkfsAborted,
    Timeout,
    Locked,
    NotEnabled,
    TooManyOpenFiles,
    InvalidParameter,
}

pub type FResult<T> = Result<T, FError>;

/// Open for reading.
pub const FA_READ: u8 = 0x01;
/// Open for writing.
pub const FA_WRITE: u8 = 0x02;
/// Open an existing file only.
pub const FA_OPEN_EXISTING: u8 = 0x00;
/// Create a new file; fail when it exists.
pub const FA_CREATE_NEW: u8 = 0x04;
/// Create a file, truncating an existing one.
pub const FA_CREATE_ALWAYS: u8 = 0x08;
/// Open a file, creating it when missing.
pub const FA_OPEN_ALWAYS: u8 = 0x10;
/// Open or create, positioned for appending.
pub const FA_OPEN_APPEND: u8 = 0x30;

/// The flag and attribute combinations the file operations and applets
/// test: read access asks for no creation, truncation or exclusive
/// creation; write with exclusive creation creates; the directory
/// attribute has its own bit.
pub proof fn lemma_flag_bits()
    ensures
        0x10u8 & 0x10u8 != 0,
        0x01u8 & (0x04u8 | 0x08u8 | 0x10u8) == 0,
        0x01u8 & 0x08u8 == 0,
        0x01u8 & 0x04u8 == 0,
        (0x02u8 | 0x04u8) & 0x04u8 != 0,
        (0x02u8 | 0x04u8) & (0x04u8 | 0x08u8 | 0x10u8) != 0,
        forall|flags: u8| flags & (0x04u8 | 0x08u8 | 0x10u8) == 0 ==> #[trigger] (flags & 0x08u8) == 0,
{
    assert(0x10u8 & 0x10u8 != 0 && 0x01u8 & (0x04u8 | 0x08u8 | 0x10u8) == 0 && 0x01u8 & 0x08u8 == 0 && 0x01u8 & 0x04u8
        == 0 && (0x02u8 | 0x04u8) & 0x04u8 != 0 && (0x02u8 | 0x04u8) & (0x04u8 | 0x08u8 | 0x10u8) != 0) by (bit_vector);
    assert forall|flags: u8| flags & (0x04u8 | 0x08u8 | 0x10u8) == 0 implies #[trigger] (flags & 0x08u8) == 0 by {
        assert(flags & (0x04u8 | 0x08u8 | 0x10u8) == 0 ==> flags & 0x08u8 == 0) by (bit_vector);
    }
}

pub const ATTR_READ_ONLY: u8 = 0x01;
pub const ATTR_HIDDEN: u8 = 0x02;
pub const ATTR_SYSTEM: u8 = 0x04;
pub const ATTR_VOLUME: u8 = 0x08;
pub const ATTR_DIRECTORY: u8 = 0x10;
pub const ATTR_ARCHIVE: u8 = 0x20;
pub const ATTR_LFN: u8 = 0x0F;

/// Bytes of one directory entry.
pub const DIR_SIZE: usize = 32;
/// FAT entries at or above this value end a cluster chain.
pub const END_OF_CHAIN: u32 = 0x0FFFFFF8;
/// The FAT entry value that marks the last cluster of a chain.
pub const CHAIN_END: u32 = 0x0FFFFFFF;

/// A mounted FAT32 volume and the device it lives on.
pub struct FatVolume<D: BlockDevice> {
    pub dev: D,
    pub sectors_per_cluster: u16,
    pub reserved_sectors: u32,
    pub num_fats: u8,
    pub sectors_per_fat: u32,
    pub root_cluster: u32,
    pub data_region_lba: u32,
    pub fat_region_lba: u32,
    pub cwd_cluster: u32,
    pub cwd_path: Vec<u8>,
}

/// Sector 0 holds a boot sector this driver accepts; see [`f_mount`].
pub open spec fn bpb_valid(b: Seq<u8>) -> bool {
    &&& b[0x1FE] == 0x55 && b[0x1FF] == 0xAA
    &&& le16(b, 0x0B) == 512
    &&& b[0x0D] != 0 && b[0x0D] & (b[0x0D] - 1) as u8 == 0
    &&& le16(b, 0x11) == 0
    &&& le32(b, 0x24) != 0
}

/// The FAT regions described by boot sector `b` end within 32-bit sector
/// numbers (the driver's sector arithmetic assumes it).
pub open spec fn bpb_fits(b: Seq<u8>) -> bool {
    &&& le16(b, 0x0E) + b[0x10] * le32(b, 0x24) <= u32::MAX
    &&& le32(b, 0x24) * 512 <= u32::MAX
}

impl<D: BlockDevice> FatVolume<D> {
    /// The sectors of the volume's device.
    pub open spec fn disk(&self) -> Seq<Seq<u8>> {
        self.dev.sectors()
    }

    /// Number of FAT entries (clusters addressable by the FAT).
    pub open spec fn max_cluster(&self) -> int {
        self.sectors_per_fat * 128
    }

    /// Sector of the first FAT holding the entry of cluster `c`.
    pub open spec fn fat_sector(&self, c: int) -> int {
        self.fat_region_lba + c / 128
    }

    /// Byte offset of the entry of cluster `c` in its FAT sector.
    pub open spec fn fat_offset(&self, c: int) -> int {
        (c % 128) * 4
    }

    /// The 28-bit FAT entry of cluster `c` in `disk`.
    pub open spec fn entry_in(&self, disk: Seq<Seq<u8>>, c: int) -> int {
        le32(disk[self.fat_sector(c)], self.fat_offset(c)) % 0x1000_0000
    }

    /// The 28-bit FAT entry of cluster `c`.
    pub open spec fn fat_entry(&self, c: int) -> int {
        self.entry_in(self.disk(), c)
    }

    /// First sector of cluster `c`.
    pub open spec fn cluster_lba(&self, c: int) -> int {
        self.data_region_lba + (c - 2) * self.sectors_per_cluster
    }

    /// Bytes in one cluster.
    pub open spec fn cluster_size(&self) -> int {
        self.sectors_per_cluster * 512
    }

    /// Cluster `c` is a data cluster whose sectors have 32-bit numbers.
    pub open spec fn cluster_addressable(&self, c: int) -> bool {
        c >= 2 && self.cluster_lba(c) + self.sectors_per_cluster <= u32::MAX + 1
    }

    /// The bytes of cluster `c` in `disk`.
    pub open spec fn cluster_in(&self, disk: Seq<Seq<u8>>, c: int) -> Seq<u8> {
        Seq::new(
            self.cluster_size() as nat,
            |i: int| disk[self.cluster_lba(c) + i / 512][i % 512],
        )
    }

    /// The bytes of cluster `c`.
    pub open spec fn cluster_bytes(&self, c: int) -> Seq<u8> {
        self.cluster_in(self.disk(), c)
    }

    /// The volume parameters are those a valid boot sector yields.
    pub open spec fn wf(&self) -> bool {
        &&& 1 <= self.sectors_per_cluster <= 128
        &&& self.sectors_per_fat >= 1
        &&& self.fat_region_lba + self.num_fats * self.sectors_per_fat <= u32::MAX
        &&& self.data_region_lba == self.fat_region_lba + self.num_fats * self.sectors_per_fat
        &&& self.fat_region_lba == self.reserved_sectors
        &&& self.sectors_per_fat * 512 <= u32::MAX
        &&& self.cwd_path@.len() <= 256
    }

    /// `v` is this volume with cluster `c` (a data cluster on the device)
    /// rewritten to hold `data`, and no other sector changed.
    pub open spec fn cluster_written(&self, v: FatVolume<D>, c: int, data: Seq<u8>) -> bool {
        &&& v.disk().len() == self.disk().len()
        &&& self.cluster_addressable(c)
        &&& self.cluster_lba(c) + self.sectors_per_cluster <= self.disk().len()
        &&& v.cluster_bytes(c) == data
        &&& forall|i: int|
            0 <= i < self.disk().len() && !(self.cluster_lba(c) <= i < self.cluster_lba(c) + self.sectors_per_cluster)
                ==> #[trigger] v.disk()[i] == self.disk()[i]
    }

    /// Sector of FAT copy `k` holding the entry of cluster `c`.
    pub open spec fn copy_sector(&self, k: int, c: int) -> int {
        self.fat_region_lba + k * self.sectors_per_fat + c / 128
    }

    /// The device changed at most in the sectors `keep` excludes.
    pub open spec fn disk_same_except(d1: Seq<Seq<u8>>, d2: Seq<Seq<u8>>, touched: spec_fn(int) -> bool) -> bool {
        &&& d2.len() == d1.len()
        &&& forall|i: int| 0 <= i < d1.len() && !touched(i) ==> #[trigger] d2[i] == d1[i]
    }
}

/// `sec` with the four bytes at `off` set to the little-endian bytes of `v`.
pub open spec fn put_le32(sec: Seq<u8>, off: int, v: u32) -> Seq<u8> {
    sec.update(off, (v % 256) as u8).update(off + 1, ((v / 256) % 256) as u8).update(
        off + 2,
        ((v / 65536) % 256) as u8,
    ).update(off + 3, (v / 16777216) as u8)
}

/// The raw entry word after storing `val`: its top four reserved bits kept.
pub open spec fn merged_entry(raw: int, val: u32) -> u32 {
    ((raw as u32) & 0xF000_0000u32) | (val & 0x0FFF_FFFFu32)
}

pub fn write_le32(buf: &mut [u8; 512], off: usize, v: u32)
    requires
        off + 4 <= 512,
    ensures
        final(buf)@ == put_le32(old(buf)@, off as int, v),
{
    buf[off] = (v % 256) as u8;
    buf[off + 1] = ((v / 256) % 256) as u8;
    buf[off + 2] = ((v / 65536) % 256) as u8;
    buf[off + 3] = (v / 16777216) as u8;
}

proof fn lemma_mask28(x: u32)
    ensures
        x & 0x0FFF_FFFFu32 == x % 0x1000_0000,
{
    assert(x & 0x0FFF_FFFFu32 == x % 0x1000_0000) by (bit_vector);
}

/// Mounts the FAT32 volume on `dev`: checks the device has sectors, reads
/// the boot sector and validates its signature (else `MkfsAborted`), the
/// 512-byte sector size, a power-of-two cluster size, an empty FAT12/16 root
/// directory count and a non-zero FAT size (else `Invalid`). The FATs start
/// after the reserved sectors and the data region after the FATs; the
/// current directory starts at the root.
pub fn f_mount<D: BlockDevice>(dev: D) -> (r: FResult<FatVolume<D>>)
    requires
        dev.sectors().len() > 0 ==> bpb_fits(dev.sectors()[0]),
    ensures
        dev.sectors().len() == 0 ==> r == Err::<FatVolume<D>, FError>(FError::DiskErr),
        r matches Err(e) ==> (e == FError::DiskErr || e == FError::MkfsAborted || e == FError::Invalid),
        dev.sectors().len() > 0 ==> ({
            let b = dev.sectors()[0];
            let sig = b[0x1FE] == 0x55 && b[0x1FF] == 0xAA;
            &&& r is Ok ==> bpb_valid(b)
            &&& (r matches Err(e) && e == FError::MkfsAborted) ==> !sig
            &&& (r matches Err(e) && e == FError::Invalid) ==> sig && !bpb_valid(b)
            &&& (r matches Err(e) ==> e != FError::DiskErr) ==> ((r is Ok <==> bpb_valid(b)) && (!sig <==> (r matches Err(e) && e == FError::MkfsAborted)))
        }),
        r matches Ok(v) ==> {
            let b = dev.sectors()[0];
            &&& v.wf()
            &&& v.dev == dev
            &&& v.sectors_per_cluster == b[0x0D]
            &&& v.reserved_sectors == le16(b, 0x0E)
            &&& v.num_fats == b[0x10]
            &&& v.sectors_per_fat == le32(b, 0x24)
            &&& v.root_cluster == le32(b, 0x2C)
            &&& v.fat_region_lba == le16(b, 0x0E)
            &&& v.data_region_lba == le16(b, 0x0E) + b[0x10] * le32(b, 0x24)
            &&& v.cwd_cluster == 2
            &&& v.cwd_path@ == seq![47u8]
        },
{
    if dev.sector_count() == 0 {
        return Err(FError::DiskErr);
    }
    let mut buf = [0u8; 512];
    if !dev.read_sector(0, &mut buf) {
        return Err(FError::DiskErr);
    }
    if buf[0x1FE] != 0x55 || buf[0x1FF] != 0xAA {
        return Err(FError::MkfsAborted);
    }
    let bytes_per_sector = read_le16(buf.as_slice(), 0x0B);
    if bytes_per_sector != 512 {
        return Err(FError::Invalid);
    }
    let spc = buf[0x0D];
    if spc == 0 || spc & (spc - 1) != 0 {
        return Err(FError::Invalid);
    }
    let reserved = read_le16(buf.as_slice(), 0x0E) as u32;
    let num_fats = buf[0x10];
    let root_ent_cnt = read_le16(buf.as_slice(), 0x11);
    let fatsz = read_le32(buf.as_slice(), 0x24);
    let root_cluster = read_le32(buf.as_slice(), 0x2C);
    if root_ent_cnt != 0 || fatsz == 0 {
        return Err(FError::Invalid);
    }
    proof {
        assert(spc <= 128) by (bit_vector)
            requires
                spc != 0,
                spc & (spc - 1) as u8 == 0,
        ;
    }
    let fat_region = reserved;
    let data_region = fat_region + num_fats as u32 * fatsz;
    let mut cwd: Vec<u8> = Vec::new();
    cwd.push(47u8);
    proof {
        assert(cwd@ =~= seq![47u8]);
    }
    let v = FatVolume {
        dev,
        sectors_per_cluster: spc as u16,
        reserved_sectors: reserved,
        num_fats,
        sectors_per_fat: fatsz,
        root_cluster,
        data_region_lba: data_region,
        fat_region_lba: fat_region,
        cwd_cluster: 2,
        cwd_path: cwd,
    };
    Ok(v)
}

/// Unmounts the volume, handing its device back.
pub fn f_unmount<D: BlockDevice>(vol: FatVolume<D>) -> (dev: D)
    ensures
        dev == vol.dev,
{
    vol.dev
}

impl<D: BlockDevice> FatVolume<D> {
    /// First sector of cluster `c`, when `c` is a data cluster whose sectors
    /// have 32-bit numbers.
    pub fn cluster_to_lba(&self, c: u32) -> (r: Option<u32>)
        requires
            self.wf(),
        ensures
            r is Some <==> self.cluster_addressable(c as int),
            r matches Some(l) ==> l == self.cluster_lba(c as int),
    {
        if c < 2 {
            return None;
        }
        proof {
            assert((c - 2) * self.sectors_per_cluster <= 0xFFFF_FFFFu64 * 128) by (nonlinear_arith)
                requires
                    c - 2 <= 0xFFFF_FFFFu64,
                    self.sectors_per_cluster <= 128,
            ;
        }
        let off = (c - 2) as u64 * self.sectors_per_cluster as u64;
        let end = self.data_region_lba as u64 + off + self.sectors_per_cluster as u64;
        if end > 0x1_0000_0000u64 {
            return None;
        }
        Some((self.data_region_lba as u64 + off) as u32)
    }

    /// Reads the FAT entry of cluster `c`.
    pub fn read_fat_entry(&self, c: u32) -> (r: FResult<u32>)
        requires
            self.wf(),
        ensures
            r matches Ok(v) ==> v == self.fat_entry(c as int) && self.fat_sector(c as int) < self.disk().len()
                && self.disk()[self.fat_sector(c as int)].len() == 512,
            r matches Err(e) ==> e == FError::DiskErr,
    {
        let q = c / 128;
        if q > u32::MAX - self.fat_region_lba {
            return Err(FError::DiskErr);
        }
        let sector = self.fat_region_lba + q;
        let offset = ((c % 128) * 4) as usize;
        let mut buf = [0u8; 512];
        if !self.dev.read_sector(sector, &mut buf) {
            return Err(FError::DiskErr);
        }
        let raw = read_le32(buf.as_slice(), offset);
        proof {
            lemma_mask28(raw);
        }
        Ok(raw & 0x0FFF_FFFF)
    }

    /// Stores `val` (its low 28 bits; the reserved top bits of the old entry
    /// are kept) as the FAT entry of cluster `c`, in every FAT copy. On
    /// success each copy's sector holds the first FAT's sector with the new
    /// entry; on failure only FAT-copy sectors of `c` may have changed.
    pub fn write_fat_entry(&mut self, c: u32, val: u32) -> (r: FResult<()>)
        requires
            old(self).wf(),
        ensures
            final(self).wf(),
            final(self).sectors_per_cluster == old(self).sectors_per_cluster,
            final(self).sectors_per_fat == old(self).sectors_per_fat,
            final(self).num_fats == old(self).num_fats,
            final(self).fat_region_lba == old(self).fat_region_lba,
            final(self).data_region_lba == old(self).data_region_lba,
            final(self).reserved_sectors == old(self).reserved_sectors,
            final(self).root_cluster == old(self).root_cluster,
            final(self).cwd_cluster == old(self).cwd_cluster,
            final(self).cwd_path == old(self).cwd_path,
            r matches Err(e) ==> e == FError::DiskErr,
            final(self).disk().len() == old(self).disk().len(),
            forall|i: int|
                0 <= i < old(self).disk().len() && !(exists|k: int| 0 <= k < old(self).num_fats && i == old(self).copy_sector(k, c as int))
                    ==> #[trigger] final(self).disk()[i] == old(self).disk()[i],
            r is Ok ==> {
                let s0 = old(self).disk()[old(self).fat_sector(c as int)];
                let off = old(self).fat_offset(c as int);
                let sec = put_le32(s0, off, merged_entry(le32(s0, off), val));
                &&& old(self).fat_sector(c as int) < old(self).disk().len()
                &&& s0.len() == 512
                &&& forall|k: int| 0 <= k < old(self).num_fats ==> #[trigger] old(self).copy_sector(k, c as int) < old(self).disk().len()
                    && final(self).disk()[old(self).copy_sector(k, c as int)] == sec
            },
    {
        let q = c / 128;
        if q > u32::MAX - self.fat_region_lba {
            return Err(FError::DiskErr);
        }
        let sector = self.fat_region_lba + q;
        let offset = ((c % 128) * 4) as usize;
        let mut buf = [0u8; 512];
        if !self.dev.read_sector(sector, &mut buf) {
            return Err(FError::DiskErr);
        }
        let raw = read_le32(buf.as_slice(), offset);
        let merged = (raw & 0xF000_0000u32) | (val & 0x0FFF_FFFFu32);
        write_le32(&mut buf, offset, merged);
        let ghost d0 = self.disk();
        let ghost v0 = *self;
        let mut k: u8 = 0;
        while k < self.num_fats
            invariant
                self.wf(),
                self.sectors_per_cluster == v0.sectors_per_cluster,
                self.sectors_per_fat == v0.sectors_per_fat,
                self.num_fats == v0.num_fats,
                self.fat_region_lba == v0.fat_region_lba,
                self.data_region_lba == v0.data_region_lba,
                self.reserved_sectors == v0.reserved_sectors,
                self.root_cluster == v0.root_cluster,
                self.cwd_cluster == v0.cwd_cluster,
                self.cwd_path == v0.cwd_path,
                k <= self.num_fats,
                v0 == *old(self),
                d0 == v0.disk(),
                q == c / 128,
                sector == v0.fat_sector(c as int),
                self.disk().len() == d0.len(),
                buf@ == put_le32(d0[sector as int], offset as int, merged_entry(le32(d0[sector as int], offset as int), val)),
                sector < d0.len(),
                forall|i: int|
                    0 <= i < d0.len() && !(exists|k2: int| 0 <= k2 < v0.num_fats && i == v0.copy_sector(k2, c as int))
                        ==> #[trigger] self.disk()[i] == d0[i],
                forall|k2: int| 0 <= k2 < k ==> #[trigger] v0.copy_sector(k2, c as int) < d0.len()
                    && self.disk()[v0.copy_sector(k2, c as int)] == buf@,
            decreases self.num_fats - k,
        {
            proof {
                assert(k * self.sectors_per_fat <= 255 * 0xFFFF_FFFFu64) by (nonlinear_arith)
                    requires
                        k <= 255,
                        self.sectors_per_fat <= 0xFFFF_FFFFu64,
                ;
            }
            let step = k as u64 * self.sectors_per_fat as u64;
            let lba64 = self.fat_region_lba as u64 + step + q as u64;
            if lba64 > u32::MAX as u64 {
                return Err(FError::DiskErr);
            }
            let lba = lba64 as u32;
            let ghost before = self.disk();
            let ok = self.dev.write_sector(lba, &buf);
            if !ok {
                return Err(FError::DiskErr);
            }
            proof {
                assert(lba == v0.copy_sector(k as int, c as int));
                assert forall|k2: int| 0 <= k2 < k + 1 implies #[trigger] v0.copy_sector(k2, c as int) < d0.len()
                    && self.disk()[v0.copy_sector(k2, c as int)] == buf@ by {
                    if k2 < k {
                        assert(v0.copy_sector(k2, c as int) != lba) by (nonlinear_arith)
                            requires
                                k2 < k,
                                v0.sectors_per_fat >= 1,
                                lba == v0.fat_region_lba + k * v0.sectors_per_fat + c / 128,
                                v0.copy_sector(k2, c as int) == v0.fat_region_lba + k2 * v0.sectors_per_fat + c / 128,
                        ;
                    }
                }
                assert forall|i: int|
                    0 <= i < d0.len() && !(exists|k2: int| 0 <= k2 < v0.num_fats && i == v0.copy_sector(k2, c as int))
                        implies #[trigger] self.disk()[i] == d0[i] by {
                    assert(i != lba);
                }
            }
            k = k + 1;
        }
        Ok(())
    }

    /// Reads cluster `c` into `buf` (one cluster long).
    pub fn read_cluster(&self, c: u32, buf: &mut Vec<u8>) -> (r: FResult<()>)
        requires
            self.wf(),
            old(buf)@.len() == self.cluster_size(),
        ensures
            final(buf)@.len() == self.cluster_size(),
            r matches Err(e) ==> e == FError::DiskErr,
            r is Ok ==> self.cluster_addressable(c as int) && self.cluster_lba(c as int) + self.sectors_per_cluster
                <= self.disk().len() && final(buf)@ == self.cluster_bytes(c as int),
    {
        let lba = match self.cluster_to_lba(c) {
            Some(l) => l,
            None => return Err(FError::DiskErr),
        };
        let n = self.sectors_per_cluster as usize;
        let mut i: usize = 0;
        while i < n
            invariant
                self.wf(),
                n == self.sectors_per_cluster,
                lba == self.cluster_lba(c as int),
                self.cluster_addressable(c as int),
                buf@.len() == self.cluster_size(),
                i <= n,
                i > 0 ==> lba + i <= self.disk().len(),
                forall|j: int| 0 <= j < 512 * i ==> buf@[j] == #[trigger] self.cluster_bytes(c as int)[j],
            decreases n - i,
        {
            let mut sec = [0u8; 512];
            if !self.dev.read_sector(lba + i as u32, &mut sec) {
                return Err(FError::DiskErr);
            }
            let mut j: usize = 0;
            while j < 512
                invariant
                    self.wf(),
                    n == self.sectors_per_cluster,
                    lba == self.cluster_lba(c as int),
                    self.cluster_addressable(c as int),
                    buf@.len() == self.cluster_size(),
                    i < n,
                    lba + i < self.disk().len(),
                    sec@ == self.disk()[lba + i],
                    j <= 512,
                    forall|t: int| 0 <= t < 512 * i + j ==> buf@[t] == #[trigger] self.cluster_bytes(c as int)[t],
                decreases 512 - j,
            {
                proof {
                    let t = 512 * i + j;
                    assert(t / 512 == i && t % 512 == j) by (nonlinear_arith)
                        requires
                            t == 512 * i + j,
                            j < 512,
                    ;
                    assert(t < self.cluster_size()) by (nonlinear_arith)
                        requires
                            t == 512 * i + j,
                            j < 512,
                            i < n,
                            self.cluster_size() == n * 512,
                    ;
                }
                buf.set(i * 512 + j, sec[j]);
                j = j + 1;
            }
            i = i + 1;
        }
        proof {
            assert(buf@ =~= self.cluster_bytes(c as int));
        }
        Ok(())
    }

    /// Writes `buf` (one cluster long) to cluster `c`. Only the sectors of
    /// that cluster may change; on success they hold `buf`.
    pub fn write_cluster(&mut self, c: u32, buf: &Vec<u8>) -> (r: FResult<()>)
        requires
            old(self).wf(),
            buf@.len() == old(self).cluster_size(),
        ensures
            final(self).wf(),
            final(self).sectors_per_cluster == old(self).sectors_per_cluster,
            final(self).sectors_per_fat == old(self).sectors_per_fat,
            final(self).num_fats == old(self).num_fats,
            final(self).fat_region_lba == old(self).fat_region_lba,
            final(self).data_region_lba == old(self).data_region_lba,
            final(self).reserved_sectors == old(self).reserved_sectors,
            final(self).root_cluster == old(self).root_cluster,
            final(self).cwd_cluster == old(self).cwd_cluster,
            final(self).cwd_path == old(self).cwd_path,
            r matches Err(e) ==> e == FError::DiskErr,
            final(self).disk().len() == old(self).disk().len(),
            forall|i: int|
                0 <= i < old(self).disk().len() && !(old(self).cluster_lba(c as int) <= i < old(self).cluster_lba(c as int)
                    + old(self).sectors_per_cluster) ==> #[trigger] final(self).disk()[i] == old(self).disk()[i],
            r is Ok ==> old(self).cluster_addressable(c as int) && old(self).cluster_lba(c as int)
                + old(self).sectors_per_cluster <= old(self).disk().len() && final(self).cluster_bytes(c as int)
                == buf@,
            r is Ok ==> old(self).cluster_written(*final(self), c as int, buf@),
    {
        let lba = match self.cluster_to_lba(c) {
            Some(l) => l,
            None => return Err(FError::DiskErr),
        };
        let n = self.sectors_per_cluster as usize;
        let ghost v0 = *self;
        let mut i: usize = 0;
        while i < n
            invariant
                self.wf(),
                self.sectors_per_cluster == v0.sectors_per_cluster,
                self.sectors_per_fat == v0.sectors_per_fat,
                self.num_fats == v0.num_fats,
                self.fat_region_lba == v0.fat_region_lba,
                self.data_region_lba == v0.data_region_lba,
                self.reserved_sectors == v0.reserved_sectors,
                self.root_cluster == v0.root_cluster,
                self.cwd_cluster == v0.cwd_cluster,
                self.cwd_path == v0.cwd_path,
                n == self.sectors_per_cluster,
                v0 == *old(self),
                lba == v0.cluster_lba(c as int),
                v0.cluster_addressable(c as int),
                buf@.len() == v0.cluster_size(),
                i <= n,
                self.disk().len() == v0.disk().len(),
                i > 0 ==> lba + i <= v0.disk().len(),
                forall|t: int|
                    0 <= t < v0.disk().len() && !(lba <= t < lba + i) ==> #[trigger] self.disk()[t] == v0.disk()[t],
                forall|t: int|
                    0 <= t < 512 * i ==> #[trigger] self.disk()[lba + t / 512][t % 512] == buf@[t],
            decreases n - i,
        {
            let mut sec = [0u8; 512];
            let mut j: usize = 0;
            while j < 512
                invariant
                    i < n,
                    n <= 128,
                    buf@.len() == n * 512,
                    j <= 512,
                    forall|t: int| 0 <= t < j ==> sec@[t] == buf@[512 * i + t],
                decreases 512 - j,
            {
                proof {
                    assert(512 * i + j < n * 512) by (nonlinear_arith)
                        requires
                            j < 512,
                            i < n,
                    ;
                    assert(n <= 128);
                }
                sec[j] = buf[i * 512 + j];
                j = j + 1;
            }
            let ghost before = self.disk();
            if !self.dev.write_sector(lba + i as u32, &sec) {
                return Err(FError::DiskErr);
            }
            proof {
                assert forall|t: int| 0 <= t < 512 * (i + 1) implies #[trigger] self.disk()[lba + t / 512][t % 512]
                    == buf@[t] by {
                    if t < 512 * i {
                        assert(t / 512 < i) by (nonlinear_arith)
                            requires
                                0 <= t < 512 * i,
                        ;
                    } else {
                        assert(t / 512 == i && t % 512 == t - 512 * i) by (nonlinear_arith)
                            requires
                                512 * i <= t < 512 * (i + 1),
                        ;
                    }
                }
            }
            i = i + 1;
        }
        proof {
            assert(self.cluster_bytes(c as int) =~= buf@);
        }
        Ok(())
    }
}

impl<D: BlockDevice> FatVolume<D> {
    /// Every cluster in `lo..hi` has a non-zero FAT entry.
    pub open spec fn all_used(&self, lo: int, hi: int) -> bool {
        forall|j: int| lo <= j < hi ==> #[trigger] self.fat_entry(j) != 0
    }

    /// Number of clusters in `lo..hi` whose FAT entry is zero (free).
    pub open spec fn free_count(&self, lo: int, hi: int) -> int
        decreases hi - lo,
    {
        if lo >= hi {
            0
        } else {
            self.free_count(lo, hi - 1) + (if self.fat_entry(hi - 1) == 0 { 1int } else { 0int })
        }
    }

    /// Number of FAT entries, as the driver computes it.
    pub fn fat_entries(&self) -> (r: u32)
        requires
            self.wf(),
        ensures
            r == self.max_cluster(),
    {
        self.sectors_per_fat * 512 / 4
    }

    /// The first free cluster, scanning from cluster 2; `MkfsAborted` when
    /// every cluster is in use.
    pub fn find_free_cluster(&self) -> (r: FResult<u32>)
        requires
            self.wf(),
        ensures
            r matches Ok(c) ==> 2 <= c < self.max_cluster() && self.fat_entry(c as int) == 0 && self.all_used(2, c as int)
                && self.fat_sector(c as int) < self.disk().len() && self.disk()[self.fat_sector(c as int)].len() == 512,
            r matches Err(e) ==> e == FError::DiskErr || (e == FError::MkfsAborted && self.all_used(2, self.max_cluster())),
    {
        let max = self.fat_entries();
        let mut c: u32 = 2;
        while c < max
            invariant
                self.wf(),
                max == self.max_cluster(),
                2 <= c,
                c <= max || c == 2,
                self.all_used(2, c as int),
            decreases max - c,
        {
            match self.read_fat_entry(c) {
                Ok(v) => {
                    if v == 0 {
                        return Ok(c);
                    }
                },
                Err(e) => {
                    return Err(e);
                },
            }
            c = c + 1;
        }
        Err(FError::MkfsAborted)
    }

    /// Number of free clusters from cluster 2 up.
    pub fn count_free_clusters(&self) -> (r: FResult<u32>)
        requires
            self.wf(),
        ensures
            r matches Ok(n) ==> n == self.free_count(2, self.max_cluster()),
            r matches Err(e) ==> e == FError::DiskErr,
    {
        let max = self.fat_entries();
        let mut count: u32 = 0;
        let mut c: u32 = 2;
        if max < 2 {
            return Ok(0);
        }
        while c < max
            invariant
                self.wf(),
                max == self.max_cluster(),
                2 <= c <= max,
                count == self.free_count(2, c as int),
                count <= c - 2,
            decreases max - c,
        {
            match self.read_fat_entry(c) {
                Ok(v) => {
                    if v == 0 {
                        count = count + 1;
                    }
                },
                Err(e) => {
                    return Err(e);
                },
            }
            c = c + 1;
        }
        Ok(count)
    }
}

} // verus!
