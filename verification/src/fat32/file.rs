//! Open files: opening and creating, reading, writing, seeking, sizing.
use vstd::prelude::*;
use crate::block::BlockDevice;
use super::volume::{ATTR_ARCHIVE, CHAIN_END, END_OF_CHAIN, FA_CREATE_ALWAYS, FA_CREATE_NEW, FA_OPEN_ALWAYS, FA_READ, FA_WRITE, FError, FResult, FatVolume, lemma_flag_bits, write_le32};
use super::names::{encode_83, encode_name_83, entry_cluster, entry_info, FileInfo, read_entry_cluster, read_entry_info};
use super::lookup::{Lookup, Slot, Walk, entry_bytes, root_only};
use super::runs::{lemma_div_below, lemma_fat_before_data, patched, regular, run_holds, run_sector, linked_run, lemma_patch_run, lemma_run_grow, lemma_run_same_data, lemma_run_place, lemma_cluster_end, lemma_follow_run, lemma_run_last};
use crate::text::{le32, read_le32};
use vstd::string::StringSliceAdditionalSpecFns;

verus! {

/// An open file.
#[derive(Clone, Copy, Debug, PartialEq, Eq, Structural)]
pub struct File {
    pub size: u32,
    pub position: u32,
    pub start_cluster: u32,
    pub current_cluster: u32,
    pub sector_in_cluster: u16,
    pub byte_in_sector: u16,
    pub flags: u8,
    pub dir_sector: u32,
    pub dir_offset: u16,
    pub modified: bool,
    pub error: FError,
}

/// The geometry of `v2` is that of `v1` (only the device contents may differ).
pub open spec fn same_geometry<D: BlockDevice>(v1: FatVolume<D>, v2: FatVolume<D>) -> bool {
    &&& v2.sectors_per_cluster == v1.sectors_per_cluster
    &&& v2.sectors_per_fat == v1.sectors_per_fat
    &&& v2.num_fats == v1.num_fats
    &&& v2.fat_region_lba == v1.fat_region_lba
    &&& v2.data_region_lba == v1.data_region_lba
    &&& v2.reserved_sectors == v1.reserved_sectors
    &&& v2.root_cluster == v1.root_cluster
    &&& v2.cwd_cluster == v1.cwd_cluster
    &&& v2.cwd_path == v1.cwd_path
}

/// The entry `path` names, when its parent directory resolves: the lookup of
/// its final component there.
pub open spec fn path_lookup<D: BlockDevice>(v: FatVolume<D>, path: Seq<u8>) -> Lookup {
    match v.resolve(path) {
        Walk::Done(c, i) => v.lookup(c, path.subrange(i, path.len() as int), v.max_cluster() as nat),
        _ => Lookup::Missing,
    }
}

/// `flags` asks for the file to be created when it is missing.
pub open spec fn creates(flags: u8) -> bool {
    flags & (FA_CREATE_NEW | FA_CREATE_ALWAYS | FA_OPEN_ALWAYS) != 0
}

impl<D: BlockDevice> FatVolume<D> {
    /// The 32 bytes of entry `idx` of directory cluster `c`.
    pub fn read_entry_data(&self, c: u32, idx: u16) -> (r: FResult<[u8; 32]>)
        requires
            self.wf(),
            idx * 32 + 32 <= self.cluster_size(),
        ensures
            r matches Ok(e) ==> e@ == self.cluster_bytes(c as int).subrange(idx * 32, idx * 32 + 32),
            r matches Err(e) ==> e == FError::DiskErr,
    {
        let cs = self.sectors_per_cluster as usize * 512;
        let mut buf: Vec<u8> = vec![0u8; cs];
        match self.read_cluster(c, &mut buf) {
            Ok(()) => {},
            Err(e) => {
                return Err(e);
            },
        }
        Ok(entry_bytes(&buf, idx as usize * 32))
    }

    /// Frees the cluster chain starting at `start`: every cluster of it gets
    /// a zero FAT entry. The walk stops at an end-of-chain or out-of-range
    /// entry; a chain longer than the FAT is reported as `DiskErr`. On a
    /// regular volume whose chain from `start` is a run of distinct data
    /// clusters that ends (see [`chain_ends_after`]), exactly the clusters
    /// of the chain are freed and the data region is untouched.
    #[verifier::rlimit(50)]
    pub fn free_chain(&mut self, start: u32) -> (r: FResult<()>)
        requires
            old(self).wf(),
        ensures
            final(self).wf(),
            same_geometry(*old(self), *final(self)),
            final(self).disk().len() == old(self).disk().len(),
            r matches Err(e) ==> e == FError::DiskErr,
            start < 2 || start >= END_OF_CHAIN ==> r is Ok && final(self).disk() == old(self).disk(),
            r is Ok && regular(*old(self)) ==> forall|len: nat|
                #[trigger] chain_ends_after(*old(self), start as int, len) ==> chain_freed(*old(self), *final(self), start as int, len)
                    && same_data(*old(self), *final(self)),
    {
        let budget = self.fat_entries();
        let mut fuel = budget;
        let mut clu = start;
        let ghost v0 = *self;
        let ghost mut first = true;
        let ghost h = regular(v0) && exists|len: nat| chain_ends_after(v0, start as int, len);
        let ghost big_l: nat = if h {
            choose|len: nat| chain_ends_after(v0, start as int, len)
        } else {
            0
        };
        let ghost mut i: nat = 0;
        proof {
            if h {
                assert(chain_valid_at(v0, start as int, 0));
            }
        }
        while clu >= 2 && clu < END_OF_CHAIN
            invariant
                self.wf(),
                v0 == *old(self),
                same_geometry(v0, *self),
                self.disk().len() == v0.disk().len(),
                first ==> clu == start && self.disk() == v0.disk() && i == 0,
                !first ==> start >= 2 && start < END_OF_CHAIN,
                h == (regular(v0) && exists|len: nat| chain_ends_after(v0, start as int, len)),
                h ==> chain_ends_after(v0, start as int, big_l),
                h ==> i <= big_l,
                h && i < big_l ==> chain_nth(v0, start as int, i) == Some(clu as int),
                h && i == big_l ==> !(2 <= clu < END_OF_CHAIN),
                h ==> forall|j: nat| j < i ==> #[trigger] self.fat_entry(chain_at(v0, start as int, j)) == 0,
                h ==> forall|j: nat| j < i ==> #[trigger] v0.fat_sector(chain_at(v0, start as int, j)) < v0.disk().len(),
                h ==> forall|x: int|
                    0 <= x < v0.max_cluster() && v0.fat_sector(x) < v0.disk().len() && !on_chain(v0, start as int, i, x)
                        ==> #[trigger] self.fat_entry(x) == v0.fat_entry(x),
                h ==> forall|k: int| v0.data_region_lba <= k < v0.disk().len() ==> #[trigger] self.disk()[k] == v0.disk()[k],
            decreases fuel,
        {
            proof {
                first = false;
            }
            if fuel == 0 {
                return Err(FError::DiskErr);
            }
            let ghost vb = *self;
            let next = match self.read_fat_entry(clu) {
                Ok(v) => v,
                Err(e) => {
                    return Err(e);
                },
            };
            match self.write_fat_entry(clu, 0) {
                Ok(()) => {},
                Err(e) => {
                    return Err(e);
                },
            }
            proof {
                if h {
                    lemma_free_step(v0, vb, *self, start as int, big_l, i, clu as int, next as int);
                    i = i + 1;
                }
            }
            clu = next;
            fuel = fuel - 1;
        }
        proof {
            if h {
                assert(i == big_l) by {
                    if i < big_l {
                        assert(chain_valid_at(v0, start as int, i));
                    }
                }
                assert forall|len: nat| #[trigger] chain_ends_after(v0, start as int, len) implies chain_freed(
                    v0,
                    *self,
                    start as int,
                    len,
                ) && same_data(v0, *self) by {
                    lemma_chain_end_unique(v0, start as int, len, big_l);
                }
            }
        }
        Ok(())
    }

    /// Allocates a free cluster and marks it as the end of a chain.
    pub fn alloc_cluster(&mut self) -> (r: FResult<u32>)
        requires
            old(self).wf(),
        ensures
            final(self).wf(),
            same_geometry(*old(self), *final(self)),
            r matches Err(e) ==> e == FError::DiskErr || (e == FError::MkfsAborted && old(self).all_used(
                2,
                old(self).max_cluster(),
            ) && final(self).disk() == old(self).disk() && final(self).all_used(2, final(self).max_cluster())),
            r matches Ok(c) ==> 2 <= c < old(self).max_cluster() && old(self).fat_entry(c as int) == 0
                && old(self).all_used(2, c as int) && final(self).fat_entry(c as int) == CHAIN_END,
            r is Ok ==> final(self).disk().len() == old(self).disk().len(),
            r is Ok ==> old(self).num_fats >= 1,
            r matches Ok(c) ==> old(self).fat_sector(c as int) < old(self).disk().len(),
            r matches Ok(c) ==> forall|c2: int|
                0 <= c2 < old(self).max_cluster() && c2 != c && old(self).fat_sector(c2) < old(self).disk().len()
                    ==> #[trigger] final(self).fat_entry(c2) == old(self).fat_entry(c2),
            r is Ok ==> forall|i: int|
                old(self).data_region_lba <= i < old(self).disk().len() ==> #[trigger] final(self).disk()[i] == old(self).disk()[i],
    {
        let c = match self.find_free_cluster() {
            Ok(c) => c,
            Err(e) => {
                return Err(e);
            },
        };
        match self.write_fat_entry(c, CHAIN_END) {
            Ok(()) => {},
            Err(e) => {
                return Err(e);
            },
        }
        proof {
            let s0 = old(self).disk()[old(self).fat_sector(c as int)];
            let off = old(self).fat_offset(c as int);
            assert(self.num_fats >= 1 ==> self.disk()[old(self).copy_sector(0, c as int)] == crate::fat32::volume::put_le32(
                s0,
                off,
                crate::fat32::volume::merged_entry(le32(s0, off), CHAIN_END),
            ));
        }
        if self.num_fats == 0 {
            return Err(FError::DiskErr);
        }
        proof {
            lemma_entry_after_write(*old(self), *self, c);
            assert forall|c2: int|
                0 <= c2 < old(self).max_cluster() && c2 != c && old(self).fat_sector(c2) < old(self).disk().len()
                    implies #[trigger] self.fat_entry(c2) == old(self).fat_entry(c2) by {
                lemma_fat_write_effect(*old(self), *self, c as int, CHAIN_END, c2);
            }
            lemma_fat_write_effect(*old(self), *self, c as int, CHAIN_END, c as int);
        }
        Ok(c)
    }
}

/// [`lemma_fat_write_effect`] for every cluster below the FAT's size at
/// once.
pub proof fn lemma_fat_write_all<D: BlockDevice>(v0: FatVolume<D>, v1: FatVolume<D>, cur: int, val: u32)
    requires
        v0.wf(),
        same_geometry(v0, v1),
        v0.num_fats >= 1,
        2 <= cur < v0.max_cluster(),
        v1.disk().len() == v0.disk().len(),
        forall|i: int|
            0 <= i < v0.disk().len() && !(exists|k: int| 0 <= k < v0.num_fats && i == v0.copy_sector(k, cur)) ==> #[trigger] v1.disk()[i]
                == v0.disk()[i],
        v0.fat_sector(cur) < v0.disk().len(),
        v0.disk()[v0.fat_sector(cur)].len() == 512,
        forall|k: int|
            0 <= k < v0.num_fats ==> #[trigger] v0.copy_sector(k, cur) < v0.disk().len() && v1.disk()[v0.copy_sector(k, cur)]
                == crate::fat32::volume::put_le32(
                v0.disk()[v0.fat_sector(cur)],
                v0.fat_offset(cur),
                crate::fat32::volume::merged_entry(le32(v0.disk()[v0.fat_sector(cur)], v0.fat_offset(cur)), val),
            ),
    ensures
        forall|c: int|
            0 <= c < v0.max_cluster() && c != cur && v0.fat_sector(c) < v0.disk().len() ==> #[trigger] v1.fat_entry(c)
                == v0.fat_entry(c),
        v1.fat_entry(cur) == val % 0x1000_0000,
        forall|i: int| v0.data_region_lba <= i < v0.disk().len() ==> #[trigger] v1.disk()[i] == v0.disk()[i],
{
    lemma_fat_write_effect(v0, v1, cur, val, cur);
    assert forall|c: int| 0 <= c < v0.max_cluster() && c != cur && v0.fat_sector(c) < v0.disk().len() implies #[trigger] v1.fat_entry(
        c,
    ) == v0.fat_entry(c) by {
        lemma_fat_write_effect(v0, v1, cur, val, c);
    }
}

/// What a successful `write_fat_entry(cur, val)` taking `v0` to `v1`
/// tells of a cluster `c` below the FAT's size: its entry is unchanged
/// unless `c` is `cur`, whose entry becomes the low 28 bits of `val`; the
/// bytes of every data cluster are unchanged.
pub proof fn lemma_fat_write_effect<D: BlockDevice>(v0: FatVolume<D>, v1: FatVolume<D>, cur: int, val: u32, c: int)
    requires
        v0.wf(),
        same_geometry(v0, v1),
        v0.num_fats >= 1,
        2 <= cur < v0.max_cluster(),
        0 <= c < v0.max_cluster(),
        v1.disk().len() == v0.disk().len(),
        forall|i: int|
            0 <= i < v0.disk().len() && !(exists|k: int| 0 <= k < v0.num_fats && i == v0.copy_sector(k, cur)) ==> #[trigger] v1.disk()[i]
                == v0.disk()[i],
        v0.fat_sector(cur) < v0.disk().len(),
        v0.disk()[v0.fat_sector(cur)].len() == 512,
        forall|k: int|
            0 <= k < v0.num_fats ==> #[trigger] v0.copy_sector(k, cur) < v0.disk().len() && v1.disk()[v0.copy_sector(k, cur)]
                == crate::fat32::volume::put_le32(
                v0.disk()[v0.fat_sector(cur)],
                v0.fat_offset(cur),
                crate::fat32::volume::merged_entry(le32(v0.disk()[v0.fat_sector(cur)], v0.fat_offset(cur)), val),
            ),
    ensures
        c != cur && v0.fat_sector(c) < v0.disk().len() ==> v1.fat_entry(c) == v0.fat_entry(c),
        c == cur ==> v1.fat_entry(c) == val % 0x1000_0000,
        forall|i: int| v0.data_region_lba <= i < v0.disk().len() ==> #[trigger] v1.disk()[i] == v0.disk()[i],
{
    let spf = v0.sectors_per_fat as int;
    let s0 = v0.disk()[v0.fat_sector(cur)];
    let off = v0.fat_offset(cur);
    let m = crate::fat32::volume::merged_entry(le32(s0, off), val);
    let s1 = crate::fat32::volume::put_le32(s0, off, m);
    assert(0 <= cur / 128 < spf && 0 <= c / 128 < spf) by (nonlinear_arith)
        requires
            0 <= cur < spf * 128,
            0 <= c < spf * 128,
    ;
    assert forall|k: int| 0 <= k < v0.num_fats implies #[trigger] v0.copy_sector(k, cur) < v0.data_region_lba by {
        assert(k * spf + cur / 128 < v0.num_fats * spf) by (nonlinear_arith)
            requires
                0 <= k < v0.num_fats,
                0 <= cur / 128 < spf,
        ;
    }
    if c != cur {
        let fs = v0.fat_sector(c);
        if exists|k: int| 0 <= k < v0.num_fats && fs == v0.copy_sector(k, cur) {
            let k = choose|k: int| 0 <= k < v0.num_fats && fs == v0.copy_sector(k, cur);
            assert(k == 0) by {
                if k >= 1 {
                    assert(k * spf >= spf) by (nonlinear_arith)
                        requires
                            k >= 1,
                            spf >= 0,
                    ;
                }
            }
            assert(k * spf == 0) by (nonlinear_arith)
                requires
                    k == 0,
            ;
            assert(c / 128 == cur / 128);
            assert(c % 128 != cur % 128) by {
                assert(c == (c / 128) * 128 + c % 128);
                assert(cur == (cur / 128) * 128 + cur % 128);
            }
            let oc = v0.fat_offset(c);
            assert(oc + 4 <= off || off + 4 <= oc);
            assert(0 <= oc && oc + 4 <= 512 && 0 <= off && off + 4 <= 512);
            assert(v1.disk()[fs] == s1);
            assert(s1[oc] == s0[oc] && s1[oc + 1] == s0[oc + 1] && s1[oc + 2] == s0[oc + 2] && s1[oc + 3] == s0[oc + 3]);
        } else {
            assert(fs < v0.disk().len() ==> v1.disk()[fs] == v0.disk()[fs]);
            assert(v1.fat_sector(c) == fs);
            if fs >= v0.disk().len() {
                assert(v1.disk().len() == v0.disk().len());
            }
        }
    } else {
        assert(v1.disk()[v0.copy_sector(0, cur)] == s1);
        assert(v0.copy_sector(0, cur) == v0.fat_sector(cur));
        let raw = le32(s0, off) as u32;
        assert(m % 0x1000_0000 == val % 0x1000_0000) by (bit_vector)
            requires
                m == (raw & 0xF000_0000u32) | (val & 0x0FFF_FFFFu32),
        ;
        assert(0 <= off <= 508) by {
            assert(cur % 128 < 128);
        }
        assert(le32(s1, off) == m) by {
            assert(s1[off] == (m % 256) as u8);
            assert(s1[off + 1] == ((m / 256) % 256) as u8);
            assert(s1[off + 2] == ((m / 65536) % 256) as u8);
            assert(s1[off + 3] == (m / 16777216) as u8);
            assert((m % 256) + ((m / 256) % 256) * 256 + (((m / 65536) % 256) + (m / 16777216) * 256) * 65536 == m)
                by (nonlinear_arith);
        }
    }
    assert forall|i: int| v0.data_region_lba <= i < v0.disk().len() implies #[trigger] v1.disk()[i] == v0.disk()[i] by {
        assert(!(exists|k: int| 0 <= k < v0.num_fats && i == v0.copy_sector(k, cur)));
    }
}

/// After storing `CHAIN_END` for cluster `c` in the first FAT copy, the
/// entry of `c` reads back as `CHAIN_END`.
proof fn lemma_entry_after_write<D: BlockDevice>(v0: FatVolume<D>, v1: FatVolume<D>, c: u32)
    requires
        v0.wf(),
        same_geometry(v0, v1),
        v0.num_fats >= 1,
        v0.fat_sector(c as int) < v0.disk().len(),
        v1.disk().len() == v0.disk().len(),
        v1.disk()[v0.copy_sector(0, c as int)] == crate::fat32::volume::put_le32(
            v0.disk()[v0.fat_sector(c as int)],
            v0.fat_offset(c as int),
            crate::fat32::volume::merged_entry(le32(v0.disk()[v0.fat_sector(c as int)], v0.fat_offset(c as int)), CHAIN_END),
        ),
        v0.disk()[v0.fat_sector(c as int)].len() == 512,
    ensures
        v1.fat_entry(c as int) == CHAIN_END,
{
    let s0 = v0.disk()[v0.fat_sector(c as int)];
    let off = v0.fat_offset(c as int);
    let m = crate::fat32::volume::merged_entry(le32(s0, off), CHAIN_END);
    let raw = le32(s0, off) as u32;
    assert(m % 0x1000_0000 == CHAIN_END) by (bit_vector)
        requires
            m == (raw & 0xF000_0000u32) | (0x0FFF_FFFFu32 & 0x0FFF_FFFFu32),
    ;
    assert(0 <= off <= 508) by {
        assert(c % 128 < 128);
    }
    let s1 = crate::fat32::volume::put_le32(s0, off, m);
    assert(le32(s1, off) == m) by {
        assert(s1[off] == (m % 256) as u8);
        assert(s1[off + 1] == ((m / 256) % 256) as u8);
        assert(s1[off + 2] == ((m / 65536) % 256) as u8);
        assert(s1[off + 3] == (m / 16777216) as u8);
        assert((m % 256) + ((m / 256) % 256) * 256 + (((m / 65536) % 256) + (m / 16777216) * 256) * 65536 == m)
            by (nonlinear_arith);
    }
}

/// The file as [`f_open`] returns it for an existing entry `e` (at `off` of
/// directory cluster `dc`, entry `idx`), opened with `flags`.
pub open spec fn opened_file(e: Seq<u8>, dc: int, idx: int, flags: u8) -> File {
    let truncate = flags & FA_CREATE_ALWAYS != 0;
    File {
        size: if truncate { 0 } else { le32(e, 0x1C) as u32 },
        position: 0,
        start_cluster: entry_cluster(e, 0) as u32,
        current_cluster: if truncate { 0 } else { entry_cluster(e, 0) as u32 },
        sector_in_cluster: 0,
        byte_in_sector: 0,
        flags,
        dir_sector: dc as u32,
        dir_offset: idx as u16,
        modified: false,
        error: FError::NoError,
    }
}

/// The 32-byte directory entry `e` made the entry of a new file with the
/// 8.3 name bytes `name` starting at cluster `c`: the name, the archive
/// attribute, and the high and low halves of `c` at 0x14 and 0x1A
/// (little-endian) written; the other bytes kept.
pub open spec fn new_file_entry(e: Seq<u8>, name: Seq<u8>, c: u32) -> Seq<u8> {
    Seq::new(
        32,
        |k: int|
            if k < 11 {
                name[k]
            } else if k == 0x0B {
                ATTR_ARCHIVE
            } else if k == 0x14 {
                ((c / 65536) % 256) as u8
            } else if k == 0x15 {
                ((c / 65536) / 256) as u8
            } else if k == 0x1A {
                ((c % 65536) % 256) as u8
            } else if k == 0x1B {
                ((c % 65536) / 256) as u8
            } else {
                e[k]
            },
    )
}

/// Writes the entry of a new file (see [`new_file_entry`]) over the 32
/// bytes of `buf` at `off`.
fn put_new_entry(buf: &mut Vec<u8>, off: usize, name: &[u8; 11], c: u32)
    requires
        off + 32 <= old(buf)@.len(),
        old(buf)@.len() <= 65536,
    ensures
        final(buf)@.len() == old(buf)@.len(),
        final(buf)@.subrange(off as int, off + 32) == new_file_entry(
            old(buf)@.subrange(off as int, off + 32),
            name@,
            c,
        ),
{
    let ghost b0 = buf@;
    let mut j: usize = 0;
    while j < 11
        invariant
            off + 32 <= buf@.len(),
            buf@.len() == b0.len(),
            b0.len() <= 65536,
            j <= 11,
            forall|t: int| 0 <= t < j ==> #[trigger] buf@[off + t] == name@[t],
            forall|t: int| 0 <= t < b0.len() && !(off <= t < off + j) ==> #[trigger] buf@[t] == b0[t],
        decreases 11 - j,
    {
        buf.set(off + j, name[j]);
        j = j + 1;
    }
    buf.set(off + 0x0B, ATTR_ARCHIVE);
    let lo = c % 65536;
    let hi = c / 65536;
    buf.set(off + 0x1A, (lo % 256) as u8);
    buf.set(off + 0x1B, (lo / 256) as u8);
    buf.set(off + 0x14, (hi % 256) as u8);
    buf.set(off + 0x15, (hi / 256) as u8);
    proof {
        let e = new_file_entry(b0.subrange(off as int, off + 32), name@, c);
        assert forall|k: int| 0 <= k < 32 implies #[trigger] buf@.subrange(off as int, off + 32)[k] == e[k] by {
            if k < 11 {
                assert(buf@[off + k] == name@[k]);
            } else if k != 0x0B && k != 0x14 && k != 0x15 && k != 0x1A && k != 0x1B {
                assert(buf@[off + k] == b0[off + k]);
            }
        }
        assert(buf@.subrange(off as int, off + 32) =~= e);
    }
}

/// Creates the directory entry of a new, empty file named `target` in the
/// first free slot of directory `dir`: a cluster is allocated first and
/// ends its chain; the entry gets the 8.3 name, the archive attribute and
/// the start cluster (see [`new_file_entry`]).
#[verifier::rlimit(100)]
#[verifier::spinoff_prover]
fn create_file<D: BlockDevice>(vol: &mut FatVolume<D>, dir: u32, target: &[u8], flags: u8) -> (r: FResult<File>)
    requires
        old(vol).wf(),
    ensures
        final(vol).wf(),
        same_geometry(*old(vol), *final(vol)),
        r matches Err(e) ==> e == FError::DiskErr || (e == FError::MkfsAborted && old(vol).all_used(
            2,
            old(vol).max_cluster(),
        ) && final(vol).all_used(2, final(vol).max_cluster())),
        r matches Ok(f) ==> {
            &&& f.position == 0
            &&& f.flags == flags
            &&& f.error == FError::NoError
            &&& f.sector_in_cluster == 0
            &&& f.byte_in_sector == 0
            &&& f.size == 0
            &&& f.modified
            &&& f.start_cluster == f.current_cluster
            &&& old(vol).fat_entry(f.start_cluster as int) == 0
            &&& old(vol).all_used(2, f.start_cluster as int)
            &&& 2 <= f.start_cluster < old(vol).max_cluster()
            &&& final(vol).fat_entry(f.start_cluster as int) == CHAIN_END
            &&& f.dir_offset * 32 + 32 <= old(vol).cluster_size()
            &&& final(vol).cluster_bytes(f.dir_sector as int).subrange(f.dir_offset * 32, f.dir_offset * 32 + 32)
                == new_file_entry(
                old(vol).cluster_bytes(f.dir_sector as int).subrange(f.dir_offset * 32, f.dir_offset * 32 + 32),
                encode_83(target@),
                f.start_cluster,
            )
        },
{
    let dir_cluster = dir;
    let new_cluster = match vol.alloc_cluster() {
        Ok(c) => c,
        Err(e) => {
            return Err(e);
        },
    };
    let (dest_cluster, dest_off, mut dest_buf) = match vol.find_free_slot(dir_cluster) {
        Ok(x) => x,
        Err(e) => {
            return Err(e);
        },
    };
    let enc = encode_name_83(target);
    let ghost b0 = dest_buf@;
    put_new_entry(&mut dest_buf, dest_off, &enc, new_cluster);
    let ghost va = *vol;
    match vol.write_cluster(dest_cluster, &dest_buf) {
        Ok(()) => {},
        Err(e) => {
            return Err(e);
        },
    }
    proof {
        assert(va.cluster_bytes(dest_cluster as int) =~= old(vol).cluster_bytes(dest_cluster as int));
        lemma_fat_before_data(*old(vol), new_cluster as int);
        assert(va.fat_sector(new_cluster as int) < va.cluster_lba(dest_cluster as int));
        assert(vol.disk()[va.fat_sector(new_cluster as int)] == va.disk()[va.fat_sector(new_cluster as int)]);
        assert(vol.fat_entry(new_cluster as int) == va.fat_entry(new_cluster as int));
    }
    Ok(
        File {
            size: 0,
            position: 0,
            start_cluster: new_cluster,
            current_cluster: new_cluster,
            sector_in_cluster: 0,
            byte_in_sector: 0,
            flags,
            dir_sector: dest_cluster,
            dir_offset: (dest_off / 32) as u16,
            modified: true,
            error: FError::NoError,
        },
    )
}

/// The new empty file `f` that creating `name` on `v0` made, giving `v1`:
/// a free cluster (the first one, all before it in use) now ends its
/// chain, and the entry for the 8.3 form of the final name with that start
/// cluster stands in the parent directory's cluster.
pub open spec fn file_made<D: BlockDevice>(v0: FatVolume<D>, v1: FatVolume<D>, name: Seq<u8>, f: File) -> bool {
    &&& f.size == 0
    &&& f.modified
    &&& f.start_cluster == f.current_cluster
    &&& v0.fat_entry(f.start_cluster as int) == 0
    &&& v0.all_used(2, f.start_cluster as int)
    &&& 2 <= f.start_cluster < v0.max_cluster()
    &&& v1.fat_entry(f.start_cluster as int) == CHAIN_END
    &&& f.dir_offset * 32 + 32 <= v0.cluster_size()
    &&& v0.resolve(name) matches Walk::Done(dc, st) && v1.cluster_bytes(f.dir_sector as int).subrange(
        f.dir_offset * 32,
        f.dir_offset * 32 + 32,
    ) == new_file_entry(
        v0.cluster_bytes(f.dir_sector as int).subrange(f.dir_offset * 32, f.dir_offset * 32 + 32),
        encode_83(name.subrange(st, name.len() as int)),
        f.start_cluster,
    )
}

/// Opens the file `name` with `flags`. An existing file is refused with
/// `Exists` under `FA_CREATE_NEW`, truncated (its chain freed) under
/// `FA_CREATE_ALWAYS`, else opened at position 0. A missing file is refused
/// with `NoFile` unless a create flag is given; then a cluster is allocated
/// first, a directory entry is written in the first free slot of the parent
/// (8.3 name, archive attribute, start cluster) and the new file is empty.
pub fn f_open<D: BlockDevice>(vol: &mut FatVolume<D>, name: &str, flags: u8) -> (r: FResult<File>)
    requires
        old(vol).wf(),
    ensures
        final(vol).wf(),
        same_geometry(*old(vol), *final(vol)),
        r matches Err(e) ==> e == FError::DiskErr || e == FError::NoPath || e == FError::Exists || e == FError::NoFile
            || e == FError::MkfsAborted,
        r matches Err(e) && e == FError::NoPath ==> old(vol).resolve(name.spec_bytes()) is NoPath,
        old(vol).resolve(name.spec_bytes()) is NoPath ==> r == Err::<File, FError>(FError::NoPath) || r == Err::<
            File,
            FError,
        >(FError::DiskErr),
        r matches Err(e) && e == FError::Exists ==> flags & FA_CREATE_NEW != 0 && path_lookup(*old(vol), name.spec_bytes()) is Found,
        r matches Err(e) && e == FError::NoFile ==> !creates(flags) && path_lookup(*old(vol), name.spec_bytes()) is Missing
            && old(vol).resolve(name.spec_bytes()) is Done,
        r matches Err(e) && e == FError::MkfsAborted ==> old(vol).all_used(2, old(vol).max_cluster())
            && final(vol).all_used(2, final(vol).max_cluster()) && creates(flags) && path_lookup(
            *old(vol),
            name.spec_bytes(),
        ) is Missing && old(vol).resolve(name.spec_bytes()) is Done,
        flags & FA_CREATE_NEW != 0 && path_lookup(*old(vol), name.spec_bytes()) is Found ==> (r == Err::<File, FError>(
            FError::Exists,
        ) || r == Err::<File, FError>(FError::DiskErr)) && *final(vol) == *old(vol),
        !creates(flags) && path_lookup(*old(vol), name.spec_bytes()) is Missing && old(vol).resolve(name.spec_bytes()) is Done
            ==> r == Err::<File, FError>(FError::NoFile) || r == Err::<File, FError>(FError::DiskErr),
        r matches Err(e) && (e == FError::NoPath || e == FError::Exists || e == FError::NoFile) ==> *final(vol)
            == *old(vol),
        !creates(flags) ==> *final(vol) == *old(vol),
        r matches Ok(f) ==> {
            &&& f.position == 0
            &&& f.flags == flags
            &&& f.error == FError::NoError
            &&& f.sector_in_cluster == 0
            &&& f.byte_in_sector == 0
            &&& match path_lookup(*old(vol), name.spec_bytes()) {
                Lookup::Found(dc, idx) => {
                    &&& flags & FA_CREATE_NEW == 0
                    &&& f == opened_file(old(vol).cluster_bytes(dc).subrange(32 * idx, 32 * idx + 32), dc, idx, flags)
                    &&& flags & FA_CREATE_ALWAYS == 0 ==> *final(vol) == *old(vol)
                    &&& flags & FA_CREATE_ALWAYS != 0 && regular(*old(vol)) ==> forall|len: nat|
                        #[trigger] chain_ends_after(*old(vol), f.start_cluster as int, len) ==> chain_freed(
                            *old(vol),
                            *final(vol),
                            f.start_cluster as int,
                            len,
                        ) && same_data(*old(vol), *final(vol))
                },
                _ => creates(flags) && file_made(*old(vol), *final(vol), name.spec_bytes(), f),
            }
        },
{
    proof {
        lemma_flag_bits();
        assert(flags & (0x04u8 | 0x08u8 | 0x10u8) == 0 ==> flags & 0x08u8 == 0);
    }
    let nb = name.as_bytes();
    let (dir_cluster, start) = match vol.resolve_path(nb) {
        Ok(x) => x,
        Err(e) => {
            return Err(e);
        },
    };
    let target = crate::text::copy_range(nb, start, nb.len());
    let found = match vol.find_entry_in_dir(dir_cluster, target.as_slice()) {
        Ok(x) => x,
        Err(e) => {
            return Err(e);
        },
    };
    match found {
        Some((pc, idx)) => {
            if flags & FA_CREATE_NEW != 0 {
                return Err(FError::Exists);
            }
            let entry = match vol.read_entry_data(pc, idx) {
                Ok(e) => e,
                Err(e) => {
                    return Err(e);
                },
            };
            let start_cluster = read_entry_cluster(entry.as_slice(), 0);
            let mut size = read_le32(entry.as_slice(), 0x1C);
            let mut current = start_cluster;
            if flags & FA_CREATE_ALWAYS != 0 {
                match vol.free_chain(start_cluster) {
                    Ok(()) => {},
                    Err(e) => {
                        return Err(e);
                    },
                }
                size = 0;
                current = 0;
            }
            Ok(
                File {
                    size,
                    position: 0,
                    start_cluster,
                    current_cluster: current,
                    sector_in_cluster: 0,
                    byte_in_sector: 0,
                    flags,
                    dir_sector: pc,
                    dir_offset: idx,
                    modified: false,
                    error: FError::NoError,
                },
            )
        },
        None => {
            if flags & (FA_CREATE_NEW | FA_CREATE_ALWAYS | FA_OPEN_ALWAYS) == 0 {
                return Err(FError::NoFile);
            }
            create_file(vol, dir_cluster, target.as_slice(), flags)
        },
    }
}

/// Closes a file (nothing is pending).
pub fn f_close(file: File) -> (r: FResult<()>)
    ensures
        r is Ok,
{
    Ok(())
}

/// Current position of the file.
pub fn f_tell(file: &File) -> (r: u32)
    ensures
        r == file.position,
{
    file.position
}

/// Whether the position is at or past the end of the file.
pub fn f_eof(file: &File) -> (r: bool)
    ensures
        r == (file.position >= file.size),
{
    file.position >= file.size
}

/// Size of the file in bytes.
pub fn f_size(file: &File) -> (r: u32)
    ensures
        r == file.size,
{
    file.size
}

/// Whether an operation on the file has failed.
pub fn f_error(file: &File) -> (r: bool)
    ensures
        r == (file.error != FError::NoError),
{
    file.error != FError::NoError
}

/// `path` names nothing: its parent does not resolve, or it has a final
/// name and the parent holds no entry of that name.
pub open spec fn names_nothing<D: BlockDevice>(v: FatVolume<D>, path: Seq<u8>) -> bool {
    match v.resolve(path) {
        Walk::Done(_, i) => i < path.len() && path_lookup(v, path) is Missing,
        Walk::NoPath => true,
        _ => false,
    }
}

/// What `f_stat` gives for `path` on `v` when the disk reads succeed: the
/// root directory's info for a path naming no entry, the entry's info when
/// the final name is found, and nothing otherwise.
pub open spec fn stat_info<D: BlockDevice>(v: FatVolume<D>, path: Seq<u8>) -> Option<FileInfo> {
    match v.resolve(path) {
        Walk::Done(_, i) => if i == path.len() {
            Some(
                FileInfo {
                    size: 0,
                    attributes: super::volume::ATTR_DIRECTORY,
                    start_cluster: v.root_cluster,
                    write_time: 0,
                    write_date: 0,
                },
            )
        } else {
            match path_lookup(v, path) {
                Lookup::Found(dc, idx) => Some(entry_info(v.cluster_bytes(dc), 32 * idx)),
                _ => None,
            }
        },
        _ => None,
    }
}

/// Metadata of the file or directory `path`; the root directory when the
/// path names no entry (`NoFile` when the entry is missing).
pub fn f_stat<D: BlockDevice>(vol: &FatVolume<D>, path: &str) -> (r: FResult<FileInfo>)
    requires
        vol.wf(),
    ensures
        names_nothing(*vol, path.spec_bytes()) ==> r is Err,
        r matches Err(e) ==> e == FError::DiskErr || (e == FError::NoPath && vol.resolve(path.spec_bytes()) is NoPath)
            || (e == FError::NoFile && vol.resolve(path.spec_bytes()) is Done && path_lookup(*vol, path.spec_bytes()) is Missing),
        vol.resolve(path.spec_bytes()) is NoPath ==> (r matches Err(e) && (e == FError::NoPath || e == FError::DiskErr)),
        vol.resolve(path.spec_bytes()) matches Walk::Done(_, i) && i < path.spec_bytes().len() && path_lookup(
            *vol,
            path.spec_bytes(),
        ) is Missing ==> (r matches Err(e) && (e == FError::NoFile || e == FError::DiskErr)),
        r matches Ok(info) ==> stat_info(*vol, path.spec_bytes()) == Some(info),
        root_only(path.spec_bytes()) ==> r == Ok::<FileInfo, FError>(
            FileInfo {
                size: 0,
                attributes: super::volume::ATTR_DIRECTORY,
                start_cluster: vol.root_cluster,
                write_time: 0,
                write_date: 0,
            },
        ),
        r matches Ok(info) ==> match vol.resolve(path.spec_bytes()) {
            Walk::Done(c, i) => if i == path.spec_bytes().len() {
                info == (FileInfo {
                    size: 0,
                    attributes: super::volume::ATTR_DIRECTORY,
                    start_cluster: vol.root_cluster,
                    write_time: 0,
                    write_date: 0,
                })
            } else {
                exists|dc: int, idx: int|
                    path_lookup(*vol, path.spec_bytes()) == Lookup::Found(dc, idx) && info == entry_info(
                        vol.cluster_bytes(dc),
                        32 * idx,
                    )
            },
            _ => false,
        },
{
    let pb = path.as_bytes();
    let (parent, start) = match vol.resolve_path(pb) {
        Ok(x) => x,
        Err(e) => {
            return Err(e);
        },
    };
    if start == pb.len() {
        return Ok(
            FileInfo {
                size: 0,
                attributes: super::volume::ATTR_DIRECTORY,
                start_cluster: vol.root_cluster,
                write_time: 0,
                write_date: 0,
            },
        );
    }
    let target = crate::text::copy_range(pb, start, pb.len());
    let (ec, idx) = match vol.find_entry_in_dir(parent, target.as_slice()) {
        Ok(Some(x)) => x,
        Ok(None) => {
            return Err(FError::NoFile);
        },
        Err(e) => {
            return Err(e);
        },
    };
    let cs = vol.sectors_per_cluster as usize * 512;
    let mut buf: Vec<u8> = vec![0u8; cs];
    match vol.read_cluster(ec, &mut buf) {
        Ok(()) => {},
        Err(e) => {
            return Err(e);
        },
    }
    Ok(read_entry_info(buf.as_slice(), idx as usize * 32))
}

/// The position fields of `f` lie inside a sector and a cluster of `v`.
pub open spec fn file_wf<D: BlockDevice>(v: FatVolume<D>, f: File) -> bool {
    &&& f.byte_in_sector < 512
    &&& f.sector_in_cluster < v.sectors_per_cluster
}

/// `a` or `b`, whichever is smaller.
pub open spec fn min_int(a: int, b: int) -> int {
    if a < b {
        a
    } else {
        b
    }
}

impl<D: BlockDevice> FatVolume<D> {
    /// The bytes a read of up to `n` bytes yields from cluster `c`, sector
    /// `s` of it, byte `b` of that sector, moving to the next sector and to
    /// the next cluster of the chain; it stops early where the chain ends.
    pub open spec fn stream(&self, c: int, s: int, b: int, n: nat) -> Seq<u8>
        decreases n,
    {
        if n == 0 || b < 0 || b >= 512 {
            Seq::empty()
        } else {
            let take = min_int(512 - b, n as int);
            let data = self.disk()[self.cluster_lba(c) + s].subrange(b, b + take);
            if b + take < 512 {
                data
            } else if s + 1 < self.sectors_per_cluster {
                data + self.stream(c, s + 1, 0, (n - take) as nat)
            } else if self.fat_entry(c) >= END_OF_CHAIN {
                data
            } else {
                data + self.stream(self.fat_entry(c), 0, 0, (n - take) as nat)
            }
        }
    }
}

/// Byte `x` of sector `s` of a cluster is byte `512 * s + x` of it.
proof fn lemma_sector_byte(s: int, x: int)
    requires
        0 <= s,
        0 <= x < 512,
    ensures
        (s * 512 + x) / 512 == s,
        (s * 512 + x) % 512 == x,
{
    assert((s * 512 + x) / 512 == s && (s * 512 + x) % 512 == x) by (nonlinear_arith)
        requires
            0 <= s,
            0 <= x < 512,
    ;
}

/// Within one cluster (ending before its last byte), the bytes a read
/// yields from sector `s`, byte `b` are the cluster's bytes from offset
/// `512 * s + b` on.
pub proof fn lemma_stream_in_cluster<D: BlockDevice>(v: FatVolume<D>, c: int, s: int, b: int, n: nat)
    requires
        0 <= b < 512,
        0 <= s,
        s * 512 + b + n <= v.cluster_size(),
        forall|i: int| s * 512 + b <= i < s * 512 + b + n ==> #[trigger] v.disk()[v.cluster_lba(c) + i / 512].len() == 512,
    ensures
        v.stream(c, s, b, n) == v.cluster_bytes(c).subrange(s * 512 + b, s * 512 + b + n),
    decreases n,
{
    let p = s * 512 + b;
    if n > 0 {
        lemma_sector_byte(s, b);
        assert(v.disk()[v.cluster_lba(c) + p / 512].len() == 512);
    }
    if n == 0 {
        assert(v.cluster_bytes(c).subrange(p, p) =~= Seq::<u8>::empty());
    } else {
        let take = min_int(512 - b, n as int);
        let data = v.disk()[v.cluster_lba(c) + s].subrange(b, b + take);
        assert forall|j: int| 0 <= j < take implies data[j] == v.cluster_bytes(c)[p + j] by {
            lemma_sector_byte(s, b + j);
        }
        if b + take < 512 {
            assert(data =~= v.cluster_bytes(c).subrange(p, p + n));
        } else if s + 1 >= v.sectors_per_cluster {
            assert(take == n);
            assert(v.stream(c, s, b, n) == data) by {
                if v.fat_entry(c) < END_OF_CHAIN {
                    assert(v.stream(v.fat_entry(c), 0, 0, (n - take) as nat) == Seq::<u8>::empty());
                    assert(data + Seq::<u8>::empty() =~= data);
                }
            }
            assert(data =~= v.cluster_bytes(c).subrange(p, p + n));
        } else {
            assert(s + 1 < v.sectors_per_cluster);
            assert forall|i: int| (s + 1) * 512 <= i < (s + 1) * 512 + (n - take) implies #[trigger] v.disk()[v.cluster_lba(c) + i / 512].len() == 512 by {
                assert(p <= i < p + n);
            }
            lemma_stream_in_cluster(v, c, s + 1, 0, (n - take) as nat);
            assert(data =~= v.cluster_bytes(c).subrange(p, p + take));
            assert(v.stream(c, s, b, n) == data + v.stream(c, s + 1, 0, (n - take) as nat));
            assert(v.cluster_bytes(c).subrange(p, p + n) =~= v.cluster_bytes(c).subrange(p, p + take) + v.cluster_bytes(
                c,
            ).subrange((s + 1) * 512, (s + 1) * 512 + (n - take)));
        }
    }
}

/// A read that runs past the end of cluster `c` (whose chain continues)
/// yields the rest of `c` from offset `512 * s + b`, then what a read from
/// the start of the next cluster yields.
pub proof fn lemma_stream_cross<D: BlockDevice>(v: FatVolume<D>, c: int, s: int, b: int, n: nat)
    requires
        0 <= b < 512,
        0 <= s,
        s * 512 + b < v.cluster_size(),
        s * 512 + b + n > v.cluster_size(),
        forall|i: int| s * 512 + b <= i < v.cluster_size() ==> #[trigger] v.disk()[v.cluster_lba(c) + i / 512].len() == 512,
        v.fat_entry(c) < END_OF_CHAIN,
    ensures
        v.stream(c, s, b, n) == v.cluster_bytes(c).subrange(s * 512 + b, v.cluster_size()) + v.stream(
            v.fat_entry(c),
            0,
            0,
            (n - (v.cluster_size() - (s * 512 + b))) as nat,
        ),
    decreases v.cluster_size() - s * 512,
{
    let p = s * 512 + b;
    let cs = v.cluster_size();
    let take = 512 - b;
    assert(s + 1 <= v.sectors_per_cluster);
    assert(n > take);
    lemma_sector_byte(s, b);
    assert(v.disk()[v.cluster_lba(c) + p / 512].len() == 512);
    let data = v.disk()[v.cluster_lba(c) + s].subrange(b, b + take);
    assert forall|j: int| 0 <= j < take implies data[j] == v.cluster_bytes(c)[p + j] by {
        lemma_sector_byte(s, b + j);
    }
    assert(data =~= v.cluster_bytes(c).subrange(p, p + take));
    if s + 1 < v.sectors_per_cluster {
        assert forall|i: int| (s + 1) * 512 <= i < cs implies #[trigger] v.disk()[v.cluster_lba(c) + i / 512].len() == 512 by {
            assert(p <= i < cs);
        }
        lemma_stream_cross(v, c, s + 1, 0, (n - take) as nat);
        assert(v.stream(c, s, b, n) == data + v.stream(c, s + 1, 0, (n - take) as nat));
        assert(v.cluster_bytes(c).subrange(p, cs) =~= v.cluster_bytes(c).subrange(p, p + take) + v.cluster_bytes(c).subrange(
            (s + 1) * 512,
            cs,
        ));
    } else {
        assert(p + take == cs);
        assert(v.stream(c, s, b, n) == data + v.stream(v.fat_entry(c), 0, 0, (n - take) as nat));
    }
}

/// The bytes of `n` positions from offset `p` of the first cluster of
/// `cs`, read through the clusters of `cs` in turn.
pub open spec fn chain_bytes<D: BlockDevice>(v: FatVolume<D>, cs: Seq<int>, p: int, n: int) -> Seq<u8> {
    Seq::new(
        n as nat,
        |j: int| v.cluster_bytes(cs[(p + j) / v.cluster_size()])[(p + j) % v.cluster_size()],
    )
}

/// A read of `n` bytes from offset `p` of cluster `cs[0]`, when the chain
/// runs through the clusters of `cs`, yields `chain_bytes`.
pub proof fn lemma_stream_chain<D: BlockDevice>(v: FatVolume<D>, cs: Seq<int>, p: int, n: nat)
    requires
        v.wf(),
        cs.len() >= 1,
        0 <= p < v.cluster_size(),
        p + n <= cs.len() * v.cluster_size(),
        forall|k: int|
            0 <= k < cs.len() - 1 && (k + 1) * v.cluster_size() < p + n ==> #[trigger] v.fat_entry(cs[k]) == cs[k + 1]
                && cs[k + 1] < END_OF_CHAIN,
        forall|j: int|
            0 <= j < n ==> #[trigger] v.disk()[v.cluster_lba(cs[(p + j) / v.cluster_size()]) + ((p + j) % v.cluster_size())
                / 512].len() == 512,
    ensures
        v.stream(cs[0], p / 512, p % 512, n) == chain_bytes(v, cs, p, n as int),
    decreases cs.len(),
{
    let csz = v.cluster_size();
    assert(csz >= 512);
    lemma_split_offset(p);
    let s = p / 512;
    let b = p % 512;
    if p + n <= csz {
        assert forall|i: int| s * 512 + b <= i < s * 512 + b + n implies #[trigger] v.disk()[v.cluster_lba(cs[0]) + i / 512].len()
            == 512 by {
            let j = i - p;
            lemma_small_div(p + j, csz);
            assert(v.disk()[v.cluster_lba(cs[(p + j) / csz]) + ((p + j) % csz) / 512].len() == 512);
        }
        lemma_stream_in_cluster(v, cs[0], s, b, n);
        assert forall|j: int| 0 <= j < n implies chain_bytes(v, cs, p, n as int)[j] == v.cluster_bytes(cs[0]).subrange(
            p,
            p + n,
        )[j] by {
            lemma_small_div(p + j, csz);
        }
        assert(chain_bytes(v, cs, p, n as int) =~= v.cluster_bytes(cs[0]).subrange(p, p + n));
    } else {
        assert(cs.len() >= 2) by {
            if cs.len() < 2 {
                assert(cs.len() * csz == csz) by (nonlinear_arith)
                    requires
                        cs.len() == 1,
                ;
            }
        }
        assert(v.fat_entry(cs[0]) == cs[1] && cs[1] < END_OF_CHAIN) by {
            assert((0 + 1) * csz < p + n) by (nonlinear_arith)
                requires
                    csz < p + n,
            ;
        }
        assert forall|i: int| s * 512 + b <= i < csz implies #[trigger] v.disk()[v.cluster_lba(cs[0]) + i / 512].len() == 512 by {
            let j = i - p;
            lemma_small_div(p + j, csz);
            assert(v.disk()[v.cluster_lba(cs[(p + j) / csz]) + ((p + j) % csz) / 512].len() == 512);
        }
        lemma_stream_cross(v, cs[0], s, b, n);
        let rest = cs.drop_first();
        let m = (n - (csz - p)) as nat;
        assert forall|k: int|
            0 <= k < rest.len() - 1 && (k + 1) * csz < 0 + m implies #[trigger] v.fat_entry(rest[k]) == rest[k + 1]
                && rest[k + 1] < END_OF_CHAIN by {
            assert((k + 2) * csz < p + n) by (nonlinear_arith)
                requires
                    (k + 1) * csz < m,
                    m == n - (csz - p),
            ;
            assert(v.fat_entry(cs[k + 1]) == cs[k + 2]);
        }
        assert forall|j: int| 0 <= j < m implies #[trigger] v.disk()[v.cluster_lba(rest[(0 + j) / csz]) + ((0 + j) % csz)
            / 512].len() == 512 by {
            let jj = j + (csz - p);
            lemma_shift_div(j, csz);
            assert(p + jj == j + csz);
            assert(j / csz < rest.len()) by (nonlinear_arith)
                requires
                    0 <= j,
                    j + csz < cs.len() * csz + 0,
                    rest.len() == cs.len() - 1,
                    csz > 0,
            ;
            assert(rest[j / csz] == cs[j / csz + 1]);
            assert(v.disk()[v.cluster_lba(cs[(p + jj) / csz]) + ((p + jj) % csz) / 512].len() == 512);
        }
        lemma_split_offset(0);
        assert(0 + m <= rest.len() * csz) by (nonlinear_arith)
            requires
                m == n - (csz - p),
                p + n <= cs.len() * csz,
                rest.len() == cs.len() - 1,
        ;
        lemma_stream_chain(v, rest, 0, m);
        assert forall|j: int| 0 <= j < n implies chain_bytes(v, cs, p, n as int)[j] == (v.cluster_bytes(cs[0]).subrange(p, csz)
            + chain_bytes(v, rest, 0, m as int))[j] by {
            if j < csz - p {
                lemma_small_div(p + j, csz);
            } else {
                let jj = j - (csz - p);
                lemma_shift_div(jj, csz);
                assert(p + j == jj + csz);
                assert(jj / csz < rest.len()) by (nonlinear_arith)
                    requires
                        0 <= jj,
                        jj + csz < cs.len() * csz + 0,
                        rest.len() == cs.len() - 1,
                        csz > 0,
                ;
                assert(rest[jj / csz] == cs[jj / csz + 1]);
            }
        }
        assert(chain_bytes(v, cs, p, n as int) =~= v.cluster_bytes(cs[0]).subrange(p, csz) + chain_bytes(v, rest, 0, m as int));
    }
}

/// Offset `p` is byte `p % 512` of sector `p / 512`.
proof fn lemma_split_offset(p: int)
    requires
        0 <= p,
    ensures
        (p / 512) * 512 + p % 512 == p,
        0 <= p % 512 < 512,
        0 <= p / 512,
{
    assert((p / 512) * 512 + p % 512 == p && 0 <= p % 512 < 512 && 0 <= p / 512) by (nonlinear_arith)
        requires
            0 <= p,
    ;
}

/// An offset inside the first cluster is in cluster 0 at that offset.
proof fn lemma_small_div(x: int, d: int)
    requires
        0 <= x < d,
    ensures
        x / d == 0,
        x % d == x,
{
    assert(x / d == 0 && x % d == x) by (nonlinear_arith)
        requires
            0 <= x < d,
    ;
}

/// Offset `x` past the first cluster's end: one cluster further on.
proof fn lemma_shift_div(x: int, d: int)
    requires
        0 <= x,
        0 < d,
    ensures
        (x + d) / d == x / d + 1,
        (x + d) % d == x % d,
{
    assert((x + d) / d == x / d + 1 && (x + d) % d == x % d) by (nonlinear_arith)
        requires
            0 <= x,
            0 < d,
    ;
}

/// One step of a read: taking `k` bytes from byte `b` of sector `s` of
/// cluster `c` (a full 512-byte sector) leaves the rest of any longer
/// stream to be read from where those bytes end.
pub proof fn lemma_stream_step<D: BlockDevice>(v: FatVolume<D>, c: int, s: int, b: int, k: int, t: nat)
    requires
        0 <= b,
        1 <= k,
        b + k <= 512,
        0 <= s,
        t >= k,
        v.disk()[v.cluster_lba(c) + s].len() == 512,
    ensures
        ({
            let d = v.disk()[v.cluster_lba(c) + s].subrange(b, b + k);
            let m = (t - k) as nat;
            &&& b + k < 512 ==> v.stream(c, s, b, t) == d + v.stream(c, s, b + k, m)
            &&& b + k == 512 && s + 1 < v.sectors_per_cluster ==> v.stream(c, s, b, t) == d + v.stream(c, s + 1, 0, m)
            &&& b + k == 512 && s + 1 >= v.sectors_per_cluster && v.fat_entry(c) >= END_OF_CHAIN ==> v.stream(c, s, b, t)
                == d
            &&& b + k == 512 && s + 1 >= v.sectors_per_cluster && v.fat_entry(c) < END_OF_CHAIN ==> v.stream(c, s, b, t)
                == d + v.stream(v.fat_entry(c), 0, 0, m)
        }),
{
    let sec = v.disk()[v.cluster_lba(c) + s];
    let d = sec.subrange(b, b + k);
    let m = (t - k) as nat;
    let take = min_int(512 - b, t as int);
    if b + k < 512 && m > 0 {
        let take3 = min_int(512 - b - k, m as int);
        assert(take == k + take3);
        assert(sec.subrange(b, b + take) =~= d + sec.subrange(b + k, b + k + take3));
        if b + take == 512 {
            assert((t - take) as nat == (m - take3) as nat);
        }
    }
    if b + k < 512 && m == 0 {
        assert(sec.subrange(b, b + take) =~= d);
        assert(v.stream(c, s, b + k, m) =~= Seq::<u8>::empty());
    }
    if b + k == 512 {
        assert(take == k);
    }
}

/// Reads up to `buf.len()` bytes from the current position (no further than
/// the end of the file) into the front of `buf`, following the cluster
/// chain; `Denied` unless the file was opened for reading. The bytes read
/// are those of [`FatVolume::stream`] from the file's position; when the
/// chain ends early the read stops there and the current cluster becomes 0.
/// What a longer read from the old position would give continues from the
/// new one.
#[verifier::rlimit(100)]
#[verifier::spinoff_prover]
pub fn f_read<D: BlockDevice>(vol: &FatVolume<D>, file: &mut File, buf: &mut Vec<u8>) -> (r: FResult<usize>)
    requires
        vol.wf(),
        file_wf(*vol, *old(file)),
        old(file).position <= old(file).size,
    ensures
        old(file).flags & FA_READ == 0 ==> r == Err::<usize, FError>(FError::Denied) && *final(file) == (File {
            error: FError::Denied,
            ..*old(file)
        }) && final(buf)@ == old(buf)@,
        final(buf)@.len() == old(buf)@.len(),
        r matches Err(e) ==> (e == FError::Denied || e == FError::DiskErr) && final(file).error == e,
        r matches Err(e) && e == FError::Denied ==> old(file).flags & FA_READ == 0,
        old(file).flags & FA_READ != 0 && min_int(old(buf)@.len() as int, old(file).size - old(file).position) == 0
            ==> r == Ok::<usize, FError>(0) && *final(file) == *old(file) && final(buf)@ == old(buf)@,
        r is Err ==> final(file).size == old(file).size && final(file).start_cluster == old(file).start_cluster
            && final(file).flags == old(file).flags,
        r is Err && final(file).position == old(file).position ==> final(file).current_cluster == old(file).current_cluster
            && final(file).sector_in_cluster == old(file).sector_in_cluster && final(file).byte_in_sector
            == old(file).byte_in_sector,
        r matches Ok(n) ==> {
            let want = min_int(old(buf)@.len() as int, old(file).size - old(file).position);
            let data = vol.stream(
                old(file).current_cluster as int,
                old(file).sector_in_cluster as int,
                old(file).byte_in_sector as int,
                want as nat,
            );
            &&& old(file).flags & FA_READ != 0
            &&& n == data.len()
            &&& n <= want
            &&& final(buf)@.subrange(0, n as int) == data
            &&& final(buf)@.subrange(n as int, final(buf)@.len() as int) == old(buf)@.subrange(n as int, old(buf)@.len() as int)
            &&& final(file).position == old(file).position + n
            &&& final(file).size == old(file).size
            &&& final(file).flags == old(file).flags
            &&& final(file).start_cluster == old(file).start_cluster
            &&& final(file).error == old(file).error
            &&& file_wf(*vol, *final(file))
            &&& n == want || (final(file).current_cluster == 0 && n > 0)
            &&& want == 0 ==> *final(file) == *old(file)
            &&& n > 0 ==> old(file).current_cluster >= 2
            &&& n < want ==> forall|t: nat|
                t >= n ==> #[trigger] vol.stream(
                    old(file).current_cluster as int,
                    old(file).sector_in_cluster as int,
                    old(file).byte_in_sector as int,
                    t,
                ) == data
            &&& forall|t: nat|
                t >= n ==> (#[trigger] vol.stream(
                    old(file).current_cluster as int,
                    old(file).sector_in_cluster as int,
                    old(file).byte_in_sector as int,
                    t,
                ) == data + vol.stream(
                    final(file).current_cluster as int,
                    final(file).sector_in_cluster as int,
                    final(file).byte_in_sector as int,
                    (t - n) as nat,
                ) || (final(file).current_cluster == 0 && vol.stream(
                    old(file).current_cluster as int,
                    old(file).sector_in_cluster as int,
                    old(file).byte_in_sector as int,
                    t,
                ) == data))
        },
{
    if file.flags & FA_READ == 0 {
        file.error = FError::Denied;
        return Err(FError::Denied);
    }
    let remaining = (file.size - file.position) as usize;
    let to_read = if buf.len() < remaining { buf.len() } else { remaining };
    if to_read == 0 {
        proof {
            assert(buf@.subrange(0, 0) =~= Seq::<u8>::empty());
            assert(buf@.subrange(0, buf@.len() as int) =~= buf@);
            assert forall|t: nat| t >= 0 implies #[trigger] vol.stream(
                file.current_cluster as int,
                file.sector_in_cluster as int,
                file.byte_in_sector as int,
                t,
            ) == Seq::<u8>::empty() + vol.stream(
                file.current_cluster as int,
                file.sector_in_cluster as int,
                file.byte_in_sector as int,
                (t - 0) as nat,
            ) by {
                assert(Seq::<u8>::empty() + vol.stream(
                    file.current_cluster as int,
                    file.sector_in_cluster as int,
                    file.byte_in_sector as int,
                    t,
                ) =~= vol.stream(file.current_cluster as int, file.sector_in_cluster as int, file.byte_in_sector as int, t));
            }
        }
        return Ok(0);
    }
    let spc = vol.sectors_per_cluster;
    let ghost f0 = *file;
    let ghost b0 = buf@;
    let ghost total = vol.stream(f0.current_cluster as int, f0.sector_in_cluster as int, f0.byte_in_sector as int, to_read as nat);
    let mut read: usize = 0;
    let ghost mut ended = false;
    proof {
        assert forall|t: nat| t >= read implies #[trigger] vol.stream(
            f0.current_cluster as int,
            f0.sector_in_cluster as int,
            f0.byte_in_sector as int,
            t,
        ) == buf@.subrange(0, read as int) + vol.stream(
            file.current_cluster as int,
            file.sector_in_cluster as int,
            file.byte_in_sector as int,
            (t - read) as nat,
        ) by {
            assert(buf@.subrange(0, 0) =~= Seq::<u8>::empty());
            assert(Seq::<u8>::empty() + vol.stream(f0.current_cluster as int, f0.sector_in_cluster as int, f0.byte_in_sector as int, t)
                =~= vol.stream(f0.current_cluster as int, f0.sector_in_cluster as int, f0.byte_in_sector as int, t));
        }
    }
    while read < to_read
        invariant_except_break
            vol.wf(),
            spc == vol.sectors_per_cluster,
            file_wf(*vol, *file),
            f0 == *old(file),
            b0 == old(buf)@,
            to_read <= b0.len(),
            to_read <= f0.size - f0.position,
            buf@.len() == b0.len(),
            read <= to_read,
            !ended,
            file.position == f0.position + read,
            file.size == f0.size,
            file.flags == f0.flags,
            file.start_cluster == f0.start_cluster,
            file.error == f0.error,
            f0.flags & FA_READ != 0,
            total == buf@.subrange(0, read as int) + vol.stream(
                file.current_cluster as int,
                file.sector_in_cluster as int,
                file.byte_in_sector as int,
                (to_read - read) as nat,
            ),
            buf@.subrange(read as int, buf@.len() as int) == b0.subrange(read as int, b0.len() as int),
            forall|t: nat|
                t >= read ==> #[trigger] vol.stream(f0.current_cluster as int, f0.sector_in_cluster as int, f0.byte_in_sector as int, t)
                    == buf@.subrange(0, read as int) + vol.stream(
                    file.current_cluster as int,
                    file.sector_in_cluster as int,
                    file.byte_in_sector as int,
                    (t - read) as nat,
                ),
            read > 0 ==> f0.current_cluster >= 2,
            read == 0 ==> file.current_cluster == f0.current_cluster && file.sector_in_cluster == f0.sector_in_cluster
                && file.byte_in_sector == f0.byte_in_sector,
        ensures
            read == to_read || (ended && file.current_cluster == 0 && read > 0),
            read > 0 ==> f0.current_cluster >= 2,
            !ended ==> forall|t: nat|
                t >= read ==> #[trigger] vol.stream(f0.current_cluster as int, f0.sector_in_cluster as int, f0.byte_in_sector as int, t)
                    == buf@.subrange(0, read as int) + vol.stream(
                    file.current_cluster as int,
                    file.sector_in_cluster as int,
                    file.byte_in_sector as int,
                    (t - read) as nat,
                ),
            ended ==> file.current_cluster == 0 && forall|t: nat|
                t >= read ==> #[trigger] vol.stream(f0.current_cluster as int, f0.sector_in_cluster as int, f0.byte_in_sector as int, t)
                    == buf@.subrange(0, read as int),
            file_wf(*vol, *file),
            read <= to_read,
            buf@.len() == b0.len(),
            file.position == f0.position + read,
            file.size == f0.size,
            file.flags == f0.flags,
            file.start_cluster == f0.start_cluster,
            file.error == f0.error,
            total == buf@.subrange(0, read as int),
            buf@.subrange(read as int, buf@.len() as int) == b0.subrange(read as int, b0.len() as int),
        decreases to_read - read,
    {
        let lba = match vol.cluster_to_lba(file.current_cluster) {
            Some(l) => l,
            None => {
                file.error = FError::DiskErr;
                return Err(FError::DiskErr);
            },
        };
        let mut sector_buf = [0u8; 512];
        if !vol.dev.read_sector(lba + file.sector_in_cluster as u32, &mut sector_buf) {
            file.error = FError::DiskErr;
            return Err(FError::DiskErr);
        }
        let b = file.byte_in_sector as usize;
        let avail = 512 - b;
        let to_copy = if avail < to_read - read { avail } else { to_read - read };
        let ghost before = buf@;
        let mut k: usize = 0;
        while k < to_copy
            invariant
                b + to_copy <= 512,
                read + to_copy <= to_read,
                to_read <= buf@.len(),
                buf@.len() == before.len(),
                k <= to_copy,
                forall|t: int| read <= t < read + k ==> #[trigger] buf@[t] == sector_buf@[b + t - read],
                forall|t: int| 0 <= t < buf@.len() && !(read <= t < read + k) ==> buf@[t] == before[t],
            decreases to_copy - k,
        {
            buf.set(read + k, sector_buf[b + k]);
            k = k + 1;
        }
        let ghost st = (file.current_cluster as int, file.sector_in_cluster as int, file.byte_in_sector as int);
        let ghost r0 = read;
        let ghost sec = sector_buf@;
        proof {
            let data = sector_buf@.subrange(b as int, b + to_copy);
            assert(buf@.subrange(read as int, read + to_copy) =~= data);
            assert(buf@.subrange(0, read as int) =~= before.subrange(0, read as int));
            assert(buf@.subrange(0, read + to_copy) =~= buf@.subrange(0, read as int) + data);
            assert(buf@.subrange(read + to_copy, buf@.len() as int) =~= b0.subrange(read + to_copy, b0.len() as int)) by {
                assert(before.subrange(read as int, before.len() as int) == b0.subrange(read as int, b0.len() as int));
                assert forall|t: int| read + to_copy <= t < buf@.len() implies buf@[t] == b0[t] by {
                    assert(before[t] == before.subrange(read as int, before.len() as int)[t - read]);
                }
            }
        }
        read = read + to_copy;
        file.byte_in_sector = file.byte_in_sector + to_copy as u16;
        file.position = file.position + to_copy as u32;
        if file.byte_in_sector >= 512 {
            file.byte_in_sector = 0;
            file.sector_in_cluster = file.sector_in_cluster + 1;
            if file.sector_in_cluster >= spc {
                file.sector_in_cluster = 0;
                let next = match vol.read_fat_entry(file.current_cluster) {
                    Ok(n) => n,
                    Err(e) => {
                        file.error = e;
                        return Err(e);
                    },
                };
                if next >= END_OF_CHAIN {
                    file.current_cluster = 0;
                    proof {
                        ended = true;
                        assert(total =~= buf@.subrange(0, read as int));
                        let data = sec.subrange(b as int, b + to_copy);
                        assert forall|t: nat| t >= read implies #[trigger] vol.stream(
                            f0.current_cluster as int,
                            f0.sector_in_cluster as int,
                            f0.byte_in_sector as int,
                            t,
                        ) == buf@.subrange(0, read as int) by {
                            assert(vol.stream(f0.current_cluster as int, f0.sector_in_cluster as int, f0.byte_in_sector as int, t)
                                == before.subrange(0, r0 as int) + vol.stream(st.0, st.1, st.2, (t - r0) as nat));
                            lemma_stream_step(*vol, st.0, st.1, st.2, to_copy as int, (t - r0) as nat);
                            assert(buf@.subrange(0, read as int) =~= before.subrange(0, r0 as int) + data);
                        }
                    }
                    break;
                }
                file.current_cluster = next;
            }
        }
        proof {
            let data = sector_buf@.subrange(b as int, b + to_copy);
            assert(vol.stream(st.0, st.1, st.2, (to_read - (read - to_copy)) as nat) =~= data + vol.stream(
                file.current_cluster as int,
                file.sector_in_cluster as int,
                file.byte_in_sector as int,
                (to_read - read) as nat,
            )) by {
                if b + to_copy == 512 && file.sector_in_cluster == 0 {
                } else if b + to_copy < 512 {
                    assert(read == to_read);
                }
            }
            assert(total =~= buf@.subrange(0, read as int) + vol.stream(
                file.current_cluster as int,
                file.sector_in_cluster as int,
                file.byte_in_sector as int,
                (to_read - read) as nat,
            ));
            assert forall|t: nat| t >= read implies #[trigger] vol.stream(
                f0.current_cluster as int,
                f0.sector_in_cluster as int,
                f0.byte_in_sector as int,
                t,
            ) == buf@.subrange(0, read as int) + vol.stream(
                file.current_cluster as int,
                file.sector_in_cluster as int,
                file.byte_in_sector as int,
                (t - read) as nat,
            ) by {
                assert(vol.stream(f0.current_cluster as int, f0.sector_in_cluster as int, f0.byte_in_sector as int, t)
                    == before.subrange(0, r0 as int) + vol.stream(st.0, st.1, st.2, (t - r0) as nat));
                lemma_stream_step(*vol, st.0, st.1, st.2, to_copy as int, (t - r0) as nat);
                assert(buf@.subrange(0, read as int) =~= before.subrange(0, r0 as int) + data);
                assert((t - read) as nat == ((t - r0) as nat - to_copy) as nat);
            }
        }
    }
    proof {
        assert(total.len() == read);
    }
    Ok(read)
}

/// `v` is `v0` after a free cluster `c` was allocated, marked as the end of
/// its chain and linked from `cur`, whose entry ended its chain: the FAT
/// entries of other clusters and the data region are unchanged.
pub open spec fn extended<D: BlockDevice>(v0: FatVolume<D>, v: FatVolume<D>, cur: int, c: int) -> bool {
    &&& 2 <= c < v0.max_cluster()
    &&& v0.num_fats >= 1
    &&& v0.fat_entry(c) == 0
    &&& v0.fat_sector(c) < v0.disk().len()
    &&& v.fat_entry(cur) == c % 0x1000_0000
    &&& v.fat_entry(c) == CHAIN_END
    &&& forall|x: int|
        0 <= x < v0.max_cluster() && x != cur && x != c && v0.fat_sector(x) < v0.disk().len() ==> #[trigger] v.fat_entry(x)
            == v0.fat_entry(x)
    &&& forall|i: int| v0.data_region_lba <= i < v0.disk().len() ==> #[trigger] v.disk()[i] == v0.disk()[i]
}

/// Stores `val` as the FAT entry of cluster `cur`. On success, for `cur`
/// a data cluster below the FAT's size in a volume with a FAT: `cur`'s
/// entry is the low 28 bits of `val`, every other entry below the FAT's
/// size and the data region are unchanged.
fn link_cluster<D: BlockDevice>(vol: &mut FatVolume<D>, cur: u32, val: u32) -> (r: FResult<()>)
    requires
        old(vol).wf(),
    ensures
        final(vol).wf(),
        same_geometry(*old(vol), *final(vol)),
        final(vol).disk().len() == old(vol).disk().len(),
        r matches Err(e) ==> e == FError::DiskErr,
        r is Ok && old(vol).num_fats >= 1 && 2 <= cur < old(vol).max_cluster() ==> {
            &&& final(vol).fat_entry(cur as int) == val % 0x1000_0000
            &&& forall|x: int|
                0 <= x < old(vol).max_cluster() && x != cur && old(vol).fat_sector(x) < old(vol).disk().len()
                    ==> #[trigger] final(vol).fat_entry(x) == old(vol).fat_entry(x)
            &&& forall|i: int|
                old(vol).data_region_lba <= i < old(vol).disk().len() ==> #[trigger] final(vol).disk()[i] == old(vol).disk()[i]
        },
{
    let ghost v0 = *vol;
    let r = vol.write_fat_entry(cur, val);
    proof {
        if r is Ok && v0.num_fats >= 1 && 2 <= cur < v0.max_cluster() {
            lemma_fat_write_all(v0, *vol, cur as int, val);
        }
    }
    r
}

/// The cluster after `cur` in its chain: its FAT entry when that links on;
/// otherwise a newly allocated cluster, which `cur` is then linked to.
#[verifier::rlimit(100)]
#[verifier::spinoff_prover]
fn advance_cluster<D: BlockDevice>(vol: &mut FatVolume<D>, cur: u32) -> (r: FResult<u32>)
    requires
        old(vol).wf(),
    ensures
        final(vol).wf(),
        same_geometry(*old(vol), *final(vol)),
        r is Ok ==> final(vol).disk().len() == old(vol).disk().len(),
        r matches Err(e) ==> e == FError::DiskErr || (e == FError::MkfsAborted && final(vol).all_used(2, final(vol).max_cluster())),
        r is Ok ==> old(vol).fat_sector(cur as int) < old(vol).disk().len(),
        r matches Ok(n) ==> (old(vol).fat_entry(cur as int) < END_OF_CHAIN ==> n == old(vol).fat_entry(cur as int)
            && *final(vol) == *old(vol)),
        r matches Ok(n) ==> (old(vol).fat_entry(cur as int) >= END_OF_CHAIN && 2 <= cur < old(vol).max_cluster() ==> extended(
            *old(vol),
            *final(vol),
            cur as int,
            n as int,
        )),
{
    let next = match vol.read_fat_entry(cur) {
        Ok(n) => n,
        Err(e) => {
            return Err(e);
        },
    };
    if next < END_OF_CHAIN {
        return Ok(next);
    }
    extend_chain(vol, cur)
}

/// Allocates a free cluster and links `cur` to it; the new cluster ends
/// the chain.
#[verifier::rlimit(100)]
#[verifier::spinoff_prover]
fn extend_chain<D: BlockDevice>(vol: &mut FatVolume<D>, cur: u32) -> (r: FResult<u32>)
    requires
        old(vol).wf(),
    ensures
        final(vol).wf(),
        same_geometry(*old(vol), *final(vol)),
        r is Ok ==> final(vol).disk().len() == old(vol).disk().len(),
        r matches Err(e) ==> e == FError::DiskErr || (e == FError::MkfsAborted && final(vol).all_used(2, final(vol).max_cluster())),
        r matches Ok(n) ==> (old(vol).fat_entry(cur as int) != 0 && 2 <= cur < old(vol).max_cluster() ==> extended(
            *old(vol),
            *final(vol),
            cur as int,
            n as int,
        )),
{
    let ghost vr = *vol;
    let c = match vol.alloc_cluster() {
        Ok(c) => c,
        Err(e) => {
            return Err(e);
        },
    };
    let ghost va = *vol;
    match link_cluster(vol, cur, c) {
        Ok(()) => {},
        Err(e) => {
            return Err(e);
        },
    }
    proof {
        if vr.fat_entry(cur as int) != 0 && 2 <= cur < vr.max_cluster() {
            assert(c != cur);
            assert(vol.fat_entry(c as int) == va.fat_entry(c as int));
            assert forall|x: int|
                0 <= x < vr.max_cluster() && x != cur && x != c && vr.fat_sector(x) < vr.disk().len() implies #[trigger] vol.fat_entry(
                x,
            ) == vr.fat_entry(x) by {
                assert(va.fat_entry(x) == vr.fat_entry(x));
            }
            assert forall|i: int| vr.data_region_lba <= i < vr.disk().len() implies #[trigger] vol.disk()[i] == vr.disk()[i] by {
                assert(va.disk()[i] == vr.disk()[i]);
            }
        }
    }
    Ok(c)
}

/// When the last cluster `cur` of a run ends its chain, extending the
/// chain by a free cluster `c` keeps the run and its bytes, and makes a
/// longer run ending in `c`, which ends the chain.
#[verifier::rlimit(80)]
#[verifier::spinoff_prover]
pub proof fn lemma_extend_run<D: BlockDevice>(
    vr: FatVolume<D>,
    v: FatVolume<D>,
    cs: Seq<int>,
    cur: int,
    c: int,
    p: int,
    data: Seq<u8>,
    w: int,
)
    requires
        vr.wf(),
        regular(vr),
        linked_run(vr, cs),
        cs.last() == cur,
        vr.fat_entry(cur) >= END_OF_CHAIN,
        vr.fat_sector(cur) < vr.disk().len(),
        0 <= p,
        0 <= w,
        p + w <= cs.len() * vr.cluster_size(),
        run_holds(vr, cs, p, data, w),
        same_geometry(vr, v),
        v.disk().len() == vr.disk().len(),
        extended(vr, v, cur, c),
    ensures
        linked_run(v, cs),
        run_holds(v, cs, p, data, w),
        linked_run(v, cs.push(c)),
        run_holds(v, cs.push(c), p, data, w),
        v.fat_entry(c) >= END_OF_CHAIN,
        v.fat_sector(c) < v.disk().len(),
{
    reveal(run_holds);
    reveal(linked_run);
    assert forall|i: int| 0 <= i < cs.len() implies #[trigger] cs[i] != c by {
        if i < cs.len() - 1 {
            assert(vr.fat_entry(cs[i]) == cs[i + 1]);
            assert(cs[i + 1] >= 2);
        }
    }
    assert(v.fat_entry(cur) == c);
    assert forall|k: int| 0 <= k < cs.len() - 1 implies #[trigger] v.fat_entry(cs[k]) == cs[k + 1] && v.fat_sector(cs[k])
        < v.disk().len() by {
        assert(cs[k] != cur) by {
            assert(cs[k] != cs[cs.len() - 1]);
        }
        assert(cs[k] != c);
        assert(v.fat_entry(cs[k]) == vr.fat_entry(cs[k]));
    }
    assert(linked_run(v, cs));
    lemma_run_same_data(vr, v, cs, p, data, w);
    lemma_follow_run(v, cs, c, p, data, w);
}

/// Reading back a run of `n` bytes laid down from offset `p` through the
/// clusters of a run `cs` yields the bytes laid down.
pub proof fn lemma_run_read_back<D: BlockDevice>(v: FatVolume<D>, cs: Seq<int>, p: int, data: Seq<u8>, n: int, q: int)
    requires
        v.wf(),
        regular(v),
        linked_run(v, cs),
        0 <= p < v.cluster_size(),
        0 <= n == data.len(),
        p + n == (cs.len() - 1) * v.cluster_size() + q,
        0 <= q <= v.cluster_size(),
        run_holds(v, cs, p, data, n),
    ensures
        v.stream(cs[0], p / 512, p % 512, n as nat) == data,
{
    reveal(run_holds);
    reveal(linked_run);
    let csz = v.cluster_size();
    lemma_cluster_end(v, cs.len() as int, q, p + n);
    assert forall|k: int|
        0 <= k < cs.len() - 1 && (k + 1) * csz < p + n implies #[trigger] v.fat_entry(cs[k]) == cs[k + 1] && cs[k + 1]
            < END_OF_CHAIN by {
        assert(v.fat_entry(cs[k]) == cs[k + 1]);
        assert(cs[k + 1] < v.max_cluster());
    }
    assert forall|j: int| 0 <= j < n implies #[trigger] v.disk()[v.cluster_lba(cs[(p + j) / csz]) + ((p + j) % csz) / 512].len()
        == 512 by {
        assert(run_sector(v, cs, p, j) < v.disk().len());
    }
    lemma_stream_chain(v, cs, p, n as nat);
    assert forall|j: int| 0 <= j < n implies chain_bytes(v, cs, p, n)[j] == data[j] by {
        assert(run_sector(v, cs, p, j) < v.disk().len());
        lemma_run_place(v, cs, p, j);
    }
    assert(chain_bytes(v, cs, p, n) =~= data);
}

/// Writing sector `sl`, sector `sec` of cluster `c0`, with a copy of it
/// whose bytes from `b` on are the next `space` bytes of `data` extends the
/// run of `w` bytes from offset `p0` of the cluster by `space`.
#[verifier::spinoff_prover]
proof fn lemma_inside_patch<D: BlockDevice>(
    vb: FatVolume<D>,
    v: FatVolume<D>,
    c0: int,
    p0: int,
    data: Seq<u8>,
    w: int,
    space: int,
    sec: int,
    b: int,
    sl: int,
)
    requires
        vb.wf(),
        same_geometry(vb, v),
        0 <= p0,
        0 <= w,
        0 <= sec,
        0 <= b,
        0 < space,
        b + space <= 512,
        sec * 512 + b == p0 + w,
        p0 + w + space < vb.cluster_size(),
        sl == vb.cluster_lba(c0) + sec,
        0 <= vb.cluster_lba(c0),
        0 <= sl < vb.disk().len(),
        forall|j: int| 0 <= j < w ==> #[trigger] vb.cluster_bytes(c0)[p0 + j] == data[j],
        forall|j: int|
            0 <= j < w ==> #[trigger] vb.disk()[vb.cluster_lba(c0) + (p0 + j) / 512].len() == 512 && vb.cluster_lba(c0) + (p0
                + j) / 512 < vb.disk().len(),
        vb.disk()[sl].len() == 512,
        w + space <= data.len(),
        v.disk() == vb.disk().update(sl, patched(vb.disk()[sl], b, data.subrange(w, w + space))),
    ensures
        forall|j: int| 0 <= j < w + space ==> #[trigger] v.cluster_bytes(c0)[p0 + j] == data[j],
        forall|j: int|
            0 <= j < w + space ==> #[trigger] v.disk()[v.cluster_lba(c0) + (p0 + j) / 512].len() == 512 && v.cluster_lba(c0) + (
            p0 + j) / 512 < v.disk().len(),
{
    let lb = vb.cluster_lba(c0);
    assert(v.disk()[sl] == patched(vb.disk()[sl], b, data.subrange(w, w + space)));
    assert forall|t: int| 0 <= t < space implies #[trigger] v.disk()[sl][b + t] == data[w + t] by {
        assert(v.disk()[sl] == patched(vb.disk()[sl], b, data.subrange(w, w + space)));
    }
    assert forall|t: int| 0 <= t < b implies #[trigger] v.disk()[sl][t] == vb.disk()[sl][t] by {
        assert(v.disk()[sl] == patched(vb.disk()[sl], b, data.subrange(w, w + space)));
    }
    assert(v.disk()[sl].len() == 512);
    assert forall|j: int| 0 <= j < w + space implies #[trigger] v.cluster_bytes(c0)[p0 + j] == data[j] && v.disk()[lb + (p0
        + j) / 512].len() == 512 && lb + (p0 + j) / 512 < v.disk().len() by {
        let q = (p0 + j) / 512;
        let x = (p0 + j) % 512;
        let idx = lb + q;
        assert(v.cluster_bytes(c0)[p0 + j] == v.disk()[idx][x]);
        if j < w {
            assert(vb.cluster_bytes(c0)[p0 + j] == data[j]);
            assert(vb.cluster_bytes(c0)[p0 + j] == vb.disk()[idx][x]);
            assert(vb.disk()[idx].len() == 512 && 0 <= idx < vb.disk().len());
            if idx != sl {
                assert(v.disk()[idx] == vb.disk()[idx]);
            } else {
                assert(q == sec);
                lemma_sector_byte(sec, x);
                assert(sec * 512 + x == p0 + j) by {
                    lemma_sector_byte(sec, b);
                    assert(p0 + j == q * 512 + x) by (nonlinear_arith)
                        requires
                            q == (p0 + j) / 512,
                            x == (p0 + j) % 512,
                    ;
                }
                assert(x < b);
            }
        } else {
            let t = j - w;
            lemma_sector_byte(sec, b + t);
            assert(q == sec && x == b + t);
            assert(v.disk()[sl][b + t] == data[w + t]);
        }
    }
}

/// Writes the `space` bytes of `buf` from `from` on into sector `sl`, from
/// its byte `b` on, keeping the sector's other bytes; `false` when the
/// device refuses the read or the write.
fn patch_sector<D: BlockDevice>(vol: &mut FatVolume<D>, sl: u32, b: usize, buf: &[u8], from: usize, space: usize) -> (ok: bool)
    requires
        b + space <= 512,
        from + space <= buf@.len(),
    ensures
        same_geometry(*old(vol), *final(vol)),
        ok ==> sl < old(vol).disk().len() && old(vol).disk()[sl as int].len() == 512 && final(vol).disk() == old(
            vol,
        ).disk().update(sl as int, patched(old(vol).disk()[sl as int], b as int, buf@.subrange(from as int, from + space))),
        !ok ==> final(vol).disk() == old(vol).disk(),
{
    let mut sector_buf = [0u8; 512];
    if !vol.dev.read_sector(sl, &mut sector_buf) {
        return false;
    }
    let ghost read_sec = sector_buf@;
    let blen = buf.len();
    let mut k: usize = 0;
    while k < space
        invariant
            b + space <= 512,
            blen == buf@.len(),
            from + space <= buf@.len(),
            k <= space,
            read_sec.len() == 512,
            sector_buf@.len() == 512,
            forall|t: int| 0 <= t < b ==> #[trigger] sector_buf@[t] == read_sec[t],
            forall|t: int| b + space <= t < 512 ==> #[trigger] sector_buf@[t] == read_sec[t],
            forall|t: int| b <= t < b + k ==> #[trigger] sector_buf@[t] == buf@[from + (t - b)],
        decreases space - k,
    {
        sector_buf[b + k] = buf[from + k];
        k = k + 1;
    }
    let ghost v0 = *vol;
    if !vol.dev.write_sector(sl, &sector_buf) {
        return false;
    }
    proof {
        assert(sector_buf@ =~= patched(read_sec, b as int, buf@.subrange(from as int, from + space)));
        assert(vol.disk() =~= v0.disk().update(sl as int, sector_buf@));
    }
    true
}

/// `f` records failure `e` and is otherwise as `f0` left it.
pub open spec fn failed_with(f0: File, f: File, e: FError) -> bool {
    f == (File { error: e, ..f0 })
}

/// What writing `data` at the position of file `f0` on volume `v0` leaves,
/// with result `r`, file `f1` and volume `v1`: refused without write access
/// (the disk unchanged), nothing for empty data, otherwise the whole of
/// `data` written at the file position, the size grown to cover it, and
/// `data` read back from there (within one cluster always, across clusters
/// on a regular volume whose chain has no repeats); `MkfsAborted` only with
/// every cluster in use.
pub open spec fn write_effect<D: BlockDevice>(
    v0: FatVolume<D>,
    f0: File,
    v1: FatVolume<D>,
    f1: File,
    data: Seq<u8>,
    r: FResult<usize>,
) -> bool {
    &&& (f0.flags & FA_WRITE == 0 ==> r == Err::<usize, FError>(FError::Denied) && failed_with(f0, f1, FError::Denied)
        && v1.disk() == v0.disk())
    &&& (f0.flags & FA_WRITE != 0 && data.len() == 0 ==> r == Ok::<usize, FError>(0) && f1 == f0 && v1.disk()
        == v0.disk())
    &&& (r matches Err(e) ==> f1.error == e && (e == FError::Denied || e == FError::DiskErr || e
        == FError::MkfsAborted))
    &&& (r matches Err(e) && e == FError::MkfsAborted ==> v1.all_used(2, v1.max_cluster()))
    &&& (r matches Err(e) && e == FError::Denied ==> f0.flags & FA_WRITE == 0)
    &&& (r matches Ok(n) ==> {
        &&& n == data.len()
        &&& f1.position == f0.position + n
        &&& n > 0 ==> f1.size == (if f0.position + n > f0.size {
            f0.position + n
        } else {
            f0.size as int
        })
        &&& f1.flags == f0.flags
        &&& f1.error == f0.error
        &&& n > 0 ==> f1.modified
        &&& file_wf(v1, f1)
        &&& f0.current_cluster != 0 ==> f1.start_cluster == f0.start_cluster
        &&& n > 0 && f0.sector_in_cluster * 512 + f0.byte_in_sector + n < v0.cluster_size() ==> f1.current_cluster == (
        if f0.current_cluster == 0 {
            f1.start_cluster
        } else {
            f0.current_cluster
        }) && v1.stream(f1.current_cluster as int, f0.sector_in_cluster as int, f0.byte_in_sector as int, n as nat)
            == data
        &&& n > 0 && regular(v0) && (f0.current_cluster == 0 || chain_distinct(
            v0,
            f0.current_cluster as int,
            f0.sector_in_cluster * 512 + f0.byte_in_sector + n,
        )) ==> v1.stream(
            if f0.current_cluster == 0 {
                f1.start_cluster as int
            } else {
                f0.current_cluster as int
            },
            f0.sector_in_cluster as int,
            f0.byte_in_sector as int,
            n as nat,
        ) == data
    })
}

/// Writes `buf` at the current position, allocating clusters as the chain
/// runs out (first cluster too, for an empty file); the size grows to cover
/// the written bytes. `Denied` unless the file was opened for writing. A
/// read from the old position then yields the written bytes: within one
/// cluster always; across clusters when the volume is regular and the
/// chain the write runs through holds no cluster twice.
#[verifier::rlimit(100)]
pub fn f_write<D: BlockDevice>(vol: &mut FatVolume<D>, file: &mut File, buf: &[u8]) -> (r: FResult<usize>)
    requires
        old(vol).wf(),
        file_wf(*old(vol), *old(file)),
        old(file).flags & FA_WRITE != 0 ==> old(file).position + buf@.len() <= u32::MAX,
    ensures
        final(vol).wf(),
        same_geometry(*old(vol), *final(vol)),
        write_effect(*old(vol), *old(file), *final(vol), *final(file), buf@, r),
{
    if file.flags & FA_WRITE == 0 {
        file.error = FError::Denied;
        return Err(FError::Denied);
    }
    if buf.len() == 0 {
        return Ok(0);
    }
    let ghost f0 = *file;
    let ghost v0 = *vol;
    if file.current_cluster == 0 {
        let c = match vol.alloc_cluster() {
            Ok(c) => c,
            Err(e) => {
                file.error = e;
                return Err(e);
            },
        };
        file.start_cluster = c;
        file.current_cluster = c;
    }
    let to_write = buf.len();
    let mut written: usize = 0;
    let ghost c0 = file.current_cluster as int;
    let ghost p0 = f0.sector_in_cluster * 512 + f0.byte_in_sector;
    let ghost inside = p0 + to_write < vol.cluster_size();
    let ghost h = regular(v0) && (f0.current_cluster == 0 || chain_distinct(v0, f0.current_cluster as int, p0 + to_write));
    let ghost mut cs: Seq<int> = seq![c0];
    let ghost mut qpos: int = p0;
    let ghost mut existing: bool = f0.current_cluster != 0;
    assert(file.sector_in_cluster == f0.sector_in_cluster && file.byte_in_sector == f0.byte_in_sector);
    assert(f0.current_cluster != 0 ==> c0 == f0.current_cluster);
    assert(f0.current_cluster == 0 ==> c0 == file.start_cluster);
    proof {
        assert(0 * vol.cluster_size() == 0) by (nonlinear_arith);
        if h {
            if existing {
                assert(chain_valid_at(v0, c0, 0));
                assert(chain_nth(v0, c0, 0) == Some(c0));
            }
            assert(linked_run(*vol, cs)) by {
                reveal(linked_run);
            }
            assert(run_holds(*vol, cs, p0, buf@, 0)) by {
                reveal(run_holds);
            }
        }
    }
    while written < to_write
        invariant
            vol.wf(),
            same_geometry(v0, *vol),
            inside == (p0 + to_write < vol.cluster_size()),
            0 <= p0 < vol.cluster_size(),
            inside ==> file.current_cluster == c0,
            inside ==> file.sector_in_cluster * 512 + file.byte_in_sector == p0 + written,
            file.start_cluster == (if f0.current_cluster == 0 { c0 } else { f0.start_cluster as int }),
            inside ==> forall|j: int| 0 <= j < written ==> #[trigger] vol.cluster_bytes(c0)[p0 + j] == buf@[j],
            inside ==> forall|j: int|
                0 <= j < written ==> #[trigger] vol.disk()[vol.cluster_lba(c0) + (p0 + j) / 512].len() == 512
                    && vol.cluster_lba(c0) + (p0 + j) / 512 < vol.disk().len(),
            v0 == *old(vol),
            f0 == *old(file),
            file_wf(*vol, *file),
            to_write == buf@.len(),
            written <= to_write,
            f0.position + to_write <= u32::MAX,
            file.position == f0.position + written,
            written > 0 ==> file.size == (if f0.position + written > f0.size {
                f0.position + written
            } else {
                f0.size as int
            }),
            written == 0 ==> file.size == f0.size,
            f0.flags & FA_WRITE != 0,
            file.flags == f0.flags,
            file.error == f0.error,
            written > 0 ==> file.modified,
            h == (regular(v0) && (f0.current_cluster == 0 || chain_distinct(v0, f0.current_cluster as int, p0 + to_write))),
            cs.len() >= 1,
            cs[0] == c0,
            p0 + written == (cs.len() - 1) * vol.cluster_size() + qpos,
            0 <= qpos <= vol.cluster_size(),
            written < to_write ==> qpos < vol.cluster_size() && qpos == file.sector_in_cluster * 512 + file.byte_in_sector
                && file.current_cluster == cs.last(),
            vol.disk().len() == v0.disk().len(),
            h ==> linked_run(*vol, cs) && run_holds(*vol, cs, p0, buf@, written as int),
            h && existing ==> f0.current_cluster != 0 && c0 == f0.current_cluster && forall|k: int|
                0 <= k < cs.len() ==> #[trigger] chain_nth(v0, c0, k as nat) == Some(cs[k]),
            h && existing ==> forall|x: int|
                0 <= x < v0.max_cluster() && v0.fat_sector(x) < v0.disk().len() ==> #[trigger] vol.fat_entry(x)
                    == v0.fat_entry(x),
            h && !existing && written < to_write ==> vol.fat_entry(cs.last()) >= END_OF_CHAIN && vol.fat_sector(cs.last())
                < vol.disk().len(),
        decreases to_write - written,
    {
        let lba = match vol.cluster_to_lba(file.current_cluster) {
            Some(l) => l,
            None => {
                file.error = FError::DiskErr;
                return Err(FError::DiskErr);
            },
        };
        let sl = lba + file.sector_in_cluster as u32;
        let b = file.byte_in_sector as usize;
        let avail = 512 - b;
        let space = if avail < to_write - written { avail } else { to_write - written };
        let ghost vb = *vol;
        if !patch_sector(vol, sl, b, buf, written, space) {
            file.error = FError::DiskErr;
            return Err(FError::DiskErr);
        }
        proof {
            if inside {
                let sec = file.sector_in_cluster as int;
                lemma_inside_patch(vb, *vol, c0, p0, buf@, written as int, space as int, sec, b as int, sl as int);
            }
            if h {
                let sec = file.sector_in_cluster as int;
                lemma_sector_byte(sec, b as int);
                lemma_patch_run(vb, *vol, cs, p0, buf@, written as int, qpos, space as int, sl as int);
                if existing {
                    assert forall|x: int|
                        0 <= x < v0.max_cluster() && v0.fat_sector(x) < v0.disk().len() implies #[trigger] vol.fat_entry(x)
                        == v0.fat_entry(x) by {
                        assert(vb.fat_entry(x) == v0.fat_entry(x));
                    }
                } else {
                    lemma_run_last(vb, cs);
                    assert(vol.fat_entry(cs.last()) == vb.fat_entry(cs.last()));
                }
            }
        }
        written = written + space;
        proof {
            qpos = qpos + space;
        }
        file.byte_in_sector = file.byte_in_sector + space as u16;
        file.position = file.position + space as u32;
        if file.position > file.size {
            file.size = file.position;
        }
        file.modified = true;
        if file.byte_in_sector >= 512 {
            file.byte_in_sector = 0;
            file.sector_in_cluster = file.sector_in_cluster + 1;
            if file.sector_in_cluster >= vol.sectors_per_cluster {
                file.sector_in_cluster = 0;
                let cur = file.current_cluster;
                let ghost vr = *vol;
                let next = match advance_cluster(vol, cur) {
                    Ok(n) => n,
                    Err(e) => {
                        file.error = e;
                        return Err(e);
                    },
                };
                proof {
                    lemma_cluster_end(*vol, cs.len() as int, qpos, p0 + written);
                }
                proof {
                    if vr.fat_entry(cur as int) >= END_OF_CHAIN {
                        if h {
                            lemma_run_last(vr, cs);
                            lemma_extend_run(vr, *vol, cs, cur as int, next as int, p0, buf@, written as int);
                        }
                        existing = false;
                    } else if h && written < to_write {
                        assert(existing);
                        let k = (cs.len() - 1) as nat;
                        assert(chain_nth(v0, c0, k) == Some(cs[k as int]));
                        lemma_run_last(*vol, cs);
                        assert(vol.fat_entry(cur as int) == v0.fat_entry(cur as int));
                        lemma_chain_step(v0, c0, k, cur as int);
                        let j = (k + 1) as nat;
                        assert(j * vol.cluster_size() < p0 + to_write);
                        assert(chain_valid_at(v0, c0, j));
                        assert forall|i: int| 0 <= i < cs.len() implies #[trigger] cs[i] != next by {
                            assert(chain_nth(v0, c0, i as nat) == Some(cs[i]));
                            assert(chain_nth(v0, c0, i as nat) != chain_nth(v0, c0, j));
                        }
                        lemma_follow_run(*vol, cs, next as int, p0, buf@, written as int);
                    }
                    if written < to_write {
                        cs = cs.push(next as int);
                        qpos = 0;
                    }
                }
                file.current_cluster = next;
            }
        }
    }
    proof {
        if inside {
            assert forall|i: int| p0 <= i < p0 + to_write implies #[trigger] vol.disk()[vol.cluster_lba(c0) + i / 512].len()
                == 512 by {
                let j = i - p0;
                assert(vol.disk()[vol.cluster_lba(c0) + (p0 + j) / 512].len() == 512);
            }
            assert forall|j: int| 0 <= j < to_write implies vol.cluster_bytes(c0).subrange(p0, p0 + to_write)[j] == buf@[j] by {
                assert(vol.cluster_bytes(c0)[p0 + j] == buf@[j]);
            }
            lemma_stream_in_cluster(*vol, c0, f0.sector_in_cluster as int, f0.byte_in_sector as int, to_write as nat);
            assert(vol.cluster_bytes(c0).subrange(p0, p0 + to_write) =~= buf@);
        }
        if h {
            lemma_run_read_back(*vol, cs, p0, buf@, to_write as int, qpos);
            lemma_sector_byte(f0.sector_in_cluster as int, f0.byte_in_sector as int);
        }
    }
    Ok(written)
}

/// Where following `k` links of the chain from `c` leads, or `None` when an
/// end-of-chain entry is met on the way.
pub open spec fn chain_nth<D: BlockDevice>(v: FatVolume<D>, c: int, k: nat) -> Option<int>
    decreases k,
{
    if k == 0 {
        Some(c)
    } else if v.fat_entry(c) >= END_OF_CHAIN {
        None
    } else {
        chain_nth(v, v.fat_entry(c), (k - 1) as nat)
    }
}

/// The cluster reached after `j` links from `c` (meaningful where there
/// is one).
pub open spec fn chain_at<D: BlockDevice>(v: FatVolume<D>, c: int, j: nat) -> int {
    match chain_nth(v, c, j) {
        Some(x) => x,
        None => -1,
    }
}

/// `x` is one of the first `n` clusters of the chain from `c`.
pub open spec fn on_chain<D: BlockDevice>(v: FatVolume<D>, c: int, n: nat, x: int) -> bool {
    exists|j: nat| j < n && chain_nth(v, c, j) == Some(x)
}

/// The chain from `c` is `len` distinct data clusters below the FAT's size,
/// and the entry of the last of them is no cluster number (below 2, or an
/// end-of-chain mark).
pub open spec fn chain_ends_after<D: BlockDevice>(v: FatVolume<D>, c: int, len: nat) -> bool {
    &&& len >= 1
    &&& forall|j: nat| j < len ==> #[trigger] chain_valid_at(v, c, j) && chain_nth(v, c, j) is Some
    &&& forall|i: nat, j: nat| i < j < len ==> #[trigger] chain_nth(v, c, i) != #[trigger] chain_nth(v, c, j)
    &&& v.fat_entry(chain_at(v, c, (len - 1) as nat)) < 2 || v.fat_entry(chain_at(v, c, (len - 1) as nat)) >= END_OF_CHAIN
}

/// The FAT of `v` is that of `v0` with the first `len` clusters of the
/// chain from `c` freed: their entries are zero, the entries of the other
/// clusters below the FAT's size are unchanged.
pub open spec fn chain_freed<D: BlockDevice>(v0: FatVolume<D>, v: FatVolume<D>, c: int, len: nat) -> bool {
    &&& forall|j: nat| j < len ==> #[trigger] v.fat_entry(chain_at(v0, c, j)) == 0
    &&& forall|x: int|
        0 <= x < v0.max_cluster() && v0.fat_sector(x) < v0.disk().len() && !on_chain(v0, c, len, x) ==> #[trigger] v.fat_entry(
            x,
        ) == v0.fat_entry(x)
}

/// The data region of `v` is that of `v0`.
pub open spec fn same_data<D: BlockDevice>(v0: FatVolume<D>, v: FatVolume<D>) -> bool {
    forall|k: int| v0.data_region_lba <= k < v0.disk().len() ==> #[trigger] v.disk()[k] == v0.disk()[k]
}

/// Where two volumes agree on the FAT entries below the FAT's size, a
/// chain of data clusters below that size is the same in both.
pub proof fn lemma_chain_agree<D: BlockDevice>(v0: FatVolume<D>, v1: FatVolume<D>, c: int, j: nat)
    requires
        v1.max_cluster() == v0.max_cluster(),
        forall|x: int| 0 <= x < v0.max_cluster() ==> #[trigger] v1.fat_entry(x) == v0.fat_entry(x),
        forall|k: nat| k < j ==> #[trigger] chain_valid_at(v0, c, k) && chain_nth(v0, c, k) is Some,
    ensures
        chain_nth(v1, c, j) == chain_nth(v0, c, j),
    decreases j,
{
    if j > 0 {
        let k = (j - 1) as nat;
        lemma_chain_agree(v0, v1, c, k);
        assert(chain_valid_at(v0, c, k) && chain_nth(v0, c, k) is Some);
        let x = chain_at(v0, c, k);
        assert(chain_nth(v0, c, k) == Some(x));
        assert(v1.fat_entry(x) == v0.fat_entry(x));
        if v0.fat_entry(x) >= END_OF_CHAIN {
            lemma_chain_stop(v0, c, k, x);
            lemma_chain_stop(v1, c, k, x);
        } else {
            lemma_chain_step(v0, c, k, x);
            lemma_chain_step(v1, c, k, x);
        }
    }
}

/// Where two volumes agree on the FAT entries below the FAT's size, a
/// chain that ends after `len` clusters in one ends so in the other, with
/// the same clusters.
pub proof fn lemma_chain_ends_agree<D: BlockDevice>(v0: FatVolume<D>, v1: FatVolume<D>, c: int, len: nat)
    requires
        v1.max_cluster() == v0.max_cluster(),
        forall|x: int| 0 <= x < v0.max_cluster() ==> #[trigger] v1.fat_entry(x) == v0.fat_entry(x),
        chain_ends_after(v0, c, len),
    ensures
        chain_ends_after(v1, c, len),
        forall|j: nat| j < len ==> #[trigger] chain_nth(v1, c, j) == chain_nth(v0, c, j),
        forall|x: int| on_chain(v1, c, len, x) == on_chain(v0, c, len, x),
{
    assert forall|j: nat| j < len implies #[trigger] chain_nth(v1, c, j) == chain_nth(v0, c, j) by {
        assert forall|k: nat| k < j implies #[trigger] chain_valid_at(v0, c, k) && chain_nth(v0, c, k) is Some by {
            assert(chain_valid_at(v0, c, k));
        }
        lemma_chain_agree(v0, v1, c, j);
    }
    assert forall|j: nat| j < len implies #[trigger] chain_valid_at(v1, c, j) && chain_nth(v1, c, j) is Some by {
        assert(chain_valid_at(v0, c, j));
        assert(chain_nth(v1, c, j) == chain_nth(v0, c, j));
    }
    assert forall|i: nat, j: nat| i < j < len implies #[trigger] chain_nth(v1, c, i) != #[trigger] chain_nth(v1, c, j) by {
        assert(chain_nth(v1, c, i) == chain_nth(v0, c, i));
        assert(chain_nth(v1, c, j) == chain_nth(v0, c, j));
        assert(chain_nth(v0, c, i) != chain_nth(v0, c, j));
    }
    let l = (len - 1) as nat;
    assert(chain_nth(v1, c, l) == chain_nth(v0, c, l));
    assert(chain_valid_at(v0, c, l));
    assert(v1.fat_entry(chain_at(v0, c, l)) == v0.fat_entry(chain_at(v0, c, l)));
    assert forall|x: int| on_chain(v1, c, len, x) == on_chain(v0, c, len, x) by {
        if on_chain(v1, c, len, x) {
            let j = choose|j: nat| j < len && chain_nth(v1, c, j) == Some(x);
            assert(chain_nth(v0, c, j) == Some(x));
        }
        if on_chain(v0, c, len, x) {
            let j = choose|j: nat| j < len && chain_nth(v0, c, j) == Some(x);
            assert(chain_nth(v1, c, j) == Some(x));
        }
    }
}

/// Where following `k` links from `c` leads to `x` and `x` ends the chain,
/// there is no further link.
pub proof fn lemma_chain_stop<D: BlockDevice>(v: FatVolume<D>, c: int, k: nat, x: int)
    requires
        chain_nth(v, c, k) == Some(x),
        v.fat_entry(x) >= END_OF_CHAIN,
    ensures
        chain_nth(v, c, k + 1) is None,
    decreases k,
{
    if k > 0 {
        lemma_chain_stop(v, v.fat_entry(c), (k - 1) as nat, x);
        assert(chain_nth(v, c, k + 1) == chain_nth(v, v.fat_entry(c), k));
    }
}

/// A chain ends after one length only.
pub proof fn lemma_chain_end_unique<D: BlockDevice>(v: FatVolume<D>, c: int, l1: nat, l2: nat)
    requires
        chain_ends_after(v, c, l1),
        chain_ends_after(v, c, l2),
    ensures
        l1 == l2,
{
    if l1 < l2 {
        lemma_chain_end_before(v, c, l1, l2);
    } else if l2 < l1 {
        lemma_chain_end_before(v, c, l2, l1);
    }
}

/// A chain that ends after `l1` clusters does not end after more.
proof fn lemma_chain_end_before<D: BlockDevice>(v: FatVolume<D>, c: int, l1: nat, l2: nat)
    requires
        chain_ends_after(v, c, l1),
        l1 < l2,
    ensures
        !chain_ends_after(v, c, l2),
{
    if chain_ends_after(v, c, l2) {
        let k = (l1 - 1) as nat;
        assert(chain_valid_at(v, c, k) && chain_nth(v, c, k) is Some);
        let x = chain_at(v, c, k);
        assert(chain_nth(v, c, k) == Some(x));
        assert(chain_valid_at(v, c, l1) && chain_nth(v, c, l1) is Some);
        if v.fat_entry(x) >= END_OF_CHAIN {
            lemma_chain_stop(v, c, k, x);
        } else {
            lemma_chain_step(v, c, k, x);
        }
    }
}

/// One step of the free walk: freeing cluster `x`, the `i`-th of a chain
/// that ends after `big_l` clusters, keeps the walk's invariant.
#[verifier::rlimit(40)]
proof fn lemma_free_step<D: BlockDevice>(
    v0: FatVolume<D>,
    vb: FatVolume<D>,
    v: FatVolume<D>,
    c: int,
    big_l: nat,
    i: nat,
    x: int,
    next: int,
)
    requires
        v0.wf(),
        regular(v0),
        chain_ends_after(v0, c, big_l),
        i <= big_l,
        i < big_l ==> chain_nth(v0, c, i) == Some(x),
        i == big_l ==> !(2 <= x < END_OF_CHAIN),
        2 <= x < END_OF_CHAIN,
        vb.wf(),
        same_geometry(v0, vb),
        vb.disk().len() == v0.disk().len(),
        forall|j: nat| j < i ==> #[trigger] vb.fat_entry(chain_at(v0, c, j)) == 0,
        forall|j: nat| j < i ==> #[trigger] v0.fat_sector(chain_at(v0, c, j)) < v0.disk().len(),
        forall|y: int|
            0 <= y < v0.max_cluster() && v0.fat_sector(y) < v0.disk().len() && !on_chain(v0, c, i, y) ==> #[trigger] vb.fat_entry(y)
                == v0.fat_entry(y),
        forall|k: int| v0.data_region_lba <= k < v0.disk().len() ==> #[trigger] vb.disk()[k] == v0.disk()[k],
        next == vb.fat_entry(x),
        vb.fat_sector(x) < vb.disk().len(),
        same_geometry(vb, v),
        v.disk().len() == vb.disk().len(),
        forall|k: int|
            0 <= k < vb.disk().len() && !(exists|t: int| 0 <= t < vb.num_fats && k == vb.copy_sector(t, x)) ==> #[trigger] v.disk()[k]
                == vb.disk()[k],
        vb.disk()[vb.fat_sector(x)].len() == 512,
        forall|t: int|
            0 <= t < vb.num_fats ==> #[trigger] vb.copy_sector(t, x) < vb.disk().len() && v.disk()[vb.copy_sector(t, x)]
                == crate::fat32::volume::put_le32(
                vb.disk()[vb.fat_sector(x)],
                vb.fat_offset(x),
                crate::fat32::volume::merged_entry(le32(vb.disk()[vb.fat_sector(x)], vb.fat_offset(x)), 0),
            ),
    ensures
        i < big_l,
        i + 1 < big_l ==> chain_nth(v0, c, i + 1) == Some(next),
        i + 1 == big_l ==> !(2 <= next < END_OF_CHAIN),
        forall|j: nat| j < i + 1 ==> #[trigger] v.fat_entry(chain_at(v0, c, j)) == 0,
        forall|j: nat| j < i + 1 ==> #[trigger] v0.fat_sector(chain_at(v0, c, j)) < v0.disk().len(),
        forall|y: int|
            0 <= y < v0.max_cluster() && v0.fat_sector(y) < v0.disk().len() && !on_chain(v0, c, i + 1, y) ==> #[trigger] v.fat_entry(y)
                == v0.fat_entry(y),
        forall|k: int| v0.data_region_lba <= k < v0.disk().len() ==> #[trigger] v.disk()[k] == v0.disk()[k],
{
    assert(i < big_l);
    assert(chain_valid_at(v0, c, i));
    assert(x < v0.max_cluster());
    assert(chain_at(v0, c, i) == x);
    assert(!on_chain(v0, c, i, x)) by {
        if on_chain(v0, c, i, x) {
            let j = choose|j: nat| j < i && chain_nth(v0, c, j) == Some(x);
            assert(chain_nth(v0, c, j) != chain_nth(v0, c, i));
        }
    }
    assert(vb.fat_entry(x) == v0.fat_entry(x));
    lemma_fat_write_all(vb, v, x, 0);
    assert forall|j: nat| j < i + 1 implies #[trigger] v.fat_entry(chain_at(v0, c, j)) == 0 by {
        if j < i {
            let y = chain_at(v0, c, j);
            assert(j < big_l);
            assert(chain_ends_after(v0, c, big_l));
            assert(chain_valid_at(v0, c, j));
            assert(chain_nth(v0, c, j) is Some);
            assert(chain_nth(v0, c, j) == Some(y));
            assert(y != x) by {
                assert(chain_nth(v0, c, j) != chain_nth(v0, c, i));
            }
            assert(vb.fat_entry(y) == 0);
            assert(v0.fat_sector(y) < v0.disk().len());
            assert(v.fat_entry(y) == vb.fat_entry(y));
        }
    }
    assert forall|y: int|
        0 <= y < v0.max_cluster() && v0.fat_sector(y) < v0.disk().len() && !on_chain(v0, c, i + 1, y) implies #[trigger] v.fat_entry(y)
        == v0.fat_entry(y) by {
        assert(!on_chain(v0, c, i, y)) by {
            if on_chain(v0, c, i, y) {
                let j = choose|j: nat| j < i && chain_nth(v0, c, j) == Some(y);
                assert(j < i + 1 && chain_nth(v0, c, j) == Some(y));
            }
        }
        assert(y != x) by {
            assert(chain_nth(v0, c, i) == Some(x));
        }
    }
    assert forall|k: int| v0.data_region_lba <= k < v0.disk().len() implies #[trigger] v.disk()[k] == v0.disk()[k] by {
        assert(v.disk()[k] == vb.disk()[k]);
    }
    if i + 1 < big_l {
        let ip = (i + 1) as nat;
        assert(ip < big_l);
        assert(chain_valid_at(v0, c, ip));
        assert(chain_nth(v0, c, ip) is Some);
        if v0.fat_entry(x) >= END_OF_CHAIN {
            lemma_chain_stop(v0, c, i, x);
        } else {
            lemma_chain_step(v0, c, i, x);
        }
    }
}

/// The chain from `c` is `len` distinct data clusters below the FAT's size,
/// the last of which holds an end-of-chain mark.
pub open spec fn chain_len_is<D: BlockDevice>(v: FatVolume<D>, c: int, len: nat) -> bool {
    &&& chain_ends_after(v, c, len)
    &&& v.fat_entry(chain_at(v, c, (len - 1) as nat)) >= END_OF_CHAIN
}

/// The clusters of the chain from `c`, in order, when it has `len` of them.
pub open spec fn chain_seq<D: BlockDevice>(v: FatVolume<D>, c: int, len: nat) -> Seq<int> {
    Seq::new(len, |j: int| chain_at(v, c, j as nat))
}

/// A run of linked clusters whose last one ends its chain is the whole
/// chain from its first cluster, on a regular volume.
pub proof fn lemma_run_chain<D: BlockDevice>(v: FatVolume<D>, cs: Seq<int>)
    requires
        regular(v),
        linked_run(v, cs),
        v.fat_entry(cs.last()) >= END_OF_CHAIN,
    ensures
        chain_len_is(v, cs[0], cs.len()),
        chain_seq(v, cs[0], cs.len()) == cs,
{
    reveal(linked_run);
    assert forall|j: nat| j < cs.len() implies #[trigger] chain_nth(v, cs[0], j) == Some(cs[j as int]) by {
        lemma_run_chain_nth(v, cs, j);
    }
    assert forall|j: nat| j < cs.len() implies #[trigger] chain_valid_at(v, cs[0], j) && chain_nth(v, cs[0], j) is Some by {
        assert(chain_nth(v, cs[0], j) == Some(cs[j as int]));
    }
    assert forall|i: nat, j: nat| i < j < cs.len() implies #[trigger] chain_nth(v, cs[0], i) != #[trigger] chain_nth(v, cs[0], j) by {
        assert(chain_nth(v, cs[0], i) == Some(cs[i as int]));
        assert(chain_nth(v, cs[0], j) == Some(cs[j as int]));
        assert(cs[i as int] != cs[j as int]);
    }
    let l = (cs.len() - 1) as nat;
    assert(chain_nth(v, cs[0], l) == Some(cs[l as int]));
    assert(chain_seq(v, cs[0], cs.len()) =~= cs);
}

proof fn lemma_run_chain_nth<D: BlockDevice>(v: FatVolume<D>, cs: Seq<int>, j: nat)
    requires
        regular(v),
        linked_run(v, cs),
        j < cs.len(),
    ensures
        chain_nth(v, cs[0], j) == Some(cs[j as int]),
    decreases j,
{
    reveal(linked_run);
    if j > 0 {
        let k = (j - 1) as nat;
        lemma_run_chain_nth(v, cs, k);
        assert(v.fat_entry(cs[k as int]) == cs[k + 1int]);
        assert(cs[k + 1int] < v.max_cluster());
        lemma_chain_step(v, cs[0], k, cs[k as int]);
    }
}

/// The clusters of a chain that ends after `len` of them, whose FAT entries
/// lie on the device, are a linked run.
pub proof fn lemma_chain_run<D: BlockDevice>(v: FatVolume<D>, c: int, len: nat)
    requires
        chain_ends_after(v, c, len),
        forall|j: nat| j < len ==> #[trigger] v.fat_sector(chain_at(v, c, j)) < v.disk().len(),
    ensures
        linked_run(v, chain_seq(v, c, len)),
        chain_seq(v, c, len).len() == len,
        chain_seq(v, c, len)[0] == c,
{
    reveal(linked_run);
    let cs = chain_seq(v, c, len);
    assert(chain_valid_at(v, c, 0) && chain_nth(v, c, 0) is Some);
    assert forall|k: int| 0 <= k < cs.len() implies 2 <= #[trigger] cs[k] < v.max_cluster() by {
        assert(chain_valid_at(v, c, k as nat) && chain_nth(v, c, k as nat) is Some);
    }
    assert forall|i: int, j: int| 0 <= i < j < cs.len() implies #[trigger] cs[i] != #[trigger] cs[j] by {
        assert(chain_nth(v, c, i as nat) != chain_nth(v, c, j as nat));
        assert(chain_valid_at(v, c, i as nat) && chain_nth(v, c, i as nat) is Some);
        assert(chain_valid_at(v, c, j as nat) && chain_nth(v, c, j as nat) is Some);
    }
    assert forall|k: int| 0 <= k < cs.len() - 1 implies #[trigger] v.fat_entry(cs[k]) == cs[k + 1] && v.fat_sector(cs[k])
        < v.disk().len() by {
        let x = cs[k];
        assert(chain_valid_at(v, c, k as nat) && chain_nth(v, c, k as nat) is Some);
        assert(chain_valid_at(v, c, (k + 1) as nat) && chain_nth(v, c, (k + 1) as nat) is Some);
        assert(chain_nth(v, c, k as nat) == Some(x));
        assert(v.fat_sector(chain_at(v, c, k as nat)) < v.disk().len());
        if v.fat_entry(x) >= END_OF_CHAIN {
            lemma_chain_stop(v, c, k as nat, x);
        } else {
            lemma_chain_step(v, c, k as nat, x);
        }
    }
}

/// Where following `k` links from `c` leads to `x` and `x` links on, one
/// more link leads to `x`'s successor.
pub proof fn lemma_chain_step<D: BlockDevice>(v: FatVolume<D>, c: int, k: nat, x: int)
    requires
        chain_nth(v, c, k) == Some(x),
        v.fat_entry(x) < END_OF_CHAIN,
    ensures
        chain_nth(v, c, k + 1) == Some(v.fat_entry(x)),
    decreases k,
{
    if k == 0 {
        assert(chain_nth(v, v.fat_entry(c), 0) == Some(v.fat_entry(c)));
    } else {
        lemma_chain_step(v, v.fat_entry(c), (k - 1) as nat, x);
        assert(chain_nth(v, c, k + 1) == chain_nth(v, v.fat_entry(c), k));
    }
}

/// The cluster reached after `i` links from `c`, where there is one, is a
/// data cluster below the FAT's size.
pub open spec fn chain_valid_at<D: BlockDevice>(v: FatVolume<D>, c: int, i: nat) -> bool {
    match chain_nth(v, c, i) {
        Some(x) => 2 <= x < v.max_cluster(),
        None => true,
    }
}

/// Following the chain from `c` through the clusters that hold the
/// offsets below `m` (one cluster size per link) meets only data clusters
/// below the FAT's size, and none of them twice.
pub open spec fn chain_distinct<D: BlockDevice>(v: FatVolume<D>, c: int, m: int) -> bool {
    &&& forall|i: nat| i * v.cluster_size() < m ==> #[trigger] chain_valid_at(v, c, i)
    &&& forall|i: nat, j: nat|
        i < j && j * v.cluster_size() < m && (#[trigger] chain_nth(v, c, j)) is Some ==> #[trigger] chain_nth(v, c, i) != chain_nth(
            v,
            c,
            j,
        )
}

/// Moves the position to `offset` by walking the chain from the start
/// cluster. Beyond the end is `Denied` for a file not open for writing. When
/// the chain ends before the target cluster, the file is left with no
/// current cluster and position `offset / cluster size`.
#[verifier::rlimit(50)]
pub fn f_lseek<D: BlockDevice>(vol: &FatVolume<D>, file: &mut File, offset: u32) -> (r: FResult<()>)
    requires
        vol.wf(),
    ensures
        offset > old(file).size && old(file).flags & FA_WRITE == 0 ==> r == Err::<(), FError>(FError::Denied) && failed_with(
            *old(file),
            *final(file),
            FError::Denied,
        ),
        r matches Err(e) ==> final(file).error == e && (e == FError::Denied || e == FError::DiskErr),
        r matches Err(e) && e == FError::Denied ==> offset > old(file).size && old(file).flags & FA_WRITE == 0,
        r is Ok && offset == old(file).position ==> *final(file) == *old(file),
        r is Ok && offset != old(file).position ==> ({
            let cs = vol.cluster_size();
            let o = offset as int;
            match chain_nth(*vol, old(file).start_cluster as int, (o / cs) as nat) {
                Some(c) => *final(file) == (File {
                    current_cluster: c as u32,
                    sector_in_cluster: ((o % cs) / 512) as u16,
                    byte_in_sector: ((o % cs) % 512) as u16,
                    position: offset,
                    ..*old(file)
                }),
                None => *final(file) == (File {
                    current_cluster: 0,
                    sector_in_cluster: 0,
                    byte_in_sector: 0,
                    position: (o / cs) as u32,
                    ..*old(file)
                }),
            }
        }),
        r is Ok ==> file_wf(*vol, *final(file)) || *final(file) == *old(file),
{
    if offset > file.size && file.flags & FA_WRITE == 0 {
        file.error = FError::Denied;
        return Err(FError::Denied);
    }
    if offset == file.position {
        return Ok(());
    }
    let cs = vol.sectors_per_cluster as u32 * 512;
    let target = offset / cs;
    let mut clu = file.start_cluster;
    let mut i: u32 = 0;
    while i < target
        invariant
            vol.wf(),
            cs == vol.cluster_size(),
            target == offset / cs,
            i <= target,
            chain_nth(*vol, file.start_cluster as int, target as nat) == chain_nth(*vol, clu as int, (target - i) as nat),
            *file == *old(file),
            !(offset > old(file).size && old(file).flags & FA_WRITE == 0),
            offset != old(file).position,
        decreases target - i,
    {
        clu = match vol.read_fat_entry(clu) {
            Ok(c) => c,
            Err(e) => {
                file.error = e;
                return Err(e);
            },
        };
        if clu >= END_OF_CHAIN {
            file.current_cluster = 0;
            file.sector_in_cluster = 0;
            file.byte_in_sector = 0;
            file.position = offset / cs;
            return Ok(());
        }
        i = i + 1;
    }
    let in_cluster = offset % cs;
    file.current_cluster = clu;
    file.sector_in_cluster = (in_cluster / 512) as u16;
    file.byte_in_sector = (in_cluster % 512) as u16;
    file.position = offset;
    proof {
        assert(in_cluster / 512 < vol.sectors_per_cluster) by (nonlinear_arith)
            requires
                in_cluster < cs,
                cs == vol.sectors_per_cluster * 512,
        ;
    }
    Ok(())
}

/// In a chain from `first` that ends properly after `len` clusters, none
/// is a cluster `cur` whose FAT entry links to `first`.
#[verifier::spinoff_prover]
proof fn lemma_tail_not_current<D: BlockDevice>(v: FatVolume<D>, cur: int, first: int, len: nat)
    requires
        regular(v),
        chain_ends_after(v, first, len),
        v.fat_entry(cur) == first,
    ensures
        forall|j: nat| j < len ==> chain_at(v, first, j) != cur && 2 <= #[trigger] chain_at(v, first, j) < v.max_cluster(),
{
    assert(chain_valid_at(v, first, 0) && chain_nth(v, first, 0) is Some);
    assert forall|j: nat| j < len implies chain_at(v, first, j) != cur && 2 <= #[trigger] chain_at(v, first, j)
        < v.max_cluster() by {
        assert(chain_valid_at(v, first, j) && chain_nth(v, first, j) is Some);
        if chain_at(v, first, j) == cur {
            if j + 1 < len {
                lemma_chain_step(v, first, j, cur);
                assert(chain_nth(v, first, 0) != chain_nth(v, first, j + 1));
            }
        }
    }
}

/// Cuts the file at the current position: the clusters after the current
/// one are freed, the current cluster ends the chain, and the size becomes
/// the position. `Denied` unless open for writing.
pub fn f_truncate<D: BlockDevice>(vol: &mut FatVolume<D>, file: &mut File) -> (r: FResult<()>)
    requires
        old(vol).wf(),
    ensures
        final(vol).wf(),
        same_geometry(*old(vol), *final(vol)),
        old(file).flags & FA_WRITE == 0 ==> r == Err::<(), FError>(FError::Denied) && failed_with(
            *old(file),
            *final(file),
            FError::Denied,
        ) && final(vol).disk() == old(vol).disk(),
        r matches Err(e) ==> final(file).error == e && (e == FError::Denied || e == FError::DiskErr),
        r matches Err(e) && e == FError::Denied ==> old(file).flags & FA_WRITE == 0,
        r is Ok ==> *final(file) == (File { size: old(file).position, modified: true, ..*old(file) }),
        r is Ok && old(file).current_cluster >= 2 ==> final(vol).fat_entry(old(file).current_cluster as int) == CHAIN_END
            || old(vol).num_fats == 0,
        r is Ok && regular(*old(vol)) && 2 <= old(file).current_cluster < old(vol).max_cluster() && old(vol).fat_region_lba
            + old(vol).sectors_per_fat <= old(vol).disk().len() ==> forall|len: nat|
            #[trigger] chain_ends_after(*old(vol), old(vol).fat_entry(old(file).current_cluster as int), len) ==> {
                &&& forall|j: nat|
                    j < len ==> #[trigger] final(vol).fat_entry(
                        chain_at(*old(vol), old(vol).fat_entry(old(file).current_cluster as int), j),
                    ) == 0
                &&& same_data(*old(vol), *final(vol))
            },
{
    if file.flags & FA_WRITE == 0 {
        file.error = FError::Denied;
        return Err(FError::Denied);
    }
    let first = match vol.read_fat_entry(file.current_cluster) {
        Ok(c) => c,
        Err(e) => {
            file.error = e;
            return Err(e);
        },
    };
    let ghost v0 = *vol;
    match vol.free_chain(first) {
        Ok(()) => {},
        Err(e) => {
            file.error = e;
            return Err(e);
        },
    }
    let ghost v1 = *vol;
    if file.current_cluster >= 2 {
        match vol.write_fat_entry(file.current_cluster, CHAIN_END) {
            Ok(()) => {},
            Err(e) => {
                file.error = e;
                return Err(e);
            },
        }
        proof {
            let c = file.current_cluster;
            if vol.num_fats >= 1 {
                lemma_entry_after_write(v1, *vol, c);
            }
            if regular(v0) && c < v0.max_cluster() && v0.fat_region_lba + v0.sectors_per_fat <= v0.disk().len() {
                lemma_fat_write_all(v1, *vol, c as int, CHAIN_END);
                assert forall|len: nat| #[trigger] chain_ends_after(v0, first as int, len) implies {
                    &&& forall|j: nat| j < len ==> #[trigger] vol.fat_entry(chain_at(v0, first as int, j)) == 0
                    &&& same_data(v0, *vol)
                } by {
                    lemma_tail_not_current(v0, c as int, first as int, len);
                    assert forall|j: nat| j < len implies #[trigger] vol.fat_entry(chain_at(v0, first as int, j)) == 0 by {
                        let x = chain_at(v0, first as int, j);
                        lemma_div_below(x, 128, v0.sectors_per_fat as int);
                        assert(v1.fat_entry(x) == 0);
                    }
                }
            }
        }
    }
    file.size = file.position;
    file.modified = true;
    Ok(())
}

/// The directory sector `sec` with the entry at `off` recording `size` and
/// start cluster `c`.
pub open spec fn patch_entry(sec: Seq<u8>, off: int, size: u32, c: u32) -> Seq<u8> {
    let lo = c % 65536;
    let hi = c / 65536;
    super::volume::put_le32(sec, off + 0x1C, size).update(off + 0x1A, (lo % 256) as u8).update(
        off + 0x1B,
        (lo / 256) as u8,
    ).update(off + 0x14, (hi % 256) as u8).update(off + 0x15, (hi / 256) as u8)
}

/// Writes the size and start cluster of a modified file back to its
/// directory entry, in the sector of the directory cluster that holds it.
pub fn f_sync<D: BlockDevice>(vol: &mut FatVolume<D>, file: &mut File) -> (r: FResult<()>)
    requires
        old(vol).wf(),
        old(file).modified ==> old(file).dir_offset * 32 + 32 <= old(vol).cluster_size(),
    ensures
        final(vol).wf(),
        same_geometry(*old(vol), *final(vol)),
        !old(file).modified ==> r is Ok && *final(file) == *old(file) && final(vol).disk() == old(vol).disk(),
        r matches Err(e) ==> e == FError::DiskErr && failed_with(*old(file), *final(file), e),
        r is Err ==> final(vol).disk() == old(vol).disk(),
        r is Ok && old(file).modified ==> {
            let lba = old(vol).cluster_lba(old(file).dir_sector as int) + old(file).dir_offset / 16;
            &&& *final(file) == (File { modified: false, ..*old(file) })
            &&& old(vol).cluster_addressable(old(file).dir_sector as int)
            &&& lba < old(vol).disk().len()
            &&& final(vol).disk() == old(vol).disk().update(
                lba,
                patch_entry(
                    old(vol).disk()[lba],
                    (old(file).dir_offset % 16) * 32,
                    old(file).size,
                    old(file).start_cluster,
                ),
            )
        },
{
    if !file.modified {
        return Ok(());
    }
    let base = match vol.cluster_to_lba(file.dir_sector) {
        Some(l) => l,
        None => {
            file.error = FError::DiskErr;
            return Err(FError::DiskErr);
        },
    };
    proof {
        assert(file.dir_offset / 16 < vol.sectors_per_cluster) by (nonlinear_arith)
            requires
                file.dir_offset * 32 + 32 <= vol.sectors_per_cluster * 512,
        ;
    }
    let lba = base + file.dir_offset as u32 / 16;
    let off = (file.dir_offset as usize % 16) * 32;
    let mut sc = [0u8; 512];
    if !vol.dev.read_sector(lba, &mut sc) {
        file.error = FError::DiskErr;
        return Err(FError::DiskErr);
    }
    write_le32(&mut sc, off + 0x1C, file.size);
    let lo = file.start_cluster % 65536;
    let hi = file.start_cluster / 65536;
    sc[off + 0x1A] = (lo % 256) as u8;
    sc[off + 0x1B] = (lo / 256) as u8;
    sc[off + 0x14] = (hi % 256) as u8;
    sc[off + 0x15] = (hi / 256) as u8;
    let ghost d0 = vol.disk();
    if !vol.dev.write_sector(lba, &sc) {
        file.error = FError::DiskErr;
        return Err(FError::DiskErr);
    }
    proof {
        assert(vol.disk() =~= d0.update(lba as int, sc@));
    }
    file.modified = false;
    Ok(())
}

/// Clusters a file of `size` bytes (at least one) takes with clusters of
/// `cs` bytes.
pub open spec fn clusters_for(size: int, cs: int) -> int {
    let n = (size - 1 + cs) / cs;
    if n > 1 {
        n
    } else {
        1
    }
}

/// Grows the file to `size` bytes: clusters are appended to its chain (the
/// first one too, for a file without clusters) until the chain covers
/// `size`, and the size becomes `size`. A size not above the current one
/// changes nothing; when the chain already covers `size` nothing changes
/// either. `Denied` unless open for writing. On a regular volume whose
/// chain from the start cluster is well formed (see [`chain_len_is`]), the
/// file's chain then holds exactly the clusters `size` needs, the old ones
/// first, and the data region is untouched.
#[verifier::rlimit(100)]
#[verifier::spinoff_prover]
pub fn f_expand<D: BlockDevice>(vol: &mut FatVolume<D>, file: &mut File, size: u32) -> (r: FResult<()>)
    requires
        old(vol).wf(),
        size + old(vol).cluster_size() - 1 <= u32::MAX,
    ensures
        final(vol).wf(),
        same_geometry(*old(vol), *final(vol)),
        old(file).flags & FA_WRITE == 0 ==> r == Err::<(), FError>(FError::Denied) && failed_with(
            *old(file),
            *final(file),
            FError::Denied,
        ) && final(vol).disk() == old(vol).disk(),
        old(file).flags & FA_WRITE != 0 && size <= old(file).size ==> r is Ok && *final(file) == *old(file)
            && final(vol).disk() == old(vol).disk(),
        r matches Err(e) ==> final(file).error == e && (e == FError::Denied || e == FError::DiskErr || e
            == FError::MkfsAborted),
        r matches Err(e) && e == FError::MkfsAborted ==> final(vol).all_used(2, final(vol).max_cluster()),
        r matches Err(e) && e == FError::Denied ==> old(file).flags & FA_WRITE == 0,
        r is Ok ==> *final(file) == *old(file) || (final(file).size == size && final(file).modified
            && final(file).position == old(file).position && final(file).flags == old(file).flags
            && final(file).error == old(file).error),
        r is Ok && old(file).flags & FA_WRITE != 0 && size > old(file).size && regular(*old(vol)) && old(file).start_cluster
            == 0 ==> final(file).size == size && final(file).current_cluster == final(file).start_cluster && chain_len_is(
            *final(vol),
            final(file).start_cluster as int,
            clusters_for(size as int, old(vol).cluster_size()) as nat,
        ) && same_data(*old(vol), *final(vol)),
        r is Ok && old(file).flags & FA_WRITE != 0 && size > old(file).size && regular(*old(vol)) && old(file).start_cluster
            != 0 ==> forall|len: nat|
            #[trigger] chain_len_is(*old(vol), old(file).start_cluster as int, len) ==> if clusters_for(
                size as int,
                old(vol).cluster_size(),
            ) <= len {
                *final(file) == *old(file) && final(vol).disk() == old(vol).disk()
            } else {
                &&& final(file).size == size
                &&& final(file).start_cluster == old(file).start_cluster
                &&& chain_len_is(
                    *final(vol),
                    old(file).start_cluster as int,
                    clusters_for(size as int, old(vol).cluster_size()) as nat,
                )
                &&& chain_seq(*final(vol), old(file).start_cluster as int, len) == chain_seq(
                    *old(vol),
                    old(file).start_cluster as int,
                    len,
                )
                &&& same_data(*old(vol), *final(vol))
            },
{
    if file.flags & FA_WRITE == 0 {
        file.error = FError::Denied;
        return Err(FError::Denied);
    }
    let cs = vol.sectors_per_cluster as u32 * 512;
    if size <= file.size {
        return Ok(());
    }
    let ghost v0 = *vol;
    let ghost start = file.start_cluster as int;
    let ghost hc = regular(v0) && start != 0 && exists|len: nat| chain_len_is(v0, start, len);
    let ghost big_l: nat = if hc {
        choose|len: nat| chain_len_is(v0, start, len)
    } else {
        0
    };
    let budget = vol.fat_entries();
    let mut current: u32 = 0;
    if file.start_cluster != 0 {
        current = 1;
        let mut clu = file.start_cluster;
        let mut fuel = budget;
        proof {
            if hc {
                assert(chain_valid_at(v0, start, 0) && chain_nth(v0, start, 0) is Some);
            }
        }
        loop
            invariant_except_break
                hc ==> current < big_l + 1 && clu == chain_at(v0, start, (current - 1) as nat),
            invariant
                vol.wf(),
                current >= 1,
                budget == vol.max_cluster(),
                current as int + fuel as int <= budget as int + 1,
                *file == *old(file),
                *vol == *old(vol),
                v0 == *old(vol),
                start == old(file).start_cluster,
                start != 0,
                old(file).flags & FA_WRITE != 0,
                size > old(file).size,
                hc ==> chain_len_is(v0, start, big_l) && regular(v0),
                hc ==> forall|j: nat| j < current - 1 ==> #[trigger] v0.fat_sector(chain_at(v0, start, j)) < v0.disk().len(),
            ensures
                hc ==> current == big_l,
                hc ==> forall|j: nat| j < big_l ==> #[trigger] v0.fat_sector(chain_at(v0, start, j)) < v0.disk().len(),
            decreases fuel,
        {
            if fuel == 0 {
                file.error = FError::DiskErr;
                return Err(FError::DiskErr);
            }
            let next = match vol.read_fat_entry(clu) {
                Ok(c) => c,
                Err(e) => {
                    file.error = e;
                    return Err(e);
                },
            };
            proof {
                if hc {
                    lemma_count_step(v0, start, big_l, (current - 1) as nat, next as int);
                }
            }
            if next >= END_OF_CHAIN {
                break;
            }
            clu = next;
            current = current + 1;
            fuel = fuel - 1;
        }
    }
    proof {
        assert(cs == old(vol).cluster_size());
    }
    let needed0 = (size - 1 + cs) / cs;
    let needed = if needed0 > 1 { needed0 } else { 1 };
    let to_add = needed.saturating_sub(current);
    proof {
        assert(needed == clusters_for(size as int, v0.cluster_size()));
    }
    if to_add == 0 {
        proof {
            if hc {
                lemma_len_unique(v0, start, big_l);
            }
        }
        return Ok(());
    }
    let mut tail = file.start_cluster;
    let mut added: u32 = 0;
    let ghost mut run: Seq<int> = Seq::empty();
    let ghost h = regular(v0) && (start == 0 || hc);
    if tail == 0 {
        let c = match vol.alloc_cluster() {
            Ok(c) => c,
            Err(e) => {
                file.error = e;
                return Err(e);
            },
        };
        file.start_cluster = c;
        file.current_cluster = c;
        tail = c;
        added = 1;
        proof {
            run = seq![c as int];
            if h {
                assert(linked_run(*vol, run)) by {
                    reveal(linked_run);
                }
            }
        }
    } else {
        let mut fuel = budget;
        proof {
            if hc {
                assert(chain_valid_at(v0, start, 0) && chain_nth(v0, start, 0) is Some);
            }
        }
        let ghost mut k: nat = 0;
        loop
            invariant_except_break
                hc ==> k < big_l && tail == chain_at(v0, start, k),
            invariant
                vol.wf(),
                *vol == v0,
                v0 == *old(vol),
                same_geometry(v0, *vol),
                *file == *old(file),
                start == old(file).start_cluster,
                old(file).flags & FA_WRITE != 0,
                size > old(file).size,
                hc ==> chain_len_is(v0, start, big_l) && regular(v0),
            ensures
                hc ==> tail == chain_at(v0, start, (big_l - 1) as nat),
            decreases fuel,
        {
            if fuel == 0 {
                file.error = FError::DiskErr;
                return Err(FError::DiskErr);
            }
            let next = match vol.read_fat_entry(tail) {
                Ok(c) => c,
                Err(e) => {
                    file.error = e;
                    return Err(e);
                },
            };
            proof {
                if hc {
                    lemma_count_step(v0, start, big_l, k, next as int);
                }
            }
            if next >= END_OF_CHAIN {
                break;
            }
            tail = next;
            fuel = fuel - 1;
            proof {
                k = k + 1;
            }
        }
        proof {
            if hc {
                lemma_chain_run(v0, start, big_l);
                run = chain_seq(v0, start, big_l);
                assert(run.last() == chain_at(v0, start, (big_l - 1) as nat));
            }
        }
    }
    let ghost base: int = if start == 0 {
        0
    } else {
        big_l as int
    };
    while added < to_add
        invariant
            vol.wf(),
            same_geometry(v0, *vol),
            v0 == *old(vol),
            added <= to_add,
            file.flags == old(file).flags,
            file.error == old(file).error,
            file.position == old(file).position,
            old(file).flags & FA_WRITE != 0,
            size > old(file).size,
            start == old(file).start_cluster,
            h == (regular(v0) && (start == 0 || hc)),
            start == 0 ==> added >= 1 && file.current_cluster == file.start_cluster,
            start != 0 ==> file.start_cluster == start,
            h ==> linked_run(*vol, run) && run.last() == tail && run[0] == file.start_cluster && vol.fat_entry(tail as int)
                >= END_OF_CHAIN && vol.fat_sector(tail as int) < vol.disk().len() && run.len() == base + added,
            h ==> same_data(v0, *vol),
            h ==> vol.disk().len() == v0.disk().len(),
            h && hc ==> run.subrange(0, big_l as int) == chain_seq(v0, start, big_l),
            base == (if start == 0 {
                0
            } else {
                big_l as int
            }),
            hc ==> start != 0,
        decreases to_add - added,
    {
        let ghost vr = *vol;
        let c = match extend_chain(vol, tail) {
            Ok(c) => c,
            Err(e) => {
                file.error = e;
                return Err(e);
            },
        };
        proof {
            if h {
                lemma_grow_chain(vr, *vol, run, tail as int, c as int, big_l as int);
                run = run.push(c as int);
            }
        }
        tail = c;
        added = added + 1;
    }
    file.size = size;
    file.modified = true;
    proof {
        if h {
            lemma_expand_result(v0, *vol, run, start, big_l, hc, needed as int);
        }
    }
    Ok(())
}

/// The run of linked clusters an expansion ends with, its last cluster
/// ending the chain, is the whole chain from the file's first cluster; where
/// the old chain had `big_l` clusters, they come first, and no other length
/// describes the old chain.
proof fn lemma_expand_result<D: BlockDevice>(
    v0: FatVolume<D>,
    v: FatVolume<D>,
    run: Seq<int>,
    start: int,
    big_l: nat,
    hc: bool,
    needed: int,
)
    requires
        regular(v0),
        same_geometry(v0, v),
        linked_run(v, run),
        v.fat_entry(run.last()) >= END_OF_CHAIN,
        run.len() == needed,
        hc ==> chain_len_is(v0, start, big_l) && run.subrange(0, big_l as int) == chain_seq(v0, start, big_l) && run[0]
            == start && big_l < run.len(),
    ensures
        chain_len_is(v, run[0], needed as nat),
        hc ==> forall|len: nat|
            #[trigger] chain_len_is(v0, start, len) ==> !(needed <= len) && chain_len_is(v, start, needed as nat) && chain_seq(
                v,
                start,
                len,
            ) == chain_seq(v0, start, len),
{
    lemma_run_chain(v, run);
    if hc {
        assert forall|len: nat| #[trigger] chain_len_is(v0, start, len) implies !(needed <= len) && chain_len_is(
            v,
            start,
            needed as nat,
        ) && chain_seq(v, start, len) == chain_seq(v0, start, len) by {
            lemma_chain_end_unique(v0, start, len, big_l);
            assert(chain_seq(v, start, big_l) =~= run.subrange(0, big_l as int));
        }
    }
}

/// A chain has one length only.
proof fn lemma_len_unique<D: BlockDevice>(v: FatVolume<D>, c: int, big_l: nat)
    requires
        chain_len_is(v, c, big_l),
    ensures
        forall|len: nat| #[trigger] chain_len_is(v, c, len) ==> len == big_l,
{
    assert forall|len: nat| #[trigger] chain_len_is(v, c, len) implies len == big_l by {
        lemma_chain_end_unique(v, c, len, big_l);
    }
}

/// Extending the chain that ends in `tail`, the last cluster of the run
/// `run`, by the free cluster `c` makes the run one longer; its first
/// `keep` clusters stay as they were.
proof fn lemma_grow_chain<D: BlockDevice>(vr: FatVolume<D>, v: FatVolume<D>, run: Seq<int>, tail: int, c: int, keep: int)
    requires
        vr.wf(),
        regular(vr),
        linked_run(vr, run),
        run.last() == tail,
        vr.fat_entry(tail) >= END_OF_CHAIN,
        vr.fat_sector(tail) < vr.disk().len(),
        same_geometry(vr, v),
        v.disk().len() == vr.disk().len(),
        vr.fat_entry(tail) != 0 && 2 <= tail < vr.max_cluster() ==> extended(vr, v, tail, c),
    ensures
        run.len() >= 1,
        linked_run(v, run.push(c)),
        v.fat_entry(c) >= END_OF_CHAIN,
        v.fat_sector(c) < v.disk().len(),
        same_data(vr, v),
        0 <= keep <= run.len() ==> run.push(c).subrange(0, keep) == run.subrange(0, keep),
{
    lemma_run_last(vr, run);
    assert(run_holds(vr, run, 0, Seq::<u8>::empty(), 0)) by {
        reveal(run_holds);
    }
    assert(0 + 0 <= run.len() * vr.cluster_size()) by (nonlinear_arith)
        requires
            run.len() >= 1,
            vr.cluster_size() >= 512,
    ;
    lemma_extend_run(vr, v, run, tail, c, 0, Seq::<u8>::empty(), 0);
    if 0 <= keep <= run.len() {
        assert(run.push(c).subrange(0, keep) =~= run.subrange(0, keep));
    }
}

/// One step of walking a chain that has `big_l` clusters: the entry read at
/// step `k` leads to the next cluster of the chain, or ends it at the last.
#[verifier::spinoff_prover]
proof fn lemma_count_step<D: BlockDevice>(v: FatVolume<D>, c: int, big_l: nat, k: nat, next: int)
    requires
        regular(v),
        chain_len_is(v, c, big_l),
        k < big_l,
        next == v.fat_entry(chain_at(v, c, k)),
    ensures
        next >= END_OF_CHAIN <==> k + 1 == big_l,
        k + 1 < big_l ==> next == chain_at(v, c, k + 1),
{
    assert(chain_valid_at(v, c, k) && chain_nth(v, c, k) is Some);
    let x = chain_at(v, c, k);
    assert(chain_nth(v, c, k) == Some(x));
    if k + 1 < big_l {
        let kp = (k + 1) as nat;
        assert(chain_valid_at(v, c, kp) && chain_nth(v, c, kp) is Some);
        if next >= END_OF_CHAIN {
            lemma_chain_stop(v, c, k, x);
        } else {
            lemma_chain_step(v, c, k, x);
        }
    }
}

} // verus!
