//! Directory listing and file-system management: directories, removal,
//! renaming, attributes, free space, the volume label and the current
//! directory.
use vstd::prelude::*;
use crate::block::BlockDevice;
use crate::text::{copy_range, position_of, prefix_len_before};
use super::volume::{ATTR_DIRECTORY, ATTR_LFN, ATTR_VOLUME, END_OF_CHAIN, FError, FResult, FatVolume};
use super::names::{encode_name_83, entry_name, match_pattern, matches_pattern, pad, read_dir_entry_name, read_entry_cluster};
use super::lookup::{Lookup, Walk, entry_at, entry_bytes, root_only};
use super::file::{chain_nth, path_lookup, same_geometry};
use vstd::string::StringSliceAdditionalSpecFns;

verus! {

/// An open directory listing.
#[derive(Clone, Copy, Debug)]
pub struct Dir {
    pub start_cluster: u32,
    pub current_cluster: u32,
    pub sector_in_cluster: u16,
    pub entry_index: u16,
    pub ended: bool,
    pub pattern: [u8; 11],
    pub pat_len: u8,
}

/// Opens a listing of the directory `path` resolves to (the parent of its
/// final component; a path ending in `/` names the directory itself).
pub fn f_opendir<D: BlockDevice>(vol: &FatVolume<D>, path: &str) -> (r: FResult<Dir>)
    requires
        vol.wf(),
    ensures
        r matches Ok(d) ==> (vol.resolve(path.spec_bytes()) matches Walk::Done(c, _) && c == d.start_cluster)
            && d.current_cluster == d.start_cluster && d.entry_index == 0 && !d.ended && d.pat_len == 0
            && d.sector_in_cluster == 0 && d.pattern@ == Seq::new(11, |j: int| 0u8),
        r matches Err(e) ==> e == FError::DiskErr || (e == FError::NoPath && vol.resolve(path.spec_bytes()) is NoPath),
        root_only(path.spec_bytes()) ==> r is Ok,
        vol.resolve(path.spec_bytes()) is NoPath ==> (r matches Err(e) && (e == FError::NoPath || e == FError::DiskErr)),
{
    let (c, _start) = match vol.resolve_path(path.as_bytes()) {
        Ok(x) => x,
        Err(e) => {
            return Err(e);
        },
    };
    let d = Dir {
        start_cluster: c,
        current_cluster: c,
        sector_in_cluster: 0,
        entry_index: 0,
        ended: false,
        pattern: [0u8; 11],
        pat_len: 0,
    };
    proof {
        assert(d.pattern@ =~= Seq::new(11, |j: int| 0u8));
    }
    Ok(d)
}

/// Closes a listing.
pub fn f_closedir(dir: Dir) -> (r: FResult<()>)
    ensures
        r is Ok,
{
    Ok(())
}

/// Entry `i` of directory cluster `buf` is listed: in use, not a long-name
/// or volume-label entry, with a non-empty name.
pub open spec fn listed(buf: Seq<u8>, i: int) -> bool {
    let o = 32 * i;
    &&& buf[o] != 0
    &&& buf[o] != 0xE5
    &&& buf[o + 11] != ATTR_LFN
    &&& buf[o + 11] & ATTR_VOLUME == 0
    &&& entry_name(entry_at(buf, i)).len() > 0
}

/// Entry `i` of directory cluster `buf` is listed and its name matches the
/// first `pl` bytes of `pat`.
pub open spec fn hit(buf: Seq<u8>, i: int, pat: Seq<u8>, pl: int) -> bool {
    &&& listed(buf, i)
    &&& (pl == 0 || matches_pattern(pad(entry_name(entry_at(buf, i)), 13), pat, pl))
}

/// Where a listing's scan of one directory cluster stops.
pub enum DirScan {
    /// A listed entry that matches, at this index.
    Hit(int),
    /// An entry whose first byte is zero (the end of the directory), at this
    /// index.
    Zero(int),
    /// The cluster's entries ran out.
    Exhausted,
}

/// The scan of directory cluster `buf` (of `max` entries) from entry `i`.
pub open spec fn scan_dir(buf: Seq<u8>, i: int, max: int, pat: Seq<u8>, pl: int) -> DirScan
    decreases max - i,
{
    if i < 0 || i >= max {
        DirScan::Exhausted
    } else if buf[32 * i] == 0 {
        DirScan::Zero(i)
    } else if hit(buf, i, pat, pl) {
        DirScan::Hit(i)
    } else {
        scan_dir(buf, i + 1, max, pat, pl)
    }
}

/// Where a listing's next read ends.
pub enum DirStep {
    /// At a matching entry: its cluster, and the index after it.
    Hit(int, int),
    /// At the end of the directory: the cluster, and the index after the
    /// ending entry.
    Ended(int, int),
    /// At the end of the chain: the last cluster.
    ChainEnded(int),
    /// The chain is longer than the FAT allows (a cycle).
    Corrupt,
}

/// The next read of a listing at entry `i` of cluster `c`, reading at most
/// `fuel` clusters: past the last entry of a cluster it follows the chain.
pub open spec fn readdir_walk<D: BlockDevice>(v: FatVolume<D>, c: int, i: int, pat: Seq<u8>, pl: int, fuel: nat) -> DirStep
    decreases fuel, 1int,
{
    if i >= v.cluster_size() / 32 {
        if v.fat_entry(c) >= END_OF_CHAIN {
            DirStep::ChainEnded(c)
        } else {
            readdir_read(v, v.fat_entry(c), 0, pat, pl, fuel)
        }
    } else {
        readdir_read(v, c, i, pat, pl, fuel)
    }
}

/// The next read of a listing that reads cluster `c` from entry `i`.
pub open spec fn readdir_read<D: BlockDevice>(v: FatVolume<D>, c: int, i: int, pat: Seq<u8>, pl: int, fuel: nat) -> DirStep
    decreases fuel, 0int,
{
    if fuel == 0 {
        DirStep::Corrupt
    } else {
        match scan_dir(v.cluster_bytes(c), i, v.cluster_size() / 32, pat, pl) {
            DirScan::Hit(k) => DirStep::Hit(c, k + 1),
            DirScan::Zero(k) => DirStep::Ended(c, k + 1),
            DirScan::Exhausted => readdir_walk(v, c, v.cluster_size() / 32, pat, pl, (fuel - 1) as nat),
        }
    }
}

/// A hit of a scan from entry `i` is at `i` or after it.
proof fn lemma_scan_forward(buf: Seq<u8>, i: int, max: int, pat: Seq<u8>, pl: int)
    ensures
        scan_dir(buf, i, max, pat, pl) matches DirScan::Hit(k) ==> i <= k < max,
    decreases max - i,
{
    if 0 <= i < max && buf[32 * i] != 0 && !hit(buf, i, pat, pl) {
        lemma_scan_forward(buf, i + 1, max, pat, pl);
    }
}

/// Each read of a listing moves forward: the entry it yields from position
/// `i` of cluster `c` is at or after `i` in `c` (the listing then stands
/// just past it), or in a cluster reached from `c` by following its chain
/// at least one link.
pub proof fn lemma_readdir_forward<D: BlockDevice>(v: FatVolume<D>, c: int, i: int, pat: Seq<u8>, pl: int, fuel: nat)
    requires
        0 <= i,
    ensures
        readdir_walk(v, c, i, pat, pl, fuel) matches DirStep::Hit(c2, k) ==> (c2 == c && i < k
            <= v.cluster_size() / 32) || exists|j: nat| j >= 1 && #[trigger] chain_nth(v, c, j) == Some(c2),
    decreases fuel, 1int,
{
    if i >= v.cluster_size() / 32 {
        if v.fat_entry(c) < END_OF_CHAIN {
            let n = v.fat_entry(c);
            lemma_read_forward(v, n, 0, pat, pl, fuel);
            lemma_chain_shift(v, c);
            if let DirStep::Hit(c2, k) = readdir_read(v, n, 0, pat, pl, fuel) {
                if c2 == n {
                    assert(chain_nth(v, n, 0) == Some(n));
                    assert(chain_nth(v, c, 1) == Some(n));
                } else {
                    let j = choose|j: nat| j >= 1 && #[trigger] chain_nth(v, n, j) == Some(c2);
                    assert(chain_nth(v, c, j + 1) == Some(c2));
                }
            }
        }
    } else {
        lemma_read_forward(v, c, i, pat, pl, fuel);
    }
}

/// [`lemma_readdir_forward`] for a read that scans cluster `c` from `i`.
proof fn lemma_read_forward<D: BlockDevice>(v: FatVolume<D>, c: int, i: int, pat: Seq<u8>, pl: int, fuel: nat)
    requires
        0 <= i,
    ensures
        readdir_read(v, c, i, pat, pl, fuel) matches DirStep::Hit(c2, k) ==> (c2 == c && i < k
            <= v.cluster_size() / 32) || exists|j: nat| j >= 1 && #[trigger] chain_nth(v, c, j) == Some(c2),
    decreases fuel, 0int,
{
    if fuel > 0 {
        lemma_scan_forward(v.cluster_bytes(c), i, v.cluster_size() / 32, pat, pl);
        match scan_dir(v.cluster_bytes(c), i, v.cluster_size() / 32, pat, pl) {
            DirScan::Exhausted => {
                lemma_readdir_forward(v, c, v.cluster_size() / 32, pat, pl, (fuel - 1) as nat);
            },
            _ => {},
        }
    }
}

/// A cluster reached from the next cluster of `c` is reached from `c` by one
/// more link.
proof fn lemma_chain_shift<D: BlockDevice>(v: FatVolume<D>, c: int)
    requires
        v.fat_entry(c) < END_OF_CHAIN,
    ensures
        forall|j: nat| #[trigger] chain_nth(v, v.fat_entry(c), j) == chain_nth(v, c, j + 1),
{
    assert forall|j: nat| #[trigger] chain_nth(v, v.fat_entry(c), j) == chain_nth(v, c, j + 1) by {
        assert(chain_nth(v, c, j + 1) == chain_nth(v, v.fat_entry(c), j));
    }
}

/// The next listed entry whose name matches the listing's pattern: its name
/// is stored in `out_name` and `true` returned; `false` once the directory
/// (or its chain) has ended.
pub fn f_readdir<D: BlockDevice>(vol: &FatVolume<D>, dir: &mut Dir, out_name: &mut [u8; 13]) -> (r: FResult<bool>)
    requires
        vol.wf(),
        old(dir).pat_len <= 11,
    ensures
        final(dir).start_cluster == old(dir).start_cluster,
        final(dir).pattern == old(dir).pattern,
        final(dir).pat_len == old(dir).pat_len,
        old(dir).ended ==> r == Ok::<bool, FError>(false) && *final(dir) == *old(dir),
        r matches Ok(false) ==> final(dir).ended && final(out_name)@ == old(out_name)@,
        r matches Ok(true) ==> {
            let buf = vol.cluster_bytes(final(dir).current_cluster as int);
            let i = final(dir).entry_index - 1;
            &&& 0 <= i < vol.cluster_size() / 32
            &&& listed(buf, i)
            &&& final(out_name)@ == pad(entry_name(entry_at(buf, i)), 13)
            &&& matches_pattern(final(out_name)@, old(dir).pattern@, old(dir).pat_len as int)
            &&& !final(dir).ended
        },
        r matches Err(e) ==> e == FError::DiskErr,
        !old(dir).ended && r is Ok ==> match readdir_walk(
            *vol,
            old(dir).current_cluster as int,
            old(dir).entry_index as int,
            old(dir).pattern@,
            old(dir).pat_len as int,
            vol.max_cluster() as nat,
        ) {
            DirStep::Hit(c, k) => r == Ok::<bool, FError>(true) && final(dir).current_cluster == c && final(dir).entry_index
                == k,
            DirStep::Ended(c, k) => r == Ok::<bool, FError>(false) && final(dir).ended && final(dir).current_cluster == c
                && final(dir).entry_index == k,
            DirStep::ChainEnded(c) => r == Ok::<bool, FError>(false) && final(dir).ended && final(dir).current_cluster == c
                && final(dir).entry_index == 0,
            DirStep::Corrupt => false,
        },
{
    let cs = vol.sectors_per_cluster as usize * 512;
    let max_entries = cs / 32;
    let budget = vol.fat_entries();
    let mut fuel: u32 = budget;
    let ghost d0 = *dir;
    let mut buf: Vec<u8> = vec![0u8; cs];
    loop
        invariant
            vol.wf(),
            cs == vol.cluster_size(),
            max_entries == cs / 32,
            buf@.len() == cs,
            d0 == *old(dir),
            dir.start_cluster == d0.start_cluster,
            dir.pattern == d0.pattern,
            dir.pat_len == d0.pat_len,
            dir.pat_len <= 11,
            d0.ended ==> *dir == d0,
            *out_name == *old(out_name),
            budget == vol.max_cluster(),
            !d0.ended ==> !dir.ended && readdir_walk(
                *vol,
                d0.current_cluster as int,
                d0.entry_index as int,
                d0.pattern@,
                d0.pat_len as int,
                budget as nat,
            ) == readdir_walk(
                *vol,
                dir.current_cluster as int,
                dir.entry_index as int,
                d0.pattern@,
                d0.pat_len as int,
                fuel as nat,
            ),
        decreases fuel,
    {
        if dir.ended {
            return Ok(false);
        }
        let ghost w = readdir_walk(
            *vol,
            dir.current_cluster as int,
            dir.entry_index as int,
            d0.pattern@,
            d0.pat_len as int,
            fuel as nat,
        );
        if dir.entry_index as usize >= max_entries {
            dir.entry_index = 0;
            dir.sector_in_cluster = 0;
            let next = match vol.read_fat_entry(dir.current_cluster) {
                Ok(n) => n,
                Err(e) => {
                    return Err(e);
                },
            };
            if next >= END_OF_CHAIN {
                dir.ended = true;
                return Ok(false);
            }
            dir.current_cluster = next;
        }
        assert(w == readdir_read(
            *vol,
            dir.current_cluster as int,
            dir.entry_index as int,
            d0.pattern@,
            d0.pat_len as int,
            fuel as nat,
        ));
        if fuel == 0 {
            return Err(FError::DiskErr);
        }
        let ghost f1 = fuel;
        let ghost i0 = dir.entry_index as int;
        fuel = fuel - 1;
        match vol.read_cluster(dir.current_cluster, &mut buf) {
            Ok(()) => {},
            Err(e) => {
                return Err(e);
            },
        }
        while (dir.entry_index as usize) < max_entries
            invariant
                vol.wf(),
                cs == vol.cluster_size(),
                max_entries == cs / 32,
                max_entries <= 2048,
                buf@.len() == cs,
                buf@ == vol.cluster_bytes(dir.current_cluster as int),
                d0 == *old(dir),
                dir.start_cluster == d0.start_cluster,
                dir.pattern == d0.pattern,
                dir.pat_len == d0.pat_len,
                dir.pat_len <= 11,
                !dir.ended,
                !d0.ended,
                *out_name == *old(out_name),
                budget == vol.max_cluster(),
                f1 > 0,
                fuel == f1 - 1,
                dir.entry_index >= i0,
                max_entries == vol.cluster_size() / 32,
                readdir_walk(*vol, d0.current_cluster as int, d0.entry_index as int, d0.pattern@, d0.pat_len as int, budget as nat)
                    == readdir_read(*vol, dir.current_cluster as int, i0, d0.pattern@, d0.pat_len as int, f1 as nat),
                scan_dir(buf@, i0, max_entries as int, d0.pattern@, d0.pat_len as int) == scan_dir(
                    buf@,
                    dir.entry_index as int,
                    max_entries as int,
                    d0.pattern@,
                    d0.pat_len as int,
                ),
            decreases max_entries - dir.entry_index,
        {
            let idx = dir.entry_index as usize;
            let offset = idx * 32;
            dir.entry_index = dir.entry_index + 1;
            if buf[offset] == 0 {
                dir.ended = true;
                return Ok(false);
            }
            let attr = buf[offset + 11];
            if buf[offset] == 0xE5 || attr == ATTR_LFN || attr & ATTR_VOLUME != 0 {
                continue;
            }
            let e = entry_bytes(&buf, offset);
            proof {
                assert(e@ =~= entry_at(buf@, idx as int));
            }
            match read_dir_entry_name(&e) {
                Some(name) => {
                    if dir.pat_len == 0 || match_pattern(&name, &dir.pattern, dir.pat_len) {
                        *out_name = name;
                        return Ok(true);
                    }
                },
                None => {},
            }
        }
    }
}

/// Opens a listing of `path` that shows only names matching `pattern` (its
/// first 11 bytes; see [`matches_pattern`]).
pub fn f_findfirst<D: BlockDevice>(vol: &FatVolume<D>, path: &str, pattern: &[u8]) -> (r: FResult<Dir>)
    requires
        vol.wf(),
    ensures
        r matches Ok(d) ==> (vol.resolve(path.spec_bytes()) matches Walk::Done(c, _) && c == d.start_cluster)
            && d.current_cluster == d.start_cluster && d.entry_index == 0 && !d.ended && d.sector_in_cluster == 0
            && d.pat_len == (if pattern@.len() < 11 { pattern@.len() } else { 11 })
            && d.pattern@.subrange(0, d.pat_len as int) == pattern@.subrange(0, d.pat_len as int),
        r matches Err(e) ==> e == FError::DiskErr || (e == FError::NoPath && vol.resolve(path.spec_bytes()) is NoPath),
        root_only(path.spec_bytes()) ==> r is Ok,
        vol.resolve(path.spec_bytes()) is NoPath ==> (r matches Err(e) && (e == FError::NoPath || e == FError::DiskErr)),
{
    let mut dir = match f_opendir(vol, path) {
        Ok(d) => d,
        Err(e) => {
            return Err(e);
        },
    };
    let pat_len = if pattern.len() < 11 { pattern.len() } else { 11 };
    let ghost d0 = dir;
    let mut i: usize = 0;
    while i < pat_len
        invariant
            dir.start_cluster == d0.start_cluster,
            dir.current_cluster == d0.current_cluster,
            dir.entry_index == d0.entry_index,
            dir.ended == d0.ended,
            dir.sector_in_cluster == d0.sector_in_cluster,
            pat_len <= 11,
            pat_len <= pattern@.len(),
            i <= pat_len,
            forall|j: int| 0 <= j < i ==> dir.pattern@[j] == pattern@[j],
        decreases pat_len - i,
    {
        dir.pattern[i] = pattern[i];
        i = i + 1;
    }
    dir.pat_len = pat_len as u8;
    proof {
        assert(dir.pattern@.subrange(0, pat_len as int) =~= pattern@.subrange(0, pat_len as int));
    }
    Ok(dir)
}

/// The next matching entry of a listing (see [`f_readdir`]).
pub fn f_findnext<D: BlockDevice>(vol: &FatVolume<D>, dir: &mut Dir, out_name: &mut [u8; 13]) -> (r: FResult<bool>)
    requires
        vol.wf(),
        old(dir).pat_len <= 11,
    ensures
        final(dir).start_cluster == old(dir).start_cluster,
        final(dir).pattern == old(dir).pattern,
        final(dir).pat_len == old(dir).pat_len,
        old(dir).ended ==> r == Ok::<bool, FError>(false) && *final(dir) == *old(dir),
        r matches Ok(false) ==> final(dir).ended && final(out_name)@ == old(out_name)@,
        r matches Ok(true) ==> {
            let buf = vol.cluster_bytes(final(dir).current_cluster as int);
            let i = final(dir).entry_index - 1;
            &&& 0 <= i < vol.cluster_size() / 32
            &&& listed(buf, i)
            &&& final(out_name)@ == pad(entry_name(entry_at(buf, i)), 13)
            &&& matches_pattern(final(out_name)@, old(dir).pattern@, old(dir).pat_len as int)
            &&& !final(dir).ended
        },
        r matches Err(e) ==> e == FError::DiskErr,
        !old(dir).ended && r is Ok ==> match readdir_walk(
            *vol,
            old(dir).current_cluster as int,
            old(dir).entry_index as int,
            old(dir).pattern@,
            old(dir).pat_len as int,
            vol.max_cluster() as nat,
        ) {
            DirStep::Hit(c, k) => r == Ok::<bool, FError>(true) && final(dir).current_cluster == c && final(dir).entry_index
                == k,
            DirStep::Ended(c, k) => r == Ok::<bool, FError>(false) && final(dir).ended && final(dir).current_cluster == c
                && final(dir).entry_index == k,
            DirStep::ChainEnded(c) => r == Ok::<bool, FError>(false) && final(dir).ended && final(dir).current_cluster == c
                && final(dir).entry_index == 0,
            DirStep::Corrupt => false,
        },
{
    f_readdir(vol, dir, out_name)
}

/// Free clusters and total data clusters of the volume.
pub fn f_getfree<D: BlockDevice>(vol: &FatVolume<D>) -> (r: FResult<(u32, u32)>)
    requires
        vol.wf(),
    ensures
        r matches Ok((free, total)) ==> free == vol.free_count(2, vol.max_cluster()) && total == vol.max_cluster() - 2,
        r matches Err(e) ==> e == FError::DiskErr,
{
    let max = vol.fat_entries();
    let free = match vol.count_free_clusters() {
        Ok(n) => n,
        Err(e) => {
            return Err(e);
        },
    };
    Ok((free, max - 2))
}

/// The current directory path (as [`f_chdir`] last set it), NUL-terminated
/// in `buf` when room remains; `/` when it is empty.
pub fn f_getcwd<D: BlockDevice>(vol: &FatVolume<D>, buf: &mut Vec<u8>) -> (r: FResult<()>)
    requires
        old(buf)@.len() >= 1,
    ensures
        r is Ok,
        final(buf)@.len() == old(buf)@.len(),
        ({
            let cwd = vol.cwd_path@;
            let len = prefix_len_before(cwd, 0);
            let n = if len < old(buf)@.len() { len } else { old(buf)@.len() as int };
            if len > 0 {
                &&& final(buf)@.subrange(0, n) == cwd.subrange(0, n)
                &&& n < old(buf)@.len() ==> final(buf)@[n] == 0
            } else {
                &&& final(buf)@[0] == 47
                &&& old(buf)@.len() > 1 ==> final(buf)@[1] == 0
            }
        }),
{
    let cwd = vol.cwd_path.as_slice();
    let len = position_of(cwd, 0);
    if len > 0 {
        let n = if len < buf.len() { len } else { buf.len() };
        let mut i: usize = 0;
        while i < n
            invariant
                n <= buf@.len(),
                n <= cwd@.len(),
                buf@.len() == old(buf)@.len(),
                i <= n,
                forall|j: int| 0 <= j < i ==> buf@[j] == cwd@[j],
            decreases n - i,
        {
            buf.set(i, cwd[i]);
            i = i + 1;
        }
        if n < buf.len() {
            buf.set(n, 0);
        }
        proof {
            assert(buf@.subrange(0, n as int) =~= cwd@.subrange(0, n as int));
        }
    } else {
        buf.set(0, 47);
        if buf.len() > 1 {
            buf.set(1, 0);
        }
    }
    Ok(())
}

/// Changes the current directory to the one `path` resolves to; the
/// remembered path becomes `path` (at most 255 bytes).
pub fn f_chdir<D: BlockDevice>(vol: &mut FatVolume<D>, path: &str) -> (r: FResult<()>)
    requires
        old(vol).wf(),
    ensures
        final(vol).wf(),
        final(vol).dev == old(vol).dev,
        r matches Err(e) ==> *final(vol) == *old(vol) && (e == FError::DiskErr || (e == FError::NoPath && old(vol).resolve(
            path.spec_bytes(),
        ) is NoPath)),
        r is Ok ==> {
            let p = path.spec_bytes();
            let n = if p.len() < 255 { p.len() as int } else { 255 };
            &&& (old(vol).resolve(p) matches Walk::Done(c, _) && c == final(vol).cwd_cluster)
            &&& final(vol).cwd_path@ == p.subrange(0, n)
        },
{
    let pb = path.as_bytes();
    let (c, _start) = match vol.resolve_path(pb) {
        Ok(x) => x,
        Err(e) => {
            return Err(e);
        },
    };
    let n = if pb.len() < 255 { pb.len() } else { 255 };
    vol.cwd_cluster = c;
    vol.cwd_path = copy_range(pb, 0, n);
    Ok(())
}

} // verus!
