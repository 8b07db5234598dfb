//! Directory search, free-slot search and path resolution.
use vstd::prelude::*;
use crate::block::BlockDevice;
use super::volume::{ATTR_LFN, ATTR_VOLUME, END_OF_CHAIN, FError, FResult, FatVolume};
use super::names::{entry_cluster, entry_name, name_matches, pad, read_dir_entry_name, read_entry_cluster, names_match};

verus! {

/// Outcome of scanning the entries of one directory cluster.
pub enum Scan {
    /// The entry with this index matches.
    Found(int),
    /// An end-of-directory marker was reached first.
    End,
    /// No entry of the cluster matched; the directory goes on.
    Next,
}

/// The 32 bytes of entry `i` of directory cluster `buf`.
pub open spec fn entry_at(buf: Seq<u8>, i: int) -> Seq<u8> {
    buf.subrange(32 * i, 32 * i + 32)
}

/// Scanning directory cluster `buf` from entry `i` for `target`: long-name
/// and volume-label entries are skipped, a first byte of 0 ends the
/// directory, deleted entries (0xE5) are skipped, and an entry whose name
/// matches `target` (see [`name_matches`]) is found.
pub open spec fn scan_dir(buf: Seq<u8>, target: Seq<u8>, i: int) -> Scan
    decreases buf.len() / 32 - i,
{
    if i < 0 || i >= buf.len() / 32 {
        Scan::Next
    } else {
        let o = 32 * i;
        let attr = buf[o + 11];
        if attr == ATTR_LFN || attr & ATTR_VOLUME != 0 {
            scan_dir(buf, target, i + 1)
        } else if buf[o] == 0 {
            Scan::End
        } else if buf[o] == 0xE5 {
            scan_dir(buf, target, i + 1)
        } else if entry_name(entry_at(buf, i)).len() > 0 && name_matches(pad(entry_name(entry_at(buf, i)), 13), target) {
            Scan::Found(i)
        } else {
            scan_dir(buf, target, i + 1)
        }
    }
}

/// Outcome of looking a name up in a directory.
pub enum Lookup {
    /// Found in the cluster (first) at the entry index (second).
    Found(int, int),
    /// Not in the directory.
    Missing,
    /// The directory's chain is longer than the FAT (a cycle).
    Corrupt,
}

/// Outcome of looking for a free directory slot.
pub enum Slot {
    /// The free slot: cluster and entry index.
    At(int, int),
    /// The chain ended with no free slot.
    Full,
    /// The directory's chain is longer than the FAT (a cycle).
    Corrupt,
}

/// Outcome of resolving a path.
pub enum Walk {
    /// The parent directory's cluster and where the final name starts.
    Done(int, int),
    /// A directory on the way does not exist.
    NoPath,
    /// A directory chain on the way is cyclic.
    Corrupt,
}

/// Index of the first `/` at or after `i` in `p`, or `p.len()`.
pub open spec fn next_slash(p: Seq<u8>, i: int) -> int
    decreases p.len() - i,
{
    if i >= p.len() || p[i] == 47 {
        i
    } else {
        next_slash(p, i + 1)
    }
}

/// First entry index at or after `i` of directory cluster `buf` that is free
/// (first byte 0 or 0xE5), if any.
pub open spec fn first_free(buf: Seq<u8>, i: int) -> Option<int>
    decreases buf.len() / 32 - i,
{
    if i < 0 || i >= buf.len() / 32 {
        None
    } else if buf[32 * i] == 0 || buf[32 * i] == 0xE5 {
        Some(i)
    } else {
        first_free(buf, i + 1)
    }
}

proof fn lemma_next_slash(p: Seq<u8>, i: int)
    requires
        0 <= i <= p.len(),
    ensures
        i <= next_slash(p, i) <= p.len(),
        forall|j: int| i <= j < next_slash(p, i) ==> p[j] != 47,
        next_slash(p, i) < p.len() ==> p[next_slash(p, i)] == 47,
    decreases p.len() - i,
{
    if i < p.len() && p[i] != 47 {
        lemma_next_slash(p, i + 1);
    }
}

impl<D: BlockDevice> FatVolume<D> {
    /// Looks `target` up in the directory starting at `cluster`, following
    /// its chain for at most `fuel` clusters.
    pub open spec fn lookup(&self, cluster: int, target: Seq<u8>, fuel: nat) -> Lookup
        decreases fuel,
    {
        if !(2 <= cluster < END_OF_CHAIN) {
            Lookup::Missing
        } else if fuel == 0 {
            Lookup::Corrupt
        } else {
            match scan_dir(self.cluster_bytes(cluster), target, 0) {
                Scan::Found(i) => Lookup::Found(cluster, i),
                Scan::End => Lookup::Missing,
                Scan::Next => self.lookup(self.fat_entry(cluster), target, (fuel - 1) as nat),
            }
        }
    }

    /// The first free slot of the directory starting at `cluster`, following
    /// its chain for at most `fuel` clusters.
    pub open spec fn free_slot(&self, cluster: int, fuel: nat) -> Slot
        decreases fuel,
    {
        if fuel == 0 {
            Slot::Corrupt
        } else {
            match first_free(self.cluster_bytes(cluster), 0) {
                Some(i) => Slot::At(cluster, i),
                None => if self.fat_entry(cluster) >= END_OF_CHAIN {
                    Slot::Full
                } else {
                    self.free_slot(self.fat_entry(cluster), (fuel - 1) as nat)
                },
            }
        }
    }

    /// Resolves path `p` from byte `i` in directory `cluster`: empty
    /// components are skipped, every component followed by a `/` must name a
    /// directory entry whose start cluster becomes the current directory, and
    /// the final component is the name.
    pub open spec fn walk(&self, p: Seq<u8>, i: int, cluster: int) -> Walk
        decreases p.len() - i,
    {
        if i < 0 || i > p.len() {
            Walk::Done(cluster, p.len() as int)
        } else {
            let s = next_slash(p, i);
            if s >= p.len() {
                Walk::Done(cluster, i)
            } else if s <= i {
                self.walk(p, i + 1, cluster)
            } else {
                match self.lookup(cluster, p.subrange(i, s), self.max_cluster() as nat) {
                    Lookup::Found(c, e) => self.walk(p, s + 1, entry_cluster(self.cluster_bytes(c), 32 * e)),
                    Lookup::Missing => Walk::NoPath,
                    Lookup::Corrupt => Walk::Corrupt,
                }
            }
        }
    }

    /// Resolves path `p` from the root directory.
    pub open spec fn resolve(&self, p: Seq<u8>) -> Walk {
        self.walk(p, 0, self.root_cluster as int)
    }

    /// Scans directory cluster `buf` for `target` from entry 0.
    fn scan_cluster(buf: &Vec<u8>, target: &[u8]) -> (r: ScanOutcome)
        requires
            buf@.len() % 32 == 0,
        ensures
            r matches ScanOutcome::Found(i) ==> scan_dir(buf@, target@, 0) == Scan::Found(i as int) && i < buf@.len() / 32,
            r is End ==> scan_dir(buf@, target@, 0) is End,
            r is Next ==> scan_dir(buf@, target@, 0) is Next,
    {
        let n = buf.len() / 32;
        let mut i: usize = 0;
        while i < n
            invariant
                n == buf@.len() / 32,
                buf@.len() % 32 == 0,
                buf@.len() <= usize::MAX,
                i <= n,
                scan_dir(buf@, target@, 0) == scan_dir(buf@, target@, i as int),
            decreases n - i,
        {
            proof {
                assert(i * 32 + 32 <= n * 32) by (nonlinear_arith)
                    requires
                        i < n,
                ;
            }
            let o = i * 32;
            let attr = buf[o + 11];
            if attr == ATTR_LFN || attr & ATTR_VOLUME != 0 {
                i = i + 1;
                continue;
            }
            if buf[o] == 0 {
                return ScanOutcome::End;
            }
            if buf[o] == 0xE5 {
                i = i + 1;
                continue;
            }
            let e = entry_bytes(buf, o);
            proof {
                assert(e@ =~= entry_at(buf@, i as int));
            }
            match read_dir_entry_name(&e) {
                Some(name) => {
                    if names_match(&name, target) {
                        return ScanOutcome::Found(i);
                    }
                },
                None => {},
            }
            i = i + 1;
        }
        ScanOutcome::Next
    }

    /// The directory entry for `target` in the directory starting at
    /// `dir_cluster`: its cluster and entry index, or `None` when absent.
    pub fn find_entry_in_dir(&self, dir_cluster: u32, target: &[u8]) -> (r: FResult<Option<(u32, u16)>>)
        requires
            self.wf(),
        ensures
            r matches Ok(None) ==> self.lookup(dir_cluster as int, target@, self.max_cluster() as nat) is Missing,
            r matches Ok(Some((c, i))) ==> self.lookup(dir_cluster as int, target@, self.max_cluster() as nat) == Lookup::Found(
                c as int,
                i as int,
            ) && i * 32 + 32 <= self.cluster_size(),
            r matches Err(e) ==> e == FError::DiskErr,
    {
        let cs = self.sectors_per_cluster as usize * 512;
        let mut buf: Vec<u8> = vec![0u8; cs];
        let budget = self.fat_entries();
        let mut cluster = dir_cluster;
        let mut fuel: u32 = budget;
        while cluster >= 2 && cluster < END_OF_CHAIN
            invariant
                self.wf(),
                cs == self.cluster_size(),
                buf@.len() == cs,
                budget == self.max_cluster(),
                self.lookup(dir_cluster as int, target@, budget as nat) == self.lookup(cluster as int, target@, fuel as nat),
            decreases fuel,
        {
            if fuel == 0 {
                return Err(FError::DiskErr);
            }
            match self.read_cluster(cluster, &mut buf) {
                Ok(()) => {},
                Err(e) => {
                    return Err(e);
                },
            }
            match Self::scan_cluster(&buf, target) {
                ScanOutcome::Found(i) => {
                    return Ok(Some((cluster, i as u16)));
                },
                ScanOutcome::End => {
                    return Ok(None);
                },
                ScanOutcome::Next => {},
            }
            let next = match self.read_fat_entry(cluster) {
                Ok(v) => v,
                Err(e) => {
                    return Err(e);
                },
            };
            cluster = next;
            fuel = fuel - 1;
        }
        Ok(None)
    }

    /// The first free directory slot of the directory starting at `dir`: its
    /// cluster, the byte offset of the slot and the cluster's bytes. A
    /// directory whose chain ends without a free slot gives `DiskErr`.
    pub fn find_free_slot(&self, dir: u32) -> (r: FResult<(u32, usize, Vec<u8>)>)
        requires
            self.wf(),
        ensures
            r matches Ok((c, off, buf)) ==> self.free_slot(dir as int, self.max_cluster() as nat) == Slot::At(
                c as int,
                (off / 32) as int,
            ) && off % 32 == 0 && off + 32 <= self.cluster_size() && buf@ == self.cluster_bytes(c as int)
                && self.cluster_addressable(c as int) && self.cluster_lba(c as int) + self.sectors_per_cluster
                <= self.disk().len(),
            r matches Err(e) ==> e == FError::DiskErr,
    {
        let cs = self.sectors_per_cluster as usize * 512;
        let budget = self.fat_entries();
        let mut slot_cluster = dir;
        let mut fuel: u32 = budget;
        loop
            invariant
                self.wf(),
                cs == self.cluster_size(),
                budget == self.max_cluster(),
                self.free_slot(dir as int, budget as nat) == self.free_slot(slot_cluster as int, fuel as nat),
            decreases fuel,
        {
            if fuel == 0 {
                return Err(FError::DiskErr);
            }
            let mut buf: Vec<u8> = vec![0u8; cs];
            match self.read_cluster(slot_cluster, &mut buf) {
                Ok(()) => {},
                Err(e) => {
                    return Err(e);
                },
            }
            let n = cs / 32;
            let mut i: usize = 0;
            while i < n
                invariant
                    self.wf(),
                    n == buf@.len() / 32,
                    buf@.len() == cs,
                    cs == self.cluster_size(),
                    cs % 32 == 0,
                    i <= n,
                    fuel > 0,
                    budget == self.max_cluster(),
                    self.free_slot(dir as int, budget as nat) == self.free_slot(slot_cluster as int, fuel as nat),
                    buf@ == self.cluster_bytes(slot_cluster as int),
                    self.cluster_addressable(slot_cluster as int),
                    self.cluster_lba(slot_cluster as int) + self.sectors_per_cluster <= self.disk().len(),
                    first_free(buf@, 0) == first_free(buf@, i as int),
                decreases n - i,
            {
                proof {
                    assert(i * 32 + 32 <= n * 32) by (nonlinear_arith)
                        requires
                            i < n,
                    ;
                }
                if buf[i * 32] == 0 || buf[i * 32] == 0xE5 {
                    proof {
                        assert((i * 32) / 32 == i);
                    }
                    return Ok((slot_cluster, i * 32, buf));
                }
                i = i + 1;
            }
            let next = match self.read_fat_entry(slot_cluster) {
                Ok(v) => v,
                Err(e) => {
                    return Err(e);
                },
            };
            if next >= END_OF_CHAIN {
                return Err(FError::DiskErr);
            }
            slot_cluster = next;
            fuel = fuel - 1;
        }
    }

    /// Resolves `path` from the root: the parent directory's cluster and the
    /// byte index where the final name starts (it runs to the end of `path`).
    pub fn resolve_path(&self, path: &[u8]) -> (r: FResult<(u32, usize)>)
        requires
            self.wf(),
        ensures
            r matches Ok((c, i)) ==> self.resolve(path@) == Walk::Done(c as int, i as int) && i <= path@.len(),
            r matches Err(e) ==> e == FError::DiskErr || (e == FError::NoPath && self.resolve(path@) is NoPath),
            root_only(path@) ==> r == Ok::<(u32, usize), FError>((self.root_cluster, path@.len() as usize)),
    {
        let len = path.len();
        let mut cluster = self.root_cluster;
        let mut i: usize = 0;
        loop
            invariant
                self.wf(),
                len == path@.len(),
                i <= len,
                self.resolve(path@) == self.walk(path@, i as int, cluster as int),
                root_only(path@) ==> cluster == self.root_cluster,
            decreases len - i,
        {
            let mut s = i;
            while s < len && path[s] != 47
                invariant
                    i <= s <= len,
                    len == path@.len(),
                    forall|j: int| i <= j < s ==> path@[j] != 47,
                decreases len - s,
            {
                s = s + 1;
            }
            proof {
                lemma_next_slash(path@, i as int);
                lemma_next_slash_is(path@, i as int, s as int);
            }
            if s >= len {
                return Ok((cluster, i));
            }
            if s == i {
                i = i + 1;
                continue;
            }
            proof {
                if root_only(path@) {
                    assert(path@[i as int] == 47);
                }
            }
            let comp = crate::text::copy_range(path, i, s);
            match self.find_entry_in_dir(cluster, comp.as_slice()) {
                Ok(Some((dc, idx))) => {
                    let cs = self.sectors_per_cluster as usize * 512;
                    let mut buf: Vec<u8> = vec![0u8; cs];
                    match self.read_cluster(dc, &mut buf) {
                        Ok(()) => {},
                        Err(e) => {
                            return Err(e);
                        },
                    }
                    cluster = read_entry_cluster(buf.as_slice(), idx as usize * 32);
                },
                Ok(None) => {
                    return Err(FError::NoPath);
                },
                Err(e) => {
                    return Err(e);
                },
            }
            i = s + 1;
        }
    }
}

/// Every byte of `p` is `/`: a path that names the root directory alone.
pub open spec fn root_only(p: Seq<u8>) -> bool {
    forall|j: int| 0 <= j < p.len() ==> p[j] == 47
}

/// Exec form of [`Scan`].
pub enum ScanOutcome {
    Found(usize),
    End,
    Next,
}

/// Copy of the 32-byte directory entry at byte `o` of `buf`.
pub fn entry_bytes(buf: &Vec<u8>, o: usize) -> (e: [u8; 32])
    requires
        o + 32 <= buf@.len(),
    ensures
        e@ == buf@.subrange(o as int, o + 32),
{
    let _n = buf.len();
    let mut e = [0u8; 32];
    let mut k: usize = 0;
    while k < 32
        invariant
            o + 32 <= buf@.len(),
            buf@.len() <= usize::MAX,
            k <= 32,
            forall|t: int| 0 <= t < k ==> e@[t] == buf@[o + t],
        decreases 32 - k,
    {
        e[k] = buf[o + k];
        k = k + 1;
    }
    proof {
        assert(e@ =~= buf@.subrange(o as int, o + 32));
    }
    e
}

proof fn lemma_next_slash_is(p: Seq<u8>, i: int, s: int)
    requires
        0 <= i <= s <= p.len(),
        forall|j: int| i <= j < s ==> p[j] != 47,
        s < p.len() ==> p[s] == 47,
    ensures
        next_slash(p, i) == s,
    decreases s - i,
{
    if i < s {
        lemma_next_slash_is(p, i + 1, s);
    }
}

} // verus!
