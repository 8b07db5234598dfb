//! Creating directories, removing and renaming entries, entry attributes
//! and times, and the volume label.
use vstd::prelude::*;
use crate::block::BlockDevice;
use crate::text::copy_range;
use super::volume::{ATTR_DIRECTORY, ATTR_LFN, ATTR_VOLUME, CHAIN_END, END_OF_CHAIN, FError, FResult, FatVolume};
use super::names::{dot_index, encode_83, encode_name_83, read_entry_cluster, entry_cluster};
use super::lookup::{Lookup, Slot, Walk, root_only};
use super::file::{path_lookup, same_geometry, chain_ends_after, chain_freed, chain_at, on_chain, same_data, lemma_chain_ends_agree};
use super::runs::{patched, regular, lemma_fat_before_data, lemma_div_below, lemma_clusters_apart};
use vstd::string::StringSliceAdditionalSpecFns;

verus! {

/// The final component of `path` once resolved (empty when the path ends in
/// `/` or names the root).
pub open spec fn final_name<D: BlockDevice>(v: FatVolume<D>, path: Seq<u8>) -> Seq<u8> {
    match v.resolve(path) {
        Walk::Done(_, i) => path.subrange(i, path.len() as int),
        _ => Seq::empty(),
    }
}

/// `e` with the start cluster `c` stored at the entry at `off`: the low
/// 16 bits at 0x1A, the high 16 bits at 0x14, each little endian.
pub open spec fn with_cluster(e: Seq<u8>, off: int, c: int) -> Seq<u8> {
    e.update(off + 0x1A, ((c % 65536) % 256) as u8).update(off + 0x1B, ((c % 65536) / 256) as u8).update(
        off + 0x14,
        ((c / 65536) % 256) as u8,
    ).update(off + 0x15, ((c / 65536) / 256) as u8)
}

fn put_cluster_fields(buf: &mut Vec<u8>, off: usize, c: u32)
    requires
        off + 32 <= old(buf)@.len(),
    ensures
        final(buf)@ == with_cluster(old(buf)@, off as int, c as int),
{
    let _l = buf.len();
    let lo = c % 65536;
    let hi = c / 65536;
    buf.set(off + 0x1A, (lo % 256) as u8);
    buf.set(off + 0x1B, (lo / 256) as u8);
    buf.set(off + 0x14, (hi % 256) as u8);
    buf.set(off + 0x15, (hi / 256) as u8);
}

fn fill(buf: &mut Vec<u8>, lo: usize, hi: usize, b: u8)
    requires
        lo <= hi <= old(buf)@.len(),
    ensures
        final(buf)@.len() == old(buf)@.len(),
        forall|i: int| lo <= i < hi ==> final(buf)@[i] == b,
        forall|i: int| 0 <= i < old(buf)@.len() && !(lo <= i < hi) ==> final(buf)@[i] == old(buf)@[i],
{
    let mut i = lo;
    while i < hi
        invariant
            lo <= i <= hi <= buf@.len(),
            buf@.len() == old(buf)@.len(),
            forall|j: int| lo <= j < i ==> buf@[j] == b,
            forall|j: int| 0 <= j < old(buf)@.len() && !(lo <= j < i) ==> buf@[j] == old(buf)@[j],
        decreases hi - i,
    {
        buf.set(i, b);
        i = i + 1;
    }
}

/// The 11 name bytes a new directory entry for `name` gets over the bytes
/// `slot` its slot held: the bytes before the first dot (at most 8), space
/// padded to 8; then, when there is a dot, the (at most 3) bytes after it,
/// space padded; without a dot, three spaces for a name longer than 8
/// bytes, else the slot's own bytes.
pub open spec fn dir_name_bytes(slot: Seq<u8>, name: Seq<u8>) -> Seq<u8> {
    let d = match dot_index(name) {
        Some(d) => d,
        None => name.len() as int,
    };
    let base = if d < 8 {
        d
    } else {
        8
    };
    Seq::new(
        11,
        |k: int|
            if k < base {
                name[k]
            } else if k < 8 {
                32u8
            } else if d < name.len() {
                if d + 1 + (k - 8) < name.len() {
                    name[d + 1 + (k - 8)]
                } else {
                    32u8
                }
            } else if name.len() > 8 {
                32u8
            } else {
                slot[k]
            },
    )
}

/// Writes the name bytes of a new directory `name` (at most 11 bytes) into
/// the entry at `off`, as [`dir_name_bytes`] says.
fn put_dir_name(pb: &mut Vec<u8>, off: usize, name: &[u8])
    requires
        off + 32 <= old(pb)@.len(),
        name@.len() <= 11,
    ensures
        final(pb)@ == patched(old(pb)@, off as int, dir_name_bytes(old(pb)@.subrange(off as int, off + 11), name@)),
{
    let ghost p0 = pb@;
    let _l = pb.len();
    let len = name.len();
    let mut i: usize = 0;
    while i < len && i < 8 && name[i] != 46
        invariant
            off + 32 <= pb@.len(),
            pb@.len() == p0.len(),
            pb@.len() <= usize::MAX,
            i <= 8,
            i <= len,
            len == name@.len(),
            forall|k: int| 0 <= k < i ==> name@[k] != 46,
            forall|k: int| 0 <= k < i ==> #[trigger] pb@[off + k] == name@[k],
            forall|t: int| 0 <= t < p0.len() && !(off <= t < off + i) ==> #[trigger] pb@[t] == p0[t],
        decreases 8 - i,
    {
        pb.set(off + i, name[i]);
        i = i + 1;
    }
    let ghost pl = pb@;
    if len > 8 {
        pb.set(off + 8, 32);
        pb.set(off + 9, 32);
        pb.set(off + 10, 32);
    }
    let ghost p1 = pb@;
    fill(pb, off + i, off + 8, 32);
    let mut dot: usize = 0;
    while dot < len && name[dot] != 46
        invariant
            dot <= len == name@.len(),
            forall|j: int| 0 <= j < dot ==> name@[j] != 46,
        decreases len - dot,
    {
        dot = dot + 1;
    }
    proof {
        if dot < len {
            let c = choose|k: int| 0 <= k < name@.len() && name@[k] == 46 && forall|j: int| 0 <= j < k ==> name@[j] != 46;
            assert(0 <= dot < name@.len() && name@[dot as int] == 46);
            if c < dot {
            } else if c > dot {
                assert(name@[dot as int] != 46);
            }
            assert(dot_index(name@) == Some(dot as int));
        } else {
            assert(dot_index(name@) is None);
        }
        assert(i == (if dot < 8 { dot } else { 8 })) by {
            if i < 8 && i < len {
                assert(name@[i as int] == 46);
            }
        }
    }
    let ghost p2 = pb@;
    if dot < len {
        let mut j: usize = 0;
        while j < 3
            invariant
                off + 32 <= pb@.len(),
                pb@.len() == p0.len(),
                pb@.len() <= usize::MAX,
                dot < len == name@.len(),
                len <= 11,
                j <= 3,
                forall|t: int| 0 <= t < p0.len() && !(off + 8 <= t < off + 8 + j) ==> #[trigger] pb@[t] == p2[t],
                forall|t: int|
                    0 <= t < j ==> #[trigger] pb@[off + 8 + t] == (if dot + 1 + t < len {
                        name@[dot + 1 + t]
                    } else {
                        32u8
                    }),
            decreases 3 - j,
        {
            if dot + 1 + j < len {
                pb.set(off + 8 + j, name[dot + 1 + j]);
            } else {
                pb.set(off + 8 + j, 32);
            }
            j = j + 1;
        }
    }
    proof {
        let want = patched(p0, off as int, dir_name_bytes(p0.subrange(off as int, off + 11), name@));
        assert forall|t: int| 0 <= t < p0.len() implies #[trigger] pb@[t] == want[t] by {
            if off <= t < off + 8 {
                assert(pb@[t] == p2[t]);
                if t < off + i {
                    assert(pl[off + (t - off)] == name@[t - off]);
                    assert(p1[t] == pl[t]);
                }
            } else if off + 8 <= t < off + 11 {
                if dot < len {
                    assert(pb@[off + 8 + (t - off - 8)] == (if dot + 1 + (t - off - 8) < len {
                        name@[dot + 1 + (t - off - 8)]
                    } else {
                        32u8
                    }));
                } else if len > 8 {
                    assert(pb@[t] == p2[t]);
                    assert(p1[t] == 32);
                } else {
                    assert(pb@[t] == p2[t]);
                    assert(p1[t] == pl[t]);
                    assert(pl[t] == p0[t]);
                }
            } else {
                assert(pb@[t] == p2[t]);
                assert(p1[t] == pl[t]);
            }
        }
        assert(pb@ =~= want);
    }
}

/// Creates the directory `path`: `Invalid` for an empty name or one longer
/// than 11 bytes, `Exists` when the name is taken. A cluster is allocated
/// and written with the `.` and `..` entries, then the entry is added to the
/// first free slot of the parent.
pub fn f_mkdir<D: BlockDevice>(vol: &mut FatVolume<D>, path: &str) -> (r: FResult<()>)
    requires
        old(vol).wf(),
    ensures
        final(vol).wf(),
        same_geometry(*old(vol), *final(vol)),
        r matches Err(e) ==> e == FError::DiskErr || e == FError::NoPath || e == FError::Invalid || e == FError::Exists
            || e == FError::MkfsAborted,
        r matches Err(e) && e == FError::NoPath ==> old(vol).resolve(path.spec_bytes()) is NoPath && *final(vol)
            == *old(vol),
        old(vol).resolve(path.spec_bytes()) is NoPath ==> (r == Err::<(), FError>(FError::NoPath) || r == Err::<
            (),
            FError,
        >(FError::DiskErr)) && *final(vol) == *old(vol),
        r matches Err(e) && e == FError::Invalid ==> ({
            let n = final_name(*old(vol), path.spec_bytes());
            n.len() == 0 || n.len() > 11
        }) && old(vol).resolve(path.spec_bytes()) is Done && *final(vol) == *old(vol),
        r matches Err(e) && e == FError::Exists ==> path_lookup(*old(vol), path.spec_bytes()) is Found && *final(vol)
            == *old(vol),
        r matches Err(e) && e == FError::MkfsAborted ==> old(vol).all_used(2, old(vol).max_cluster()) && final(vol).disk()
            == old(vol).disk() && path_lookup(*old(vol), path.spec_bytes()) is Missing && ({
            let n = final_name(*old(vol), path.spec_bytes());
            1 <= n.len() <= 11
        }),
        old(vol).resolve(path.spec_bytes()) is Done && ({
            let n = final_name(*old(vol), path.spec_bytes());
            n.len() == 0 || n.len() > 11
        }) ==> (r == Err::<(), FError>(FError::Invalid) || r == Err::<(), FError>(FError::DiskErr)) && *final(vol)
            == *old(vol),
        root_only(path.spec_bytes()) ==> r == Err::<(), FError>(FError::Invalid) && *final(vol) == *old(vol),
        path_lookup(*old(vol), path.spec_bytes()) is Found ==> (r == Err::<(), FError>(FError::Exists) || r == Err::<
            (),
            FError,
        >(FError::DiskErr) || r == Err::<(), FError>(FError::Invalid)) && *final(vol) == *old(vol),
        r is Ok ==> ({
            let n = final_name(*old(vol), path.spec_bytes());
            1 <= n.len() <= 11
        }) && path_lookup(*old(vol), path.spec_bytes()) is Missing && old(vol).resolve(path.spec_bytes()) is Done,
        r is Ok ==> exists|c: int, vm: FatVolume<D>|
            #[trigger] dir_cluster_made(*old(vol), vm, c, resolved_parent(*old(vol), path.spec_bytes())) && dir_entry_added(
                vm,
                *final(vol),
                resolved_parent(*old(vol), path.spec_bytes()),
                final_name(*old(vol), path.spec_bytes()),
                c,
            ),
{
    let pb = path.as_bytes();
    let (parent, start) = match vol.resolve_path(pb) {
        Ok(x) => x,
        Err(e) => {
            return Err(e);
        },
    };
    let name = copy_range(pb, start, pb.len());
    if name.len() == 0 || name.len() > 11 {
        return Err(FError::Invalid);
    }
    match vol.find_entry_in_dir(parent, name.as_slice()) {
        Ok(Some(_)) => {
            return Err(FError::Exists);
        },
        Ok(None) => {},
        Err(e) => {
            return Err(e);
        },
    }
    let ghost v0 = *vol;
    let new_cluster = match vol.alloc_cluster() {
        Ok(c) => c,
        Err(e) => {
            return Err(e);
        },
    };
    let ghost va = *vol;
    let cs = vol.sectors_per_cluster as usize * 512;
    let buf = dot_cluster(cs, new_cluster, parent);
    match vol.write_cluster(new_cluster, &buf) {
        Ok(()) => {},
        Err(e) => {
            return Err(e);
        },
    }
    let ghost vm = *vol;
    proof {
        lemma_dir_cluster_made(v0, va, vm, new_cluster as int, parent as int, buf@);
    }
    let (slot_cluster, off, mut parent_buf) = match vol.find_free_slot(parent) {
        Ok(x) => x,
        Err(e) => {
            return Err(e);
        },
    };
    put_dir_entry(&mut parent_buf, off, name.as_slice(), new_cluster);
    let r = vol.write_cluster(slot_cluster, &parent_buf);
    proof {
        if r is Ok {
            assert(name@ == final_name(v0, path.spec_bytes()));
            assert(resolved_parent(v0, path.spec_bytes()) == parent);
            assert(off == (off / 32) * 32);
            assert(dir_entry_added(vm, *vol, parent as int, name@, new_cluster as int));
            assert(dir_cluster_made(v0, vm, new_cluster as int, parent as int));
        }
    }
    r
}

/// The first cluster of a new directory at cluster `c` in `parent`.
fn dot_cluster(cs: usize, c: u32, parent: u32) -> (buf: Vec<u8>)
    requires
        64 <= cs,
    ensures
        buf@ == dot_entries(cs as nat, c as int, parent as int),
{
    let mut buf: Vec<u8> = vec![0u8; cs];
    buf.set(0, 46);
    fill(&mut buf, 1, 11, 32);
    buf.set(0x0B, ATTR_DIRECTORY);
    put_cluster_fields(&mut buf, 0, c);
    buf.set(32, 46);
    buf.set(33, 46);
    fill(&mut buf, 34, 43, 32);
    buf.set(32 + 0x0B, ATTR_DIRECTORY);
    put_cluster_fields(&mut buf, 32, parent);
    proof {
        assert(buf@ =~= dot_entries(cs as nat, c as int, parent as int));
    }
    buf
}

/// Writes the entry of a new directory `name` at cluster `c` over the slot
/// at `off`.
fn put_dir_entry(pb: &mut Vec<u8>, off: usize, name: &[u8], c: u32)
    requires
        off + 32 <= old(pb)@.len(),
        name@.len() <= 11,
    ensures
        final(pb)@ == patched(old(pb)@, off as int, dir_entry(old(pb)@.subrange(off as int, off + 32), name@, c as int)),
{
    let ghost slot0 = pb@;
    let _l = pb.len();
    put_dir_name(pb, off, name);
    pb.set(off + 0x0B, ATTR_DIRECTORY);
    put_cluster_fields(pb, off, c);
    proof {
        assert(pb@ =~= patched(slot0, off as int, dir_entry(slot0.subrange(off as int, off + 32), name@, c as int)));
    }
}

/// The directory the parent of `path` resolves to.
pub open spec fn resolved_parent<D: BlockDevice>(v: FatVolume<D>, path: Seq<u8>) -> int {
    match v.resolve(path) {
        Walk::Done(c, _) => c,
        _ => 0,
    }
}

/// The first cluster (`size` bytes) of a new directory at cluster `c` in
/// directory `parent`: the `.` entry for `c` and the `..` entry for
/// `parent`, both with the directory attribute; zero elsewhere.
pub open spec fn dot_entries(size: nat, c: int, parent: int) -> Seq<u8> {
    let blank = Seq::new(size, |i: int| 0u8);
    let named = patched(
        patched(blank, 0, seq![46u8] + Seq::new(10, |i: int| 32u8)),
        32,
        seq![46u8, 46u8] + Seq::new(9, |i: int| 32u8),
    );
    with_cluster(with_cluster(named.update(0x0B, 0x10u8).update(32 + 0x0Bint, 0x10u8), 0, c), 32, parent)
}

/// The entry a new directory `name` at cluster `c` gets in a free slot
/// that held `slot`: its name bytes, the directory attribute and the start
/// cluster; the slot's other bytes stay.
pub open spec fn dir_entry(slot: Seq<u8>, name: Seq<u8>, c: int) -> Seq<u8> {
    with_cluster(patched(slot, 0, dir_name_bytes(slot.subrange(0, 11), name)).update(0x0B, 0x10u8), 0, c)
}

/// `vm` is `v0` with cluster `c`, the first free one, allocated as a
/// one-cluster chain and holding the `.` and `..` entries of a directory in
/// `parent`; the other FAT entries below the FAT's size and the rest of the
/// data region are unchanged.
pub open spec fn dir_cluster_made<D: BlockDevice>(v0: FatVolume<D>, vm: FatVolume<D>, c: int, parent: int) -> bool {
    &&& 2 <= c < v0.max_cluster()
    &&& v0.fat_entry(c) == 0
    &&& v0.all_used(2, c)
    &&& vm.fat_entry(c) == CHAIN_END
    &&& forall|x: int|
        0 <= x < v0.max_cluster() && x != c && v0.fat_sector(x) < v0.disk().len() ==> #[trigger] vm.fat_entry(x)
            == v0.fat_entry(x)
    &&& vm.disk().len() == v0.disk().len()
    &&& data_written(v0, vm, c, dot_entries(v0.cluster_size() as nat, c, parent))
}

/// `v` is `vm` with the first free slot of directory `parent` holding the
/// entry of the new directory `name` at cluster `c`, and no other sector
/// changed.
pub open spec fn dir_entry_added<D: BlockDevice>(vm: FatVolume<D>, v: FatVolume<D>, parent: int, name: Seq<u8>, c: int) -> bool {
    match vm.free_slot(parent, vm.max_cluster() as nat) {
        Slot::At(sc, si) => vm.cluster_written(
            v,
            sc,
            patched(vm.cluster_bytes(sc), si * 32, dir_entry(vm.cluster_bytes(sc).subrange(si * 32, si * 32 + 32), name, c)),
        ),
        _ => false,
    }
}

/// Allocating `c` (taking `v0` to `va`) and writing its cluster with the
/// `.` and `..` entries (taking `va` to `vm`) makes the new directory's
/// cluster.
proof fn lemma_dir_cluster_made<D: BlockDevice>(
    v0: FatVolume<D>,
    va: FatVolume<D>,
    vm: FatVolume<D>,
    c: int,
    parent: int,
    data: Seq<u8>,
)
    requires
        v0.wf(),
        same_geometry(v0, va),
        same_geometry(va, vm),
        2 <= c < v0.max_cluster(),
        v0.fat_entry(c) == 0,
        v0.all_used(2, c),
        va.fat_entry(c) == CHAIN_END,
        va.disk().len() == v0.disk().len(),
        v0.num_fats >= 1,
        v0.fat_sector(c) < v0.disk().len(),
        forall|c2: int|
            0 <= c2 < v0.max_cluster() && c2 != c && v0.fat_sector(c2) < v0.disk().len() ==> #[trigger] va.fat_entry(c2)
                == v0.fat_entry(c2),
        forall|i: int| v0.data_region_lba <= i < v0.disk().len() ==> #[trigger] va.disk()[i] == v0.disk()[i],
        va.cluster_written(vm, c, data),
        data == dot_entries(v0.cluster_size() as nat, c, parent),
    ensures
        dir_cluster_made(v0, vm, c, parent),
{
    assert((c - 2) * v0.sectors_per_cluster >= 0) by (nonlinear_arith)
        requires
            c >= 2,
            v0.sectors_per_cluster >= 1,
    ;
    assert forall|x: int| 0 <= x < v0.max_cluster() && (x == c || v0.fat_sector(x) < v0.disk().len()) implies #[trigger] vm.fat_entry(
        x,
    ) == va.fat_entry(x) by {
        lemma_fat_before_data(v0, x);
        assert(vm.disk()[v0.fat_sector(x)] == va.disk()[v0.fat_sector(x)]);
    }
    assert forall|k: int|
        v0.data_region_lba <= k < v0.disk().len() && !(v0.cluster_lba(c) <= k < v0.cluster_lba(c) + v0.sectors_per_cluster) implies #[trigger] vm.disk()[k]
        == v0.disk()[k] by {
        assert(vm.disk()[k] == va.disk()[k]);
    }
}

/// `v1` is `v0` with the entry `path` names removed: the entry marked
/// deleted (first byte 0xE5) and, on a regular volume, the chain of its
/// clusters freed with no other data sector changed.
pub open spec fn unlinked<D: BlockDevice>(v0: FatVolume<D>, v1: FatVolume<D>, path: Seq<u8>) -> bool {
    &&& path_lookup(v0, path) is Found
    &&& final_name(v0, path).len() > 0
    &&& path_lookup(v0, path) matches Lookup::Found(c, i) && {
        let first = entry_cluster(v0.cluster_bytes(c), i * 32);
        let marked = patched(v0.cluster_bytes(c), i * 32, seq![0xE5u8]);
        &&& first < 2 || first >= END_OF_CHAIN ==> v0.cluster_written(v1, c, marked)
        &&& regular(v0) ==> forall|len: nat|
            #[trigger] chain_ends_after(v0, first, len) ==> chain_freed(v0, v1, first, len) && data_written(
                v0,
                v1,
                c,
                marked,
            )
    }
}

/// Removes the entry `path`: `Invalid` for an empty name, `NoFile` when it is
/// missing. The entry is marked deleted, then its cluster chain is freed.
pub fn f_unlink<D: BlockDevice>(vol: &mut FatVolume<D>, path: &str) -> (r: FResult<()>)
    requires
        old(vol).wf(),
    ensures
        final(vol).wf(),
        same_geometry(*old(vol), *final(vol)),
        r matches Err(e) ==> e == FError::DiskErr || e == FError::NoPath || e == FError::Invalid || e == FError::NoFile,
        r matches Err(e) && e == FError::NoPath ==> old(vol).resolve(path.spec_bytes()) is NoPath && *final(vol)
            == *old(vol),
        old(vol).resolve(path.spec_bytes()) is NoPath ==> (r == Err::<(), FError>(FError::NoPath) || r == Err::<
            (),
            FError,
        >(FError::DiskErr)) && *final(vol) == *old(vol),
        old(vol).resolve(path.spec_bytes()) matches Walk::Done(_, i) && i < path.spec_bytes().len() && path_lookup(
            *old(vol),
            path.spec_bytes(),
        ) is Missing ==> (r == Err::<(), FError>(FError::NoFile) || r == Err::<(), FError>(FError::DiskErr))
            && *final(vol) == *old(vol),
        r matches Err(e) && e == FError::Invalid ==> final_name(*old(vol), path.spec_bytes()).len() == 0
            && old(vol).resolve(path.spec_bytes()) is Done && *final(vol) == *old(vol),
        r matches Err(e) && e == FError::NoFile ==> path_lookup(*old(vol), path.spec_bytes()) is Missing && *final(vol)
            == *old(vol),
        r is Ok ==> unlinked(*old(vol), *final(vol), path.spec_bytes()),
        root_only(path.spec_bytes()) ==> r == Err::<(), FError>(FError::Invalid) && *final(vol) == *old(vol),
{
    let pb = path.as_bytes();
    let (parent, start) = match vol.resolve_path(pb) {
        Ok(x) => x,
        Err(e) => {
            return Err(e);
        },
    };
    let name = copy_range(pb, start, pb.len());
    if name.len() == 0 {
        return Err(FError::Invalid);
    }
    let (ec, idx) = match vol.find_entry_in_dir(parent, name.as_slice()) {
        Ok(Some(x)) => x,
        Ok(None) => {
            return Err(FError::NoFile);
        },
        Err(e) => {
            return Err(e);
        },
    };
    let cs = vol.sectors_per_cluster as usize * 512;
    let mut buf: Vec<u8> = vec![0u8; cs];
    match vol.read_cluster(ec, &mut buf) {
        Ok(()) => {},
        Err(e) => {
            return Err(e);
        },
    }
    let off = idx as usize * 32;
    let start_cluster = read_entry_cluster(buf.as_slice(), off);
    let ghost orig = buf@;
    buf.set(off, 0xE5);
    assert(buf@ =~= patched(orig, off as int, seq![0xE5u8]));
    let ghost v0 = *vol;
    match vol.write_cluster(ec, &buf) {
        Ok(()) => {},
        Err(e) => {
            return Err(e);
        },
    }
    let ghost v1 = *vol;
    let r = vol.free_chain(start_cluster);
    proof {
        if r is Ok && regular(v0) {
            lemma_unlink_frees(v0, v1, *vol, ec as int, buf@, start_cluster as int);
        }
    }
    r
}

/// `v` is `v0` with the data cluster `c` rewritten to hold `data` and the
/// rest of the data region unchanged.
pub open spec fn data_written<D: BlockDevice>(v0: FatVolume<D>, v: FatVolume<D>, c: int, data: Seq<u8>) -> bool {
    &&& v.cluster_bytes(c) == data
    &&& forall|k: int|
        v0.data_region_lba <= k < v0.disk().len() && !(v0.cluster_lba(c) <= k < v0.cluster_lba(c) + v0.sectors_per_cluster)
            ==> #[trigger] v.disk()[k] == v0.disk()[k]
}

/// Writing data cluster `c` (taking `v0` to `v1`) leaves the FAT as it was;
/// freeing a chain that ends in `v0` then frees it as [`chain_freed`] says
/// of `v0`, and leaves the data region of `v1`.
proof fn lemma_unlink_frees<D: BlockDevice>(
    v0: FatVolume<D>,
    v1: FatVolume<D>,
    v: FatVolume<D>,
    c: int,
    data: Seq<u8>,
    first: int,
)
    requires
        v0.wf(),
        regular(v0),
        same_geometry(v0, v1),
        v0.cluster_written(v1, c, data),
        same_geometry(v1, v),
        v.disk().len() == v1.disk().len(),
        regular(v1) ==> forall|len: nat|
            #[trigger] chain_ends_after(v1, first, len) ==> chain_freed(v1, v, first, len) && same_data(v1, v),
    ensures
        forall|len: nat|
            #[trigger] chain_ends_after(v0, first, len) ==> chain_freed(v0, v, first, len) && data_written(v0, v, c, data),
{
    assert((c - 2) * v0.sectors_per_cluster >= 0) by (nonlinear_arith)
        requires
            c >= 2,
            v0.sectors_per_cluster >= 1,
    ;
    assert forall|x: int| 0 <= x < v0.max_cluster() implies #[trigger] v1.fat_entry(x) == v0.fat_entry(x) by {
        lemma_fat_before_data(v0, x);
        assert(v1.disk()[v0.fat_sector(x)] == v0.disk()[v0.fat_sector(x)]);
    }
    assert forall|len: nat| #[trigger] chain_ends_after(v0, first, len) implies chain_freed(v0, v, first, len) && data_written(
        v0,
        v,
        c,
        data,
    ) by {
        lemma_chain_ends_agree(v0, v1, first, len);
        assert(chain_freed(v1, v, first, len));
        assert(same_data(v1, v));
        assert forall|j: nat| j < len implies #[trigger] v.fat_entry(chain_at(v0, first, j)) == 0 by {
            assert(chain_at(v1, first, j) == chain_at(v0, first, j));
            assert(v.fat_entry(chain_at(v1, first, j)) == 0);
        }
        assert forall|x: int|
            0 <= x < v0.max_cluster() && v0.fat_sector(x) < v0.disk().len() && !on_chain(v0, first, len, x) implies #[trigger] v.fat_entry(
            x,
        ) == v0.fat_entry(x) by {
            assert(on_chain(v1, first, len, x) == on_chain(v0, first, len, x));
        }
        assert forall|i: int| 0 <= i < v0.cluster_size() implies v.cluster_bytes(c)[i] == data[i] by {
            lemma_div_below(i, 512, v0.sectors_per_cluster as int);
            assert(v.disk()[v0.cluster_lba(c) + i / 512] == v1.disk()[v0.cluster_lba(c) + i / 512]);
            assert(v1.cluster_bytes(c)[i] == data[i]);
        }
        assert(v.cluster_bytes(c) =~= data);
    }
}

/// Moves the entry `old_path` to `new_path`: `NoFile` when the old entry is
/// missing, `Invalid` for an empty new name, `Exists` when it is taken. The
/// entry (with the new 8.3 name and the old attributes, times, cluster and
/// size) goes to the first free slot of the new parent, then the old entry
/// is marked deleted.
#[verifier::rlimit(60)]
#[verifier::spinoff_prover]
pub fn f_rename<D: BlockDevice>(vol: &mut FatVolume<D>, old_path: &str, new_path: &str) -> (r: FResult<()>)
    requires
        old(vol).wf(),
    ensures
        final(vol).wf(),
        same_geometry(*old(vol), *final(vol)),
        r matches Err(e) ==> e == FError::DiskErr || e == FError::NoPath || e == FError::Invalid || e == FError::NoFile
            || e == FError::Exists,
        r matches Err(e) && e == FError::NoFile ==> path_lookup(*old(vol), old_path.spec_bytes()) is Missing,
        r matches Err(e) && e == FError::Invalid ==> final_name(*old(vol), new_path.spec_bytes()).len() == 0
            && path_lookup(*old(vol), old_path.spec_bytes()) is Found,
        r matches Err(e) && e == FError::Exists ==> path_lookup(*old(vol), new_path.spec_bytes()) is Found
            && path_lookup(*old(vol), old_path.spec_bytes()) is Found,
        r matches Err(e) && (e == FError::NoFile || e == FError::Invalid || e == FError::Exists) ==> *final(vol) == *old(vol),
        r is Ok ==> path_lookup(*old(vol), old_path.spec_bytes()) is Found && path_lookup(*old(vol), new_path.spec_bytes())
            is Missing && final_name(*old(vol), new_path.spec_bytes()).len() > 0,
        r is Ok ==> renamed(*old(vol), *final(vol), old_path.spec_bytes(), new_path.spec_bytes()),
{
    let ob = old_path.as_bytes();
    let (op, os) = match vol.resolve_path(ob) {
        Ok(x) => x,
        Err(e) => {
            return Err(e);
        },
    };
    let old_name = copy_range(ob, os, ob.len());
    let (ec, ei) = match vol.find_entry_in_dir(op, old_name.as_slice()) {
        Ok(Some(x)) => x,
        Ok(None) => {
            return Err(FError::NoFile);
        },
        Err(e) => {
            return Err(e);
        },
    };
    let cs = vol.sectors_per_cluster as usize * 512;
    let mut buf: Vec<u8> = vec![0u8; cs];
    match vol.read_cluster(ec, &mut buf) {
        Ok(()) => {},
        Err(e) => {
            return Err(e);
        },
    }
    let eoff = ei as usize * 32;
    let entry = copy_range(buf.as_slice(), eoff, eoff + 32);
    let nb = new_path.as_bytes();
    let (np, ns) = match vol.resolve_path(nb) {
        Ok(x) => x,
        Err(e) => {
            return Err(e);
        },
    };
    let new_name = copy_range(nb, ns, nb.len());
    if new_name.len() == 0 {
        return Err(FError::Invalid);
    }
    match vol.find_entry_in_dir(np, new_name.as_slice()) {
        Ok(Some(_)) => {
            return Err(FError::Exists);
        },
        Ok(None) => {},
        Err(e) => {
            return Err(e);
        },
    }
    let (dc, doff, mut dbuf) = match vol.find_free_slot(np) {
        Ok(x) => x,
        Err(e) => {
            return Err(e);
        },
    };
    let enc = encode_name_83(new_name.as_slice());
    let ghost slot0 = dbuf@;
    let ghost moved = moved_entry(buf@, eoff as int, new_name@);
    assert(entry@ == buf@.subrange(eoff as int, eoff + 32));
    let mut j: usize = 0;
    while j < 32
        invariant
            doff + 32 <= dbuf@.len(),
            dbuf@.len() == cs,
            slot0.len() == cs,
            entry@.len() == 32,
            cs <= 65536,
            j <= 32,
            moved == enc@ + entry@.subrange(11, 32),
            enc@.len() == 11,
            forall|t: int| 0 <= t < cs && !(doff <= t < doff + j) ==> #[trigger] dbuf@[t] == slot0[t],
            forall|t: int| doff <= t < doff + j ==> #[trigger] dbuf@[t] == moved[t - doff],
        decreases 32 - j,
    {
        if j < 11 {
            dbuf.set(doff + j, enc[j]);
        } else {
            dbuf.set(doff + j, entry[j]);
        }
        j = j + 1;
    }
    assert(dbuf@ =~= patched(slot0, doff as int, moved));
    let ghost v0 = *vol;
    match vol.write_cluster(dc, &dbuf) {
        Ok(()) => {},
        Err(e) => {
            return Err(e);
        },
    }
    let ghost v1 = *vol;
    let mut old_buf: Vec<u8> = vec![0u8; cs];
    match vol.read_cluster(ec, &mut old_buf) {
        Ok(()) => {},
        Err(e) => {
            return Err(e);
        },
    }
    let ghost before = old_buf@;
    old_buf.set(eoff, 0xE5);
    assert(old_buf@ =~= patched(before, eoff as int, seq![0xE5u8]));
    let r = vol.write_cluster(ec, &old_buf);
    proof {
        if r is Ok {
            assert(v0 == *old(vol));
            assert(buf@ == v0.cluster_bytes(ec as int));
            assert(nb@ == new_path.spec_bytes());
            assert(new_name@ == final_name(v0, new_path.spec_bytes()));
            assert(path_slot(v0, new_path.spec_bytes()) == Slot::At(dc as int, (doff / 32) as int));
            assert(before == v1.cluster_bytes(ec as int));
            assert(v1.cluster_written(*vol, ec as int, patched(v1.cluster_bytes(ec as int), ei * 32, seq![0xE5u8])));
            assert(doff == (doff / 32) * 32);
            let di = (doff / 32) as int;
            let moved_new = moved_entry(v0.cluster_bytes(ec as int), ei * 32, final_name(v0, new_path.spec_bytes()));
            let with_new = patched(v0.cluster_bytes(dc as int), di * 32, moved_new);
            assert(v0.cluster_written(v1, dc as int, with_new));
            assert(path_lookup(v0, old_path.spec_bytes()) == Lookup::Found(ec as int, ei as int));
            lemma_two_writes(
                v0,
                v1,
                *vol,
                dc as int,
                with_new,
                ec as int,
                patched(v1.cluster_bytes(ec as int), ei * 32, seq![0xE5u8]),
            );
        }
    }
    r
}

/// `v` is `v0` after the entry `old_path` names was moved to `new_path`:
/// first the free slot of the new parent got the entry under its new 8.3
/// name, then the old entry was marked deleted; no sector outside those two
/// clusters changed.
pub open spec fn renamed<D: BlockDevice>(v0: FatVolume<D>, v: FatVolume<D>, old_path: Seq<u8>, new_path: Seq<u8>) -> bool {
    match (path_lookup(v0, old_path), path_slot(v0, new_path)) {
        (Lookup::Found(ec, ei), Slot::At(dc, di)) => {
            let with_new = patched(
                v0.cluster_bytes(dc),
                di * 32,
                moved_entry(v0.cluster_bytes(ec), ei * 32, final_name(v0, new_path)),
            );
            let src = if dc == ec {
                with_new
            } else {
                v0.cluster_bytes(ec)
            };
            &&& dc != ec ==> v.cluster_bytes(dc) == with_new
            &&& v.cluster_bytes(ec) == patched(src, ei * 32, seq![0xE5u8])
            &&& v.disk().len() == v0.disk().len()
            &&& forall|k: int|
                0 <= k < v0.disk().len() && !in_cluster(v0, dc, k) && !in_cluster(v0, ec, k) ==> #[trigger] v.disk()[k]
                    == v0.disk()[k]
        },
        _ => false,
    }
}

/// Sector `k` is one of the sectors of cluster `c`.
pub open spec fn in_cluster<D: BlockDevice>(v: FatVolume<D>, c: int, k: int) -> bool {
    v.cluster_lba(c) <= k < v.cluster_lba(c) + v.sectors_per_cluster
}

/// Two writes of whole clusters, `dc` (taking `v0` to `v1`) then `ec`
/// (taking `v1` to `v`): cluster `ec` in `v1` is what the first write left
/// there, and cluster `dc`, when it is another cluster, keeps what the
/// first write put there.
proof fn lemma_two_writes<D: BlockDevice>(
    v0: FatVolume<D>,
    v1: FatVolume<D>,
    v: FatVolume<D>,
    dc: int,
    d1: Seq<u8>,
    ec: int,
    d2: Seq<u8>,
)
    requires
        v0.wf(),
        same_geometry(v0, v1),
        same_geometry(v1, v),
        v0.cluster_written(v1, dc, d1),
        v1.cluster_written(v, ec, d2),
    ensures
        v1.cluster_bytes(ec) == (if dc == ec {
            d1
        } else {
            v0.cluster_bytes(ec)
        }),
        dc != ec ==> v.cluster_bytes(dc) == d1,
        v.cluster_bytes(ec) == d2,
        v.disk().len() == v0.disk().len(),
        forall|k: int|
            0 <= k < v0.disk().len() && !in_cluster(v0, dc, k) && !in_cluster(v0, ec, k) ==> #[trigger] v.disk()[k] == v0.disk()[k],
{
    let spc = v0.sectors_per_cluster as int;
    if dc != ec {
        assert forall|i: int| 0 <= i < v0.cluster_size() implies v1.cluster_bytes(ec)[i] == v0.cluster_bytes(ec)[i] by {
            lemma_div_below(i, 512, spc);
            let k = v0.cluster_lba(ec) + i / 512;
            assert(!in_cluster(v0, dc, k)) by {
                if in_cluster(v0, dc, k) {
                    lemma_clusters_apart(v0, dc, ec, k - v0.cluster_lba(dc), i / 512);
                }
            }
            assert(v1.disk()[k] == v0.disk()[k]);
        }
        assert(v1.cluster_bytes(ec) =~= v0.cluster_bytes(ec));
        assert forall|i: int| 0 <= i < v0.cluster_size() implies v.cluster_bytes(dc)[i] == d1[i] by {
            lemma_div_below(i, 512, spc);
            let k = v0.cluster_lba(dc) + i / 512;
            assert(!in_cluster(v0, ec, k)) by {
                if in_cluster(v0, ec, k) {
                    lemma_clusters_apart(v0, dc, ec, i / 512, k - v0.cluster_lba(ec));
                }
            }
            assert(v.disk()[k] == v1.disk()[k]);
            assert(v1.cluster_bytes(dc)[i] == d1[i]);
        }
        assert(v.cluster_bytes(dc) =~= d1);
    }
}

/// The free slot where an entry named by `path` would go: in the
/// directory its parent resolves to.
pub open spec fn path_slot<D: BlockDevice>(v: FatVolume<D>, path: Seq<u8>) -> Slot {
    match v.resolve(path) {
        Walk::Done(c, _) => v.free_slot(c, v.max_cluster() as nat),
        _ => Slot::Full,
    }
}

/// The entry at `off` of directory bytes `dir`, renamed to the 8.3 form of
/// `name`: the new name, then the old attributes, times, cluster and size.
pub open spec fn moved_entry(dir: Seq<u8>, off: int, name: Seq<u8>) -> Seq<u8> {
    encode_83(name) + dir.subrange(off + 11, off + 32)
}

/// Rewrites a byte range of the entry `path` names: `NoFile` when missing.
fn patch_entry_at<D: BlockDevice>(vol: &mut FatVolume<D>, path: &[u8], at: usize, bytes: &[u8]) -> (r: FResult<()>)
    requires
        old(vol).wf(),
        at + bytes@.len() <= 32,
    ensures
        final(vol).wf(),
        same_geometry(*old(vol), *final(vol)),
        r matches Err(e) ==> e == FError::DiskErr || e == FError::NoPath || e == FError::NoFile,
        r matches Err(e) && e == FError::NoPath ==> old(vol).resolve(path@) is NoPath && *final(vol) == *old(vol),
        old(vol).resolve(path@) is NoPath ==> (r == Err::<(), FError>(FError::NoPath) || r == Err::<(), FError>(
            FError::DiskErr,
        )) && *final(vol) == *old(vol),
        old(vol).resolve(path@) matches Walk::Done(_, i) && i < path@.len() && path_lookup(*old(vol), path@) is Missing
            ==> (r == Err::<(), FError>(FError::NoFile) || r == Err::<(), FError>(FError::DiskErr)) && *final(vol)
            == *old(vol),
        r matches Err(e) && e == FError::NoFile ==> path_lookup(*old(vol), path@) is Missing && *final(vol) == *old(vol),
        r is Ok ==> (path_lookup(*old(vol), path@) matches Lookup::Found(c, i) && old(vol).cluster_written(
            *final(vol),
            c,
            patched(old(vol).cluster_bytes(c), i * 32 + at, bytes@),
        )),
{
    let (parent, start) = match vol.resolve_path(path) {
        Ok(x) => x,
        Err(e) => {
            return Err(e);
        },
    };
    let name = copy_range(path, start, path.len());
    let (ec, idx) = match vol.find_entry_in_dir(parent, name.as_slice()) {
        Ok(Some(x)) => x,
        Ok(None) => {
            return Err(FError::NoFile);
        },
        Err(e) => {
            return Err(e);
        },
    };
    let cs = vol.sectors_per_cluster as usize * 512;
    let mut buf: Vec<u8> = vec![0u8; cs];
    match vol.read_cluster(ec, &mut buf) {
        Ok(()) => {},
        Err(e) => {
            return Err(e);
        },
    }
    let off = idx as usize * 32;
    let ghost orig = buf@;
    let mut j: usize = 0;
    while j < bytes.len()
        invariant
            off + 32 <= buf@.len(),
            at + bytes@.len() <= 32,
            buf@.len() == cs,
            cs == vol.cluster_size(),
            orig.len() == cs,
            j <= bytes@.len(),
            forall|t: int| 0 <= t < buf@.len() && !(off + at <= t < off + at + j) ==> #[trigger] buf@[t] == orig[t],
            forall|t: int| off + at <= t < off + at + j ==> #[trigger] buf@[t] == bytes@[t - (off + at)],
        decreases bytes@.len() - j,
    {
        buf.set(off + at + j, bytes[j]);
        j = j + 1;
    }
    proof {
        assert(buf@ =~= patched(orig, off + at, bytes@));
    }
    vol.write_cluster(ec, &buf)
}

/// The attribute byte `f_chmod` stores for `attrs`: `attrs` itself, except
/// that the four low bits are cleared where they would all be set, since
/// that combination marks a long-name entry.
pub open spec fn stored_attr(attrs: u8) -> u8 {
    if attrs & ATTR_LFN == ATTR_LFN {
        attrs & !ATTR_LFN
    } else {
        attrs
    }
}

/// Sets the attribute byte of the entry `path` names to [`stored_attr`] of
/// `attrs`: `NoFile` when it is missing.
pub fn f_chmod<D: BlockDevice>(vol: &mut FatVolume<D>, path: &str, attrs: u8) -> (r: FResult<()>)
    requires
        old(vol).wf(),
    ensures
        final(vol).wf(),
        same_geometry(*old(vol), *final(vol)),
        r matches Err(e) ==> e == FError::DiskErr || e == FError::NoPath || e == FError::NoFile,
        r matches Err(e) && e == FError::NoPath ==> old(vol).resolve(path.spec_bytes()) is NoPath && *final(vol)
            == *old(vol),
        old(vol).resolve(path.spec_bytes()) is NoPath ==> (r == Err::<(), FError>(FError::NoPath) || r == Err::<
            (),
            FError,
        >(FError::DiskErr)) && *final(vol) == *old(vol),
        old(vol).resolve(path.spec_bytes()) matches Walk::Done(_, i) && i < path.spec_bytes().len() && path_lookup(
            *old(vol),
            path.spec_bytes(),
        ) is Missing ==> (r == Err::<(), FError>(FError::NoFile) || r == Err::<(), FError>(FError::DiskErr))
            && *final(vol) == *old(vol),
        r matches Err(e) && e == FError::NoFile ==> path_lookup(*old(vol), path.spec_bytes()) is Missing && *final(vol)
            == *old(vol),
        r is Ok ==> (path_lookup(*old(vol), path.spec_bytes()) matches Lookup::Found(c, i) && old(vol).cluster_written(
            *final(vol),
            c,
            patched(old(vol).cluster_bytes(c), i * 32 + 0x0B, seq![stored_attr(attrs)]),
        )),
{
    let a = if attrs & ATTR_LFN == ATTR_LFN {
        attrs & !ATTR_LFN
    } else {
        attrs
    };
    let v: Vec<u8> = vec![a];
    assert(v@ =~= seq![stored_attr(attrs)]);
    patch_entry_at(vol, path.as_bytes(), 0x0B, v.as_slice())
}

/// Sets the write time and date of the entry `path` names: `NoFile` when it
/// is missing.
pub fn f_utime<D: BlockDevice>(vol: &mut FatVolume<D>, path: &str, time: u16, date: u16) -> (r: FResult<()>)
    requires
        old(vol).wf(),
    ensures
        final(vol).wf(),
        same_geometry(*old(vol), *final(vol)),
        r matches Err(e) ==> e == FError::DiskErr || e == FError::NoPath || e == FError::NoFile,
        r matches Err(e) && e == FError::NoPath ==> old(vol).resolve(path.spec_bytes()) is NoPath && *final(vol)
            == *old(vol),
        old(vol).resolve(path.spec_bytes()) is NoPath ==> (r == Err::<(), FError>(FError::NoPath) || r == Err::<
            (),
            FError,
        >(FError::DiskErr)) && *final(vol) == *old(vol),
        old(vol).resolve(path.spec_bytes()) matches Walk::Done(_, i) && i < path.spec_bytes().len() && path_lookup(
            *old(vol),
            path.spec_bytes(),
        ) is Missing ==> (r == Err::<(), FError>(FError::NoFile) || r == Err::<(), FError>(FError::DiskErr))
            && *final(vol) == *old(vol),
        r matches Err(e) && e == FError::NoFile ==> path_lookup(*old(vol), path.spec_bytes()) is Missing && *final(vol)
            == *old(vol),
        r is Ok ==> (path_lookup(*old(vol), path.spec_bytes()) matches Lookup::Found(c, i) && old(vol).cluster_written(
            *final(vol),
            c,
            patched(
                old(vol).cluster_bytes(c),
                i * 32 + 0x16,
                seq![(time % 256) as u8, (time / 256) as u8, (date % 256) as u8, (date / 256) as u8],
            ),
        )),
{
    let v: Vec<u8> = vec![(time % 256) as u8, (time / 256) as u8, (date % 256) as u8, (date / 256) as u8];
    patch_entry_at(vol, path.as_bytes(), 0x16, v.as_slice())
}

/// Where a scan of directory bytes `b` for the volume label, from the
/// entry at `off` on, stops.
pub enum LabelScan {
    /// The volume-label entry at this offset.
    At(int),
    /// A free entry that ends the directory.
    End,
    /// The bytes ran out.
    Exhausted,
}

/// The scan of directory bytes `b` for the volume label from the entry at
/// `off`: an entry whose first byte is zero ends it; a live (not deleted)
/// entry with the volume attribute is the label.
pub open spec fn scan_label(b: Seq<u8>, off: int) -> LabelScan
    decreases b.len() - off,
{
    if off < 0 || off + 32 > b.len() {
        LabelScan::Exhausted
    } else if b[off] == 0 {
        LabelScan::End
    } else if b[off] != 0xE5 && b[off + 0x0B] == ATTR_VOLUME {
        LabelScan::At(off)
    } else {
        scan_label(b, off + 32)
    }
}

/// Outcome of looking for the volume label along a directory chain.
pub enum LabelWalk {
    /// The label entry: cluster and byte offset.
    Found(int, int),
    /// The directory ended (a free entry) first.
    Ended,
    /// The chain ended first.
    NoLabel,
    /// The chain is longer than the FAT (a cycle).
    Corrupt,
}

/// The scan for the volume label through the chain from `clu`, following
/// at most `fuel` clusters.
pub open spec fn label_walk<D: BlockDevice>(v: FatVolume<D>, clu: int, fuel: nat) -> LabelWalk
    decreases fuel,
{
    if fuel == 0 {
        LabelWalk::Corrupt
    } else {
        match scan_label(v.cluster_bytes(clu), 0) {
            LabelScan::At(off) => LabelWalk::Found(clu, off),
            LabelScan::End => LabelWalk::Ended,
            LabelScan::Exhausted => if v.fat_entry(clu) >= END_OF_CHAIN {
                LabelWalk::NoLabel
            } else {
                label_walk(v, v.fat_entry(clu), (fuel - 1) as nat)
            },
        }
    }
}

/// The bytes of `s` that are not spaces, in order.
pub open spec fn non_spaces(s: Seq<u8>) -> Seq<u8>
    decreases s.len(),
{
    if s.len() == 0 {
        Seq::empty()
    } else if s.last() != 32 {
        non_spaces(s.drop_last()).push(s.last())
    } else {
        non_spaces(s.drop_last())
    }
}

proof fn lemma_non_spaces_len(s: Seq<u8>)
    ensures
        non_spaces(s).len() <= s.len(),
    decreases s.len(),
{
    if s.len() > 0 {
        lemma_non_spaces_len(s.drop_last());
    }
}

/// The 12-byte label text of the 11 name bytes `name`: the bytes that are
/// not spaces, NUL padded.
pub open spec fn label_text(name: Seq<u8>) -> Seq<u8> {
    Seq::new(
        12,
        |k: int|
            if k < non_spaces(name).len() {
                non_spaces(name)[k]
            } else {
                0u8
            },
    )
}

/// Copies the label text of the 11 name bytes at `off` of `buf` into
/// `label`.
fn copy_label(buf: &Vec<u8>, off: usize, label: &mut [u8; 12])
    requires
        off + 32 <= buf@.len(),
        buf@.len() <= 65536,
    ensures
        final(label)@ == label_text(buf@.subrange(off as int, off + 11)),
{
    let ghost name = buf@.subrange(off as int, off + 11);
    let mut i: usize = 0;
    let mut j: usize = 0;
    while j < 11
        invariant
            off + 32 <= buf@.len(),
            buf@.len() <= 65536,
            name == buf@.subrange(off as int, off + 11),
            i <= j <= 11,
            i == non_spaces(name.subrange(0, j as int)).len(),
            forall|k: int| 0 <= k < i ==> #[trigger] label@[k] == non_spaces(name.subrange(0, j as int))[k],
        decreases 11 - j,
    {
        proof {
            assert(name.subrange(0, j + 1).drop_last() =~= name.subrange(0, j as int));
            lemma_non_spaces_len(name.subrange(0, j as int));
        }
        if buf[off + j] != 32 {
            label[i] = buf[off + j];
            i = i + 1;
        }
        j = j + 1;
    }
    proof {
        assert(name.subrange(0, 11) =~= name);
    }
    while i < 12
        invariant
            i <= 12,
            non_spaces(name).len() <= i,
            forall|k: int| 0 <= k < non_spaces(name).len() ==> #[trigger] label@[k] == non_spaces(name)[k],
            forall|k: int| non_spaces(name).len() <= k < i ==> #[trigger] label@[k] == 0,
        decreases 12 - i,
    {
        label[i] = 0;
        i = i + 1;
    }
    proof {
        assert(label@ =~= label_text(name));
    }
}

/// The volume label: the non-space bytes of the root directory's
/// volume-label entry, NUL padded; all NUL when the root chain has none; left
/// as it was when the root directory ends (a free entry) before one.
pub fn f_getlabel<D: BlockDevice>(vol: &FatVolume<D>, label: &mut [u8; 12]) -> (r: FResult<()>)
    requires
        vol.wf(),
    ensures
        r matches Err(e) ==> e == FError::DiskErr,
        r is Ok ==> match label_walk(*vol, vol.root_cluster as int, vol.max_cluster() as nat) {
            LabelWalk::Found(c, off) => final(label)@ == label_text(vol.cluster_bytes(c).subrange(off, off + 11)),
            LabelWalk::Ended => final(label)@ == old(label)@,
            LabelWalk::NoLabel => final(label)@ == Seq::new(12, |k: int| 0u8),
            LabelWalk::Corrupt => false,
        },
{
    let cs = vol.sectors_per_cluster as usize * 512;
    let mut buf: Vec<u8> = vec![0u8; cs];
    let mut clu = vol.root_cluster;
    let budget = vol.fat_entries();
    let mut fuel = budget;
    let mut done = false;
    while !done
        invariant
            vol.wf(),
            cs == vol.cluster_size(),
            buf@.len() == cs,
            budget == vol.max_cluster(),
            !done ==> label_walk(*vol, vol.root_cluster as int, budget as nat) == label_walk(*vol, clu as int, fuel as nat),
            done ==> label_walk(*vol, vol.root_cluster as int, budget as nat) == LabelWalk::NoLabel,
            label@ == old(label)@,
        decreases fuel + (if done {
            0int
        } else {
            1int
        }),
    {
        if fuel == 0 {
            return Err(FError::DiskErr);
        }
        let ghost f0 = fuel;
        match vol.read_cluster(clu, &mut buf) {
            Ok(()) => {},
            Err(e) => {
                return Err(e);
            },
        }
        match label_scan(&buf) {
            Some(Some(off)) => {
                copy_label(&buf, off, label);
                return Ok(());
            },
            Some(None) => {
                return Ok(());
            },
            None => {},
        }
        let next = match vol.read_fat_entry(clu) {
            Ok(n) => n,
            Err(e) => {
                return Err(e);
            },
        };
        if next >= END_OF_CHAIN {
            done = true;
        } else {
            clu = next;
            fuel = fuel - 1;
        }
    }
    let mut i: usize = 0;
    while i < 12
        invariant
            i <= 12,
            forall|k: int| 0 <= k < i ==> #[trigger] label@[k] == 0,
        decreases 12 - i,
    {
        label[i] = 0;
        i = i + 1;
    }
    proof {
        assert(label@ =~= Seq::new(12, |k: int| 0u8));
    }
    Ok(())
}

/// The scan of one directory cluster for the volume label, as
/// [`scan_label`] from the first entry: the label entry's offset, `Some(None)`
/// for a free entry that ends the directory, `None` when the cluster holds
/// neither.
fn label_scan(buf: &Vec<u8>) -> (r: Option<Option<usize>>)
    requires
        buf@.len() % 32 == 0,
        buf@.len() <= 65536,
    ensures
        r matches Some(Some(off)) ==> scan_label(buf@, 0) == LabelScan::At(off as int) && off + 32 <= buf@.len(),
        r matches Some(None) ==> scan_label(buf@, 0) == LabelScan::End,
        r is None ==> scan_label(buf@, 0) == LabelScan::Exhausted,
{
    let cs = buf.len();
    let mut off: usize = 0;
    while off < cs
        invariant
            cs == buf@.len(),
            cs % 32 == 0,
            cs <= 65536,
            off % 32 == 0,
            off <= cs,
            scan_label(buf@, 0) == scan_label(buf@, off as int),
        decreases cs - off,
    {
        assert(off + 32 <= cs) by (nonlinear_arith)
            requires
                off % 32 == 0,
                cs % 32 == 0,
                off < cs,
        ;
        if buf[off] == 0 {
            return Some(None);
        }
        if buf[off] != 0xE5 && buf[off + 0x0B] == ATTR_VOLUME {
            return Some(Some(off));
        }
        off = off + 32;
    }
    None
}

/// Where a scan of directory bytes `b` from the entry at `off` stops when
/// setting the volume label.
pub enum SetScan {
    /// A free entry ending the directory, to hold a new label entry.
    Create(int),
    /// The existing volume-label entry, to be overwritten.
    Overwrite(int),
    /// The bytes ran out; whether a deleted entry was met so far.
    Exhausted(bool),
}

/// The scan of directory bytes `b` from the entry at `off` for the place of
/// the volume label, `deleted` telling whether a deleted entry came first:
/// before any deleted entry, a free entry is where a new label entry goes;
/// an entry with the volume attribute is overwritten.
pub open spec fn scan_setlabel(b: Seq<u8>, off: int, deleted: bool) -> SetScan
    decreases b.len() - off,
{
    if off < 0 || off + 32 > b.len() {
        SetScan::Exhausted(deleted)
    } else if b[off] == 0 && !deleted {
        SetScan::Create(off)
    } else if b[off] == 0xE5 && !deleted {
        scan_setlabel(b, off + 32, true)
    } else if b[off + 0x0B] == ATTR_VOLUME {
        SetScan::Overwrite(off)
    } else {
        scan_setlabel(b, off + 32, deleted)
    }
}

/// Offset of the first deleted entry (first byte 0xE5) of directory bytes
/// `b` from the entry at `off` on, or -1 when there is none.
pub open spec fn first_deleted(b: Seq<u8>, off: int) -> int
    decreases b.len() - off,
{
    if off < 0 || off + 32 > b.len() {
        -1
    } else if b[off] == 0xE5 {
        off
    } else {
        first_deleted(b, off + 32)
    }
}

/// Outcome of looking for the place of the volume label along a directory
/// chain.
pub enum SetWalk {
    /// A new label entry goes here: cluster and byte offset.
    Create(int, int),
    /// The label entry to overwrite: cluster and byte offset.
    Overwrite(int, int),
    /// The chain ended with no label entry and no free or deleted entry.
    NoPlace,
    /// The chain is longer than the FAT (a cycle).
    Corrupt,
}

/// The scan for the place of the volume label through the chain from
/// `clu`, following at most `fuel` clusters; `slot` is the first deleted
/// entry met so far (cluster and offset), which takes a new label entry
/// when the chain ends without one.
pub open spec fn setlabel_walk<D: BlockDevice>(v: FatVolume<D>, clu: int, slot: Option<(int, int)>, fuel: nat) -> SetWalk
    decreases fuel,
{
    if fuel == 0 {
        SetWalk::Corrupt
    } else {
        let b = v.cluster_bytes(clu);
        match scan_setlabel(b, 0, slot is Some) {
            SetScan::Create(off) => SetWalk::Create(clu, off),
            SetScan::Overwrite(off) => SetWalk::Overwrite(clu, off),
            SetScan::Exhausted(d) => {
                let s = if slot is Some {
                    slot
                } else if d {
                    Some((clu, first_deleted(b, 0)))
                } else {
                    None
                };
                if v.fat_entry(clu) >= END_OF_CHAIN {
                    match s {
                        Some((c, o)) => SetWalk::Create(c, o),
                        None => SetWalk::NoPlace,
                    }
                } else {
                    setlabel_walk(v, v.fat_entry(clu), s, (fuel - 1) as nat)
                }
            },
        }
    }
}

/// The cluster and offset of a remembered entry, as integers.
pub open spec fn slot_at(s: Option<(u32, usize)>) -> Option<(int, int)> {
    match s {
        Some((c, o)) => Some((c as int, o as int)),
        None => None,
    }
}

/// The 11 name bytes of a label entry for `label`: its first 11 bytes,
/// space padded.
pub open spec fn label_name(label: Seq<u8>) -> Seq<u8> {
    Seq::new(
        11,
        |j: int|
            if j < label.len() {
                label[j]
            } else {
                32u8
            },
    )
}

/// The scan of one directory cluster for the place of the volume label,
/// as [`scan_setlabel`] from the first entry: `(true, off)` to create a
/// label entry at `off`, `(false, off)` to overwrite the one there; with no
/// place, the offset of the first deleted entry when it is met here first.
fn setlabel_scan(buf: &Vec<u8>, deleted: bool) -> (r: (Option<(bool, usize)>, Option<usize>))
    requires
        buf@.len() % 32 == 0,
        buf@.len() <= 65536,
    ensures
        r.0 matches Some((true, off)) ==> scan_setlabel(buf@, 0, deleted) == SetScan::Create(off as int) && off + 32
            <= buf@.len(),
        r.0 matches Some((false, off)) ==> scan_setlabel(buf@, 0, deleted) == SetScan::Overwrite(off as int) && off + 32
            <= buf@.len(),
        r.0 is None ==> scan_setlabel(buf@, 0, deleted) == SetScan::Exhausted(deleted || r.1 is Some),
        r.0 is None && r.1 is Some ==> !deleted && r.1->0 == first_deleted(buf@, 0) && r.1->0 + 32 <= buf@.len(),
{
    let cs = buf.len();
    let mut off: usize = 0;
    let mut first: Option<usize> = None;
    while off < cs
        invariant
            cs == buf@.len(),
            cs % 32 == 0,
            cs <= 65536,
            off % 32 == 0,
            off <= cs,
            deleted ==> first is None,
            scan_setlabel(buf@, 0, deleted) == scan_setlabel(buf@, off as int, deleted || first is Some),
            !deleted && first is None ==> first_deleted(buf@, 0) == first_deleted(buf@, off as int),
            first matches Some(o) ==> o == first_deleted(buf@, 0) && o + 32 <= cs,
        decreases cs - off,
    {
        assert(off + 32 <= cs) by (nonlinear_arith)
            requires
                off % 32 == 0,
                cs % 32 == 0,
                off < cs,
        ;
        let found = deleted || first.is_some();
        if buf[off] == 0 && !found {
            return (Some((true, off)), first);
        }
        if buf[off] == 0xE5 && !found {
            first = Some(off);
        } else if buf[off + 0x0B] == ATTR_VOLUME {
            return (Some((false, off)), first);
        }
        off = off + 32;
    }
    (None, first)
}

/// Writes the label name of `label` over the entry at `off`, and for a new
/// entry the volume attribute after it.
fn put_label(buf: &mut Vec<u8>, off: usize, label: &[u8], create: bool)
    requires
        off + 32 <= old(buf)@.len(),
        label@.len() >= 1,
    ensures
        final(buf)@ == patched(
            old(buf)@,
            off as int,
            if create {
                label_name(label@) + seq![ATTR_VOLUME]
            } else {
                label_name(label@)
            },
        ),
{
    let ghost b0 = buf@;
    let _l = buf.len();
    if create {
        buf.set(off, label[0]);
    }
    let mut j: usize = 0;
    while j < 11
        invariant
            off + 32 <= buf@.len(),
            buf@.len() == b0.len(),
            buf@.len() <= usize::MAX,
            j <= 11,
            forall|t: int| 0 <= t < b0.len() && !(off <= t < off + 11) ==> #[trigger] buf@[t] == b0[t],
            forall|t: int| off <= t < off + j ==> #[trigger] buf@[t] == label_name(label@)[t - off],
        decreases 11 - j,
    {
        if j < label.len() {
            buf.set(off + j, label[j]);
        } else {
            buf.set(off + j, 32);
        }
        j = j + 1;
    }
    if create {
        buf.set(off + 0x0B, ATTR_VOLUME);
    }
    proof {
        let d = if create {
            label_name(label@) + seq![ATTR_VOLUME]
        } else {
            label_name(label@)
        };
        assert(buf@ =~= patched(b0, off as int, d));
    }
}

/// Sets the volume label to (the first 11 bytes of) `label`, space padded:
/// an existing volume-label entry of the root directory is overwritten;
/// otherwise one is created in the first deleted entry, or failing that in
/// the free entry that ends the directory.
pub fn f_setlabel<D: BlockDevice>(vol: &mut FatVolume<D>, label: &[u8]) -> (r: FResult<()>)
    requires
        old(vol).wf(),
        label@.len() >= 1,
    ensures
        final(vol).wf(),
        same_geometry(*old(vol), *final(vol)),
        r matches Err(e) ==> e == FError::DiskErr,
        r is Ok ==> match setlabel_walk(*old(vol), old(vol).root_cluster as int, None, old(vol).max_cluster() as nat) {
            SetWalk::Create(c, off) => old(vol).cluster_written(
                *final(vol),
                c,
                patched(old(vol).cluster_bytes(c), off, label_name(label@) + seq![ATTR_VOLUME]),
            ),
            SetWalk::Overwrite(c, off) => old(vol).cluster_written(
                *final(vol),
                c,
                patched(old(vol).cluster_bytes(c), off, label_name(label@)),
            ),
            SetWalk::NoPlace => *final(vol) == *old(vol),
            SetWalk::Corrupt => false,
        },
{
    let cs = vol.sectors_per_cluster as usize * 512;
    let mut buf: Vec<u8> = vec![0u8; cs];
    let mut clu = vol.root_cluster;
    let mut slot: Option<(u32, usize)> = None;
    let budget = vol.fat_entries();
    let mut fuel = budget;
    let mut done = false;
    while !done
        invariant
            vol.wf(),
            *vol == *old(vol),
            cs == vol.cluster_size(),
            buf@.len() == cs,
            budget == vol.max_cluster(),
            label@.len() >= 1,
            slot matches Some((c, o)) ==> o + 32 <= cs,
            !done ==> setlabel_walk(*vol, vol.root_cluster as int, None, budget as nat) == setlabel_walk(
                *vol,
                clu as int,
                slot_at(slot),
                fuel as nat,
            ),
            done ==> setlabel_walk(*vol, vol.root_cluster as int, None, budget as nat) == match slot {
                Some((c, o)) => SetWalk::Create(c as int, o as int),
                None => SetWalk::NoPlace,
            },
        decreases fuel + (if done {
            0int
        } else {
            1int
        }),
    {
        if fuel == 0 {
            return Err(FError::DiskErr);
        }
        match vol.read_cluster(clu, &mut buf) {
            Ok(()) => {},
            Err(e) => {
                return Err(e);
            },
        }
        let (place, first) = setlabel_scan(&buf, slot.is_some());
        match place {
            Some((create, off)) => {
                put_label(&mut buf, off, label, create);
                return vol.write_cluster(clu, &buf);
            },
            None => {},
        }
        if slot.is_none() {
            match first {
                Some(o) => {
                    slot = Some((clu, o));
                },
                None => {},
            }
        }
        let next = match vol.read_fat_entry(clu) {
            Ok(n) => n,
            Err(e) => {
                return Err(e);
            },
        };
        if next >= END_OF_CHAIN {
            done = true;
        } else {
            clu = next;
            fuel = fuel - 1;
        }
    }
    match slot {
        Some((c, o)) => {
            match vol.read_cluster(c, &mut buf) {
                Ok(()) => {},
                Err(e) => {
                    return Err(e);
                },
            }
            put_label(&mut buf, o, label, true);
            vol.write_cluster(c, &buf)
        },
        None => Ok(()),
    }
}

} // verus!
