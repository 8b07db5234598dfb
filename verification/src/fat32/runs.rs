//! Runs of bytes laid over a cluster chain: where the bytes a write puts
//! down end up, and why later sector and FAT writes leave them in place.
use vstd::prelude::*;
use crate::block::BlockDevice;
use super::volume::{END_OF_CHAIN, FatVolume};
use vstd::arithmetic::div_mod::lemma_fundamental_div_mod_converse;

verus! {

/// A volume whose FAT is kept in at least one copy and whose cluster
/// numbers all lie below the end-of-chain marks.
pub open spec fn regular<D: BlockDevice>(v: FatVolume<D>) -> bool {
    &&& v.num_fats >= 1
    &&& v.max_cluster() <= END_OF_CHAIN
}

/// Sector `sec` with its bytes from `b` on replaced by `d`.
pub open spec fn patched(sec: Seq<u8>, b: int, d: Seq<u8>) -> Seq<u8> {
    sec.subrange(0, b) + d + sec.subrange(b + d.len(), sec.len() as int)
}

/// The disk sector holding byte `j` of a run that starts at offset `p` of
/// cluster `cs[0]` and goes on through the clusters of `cs` in turn.
pub open spec fn run_sector<D: BlockDevice>(v: FatVolume<D>, cs: Seq<int>, p: int, j: int) -> int {
    v.cluster_lba(cs[(p + j) / v.cluster_size()]) + ((p + j) % v.cluster_size()) / 512
}

/// The first `w` bytes of `data` stand in the run from offset `p` through
/// the clusters of `cs`.
pub open spec fn run_holds<D: BlockDevice>(v: FatVolume<D>, cs: Seq<int>, p: int, data: Seq<u8>, w: int) -> bool {
    forall|j: int|
        0 <= j < w ==> {
            &&& #[trigger] run_sector(v, cs, p, j) < v.disk().len()
            &&& v.disk()[run_sector(v, cs, p, j)].len() == 512
            &&& v.disk()[run_sector(v, cs, p, j)][((p + j) % v.cluster_size()) % 512] == data[j]
        }
}

/// `cs` are distinct data clusters below the FAT's size, each linked by
/// its FAT entry to the next.
#[verifier::opaque]
pub open spec fn linked_run<D: BlockDevice>(v: FatVolume<D>, cs: Seq<int>) -> bool {
    &&& cs.len() >= 1
    &&& forall|k: int| 0 <= k < cs.len() ==> 2 <= #[trigger] cs[k] < v.max_cluster()
    &&& forall|i: int, j: int| #![trigger cs[i], cs[j]] 0 <= i < j < cs.len() ==> cs[i] != cs[j]
    &&& forall|k: int|
        0 <= k < cs.len() - 1 ==> #[trigger] v.fat_entry(cs[k]) == cs[k + 1] && v.fat_sector(cs[k]) < v.disk().len()
}

/// Offset `x = a * d + r` with `0 <= r < d` is `r` into block `a`.
pub proof fn lemma_div_parts(x: int, d: int, a: int, r: int)
    requires
        d > 0,
        0 <= r < d,
        x == a * d + r,
    ensures
        x / d == a,
        x % d == r,
{
    lemma_fundamental_div_mod_converse(x, d, a, r);
}

/// An offset below `a` blocks of `d` lies in a block before `a`.
pub proof fn lemma_div_below(x: int, d: int, a: int)
    requires
        d > 0,
        0 <= x < a * d,
    ensures
        0 <= x / d < a,
        0 <= x % d < d,
{
    assert(0 <= x / d < a && 0 <= x % d < d) by (nonlinear_arith)
        requires
            d > 0,
            0 <= x < a * d,
    ;
}

/// The sectors of two different data clusters are different.
pub proof fn lemma_clusters_apart<D: BlockDevice>(v: FatVolume<D>, x: int, y: int, t: int, u: int)
    requires
        v.wf(),
        2 <= x,
        2 <= y,
        x != y,
        0 <= t < v.sectors_per_cluster,
        0 <= u < v.sectors_per_cluster,
    ensures
        v.cluster_lba(x) + t != v.cluster_lba(y) + u,
{
    let spc = v.sectors_per_cluster as int;
    if v.cluster_lba(x) + t == v.cluster_lba(y) + u {
        let z = (x - 2) * spc + t;
        assert(z == (y - 2) * spc + u);
        lemma_div_parts(z, spc, x - 2, t);
        lemma_div_parts(z, spc, y - 2, u);
    }
}

/// The FAT sector of a cluster below the FAT's size comes before the data
/// region.
pub proof fn lemma_fat_before_data<D: BlockDevice>(v: FatVolume<D>, x: int)
    requires
        v.wf(),
        v.num_fats >= 1,
        0 <= x < v.max_cluster(),
    ensures
        v.fat_sector(x) < v.data_region_lba,
{
    let spf = v.sectors_per_fat as int;
    lemma_div_below(x, 128, spf);
    assert(v.num_fats * spf >= spf) by (nonlinear_arith)
        requires
            v.num_fats >= 1,
            spf >= 0,
    ;
}

/// Byte `j` of a run from offset `p` lies in a sector of cluster
/// `cs[(p + j) / cluster size]`, at a sector offset inside the cluster.
pub proof fn lemma_run_place<D: BlockDevice>(v: FatVolume<D>, cs: Seq<int>, p: int, j: int)
    requires
        v.wf(),
        0 <= p + j < cs.len() * v.cluster_size(),
    ensures
        0 <= (p + j) / v.cluster_size() < cs.len(),
        0 <= ((p + j) % v.cluster_size()) / 512 < v.sectors_per_cluster,
        0 <= ((p + j) % v.cluster_size()) % 512 < 512,
{
    let csz = v.cluster_size();
    lemma_div_below(p + j, csz, cs.len() as int);
    lemma_div_below((p + j) % csz, 512, v.sectors_per_cluster as int);
}

/// Writing sector `sl` (byte `q` of the last cluster of `cs`, whose byte
/// `q % 512` starts the patch) with a copy of it whose bytes from `q % 512`
/// on are the next `space` bytes of `data` extends a run of `w` bytes by
/// `space`; it keeps the links of `cs` and every FAT entry below the FAT's
/// size.
pub proof fn lemma_patch_run<D: BlockDevice>(
    v1: FatVolume<D>,
    v2: FatVolume<D>,
    cs: Seq<int>,
    p: int,
    data: Seq<u8>,
    w: int,
    q: int,
    space: int,
    sl: int,
)
    requires
        v1.wf(),
        regular(v1),
        linked_run(v1, cs),
        v2.sectors_per_cluster == v1.sectors_per_cluster,
        v2.sectors_per_fat == v1.sectors_per_fat,
        v2.fat_region_lba == v1.fat_region_lba,
        v2.data_region_lba == v1.data_region_lba,
        0 <= p,
        0 <= w,
        p + w == (cs.len() - 1) * v1.cluster_size() + q,
        0 <= q < v1.cluster_size(),
        0 < space,
        q % 512 + space <= 512,
        w + space <= data.len(),
        sl == v1.cluster_lba(cs.last()) + q / 512,
        sl < v1.disk().len(),
        run_holds(v1, cs, p, data, w),
        v1.disk()[sl].len() == 512,
        v2.disk() == v1.disk().update(sl, patched(v1.disk()[sl], q % 512, data.subrange(w, w + space))),
    ensures
        run_holds(v2, cs, p, data, w + space),
        linked_run(v2, cs),
        forall|x: int|
            0 <= x < v1.max_cluster() && v1.fat_sector(x) < v1.disk().len() ==> #[trigger] v2.fat_entry(x) == v1.fat_entry(x),
{
    reveal(run_holds);
    reveal(linked_run);
    let csz = v1.cluster_size();
    let last = cs.len() - 1;
    assert forall|t: int| 0 <= t < space implies #[trigger] v2.disk()[sl][q % 512 + t] == data[w + t] by {
        assert(v2.disk()[sl] == patched(v1.disk()[sl], q % 512, data.subrange(w, w + space)));
    }
    assert forall|t: int| 0 <= t < q % 512 implies #[trigger] v2.disk()[sl][t] == v1.disk()[sl][t] by {
        assert(v2.disk()[sl] == patched(v1.disk()[sl], q % 512, data.subrange(w, w + space)));
    }
    assert(v2.disk()[sl].len() == 512);
    let base = last * csz;
    let b = q % 512;
    let sq = q / 512;
    lemma_div_below(q, 512, v1.sectors_per_cluster as int);
    assert(sl >= v1.data_region_lba) by {
        assert(cs[last] >= 2);
        assert((cs[last] - 2) * v1.sectors_per_cluster >= 0) by (nonlinear_arith)
            requires
                cs[last] >= 2,
                v1.sectors_per_cluster >= 1,
        ;
    }
    assert forall|x: int| 0 <= x < v1.max_cluster() && v1.fat_sector(x) < v1.disk().len() implies #[trigger] v2.fat_entry(x)
        == v1.fat_entry(x) by {
        lemma_fat_before_data(v1, x);
        assert(v2.disk()[v1.fat_sector(x)] == v1.disk()[v1.fat_sector(x)]);
    }
    assert forall|k: int| 0 <= k < cs.len() - 1 implies #[trigger] v2.fat_entry(cs[k]) == cs[k + 1] && v2.fat_sector(cs[k])
        < v2.disk().len() by {
        assert(v2.fat_entry(cs[k]) == v1.fat_entry(cs[k]));
    }
    assert forall|j: int| 0 <= j < w + space implies {
        &&& #[trigger] run_sector(v2, cs, p, j) < v2.disk().len()
        &&& v2.disk()[run_sector(v2, cs, p, j)].len() == 512
        &&& v2.disk()[run_sector(v2, cs, p, j)][((p + j) % csz) % 512] == data[j]
    } by {
        let rs = run_sector(v1, cs, p, j);
        assert(run_sector(v2, cs, p, j) == rs);
        if j >= w {
            let t = j - w;
            lemma_div_parts(q, 512, sq, b);
            lemma_div_parts(p + j, csz, last, q + t);
            lemma_div_parts(q + t, 512, sq, b + t);
            assert(rs == sl);
        } else {
            assert(rs < v1.disk().len() && v1.disk()[rs].len() == 512 && v1.disk()[rs][((p + j) % csz) % 512] == data[j]);
            if p + j >= base {
                let o = p + j - base;
                lemma_div_parts(p + j, csz, last, o);
                lemma_div_below(o, 512, v1.sectors_per_cluster as int);
                if rs == sl {
                    assert(o / 512 == sq);
                    lemma_div_parts(q, 512, sq, b);
                    lemma_div_parts(o, 512, sq, o % 512);
                    assert(o % 512 < b);
                }
            } else {
                lemma_div_below(p + j, csz, last);
                let idx = (p + j) / csz;
                lemma_div_below((p + j) % csz, 512, v1.sectors_per_cluster as int);
                assert(cs[idx] != cs[last]);
                lemma_clusters_apart(v1, cs[idx], cs[last], ((p + j) % csz) / 512, sq);
            }
        }
    }
}

/// A run laid over `cs` still stands when `cs` grows by one more cluster.
pub proof fn lemma_run_grow<D: BlockDevice>(v: FatVolume<D>, cs: Seq<int>, next: int, p: int, data: Seq<u8>, w: int)
    requires
        v.wf(),
        0 <= p,
        0 <= w,
        p + w <= cs.len() * v.cluster_size(),
        run_holds(v, cs, p, data, w),
    ensures
        run_holds(v, cs.push(next), p, data, w),
{
    reveal(run_holds);
    reveal(linked_run);
    assert forall|j: int| 0 <= j < w implies run_sector(v, cs.push(next), p, j) == #[trigger] run_sector(v, cs, p, j) by {
        lemma_run_place(v, cs, p, j);
    }
    assert forall|j: int| 0 <= j < w implies {
        &&& #[trigger] run_sector(v, cs.push(next), p, j) < v.disk().len()
        &&& v.disk()[run_sector(v, cs.push(next), p, j)].len() == 512
        &&& v.disk()[run_sector(v, cs.push(next), p, j)][((p + j) % v.cluster_size()) % 512] == data[j]
    } by {
        assert(run_sector(v, cs.push(next), p, j) == run_sector(v, cs, p, j));
    }
}

/// A run laid over data clusters stands as long as the data region of the
/// disk is unchanged.
pub proof fn lemma_run_same_data<D: BlockDevice>(v1: FatVolume<D>, v2: FatVolume<D>, cs: Seq<int>, p: int, data: Seq<u8>, w: int)
    requires
        v1.wf(),
        linked_run(v1, cs),
        v2.sectors_per_cluster == v1.sectors_per_cluster,
        v2.data_region_lba == v1.data_region_lba,
        v2.disk().len() == v1.disk().len(),
        forall|i: int| v1.data_region_lba <= i < v1.disk().len() ==> #[trigger] v2.disk()[i] == v1.disk()[i],
        0 <= p,
        0 <= w,
        p + w <= cs.len() * v1.cluster_size(),
        run_holds(v1, cs, p, data, w),
    ensures
        run_holds(v2, cs, p, data, w),
{
    reveal(run_holds);
    reveal(linked_run);
    assert forall|j: int| 0 <= j < w implies {
        &&& #[trigger] run_sector(v2, cs, p, j) < v2.disk().len()
        &&& v2.disk()[run_sector(v2, cs, p, j)].len() == 512
        &&& v2.disk()[run_sector(v2, cs, p, j)][((p + j) % v2.cluster_size()) % 512] == data[j]
    } by {
        lemma_run_place(v1, cs, p, j);
        let idx = (p + j) / v1.cluster_size();
        assert(cs[idx] >= 2);
        assert((cs[idx] - 2) * v1.sectors_per_cluster >= 0) by (nonlinear_arith)
            requires
                cs[idx] >= 2,
                v1.sectors_per_cluster >= 1,
        ;
        assert(run_sector(v2, cs, p, j) == run_sector(v1, cs, p, j));
        assert(run_sector(v1, cs, p, j) < v1.disk().len());
    }
}

/// The run position `x`, at byte `q` of the last of `len` clusters, is
/// `len` whole clusters in when `q` is the cluster size.
pub proof fn lemma_cluster_end<D: BlockDevice>(v: FatVolume<D>, len: int, q: int, x: int)
    requires
        x == (len - 1) * v.cluster_size() + q,
    ensures
        q == v.cluster_size() ==> x == len * v.cluster_size(),
        x - q + v.cluster_size() == len * v.cluster_size(),
{
    assert((len - 1) * v.cluster_size() + v.cluster_size() == len * v.cluster_size()) by (nonlinear_arith);
}

/// Following the link out of the last cluster of a run to a further data
/// cluster not yet in it makes a longer run, over which the bytes laid
/// down so far still stand.
pub proof fn lemma_follow_run<D: BlockDevice>(v: FatVolume<D>, cs: Seq<int>, next: int, p: int, data: Seq<u8>, w: int)
    requires
        v.wf(),
        linked_run(v, cs),
        v.fat_entry(cs.last()) == next,
        v.fat_sector(cs.last()) < v.disk().len(),
        2 <= next < v.max_cluster(),
        forall|i: int| 0 <= i < cs.len() ==> #[trigger] cs[i] != next,
        0 <= p,
        0 <= w,
        p + w <= cs.len() * v.cluster_size(),
        run_holds(v, cs, p, data, w),
    ensures
        linked_run(v, cs.push(next)),
        run_holds(v, cs.push(next), p, data, w),
{
    reveal(run_holds);
    reveal(linked_run);
    let ns = cs.push(next);
    assert forall|i: int, j: int| 0 <= i < j < ns.len() implies #[trigger] ns[i] != #[trigger] ns[j] by {
        if j < cs.len() {
            assert(cs[i] != cs[j]);
        } else {
            assert(cs[i] != next);
        }
    }
    assert forall|k: int| 0 <= k < ns.len() - 1 implies #[trigger] v.fat_entry(ns[k]) == ns[k + 1] && v.fat_sector(ns[k])
        < v.disk().len() by {
        if k < cs.len() - 1 {
            assert(v.fat_entry(cs[k]) == cs[k + 1]);
        }
    }
    lemma_run_grow(v, cs, next, p, data, w);
}

/// The last cluster of a run is a data cluster below the FAT's size.
pub proof fn lemma_run_last<D: BlockDevice>(v: FatVolume<D>, cs: Seq<int>)
    requires
        linked_run(v, cs),
    ensures
        cs.len() >= 1,
        2 <= cs.last() < v.max_cluster(),
{
    reveal(linked_run);
    assert(2 <= cs[cs.len() - 1] < v.max_cluster());
}

} // verus!
