//! The `cp` applet: copies files, and with `-r` directory trees.
use vstd::prelude::*;
use vstd::string::StringSliceAdditionalSpecFns;
use crate::applets::args::{ArgError, arg_error_message, arg_error_text, bad_option, flag_given, flag_set, operand_list, operands, option_error};
use crate::applets::entries::{child_bytes, child_path, dot_entry, is_dot_entry, label_len, name_len, path_str, path_text};
use crate::applets::ls::MAX_DIR_READS;
use crate::applets::rm::{MAX_DEPTH, MAX_PATH, names_dir, names_file};
use crate::block::BlockDevice;
use crate::fat32::{Dir, FError, FResult, FatVolume, File, f_close, f_closedir, f_mkdir, f_open, f_opendir, f_read, f_readdir, f_stat, f_sync, f_write};
use crate::fat32::file::{file_made, file_wf, min_int, names_nothing, opened_file, patch_entry, path_lookup, same_geometry, write_effect};
use crate::fat32::dir::{DirStep, readdir_walk};
use crate::fat32::lookup::{Lookup, Walk, entry_at};
use crate::fat32::names::{entry_name, pad};
use crate::fat32::names::entry_info;
use crate::fat32::volume::{FA_CREATE_NEW, FA_READ, FA_WRITE, lemma_flag_bits};
use crate::text::{push_str};

verus! {

/// Bytes copied per read.
pub const BUF_SIZE: usize = 512;

/// The option letters of `cp`.
pub open spec fn cp_letters() -> Seq<u8> {
    seq![114u8]
}

/// Splits the arguments of `cp` into sources, destination (the last
/// operand) and the `-r` option; at least two operands are needed.
pub fn parse_args<'a>(args: &[&'a str]) -> (r: Result<(Vec<&'a str>, &'a str, bool), ArgError>)
    ensures
        bad_option(args@, cp_letters()) ==> r == Err::<(Vec<&'a str>, &'a str, bool), ArgError>(ArgError::InvalidOption),
        !bad_option(args@, cp_letters()) && operands(args@).len() < 2 ==> r == Err::<(Vec<&'a str>, &'a str, bool), ArgError>(
            ArgError::MissingOperand,
        ),
        !bad_option(args@, cp_letters()) && operands(args@).len() >= 2 ==> r is Ok,
        r matches Ok((s, d, recursive)) ==> {
            let ops = operands(args@);
            &&& !bad_option(args@, cp_letters())
            &&& ops.len() >= 2
            &&& s@ == ops.drop_last()
            &&& d == ops.last()
            &&& recursive == flag_set(args@, 114)
        },
{
    let letters: Vec<u8> = vec![114u8];
    assert(letters@ =~= cp_letters());
    if option_error(args, letters.as_slice()) {
        return Err(ArgError::InvalidOption);
    }
    let recursive = flag_given(args, 114);
    let all = operand_list(args);
    if all.len() < 2 {
        return Err(ArgError::MissingOperand);
    }
    let dest = all[all.len() - 1];
    let mut sources: Vec<&'a str> = Vec::new();
    let mut i: usize = 0;
    while i < all.len() - 1
        invariant
            all@.len() >= 2,
            i <= all@.len() - 1,
            sources@ == all@.take(i as int),
        decreases all@.len() - 1 - i,
    {
        sources.push(all[i]);
        i = i + 1;
        assert(sources@ =~= all@.take(i as int));
    }
    assert(sources@ =~= all@.drop_last());
    Ok((sources, dest, recursive))
}

/// Reading from `f0` on `v` with room for `room` bytes gave `data`,
/// leaving `f1`: the bytes of the file's stream from its position, up to
/// its end (fewer where its chain ends first), with the position moved past
/// them and the stream going on from `f1`.
pub open spec fn read_effect<D: BlockDevice>(v: FatVolume<D>, f0: File, f1: File, room: int, data: Seq<u8>) -> bool {
    let want = min_int(room, f0.size - f0.position);
    let n = data.len() as int;
    &&& f0.flags & FA_READ != 0
    &&& data == v.stream(f0.current_cluster as int, f0.sector_in_cluster as int, f0.byte_in_sector as int, want as nat)
    &&& n <= want
    &&& f1.position == f0.position + n
    &&& f1.size == f0.size
    &&& f1.flags == f0.flags
    &&& f1.start_cluster == f0.start_cluster
    &&& f1.error == f0.error
    &&& file_wf(v, f1)
    &&& n == want || (f1.current_cluster == 0 && n > 0)
    &&& forall|t: nat|
        t >= n ==> (#[trigger] v.stream(
            f0.current_cluster as int,
            f0.sector_in_cluster as int,
            f0.byte_in_sector as int,
            t,
        ) == data + v.stream(f1.current_cluster as int, f1.sector_in_cluster as int, f1.byte_in_sector as int, (t
            - n) as nat) || (f1.current_cluster == 0 && v.stream(
            f0.current_cluster as int,
            f0.sector_in_cluster as int,
            f0.byte_in_sector as int,
            t,
        ) == data))
}

/// One block of a copy from `v0`: `d` (not empty) is read from the source
/// `s0`, leaving `s1`, and handed to the write to the destination `t0`,
/// which gives `v1`, `t1` and the result `w` (see [`write_effect`]).
pub open spec fn copy_block<D: BlockDevice>(
    v0: FatVolume<D>,
    s0: File,
    t0: File,
    v1: FatVolume<D>,
    s1: File,
    t1: File,
    d: Seq<u8>,
    w: FResult<usize>,
) -> bool {
    &&& d.len() > 0
    &&& read_effect(v0, s0, s1, BUF_SIZE as int, d)
    &&& write_effect(v0, t0, v1, t1, d, w)
}

/// `vs`, `ss`, `ts` are the volume, source and destination before and after
/// each block of `ds`, every block written in full.
pub open spec fn copy_run<D: BlockDevice>(
    vs: Seq<FatVolume<D>>,
    ss: Seq<File>,
    ts: Seq<File>,
    ds: Seq<Seq<u8>>,
) -> bool {
    &&& vs.len() == ds.len() + 1
    &&& ss.len() == ds.len() + 1
    &&& ts.len() == ds.len() + 1
    &&& forall|k: int|
        0 <= k < ds.len() ==> #[trigger] copy_block(
            vs[k],
            ss[k],
            ts[k],
            vs[k + 1],
            ss[k + 1],
            ts[k + 1],
            ds[k],
            Ok::<usize, FError>(ds[k].len() as usize),
        )
}

/// The line `cp` shows when a write to the destination fails.
pub open spec fn write_error_line() -> Seq<u8> {
    "cp: write error\n".spec_bytes()
}

/// What copying the source `s0` into the destination `t0` on `v0` leaves
/// (`v1`, `t1`) and shows (`o0` to `o1`): blocks read from the source are
/// written in turn (see [`copy_run`]) until a read gives nothing (at the
/// source's end, or where a read fails) with nothing shown, or until a
/// write fails, which is shown.
pub open spec fn copy_outcome<D: BlockDevice>(
    v0: FatVolume<D>,
    s0: File,
    t0: File,
    v1: FatVolume<D>,
    t1: File,
    o0: Seq<u8>,
    o1: Seq<u8>,
) -> bool {
    exists|vs: Seq<FatVolume<D>>, ss: Seq<File>, ts: Seq<File>, ds: Seq<Seq<u8>>|
        #[trigger] copy_run(vs, ss, ts, ds) && vs[0] == v0 && ss[0] == s0 && ts[0] == t0 && {
            ||| o1 == o0 && v1 == vs.last() && t1 == ts.last()
            ||| o1 == o0 + write_error_line() && exists|s1: File, d: Seq<u8>, e: FError|
                #[trigger] copy_block(vs.last(), ss.last(), ts.last(), v1, s1, t1, d, Err::<usize, FError>(e))
        }
}

/// Copies the open file `src` into the open file `dst` in blocks of
/// `BUF_SIZE` bytes until a read gives nothing; a short write ends the copy
/// with a message.
fn copy_data<D: BlockDevice>(vol: &mut FatVolume<D>, src: &mut File, dst: &mut File, out: &mut Vec<u8>)
    requires
        old(vol).wf(),
        file_wf(*old(vol), *old(src)),
        file_wf(*old(vol), *old(dst)),
        old(src).position <= old(src).size,
        old(dst).position == old(src).position,
    ensures
        final(vol).wf(),
        same_geometry(*old(vol), *final(vol)),
        copy_outcome(*old(vol), *old(src), *old(dst), *final(vol), *final(dst), old(out)@, final(out)@),
        old(src).flags & FA_READ == 0 || old(src).position == old(src).size ==> final(out)@ == old(out)@ && *final(dst)
            == *old(dst) && *final(vol) == *old(vol),
{
    let mut buf: Vec<u8> = vec![0u8; BUF_SIZE];
    let ghost nothing = old(src).flags & FA_READ == 0 || old(src).position == old(src).size;
    let ghost out0 = out@;
    let ghost mut vs: Seq<FatVolume<D>> = seq![*vol];
    let ghost mut ss: Seq<File> = seq![*src];
    let ghost mut ts: Seq<File> = seq![*dst];
    let ghost mut ds: Seq<Seq<u8>> = Seq::empty();
    let mut budget: u64 = src.size as u64 + 1;
    let mut done = false;
    proof {
        reveal_strlit("cp: write error\n");
    }
    while budget > 0 && !done
        invariant
            vol.wf(),
            same_geometry(*old(vol), *vol),
            !done ==> file_wf(*vol, *src),
            !done ==> file_wf(*vol, *dst),
            !done ==> src.position <= src.size,
            !done ==> dst.position == src.position,
            buf@.len() == BUF_SIZE,
            out0 == old(out)@,
            out@ == out0 || out@ == out0 + write_error_line(),
            write_error_line().len() > 0,
            out@ != out0 ==> done,
            nothing && !done ==> out@ == out0 && *dst == *old(dst) && *vol == *old(vol) && (src.flags & FA_READ == 0
                || src.position == src.size),
            nothing && done ==> out@ == out0 && *dst == *old(dst) && *vol == *old(vol),
            nothing == (old(src).flags & FA_READ == 0 || old(src).position == old(src).size),
            !done ==> src.flags == old(src).flags,
            copy_run(vs, ss, ts, ds),
            vs[0] == *old(vol),
            ss[0] == *old(src),
            ts[0] == *old(dst),
            !done || out@ == out0 ==> *vol == vs.last() && *dst == ts.last(),
            !done ==> *src == ss.last(),
            done && out@ != out0 ==> exists|s1: File, d: Seq<u8>, e: FError|
                #[trigger] copy_block(vs.last(), ss.last(), ts.last(), *vol, s1, *dst, d, Err::<usize, FError>(e)),
        decreases budget, if done { 0int } else { 1int },
    {
        budget = budget - 1;
        let ghost v_before = *vol;
        let ghost s_before = *src;
        let ghost t_before = *dst;
        let read = match f_read(vol, src, &mut buf) {
            Ok(n) => n,
            Err(_) => 0,
        };
        if read == 0 {
            done = true;
            continue;
        }
        let chunk = crate::text::copy_range(buf.as_slice(), 0, read);
        let ghost s_after = *src;
        proof {
            assert(read_effect(v_before, s_before, s_after, BUF_SIZE as int, chunk@));
        }
        let wr = f_write(vol, dst, chunk.as_slice());
        let written = match wr {
            Ok(n) => n,
            Err(_) => 0,
        };
        proof {
            assert(copy_block(v_before, s_before, t_before, *vol, s_after, *dst, chunk@, wr));
        }
        if written < read {
            push_str(out, "cp: write error\n");
            done = true;
            proof {
                assert(out@ =~= out0 + write_error_line());
                if let Err(e) = wr {
                    assert(copy_block(vs.last(), ss.last(), ts.last(), *vol, s_after, *dst, chunk@, Err::<usize, FError>(e)));
                }
            }
        } else {
            proof {
                let ghost k = ds.len() as int;
                vs = vs.push(*vol);
                ss = ss.push(*src);
                ts = ts.push(*dst);
                ds = ds.push(chunk@);
                assert(copy_block(vs[k], ss[k], ts[k], vs[k + 1], ss[k + 1], ts[k + 1], ds[k], Ok::<usize, FError>(ds[k].len() as usize)));
                assert forall|j: int| 0 <= j < ds.len() implies #[trigger] copy_block(
                    vs[j],
                    ss[j],
                    ts[j],
                    vs[j + 1],
                    ss[j + 1],
                    ts[j + 1],
                    ds[j],
                    Ok::<usize, FError>(ds[j].len() as usize),
                ) by {
                    if j < k {
                        assert(vs[j] == vs.drop_last()[j]);
                    }
                }
            }
        }
    }
    proof {
        if out@ == out0 {
            assert(out@ == old(out)@ && *vol == vs.last() && *dst == ts.last());
        }
    }
}

/// The line `cp` shows for a source it cannot find.
pub open spec fn stat_line(src: &str) -> Seq<u8> {
    stat_text(src.spec_bytes())
}

/// [`stat_line`] for the path bytes `src`.
pub open spec fn stat_text(src: Seq<u8>) -> Seq<u8> {
    "cp: cannot stat '".spec_bytes() + src + "': No such file or directory\n".spec_bytes()
}

/// What copying `src` to `dst` on `v0` leaves (`v1`) and adds to the shown
/// text (`o0` to `o1`), where no copy is made: a source naming nothing gets
/// its line; a directory without `recursive` is omitted; a file whose
/// destination exists is refused; a file copied to a new name goes as
/// [`file_copied`] says. A failed look-up of the source is shown as for a
/// missing one; a failed open or create gets its own line.
pub open spec fn copy_one<D: BlockDevice>(
    v0: FatVolume<D>,
    v1: FatVolume<D>,
    src: Seq<u8>,
    dst: Seq<u8>,
    recursive: bool,
    o0: Seq<u8>,
    o1: Seq<u8>,
) -> bool {
    &&& names_nothing(v0, src) ==> v1 == v0 && o1 == o0 + stat_text(src)
    &&& names_dir(v0, src) && !recursive ==> v1 == v0 && (o1 == o0 + "cp: omitting directory '".spec_bytes() + src
        + "'\n".spec_bytes() || o1 == o0 + stat_text(src))
    &&& names_file(v0, src) && !(path_lookup(v0, dst) is Found) ==> {
        ||| v1 == v0 && o1 == o0 + stat_text(src)
        ||| v1 == v0 && o1 == o0 + "cp: cannot open '".spec_bytes() + src + "'\n".spec_bytes()
        ||| o1 == o0 + "cp: cannot create '".spec_bytes() + dst + "'\n".spec_bytes()
        ||| file_copied(v0, v1, src, dst, o0, o1)
    }
    &&& names_file(v0, src) && path_lookup(v0, dst) is Found ==> {
        ||| v1 == v0 && o1 == o0 + "cp: cannot create '".spec_bytes() + dst + "': File exists\n".spec_bytes()
        ||| o1 == o0 + "cp: cannot create '".spec_bytes() + dst + "'\n".spec_bytes()
        ||| v1 == v0 && o1 == o0 + "cp: cannot open '".spec_bytes() + src + "'\n".spec_bytes()
        ||| v1 == v0 && o1 == o0 + stat_text(src)
    }
}

/// The listing `d` is the fresh listing of the directory `src` resolves to
/// on `v`, as opening it gives it.
pub open spec fn listing_start<D: BlockDevice>(v: FatVolume<D>, src: Seq<u8>, d: Dir) -> bool {
    &&& v.resolve(src) matches Walk::Done(c, _) && d.start_cluster == c
    &&& d.current_cluster == d.start_cluster
    &&& d.entry_index == 0
    &&& !d.ended
    &&& d.pat_len == 0
    &&& d.pattern@ == Seq::new(11, |j: int| 0u8)
}

/// Reading the listing `d0` on `v` gave the name `n` and left `d1`.
pub open spec fn read_hit<D: BlockDevice>(v: FatVolume<D>, d0: Dir, d1: Dir, n: Seq<u8>) -> bool {
    &&& !d0.ended
    &&& readdir_walk(
        v,
        d0.current_cluster as int,
        d0.entry_index as int,
        d0.pattern@,
        d0.pat_len as int,
        v.max_cluster() as nat,
    ) matches DirStep::Hit(c, k) && d1.current_cluster == c && d1.entry_index == k && n == pad(
        entry_name(entry_at(v.cluster_bytes(c), k - 1)),
        13,
    )
    &&& !d1.ended
    &&& d1.start_cluster == d0.start_cluster
    &&& d1.pattern == d0.pattern
    &&& d1.pat_len == d0.pat_len
}

/// The listing `d` on `v` has no name left to give.
pub open spec fn read_end<D: BlockDevice>(v: FatVolume<D>, d: Dir) -> bool {
    d.ended || !(readdir_walk(
        v,
        d.current_cluster as int,
        d.entry_index as int,
        d.pattern@,
        d.pat_len as int,
        v.max_cluster() as nat,
    ) is Hit)
}

/// What the child named `n` (as read, NUL padded) of the directory `src`
/// becomes when copied into `dst`, from `v0` and shown text `o0`: nothing
/// for `.`, `..`, an empty name, a child path too long, or when no deeper
/// level is allowed (`!deep`); else it is copied as [`copy_one`] says.
pub open spec fn child_copy<D: BlockDevice>(
    v0: FatVolume<D>,
    v1: FatVolume<D>,
    src: Seq<u8>,
    dst: Seq<u8>,
    n: Seq<u8>,
    o0: Seq<u8>,
    o1: Seq<u8>,
    deep: bool,
) -> bool {
    let end = label_len(n);
    if is_dot_entry(n) || end == 0 || src.len() >= MAX_PATH - 1 - end || dst.len() >= MAX_PATH - 1 - end || !deep {
        v1 == v0 && o1 == o0
    } else {
        copy_one(
            v0,
            v1,
            path_text(child_path(src, n.take(end))),
            path_text(child_path(dst, n.take(end))),
            true,
            o0,
            o1,
        )
    }
}

/// `vs`, `outs`, `ds` are the volume, shown text and listing before and
/// after each name of `ns` read from the directory `src`, each child
/// copied into `dst` as [`child_copy`] says.
pub open spec fn child_run<D: BlockDevice>(
    vs: Seq<FatVolume<D>>,
    outs: Seq<Seq<u8>>,
    ds: Seq<Dir>,
    ns: Seq<Seq<u8>>,
    src: Seq<u8>,
    dst: Seq<u8>,
    deep: bool,
) -> bool {
    &&& vs.len() == ns.len() + 1
    &&& outs.len() == ns.len() + 1
    &&& ds.len() == ns.len() + 1
    &&& forall|k: int|
        0 <= k < ns.len() ==> #[trigger] read_hit(vs[k], ds[k], ds[k + 1], ns[k]) && child_copy(
            vs[k],
            vs[k + 1],
            src,
            dst,
            ns[k],
            outs[k],
            outs[k + 1],
            deep,
        )
}

/// Copying the directory `src` into `dst` from `v0` (with `o0` shown) gave
/// `v1` and `o1`: after the attempt to make `dst` (whose outcome is not
/// shown), either the directory cannot be listed, which is shown, or each
/// name its listing gives, on the volume as it then is, is copied in turn
/// (see [`child_run`]) until the listing has no name left, the reads
/// allowed run out, or a read fails, which is shown.
pub open spec fn dir_copy<D: BlockDevice>(
    v0: FatVolume<D>,
    v1: FatVolume<D>,
    src: Seq<u8>,
    dst: Seq<u8>,
    o0: Seq<u8>,
    o1: Seq<u8>,
    deep: bool,
) -> bool {
    ||| v1 == v0 && o1 == o0 + stat_text(src)
    ||| exists|vm: FatVolume<D>|
        #[trigger] same_geometry(v0, vm) && v1 == vm && o1 == o0 + "cp: cannot open directory '".spec_bytes() + src
            + "'\n".spec_bytes()
    ||| exists|vs: Seq<FatVolume<D>>, outs: Seq<Seq<u8>>, ds: Seq<Dir>, ns: Seq<Seq<u8>>|
        #[trigger] child_run(vs, outs, ds, ns, src, dst, deep) && same_geometry(v0, vs[0]) && listing_start(
            vs[0],
            src,
            ds[0],
        ) && outs[0] == o0 && v1 == vs.last() && {
            ||| o1 == outs.last() && (read_end(vs.last(), ds.last()) || ns.len() >= MAX_DIR_READS)
            ||| o1 == outs.last() + "cp: error reading directory\n".spec_bytes()
        }
}

/// What copying `src` to `dst` on `v0` leaves (`v1`) and adds to the shown
/// text (`o0` to `o1`), see [`copy_one`]; a directory copied with
/// `recursive` goes as [`dir_copy`] says, its children copied only while
/// `depth` allows a deeper level.
pub open spec fn copying<D: BlockDevice>(
    v0: FatVolume<D>,
    v1: FatVolume<D>,
    src: &str,
    dst: &str,
    recursive: bool,
    o0: Seq<u8>,
    o1: Seq<u8>,
    depth: nat,
) -> bool {
    &&& copy_one(v0, v1, src.spec_bytes(), dst.spec_bytes(), recursive, o0, o1)
    &&& names_dir(v0, src.spec_bytes()) && recursive ==> dir_copy(
        v0,
        v1,
        src.spec_bytes(),
        dst.spec_bytes(),
        o0,
        o1,
        depth > 0,
    )
}

/// The source file `src` names on `v`, as opening it for reading gives it.
pub open spec fn opened_source<D: BlockDevice>(v: FatVolume<D>, src: Seq<u8>) -> File {
    match path_lookup(v, src) {
        Lookup::Found(dc, idx) => opened_file(v.cluster_bytes(dc).subrange(32 * idx, 32 * idx + 32), dc, idx, FA_READ),
        _ => opened_file(Seq::empty(), 0, 0, FA_READ),
    }
}

/// `v1` is `vm` with the size and start cluster of the destination `t`
/// written back to its entry, or `vm`'s disk unchanged (nothing to write
/// back, or the write failed).
pub open spec fn synced<D: BlockDevice>(vm: FatVolume<D>, t: File, v1: FatVolume<D>) -> bool {
    let lba = vm.cluster_lba(t.dir_sector as int) + t.dir_offset / 16;
    &&& same_geometry(vm, v1)
    &&& v1.disk() == vm.disk() || (t.modified && lba < vm.disk().len() && v1.disk() == vm.disk().update(
        lba,
        patch_entry(vm.disk()[lba], (t.dir_offset % 16) * 32, t.size, t.start_cluster),
    ))
}

/// Copying the file `src` to the new file `dst` on `v0` gave `v1` and
/// turned the shown text `o0` into `o1`: the destination is made empty
/// (see [`file_made`]), the source, opened as its entry says, is copied
/// into it block by block (see [`copy_outcome`]), and the destination's
/// entry is brought up to date (see [`synced`]).
pub open spec fn file_copied<D: BlockDevice>(
    v0: FatVolume<D>,
    v1: FatVolume<D>,
    src: Seq<u8>,
    dst: Seq<u8>,
    o0: Seq<u8>,
    o1: Seq<u8>,
) -> bool {
    exists|t0: File, vc: FatVolume<D>, vm: FatVolume<D>, tm: File|
        #[trigger] file_made(v0, vc, dst, t0) && t0.position == 0 && t0.flags == (FA_WRITE | FA_CREATE_NEW)
            && t0.sector_in_cluster == 0 && t0.byte_in_sector == 0 && t0.error == FError::NoError && #[trigger] copy_outcome(
            vc,
            opened_source(v0, src),
            t0,
            vm,
            tm,
            o0,
            o1,
        ) && synced(vm, tm, v1)
}

/// `vs` and `outs` step through copying each of `srcs` to `dst` in turn,
/// each step as [`copying`] says.
pub open spec fn copy_steps<D: BlockDevice>(
    vs: Seq<FatVolume<D>>,
    outs: Seq<Seq<u8>>,
    srcs: Seq<&str>,
    dst: &str,
    recursive: bool,
) -> bool {
    &&& vs.len() == srcs.len() + 1
    &&& outs.len() == srcs.len() + 1
    &&& forall|k: int|
        0 <= k < srcs.len() ==> #[trigger] copying(vs[k], vs[k + 1], srcs[k], dst, recursive, outs[k], outs[k + 1], MAX_DEPTH as nat)
}

/// A run of child copies extended by one more read and copy.
proof fn lemma_child_run_push<D: BlockDevice>(
    vs: Seq<FatVolume<D>>,
    outs: Seq<Seq<u8>>,
    ds: Seq<Dir>,
    ns: Seq<Seq<u8>>,
    src: Seq<u8>,
    dst: Seq<u8>,
    deep: bool,
    v: FatVolume<D>,
    o: Seq<u8>,
    d: Dir,
    n: Seq<u8>,
)
    requires
        child_run(vs, outs, ds, ns, src, dst, deep),
        read_hit(vs.last(), ds.last(), d, n),
        child_copy(vs.last(), v, src, dst, n, outs.last(), o, deep),
    ensures
        child_run(vs.push(v), outs.push(o), ds.push(d), ns.push(n), src, dst, deep),
        vs.push(v)[0] == vs[0],
        outs.push(o)[0] == outs[0],
        ds.push(d)[0] == ds[0],
{
    let k = ns.len() as int;
    let (vs1, outs1, ds1, ns1) = (vs.push(v), outs.push(o), ds.push(d), ns.push(n));
    assert forall|t: int| 0 <= t < ns1.len() implies #[trigger] read_hit(vs1[t], ds1[t], ds1[t + 1], ns1[t])
        && child_copy(vs1[t], vs1[t + 1], src, dst, ns1[t], outs1[t], outs1[t + 1], deep) by {
        if t < k {
            assert(vs1[t] == vs[t] && vs1[t + 1] == vs[t + 1]);
            assert(outs1[t] == outs[t] && outs1[t + 1] == outs[t + 1]);
            assert(ds1[t] == ds[t] && ds1[t + 1] == ds[t + 1]);
            assert(ns1[t] == ns[t]);
            assert(read_hit(vs[t], ds[t], ds[t + 1], ns[t]));
        }
    }
}

/// Copies `src` to `dst`: a file into a new file (refused when `dst`
/// exists), a directory (only with `recursive`) into the directory `dst`,
/// created when missing, child by child. `depth` bounds how deep
/// directories are followed.
#[verifier::rlimit(100)]
#[verifier::spinoff_prover]
pub fn copy_path<D: BlockDevice>(
    vol: &mut FatVolume<D>,
    src: &str,
    dst: &str,
    recursive: bool,
    out: &mut Vec<u8>,
    depth: usize,
)
    requires
        old(vol).wf(),
    ensures
        final(vol).wf(),
        same_geometry(*old(vol), *final(vol)),
        copying(*old(vol), *final(vol), src, dst, recursive, old(out)@, final(out)@, depth as nat),
    decreases depth,
{
    let info = match f_stat(vol, src) {
        Ok(i) => i,
        Err(_) => {
            push_str(out, "cp: cannot stat '");
            push_str(out, src);
            push_str(out, "': No such file or directory\n");
            proof {
                assert(out@ =~= old(out)@ + stat_line(src));
            }
            return;
        },
    };
    let is_dir = info.attributes & 0x10 != 0;
    proof {
        if names_file(*old(vol), src.spec_bytes()) {
            let (c, k) = choose|c: int, k: int| path_lookup(*old(vol), src.spec_bytes()) == Lookup::Found(c, k);
            assert(info == entry_info(old(vol).cluster_bytes(c), 32 * k));
            assert(!is_dir);
        }
        if names_dir(*old(vol), src.spec_bytes()) {
            lemma_flag_bits();
            if !(old(vol).resolve(src.spec_bytes()) matches Walk::Done(_, i) && i == src.spec_bytes().len()) {
                let (c, k) = choose|c: int, k: int| path_lookup(*old(vol), src.spec_bytes()) == Lookup::Found(c, k);
                assert(info == entry_info(old(vol).cluster_bytes(c), 32 * k));
            }
            assert(is_dir);
        }
    }
    if is_dir {
        if !recursive {
            push_str(out, "cp: omitting directory '");
            push_str(out, src);
            push_str(out, "'\n");
            proof {
                assert(out@ =~= old(out)@ + "cp: omitting directory '".spec_bytes() + src.spec_bytes() + "'\n".spec_bytes());
            }
            return;
        }
        let _ = f_mkdir(vol, dst);
        let ghost vm = *vol;
        let ghost o0 = out@;
        proof {
            reveal_strlit("cp: error reading directory\n");
        }
        match f_opendir(vol, src) {
            Ok(d) => {
                let mut dir = d;
                let mut name = [0u8; 13];
                let mut budget: u32 = MAX_DIR_READS;
                let mut done = false;
                let sb = src.as_bytes();
                let db = dst.as_bytes();
                let ghost mut vs: Seq<FatVolume<D>> = seq![*vol];
                let ghost mut outs: Seq<Seq<u8>> = seq![out@];
                let ghost mut ds: Seq<Dir> = seq![dir];
                let ghost mut ns: Seq<Seq<u8>> = Seq::empty();
                let ghost deep = depth > 0;
                proof {
                    assert(dir.pattern@ =~= Seq::new(11, |j: int| 0u8));
                    assert(listing_start(vm, src.spec_bytes(), dir));
                }
                while budget > 0 && !done
                    invariant
                        vol.wf(),
                        same_geometry(*old(vol), *vol),
                        same_geometry(*old(vol), vm),
                        dir.pat_len <= 11,
                        sb@ == src.spec_bytes(),
                        db@ == dst.spec_bytes(),
                        recursive,
                        deep == (depth > 0),
                        "cp: error reading directory\n".spec_bytes().len() > 0,
                        child_run(vs, outs, ds, ns, sb@, db@, deep),
                        vs[0] == vm,
                        outs[0] == o0,
                        listing_start(vm, src.spec_bytes(), ds[0]),
                        budget + ns.len() <= MAX_DIR_READS,
                        !done ==> budget + ns.len() == MAX_DIR_READS,
                        !done ==> vs.last() == *vol && outs.last() == out@ && ds.last() == dir,
                        done ==> *vol == vs.last() && ((out@ == outs.last() && (read_end(vs.last(), ds.last())
                            || ns.len() >= MAX_DIR_READS)) || out@ == outs.last()
                            + "cp: error reading directory\n".spec_bytes()),
                    decreases budget,
                {
                    budget = budget - 1;
                    let ghost d_before = dir;
                    match f_readdir(vol, &mut dir, &mut name) {
                        Ok(true) => {
                            proof {
                                assert(read_hit(*vol, d_before, dir, name@));
                            }
                            let ghost v_before = *vol;
                            let ghost o_before = out@;
                            let dot = dot_entry(&name);
                            let end = name_len(&name);
                            let skip = dot || end == 0 || sb.len() >= MAX_PATH - 1 - end || db.len() >= MAX_PATH - 1
                                - end || depth == 0;
                            if !skip {
                                let child_src = child_bytes(sb, &name, end);
                                let child_dst = child_bytes(db, &name, end);
                                let cs = path_str(child_src.as_slice());
                                let cd = path_str(child_dst.as_slice());
                                copy_path(vol, cs, cd, recursive, out, depth - 1);
                            }
                            proof {
                                assert(child_copy(v_before, *vol, sb@, db@, name@, o_before, out@, deep));
                                lemma_child_run_push(vs, outs, ds, ns, sb@, db@, deep, *vol, out@, dir, name@);
                                vs = vs.push(*vol);
                                outs = outs.push(out@);
                                ds = ds.push(dir);
                                ns = ns.push(name@);
                            }
                        },
                        Ok(false) => {
                            done = true;
                        },
                        Err(_) => {
                            push_str(out, "cp: error reading directory\n");
                            done = true;
                        },
                    }
                }
                let _ = f_closedir(dir);
                proof {
                    if !done {
                        assert(ns.len() >= MAX_DIR_READS);
                    }
                    assert(dir_copy(*old(vol), *vol, src.spec_bytes(), dst.spec_bytes(), o0, out@, deep));
                }
            },
            Err(_) => {
                push_str(out, "cp: cannot open directory '");
                push_str(out, src);
                push_str(out, "'\n");
                proof {
                    assert(out@ =~= o0 + "cp: cannot open directory '".spec_bytes() + src.spec_bytes() + "'\n".spec_bytes());
                }
            },
        }
    } else {
        proof {
            lemma_flag_bits();
        }
        let mut src_file = match f_open(vol, src, FA_READ) {
            Ok(f) => f,
            Err(_) => {
                push_str(out, "cp: cannot open '");
                push_str(out, src);
                push_str(out, "'\n");
                proof {
                    assert(out@ =~= old(out)@ + "cp: cannot open '".spec_bytes() + src.spec_bytes() + "'\n".spec_bytes());
                }
                return;
            },
        };
        let ghost v1 = *vol;
        proof {
            lemma_flag_bits();
            if names_file(*old(vol), src.spec_bytes()) {
                assert(v1 == *old(vol));
            }
        }
        let mut dst_file = match f_open(vol, dst, FA_WRITE | FA_CREATE_NEW) {
            Ok(f) => f,
            Err(e) => {
                push_str(out, "cp: cannot create '");
                push_str(out, dst);
                if e == FError::Exists {
                    push_str(out, "': File exists\n");
                    proof {
                        assert(out@ =~= old(out)@ + "cp: cannot create '".spec_bytes() + dst.spec_bytes()
                            + "': File exists\n".spec_bytes());
                    }
                } else {
                    push_str(out, "'\n");
                    proof {
                        assert(out@ =~= old(out)@ + "cp: cannot create '".spec_bytes() + dst.spec_bytes()
                            + "'\n".spec_bytes());
                    }
                }
                let _ = f_close(src_file);
                return;
            },
        };
        proof {
            lemma_flag_bits();
            assert(!(path_lookup(v1, dst.spec_bytes()) is Found));
        }
        let ghost vc = *vol;
        let ghost s0 = src_file;
        let ghost t0 = dst_file;
        let ghost o0 = out@;
        copy_data(vol, &mut src_file, &mut dst_file, out);
        let ghost vm = *vol;
        let ghost tm = dst_file;
        if !dst_file.modified || (dst_file.dir_offset as usize) * 32 + 32 <= vol.sectors_per_cluster as usize * 512 {
            let _ = f_sync(vol, &mut dst_file);
        }
        proof {
            assert(synced(vm, tm, *vol));
            if names_file(*old(vol), src.spec_bytes()) {
                assert(s0 == opened_source(*old(vol), src.spec_bytes()));
                assert(file_made(*old(vol), vc, dst.spec_bytes(), t0));
                assert(copy_outcome(vc, opened_source(*old(vol), src.spec_bytes()), t0, vm, tm, o0, out@));
                assert(file_copied(*old(vol), *vol, src.spec_bytes(), dst.spec_bytes(), old(out)@, out@));
            }
        }
        let _ = f_close(dst_file);
        let _ = f_close(src_file);
    }
}

/// The `cp` applet: copies each source of `args` to the last operand;
/// refuses an unknown option and fewer than two operands.
pub fn run<D: BlockDevice>(vol: &mut FatVolume<D>, args: &[&str]) -> (r: Vec<u8>)
    requires
        old(vol).wf(),
    ensures
        final(vol).wf(),
        same_geometry(*old(vol), *final(vol)),
        bad_option(args@, cp_letters()) ==> r@ == "cp: ".spec_bytes() + arg_error_text(ArgError::InvalidOption).spec_bytes()
            + seq![10u8] && *final(vol) == *old(vol),
        !bad_option(args@, cp_letters()) && operands(args@).len() < 2 ==> r@ == "cp: ".spec_bytes() + arg_error_text(
            ArgError::MissingOperand,
        ).spec_bytes() + seq![10u8] && *final(vol) == *old(vol),
        !bad_option(args@, cp_letters()) && operands(args@).len() >= 2 && operands(args@).last().spec_bytes().len() == 0
            ==> r@ == "cp: missing file operand\n".spec_bytes() && *final(vol) == *old(vol),
        !bad_option(args@, cp_letters()) && operands(args@).len() >= 2 && operands(args@).last().spec_bytes().len() > 0
            ==> exists|vs: Seq<FatVolume<D>>, outs: Seq<Seq<u8>>|
            #![trigger copy_steps(vs, outs, operands(args@).drop_last(), operands(args@).last(), flag_set(args@, 114))]
            copy_steps(vs, outs, operands(args@).drop_last(), operands(args@).last(), flag_set(args@, 114)) && vs[0]
                == *old(vol) && vs.last() == *final(vol) && outs[0] == Seq::<u8>::empty() && outs.last() == r@,
{
    let mut out: Vec<u8> = Vec::new();
    let (sources, dest, recursive) = match parse_args(args) {
        Ok(x) => x,
        Err(e) => {
            push_str(&mut out, "cp: ");
            push_str(&mut out, arg_error_message(e));
            out.push(10);
            return out;
        },
    };
    if sources.len() == 0 || dest.as_bytes().len() == 0 {
        push_str(&mut out, "cp: missing file operand\n");
        return out;
    }
    let ghost mut vs: Seq<FatVolume<D>> = seq![*vol];
    let ghost mut outs: Seq<Seq<u8>> = seq![out@];
    let mut k: usize = 0;
    while k < sources.len()
        invariant
            vol.wf(),
            same_geometry(*old(vol), *vol),
            k <= sources@.len(),
            vs.len() == k + 1,
            outs.len() == k + 1,
            vs[0] == *old(vol),
            vs[k as int] == *vol,
            outs[0] == Seq::<u8>::empty(),
            outs[k as int] == out@,
            forall|t: int|
                0 <= t < k ==> #[trigger] copying(vs[t], vs[t + 1], sources@[t], dest, recursive, outs[t], outs[t + 1], MAX_DEPTH as nat),
        decreases sources@.len() - k,
    {
        copy_path(vol, sources[k], dest, recursive, &mut out, MAX_DEPTH);
        proof {
            vs = vs.push(*vol);
            outs = outs.push(out@);
        }
        k = k + 1;
    }
    proof {
        assert(copy_steps(vs, outs, sources@, dest, recursive));
    }
    out
}

} // verus!
