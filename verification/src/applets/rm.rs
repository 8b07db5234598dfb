//! The `rm` applet: removes files, and with `-r` directories with all
//! they hold; `-f` keeps quiet about paths that do not exist.
use vstd::prelude::*;
use vstd::string::StringSliceAdditionalSpecFns;
use crate::applets::args::{ArgError, arg_error_message, arg_error_text, bad_option, flag_given, flag_set, operand_list, operands, option_error};
use crate::applets::entries::{child_bytes, dot_entry, name_len, path_str};
use crate::applets::ls::MAX_DIR_READS;
use crate::block::BlockDevice;
use crate::fat32::{FError, FatVolume, f_closedir, f_opendir, f_readdir, f_stat, f_unlink};
use crate::fat32::file::{names_nothing, path_lookup, same_geometry};
use crate::fat32::lookup::{Lookup, Walk};
use crate::fat32::manage::unlinked;
use crate::fat32::names::entry_info;
use crate::fat32::volume::lemma_flag_bits;
use crate::text::push_str;

verus! {

/// Longest path, in bytes, `rm` and `cp` build for a directory's child.
pub const MAX_PATH: usize = 256;

/// The option letters of `rm`.
pub open spec fn rm_letters() -> Seq<u8> {
    seq![114u8, 102]
}

/// Splits the arguments of `rm` into paths and the `-r` and `-f` options.
pub fn parse_args<'a>(args: &[&'a str]) -> (r: Result<(Vec<&'a str>, bool, bool), ArgError>)
    ensures
        r is Err <==> bad_option(args@, rm_letters()),
        r matches Err(e) ==> e == ArgError::InvalidOption,
        r matches Ok((p, recursive, force)) ==> p@ == operands(args@) && recursive == flag_set(args@, 114) && force
            == flag_set(args@, 102),
{
    let letters: Vec<u8> = vec![114u8, 102];
    assert(letters@ =~= rm_letters());
    if option_error(args, letters.as_slice()) {
        return Err(ArgError::InvalidOption);
    }
    Ok((operand_list(args), flag_given(args, 114), flag_given(args, 102)))
}

/// The line `rm` shows when it cannot remove `path` for `reason`.
pub open spec fn cannot_remove(path: &str, reason: &str) -> Seq<u8> {
    "rm: cannot remove '".spec_bytes() + path.spec_bytes() + reason.spec_bytes()
}

/// `path` names an entry that is not a directory.
pub open spec fn names_file<D: BlockDevice>(v: FatVolume<D>, path: Seq<u8>) -> bool {
    &&& v.resolve(path) matches Walk::Done(_, i) && i < path.len()
    &&& path_lookup(v, path) matches Lookup::Found(c, k) && entry_info(v.cluster_bytes(c), 32 * k).attributes & 0x10 == 0
}

/// `path` names a directory: the root, or an entry with the directory
/// attribute.
pub open spec fn names_dir<D: BlockDevice>(v: FatVolume<D>, path: Seq<u8>) -> bool {
    ||| v.resolve(path) matches Walk::Done(_, i) && i == path.len()
    ||| v.resolve(path) matches Walk::Done(_, i) && i < path.len() && (path_lookup(v, path) matches Lookup::Found(c, k)
        && entry_info(v.cluster_bytes(c), 32 * k).attributes & 0x10 != 0)
}

/// The line `rm` shows, unless `force`, for a path that does not exist.
pub open spec fn missing_line(path: &str, force: bool) -> Seq<u8> {
    if force {
        Seq::<u8>::empty()
    } else {
        cannot_remove(path, "': No such file or directory\n")
    }
}

/// The line `rm` shows, unless `force`, for a directory it cannot list.
pub open spec fn opendir_line(path: &str, force: bool) -> Seq<u8> {
    if force {
        Seq::<u8>::empty()
    } else {
        "rm: cannot open directory '".spec_bytes() + path.spec_bytes() + "'\n".spec_bytes()
    }
}

/// The last step of removing `path`, from `vm` and shown text `om`: the
/// entry is unlinked with nothing shown, or the failure is shown (a
/// vanished entry only unless `force`).
pub open spec fn final_unlink<D: BlockDevice>(
    vm: FatVolume<D>,
    v1: FatVolume<D>,
    path: &str,
    force: bool,
    om: Seq<u8>,
    o1: Seq<u8>,
) -> bool {
    ||| o1 == om && unlinked(vm, v1, path.spec_bytes())
    ||| o1 == om + cannot_remove(path, "'\n")
    ||| v1 == vm && o1 == om + missing_line(path, force)
}

/// What removing `path` from `v0` leaves (`v1`) and adds to the shown text
/// (`o0` to `o1`): a path naming nothing only gets its line; a file is
/// removed with nothing shown, or its failure is shown; a directory
/// without `recursive` is refused; with it, what its children leave is
/// followed by the directory's own removal (see [`final_unlink`]), unless
/// it cannot be listed. A failed look-up of the path is shown as for a
/// missing one.
pub open spec fn removal<D: BlockDevice>(
    v0: FatVolume<D>,
    v1: FatVolume<D>,
    path: &str,
    recursive: bool,
    force: bool,
    o0: Seq<u8>,
    o1: Seq<u8>,
) -> bool {
    &&& o0.is_prefix_of(o1)
    &&& names_nothing(v0, path.spec_bytes()) ==> v1 == v0 && o1 == o0 + missing_line(path, force)
    &&& names_dir(v0, path.spec_bytes()) && recursive ==> {
        ||| v1 == v0 && o1 == o0 + opendir_line(path, force)
        ||| exists|vm: FatVolume<D>, om: Seq<u8>|
            #[trigger] final_unlink(vm, v1, path, force, om, o1) && same_geometry(v0, vm) && o0.is_prefix_of(om)
    }
    &&& names_file(v0, path.spec_bytes()) ==> {
        ||| o1 == o0 && unlinked(v0, v1, path.spec_bytes())
        ||| o1 == o0 + cannot_remove(path, "'\n")
        ||| v1 == v0 && o1 == o0 + missing_line(path, force)
    }
    &&& names_dir(v0, path.spec_bytes()) && !recursive ==> v1 == v0 && (o1 == o0 + cannot_remove(
        path,
        "': Is a directory\n",
    ) || o1 == o0 + missing_line(path, force))
}

/// Removes `path`. A directory is refused without `recursive`; with it,
/// each child (but `.` and `..`) is removed first, then the directory.
/// With `force` nothing is said of a path that does not exist. `depth`
/// bounds how deep directories are followed.
pub fn remove_path<D: BlockDevice>(
    vol: &mut FatVolume<D>,
    path: &str,
    recursive: bool,
    force: bool,
    out: &mut Vec<u8>,
    depth: usize,
)
    requires
        old(vol).wf(),
    ensures
        final(vol).wf(),
        same_geometry(*old(vol), *final(vol)),
        removal(*old(vol), *final(vol), path, recursive, force, old(out)@, final(out)@),
    decreases depth,
{
    let info = match f_stat(vol, path) {
        Ok(i) => i,
        Err(_) => {
            if !force {
                push_str(out, "rm: cannot remove '");
                push_str(out, path);
                push_str(out, "': No such file or directory\n");
            }
            proof {
                assert(out@ =~= old(out)@ + missing_line(path, force));
                assert(final_unlink(*old(vol), *vol, path, force, old(out)@, out@));
                assert(old(out)@.is_prefix_of(out@)) by {
                    assert(out@.subrange(0, old(out)@.len() as int) =~= old(out)@);
                }
            }
            return;
        },
    };
    let is_dir = info.attributes & 0x10 != 0;
    proof {
        if names_file(*old(vol), path.spec_bytes()) {
            let (c, k) = choose|c: int, k: int| path_lookup(*old(vol), path.spec_bytes()) == Lookup::Found(c, k);
            assert(info == entry_info(old(vol).cluster_bytes(c), 32 * k));
            assert(!is_dir);
        }
        if names_dir(*old(vol), path.spec_bytes()) {
            lemma_flag_bits();
            if !(old(vol).resolve(path.spec_bytes()) matches Walk::Done(_, i) && i == path.spec_bytes().len()) {
                let (c, k) = choose|c: int, k: int| path_lookup(*old(vol), path.spec_bytes()) == Lookup::Found(c, k);
                assert(info == entry_info(old(vol).cluster_bytes(c), 32 * k));
            }
            assert(is_dir);
        }
    }
    if is_dir {
        if !recursive {
            push_str(out, "rm: cannot remove '");
            push_str(out, path);
            push_str(out, "': Is a directory\n");
            proof {
                assert(out@ =~= old(out)@ + cannot_remove(path, "': Is a directory\n"));
            }
            return;
        }
        match f_opendir(vol, path) {
            Ok(d) => {
                let mut dir = d;
                let mut name = [0u8; 13];
                let mut budget: u32 = MAX_DIR_READS;
                let mut done = false;
                let pb = path.as_bytes();
                while budget > 0 && !done
                    invariant
                        vol.wf(),
                        same_geometry(*old(vol), *vol),
                        dir.pat_len <= 11,
                        pb@ == path.spec_bytes(),
                        old(out)@.is_prefix_of(out@),
                    decreases budget,
                {
                    budget = budget - 1;
                    match f_readdir(vol, &mut dir, &mut name) {
                        Ok(true) => {
                            if dot_entry(&name) {
                                continue;
                            }
                            let end = name_len(&name);
                            if end == 0 {
                                continue;
                            }
                            if pb.len() >= MAX_PATH - 1 - end {
                                continue;
                            }
                            let child = child_bytes(pb, &name, end);
                            let c = path_str(child.as_slice());
                            if depth > 0 {
                                remove_path(vol, c, recursive, force, out, depth - 1);
                            }
                        },
                        Ok(false) => {
                            done = true;
                        },
                        Err(_) => {
                            let ghost o2 = out@;
                            if !force {
                                push_str(out, "rm: error reading directory\n");
                            }
                            proof {
                                assert(out@.subrange(0, o2.len() as int) =~= o2);
                            }
                            done = true;
                        },
                    }
                }
                let _ = f_closedir(dir);
            },
            Err(_) => {
                if !force {
                    push_str(out, "rm: cannot open directory '");
                    push_str(out, path);
                    push_str(out, "'\n");
                }
                proof {
                    assert(out@ =~= old(out)@ + opendir_line(path, force));
                }
                return;
            },
        }
    }
    let ghost ob = out@;
    let ghost vm = *vol;
    let ur = f_unlink(vol, path);
    match ur {
        Ok(()) => {},
        Err(e) => {
            if e == FError::NoFile {
                if !force {
                    push_str(out, "rm: cannot remove '");
                    push_str(out, path);
                    push_str(out, "': No such file or directory\n");
                }
                proof {
                    assert(out@ =~= ob + missing_line(path, force));
                }
            } else {
                push_str(out, "rm: cannot remove '");
                push_str(out, path);
                push_str(out, "'\n");
                proof {
                    assert(out@ =~= ob + cannot_remove(path, "'\n"));
                }
            }
        },
    }
    proof {
        assert(final_unlink(vm, *vol, path, force, ob, out@));
        assert(old(out)@.is_prefix_of(out@)) by {
            assert(out@.subrange(0, ob.len() as int) =~= ob);
        }
    }
}

/// Deepest a directory tree `rm -r` and `cp -r` follow: each level adds at
/// least two bytes to a path of at most 255.
pub const MAX_DEPTH: usize = 128;

/// `vs` and `outs` step through removing `paths` in turn: each removal
/// (see [`removal`]) takes the volume and text of one step to the next.
pub open spec fn removal_steps<D: BlockDevice>(
    vs: Seq<FatVolume<D>>,
    outs: Seq<Seq<u8>>,
    paths: Seq<&str>,
    recursive: bool,
    force: bool,
) -> bool {
    &&& vs.len() == paths.len() + 1
    &&& outs.len() == paths.len() + 1
    &&& forall|k: int|
        0 <= k < paths.len() ==> #[trigger] removal(vs[k], vs[k + 1], paths[k], recursive, force, outs[k], outs[k + 1])
}

/// The `rm` applet: removes each path of `args`; refuses an unknown option
/// and a missing operand.
pub fn run<D: BlockDevice>(vol: &mut FatVolume<D>, args: &[&str]) -> (r: Vec<u8>)
    requires
        old(vol).wf(),
    ensures
        final(vol).wf(),
        same_geometry(*old(vol), *final(vol)),
        bad_option(args@, rm_letters()) ==> r@ == "rm: ".spec_bytes() + arg_error_text(ArgError::InvalidOption).spec_bytes()
            + seq![10u8] && *final(vol) == *old(vol),
        !bad_option(args@, rm_letters()) && operands(args@).len() == 0 ==> r@ == "rm: missing operand\n".spec_bytes()
            && *final(vol) == *old(vol),
        !bad_option(args@, rm_letters()) && operands(args@).len() > 0 ==> exists|
            vs: Seq<FatVolume<D>>,
            outs: Seq<Seq<u8>>,
        |
            #![trigger removal_steps(vs, outs, operands(args@), flag_set(args@, 114), flag_set(args@, 102))]
            removal_steps(vs, outs, operands(args@), flag_set(args@, 114), flag_set(args@, 102)) && vs[0] == *old(vol)
                && vs.last() == *final(vol) && outs[0] == Seq::<u8>::empty() && outs.last() == r@,
{
    let mut out: Vec<u8> = Vec::new();
    let (paths, recursive, force) = match parse_args(args) {
        Ok(x) => x,
        Err(e) => {
            push_str(&mut out, "rm: ");
            push_str(&mut out, arg_error_message(e));
            out.push(10);
            return out;
        },
    };
    if paths.len() == 0 {
        push_str(&mut out, "rm: missing operand\n");
        return out;
    }
    let ghost mut vs: Seq<FatVolume<D>> = seq![*vol];
    let ghost mut outs: Seq<Seq<u8>> = seq![out@];
    let mut k: usize = 0;
    while k < paths.len()
        invariant
            vol.wf(),
            same_geometry(*old(vol), *vol),
            k <= paths@.len(),
            vs.len() == k + 1,
            outs.len() == k + 1,
            vs[0] == *old(vol),
            vs[k as int] == *vol,
            outs[0] == Seq::<u8>::empty(),
            outs[k as int] == out@,
            forall|t: int|
                0 <= t < k ==> #[trigger] removal(vs[t], vs[t + 1], paths@[t], recursive, force, outs[t], outs[t + 1]),
        decreases paths@.len() - k,
    {
        remove_path(vol, paths[k], recursive, force, &mut out, MAX_DEPTH);
        proof {
            vs = vs.push(*vol);
            outs = outs.push(out@);
        }
        k = k + 1;
    }
    proof {
        assert(removal_steps(vs, outs, paths@, recursive, force));
    }
    out
}

} // verus!
