//! The `mk` applet: creates files, and directories (named with a trailing
//! `/`), with `-p` their missing parents too.
use vstd::prelude::*;
use vstd::string::StringSliceAdditionalSpecFns;
use crate::applets::args::{ArgError, arg_error_message, arg_error_text, bad_option, flag_given, flag_set, operand_list, operands, option_error};
use crate::applets::entries::{path_str, path_text};
use crate::block::BlockDevice;
use crate::fat32::{FError, FatVolume, File, f_close, f_mkdir, f_open, f_stat};
use crate::fat32::file::{creates, file_made, names_nothing, same_geometry};
use crate::fat32::manage::{dir_cluster_made, dir_entry_added, final_name, resolved_parent};
use crate::fat32::volume::{FA_CREATE_NEW, FA_WRITE, lemma_flag_bits};
use crate::text::{copy_range, push_bytes, push_str};

verus! {

/// The option letters of `mk`.
pub open spec fn mk_letters() -> Seq<u8> {
    seq![112u8]
}

/// Splits the arguments of `mk` into paths and the `-p` option.
pub fn parse_args<'a>(args: &[&'a str]) -> (r: Result<(Vec<&'a str>, bool), ArgError>)
    ensures
        r is Err <==> bad_option(args@, mk_letters()),
        r matches Err(e) ==> e == ArgError::InvalidOption,
        r matches Ok((p, parents)) ==> p@ == operands(args@) && parents == flag_set(args@, 112),
{
    let letters: Vec<u8> = vec![112u8];
    assert(letters@ =~= mk_letters());
    if option_error(args, letters.as_slice()) {
        return Err(ArgError::InvalidOption);
    }
    Ok((operand_list(args), flag_given(args, 112)))
}

/// Length of `p` without its trailing slashes.
pub open spec fn trimmed_len(p: Seq<u8>) -> int
    decreases p.len(),
{
    if p.len() > 0 && p.last() == 47 {
        trimmed_len(p.drop_last())
    } else {
        p.len() as int
    }
}

proof fn lemma_trimmed_len(p: Seq<u8>)
    ensures
        0 <= trimmed_len(p) <= p.len(),
        forall|i: int| trimmed_len(p) <= i < p.len() ==> p[i] == 47,
        trimmed_len(p) > 0 ==> p[trimmed_len(p) - 1] != 47,
    decreases p.len(),
{
    if p.len() > 0 && p.last() == 47 {
        lemma_trimmed_len(p.drop_last());
        assert forall|i: int| trimmed_len(p) <= i < p.len() implies p[i] == 47 by {
            if i < p.len() - 1 {
                assert(p.drop_last()[i] == p[i]);
            }
        }
    }
}

/// Length of `p` without its trailing slashes.
pub fn trim_slashes(p: &[u8]) -> (r: usize)
    ensures
        r == trimmed_len(p@),
{
    let mut n = p.len();
    assert(p@.take(n as int) =~= p@);
    while n > 0 && p[n - 1] == 47
        invariant
            n <= p@.len(),
            trimmed_len(p@) == trimmed_len(p@.take(n as int)),
        decreases n,
    {
        assert(p@.take(n as int).drop_last() =~= p@.take(n - 1));
        n = n - 1;
    }
    assert(p@.take(n as int).len() == 0 || p@.take(n as int).last() != 47);
    n
}

/// The parent of `path`: the part before the last slash of `path` without
/// its trailing slashes, `/` when that slash is the first byte; none when
/// there is no slash.
pub open spec fn parent_of(path: Seq<u8>) -> Option<Seq<u8>> {
    let t = path.take(trimmed_len(path));
    if exists|i: int| 0 <= i < t.len() && t[i] == 47 {
        let pos = choose|i: int| 0 <= i < t.len() && t[i] == 47 && forall|j: int| i < j < t.len() ==> t[j] != 47;
        if pos == 0 {
            Some(seq![47u8])
        } else {
            Some(t.take(pos))
        }
    } else {
        None
    }
}

/// The parent of `path`, as `parent_of` states.
pub fn parent_path(path: &[u8]) -> (r: Option<Vec<u8>>)
    ensures
        match parent_of(path@) {
            Some(p) => r matches Some(v) && v@ == p,
            None => r is None,
        },
{
    let n = trim_slashes(path);
    proof {
        lemma_trimmed_len(path@);
    }
    let ghost t = path@.take(n as int);
    let mut i = n;
    while i > 0 && path[i - 1] != 47
        invariant
            i <= n <= path@.len(),
            t == path@.take(n as int),
            forall|j: int| i <= j < n ==> t[j] != 47,
        decreases i,
    {
        i = i - 1;
    }
    if i == 0 {
        assert(!exists|k: int| 0 <= k < t.len() && t[k] == 47);
        return None;
    }
    let pos = i - 1;
    assert(t[pos as int] == 47);
    let ghost c = choose|k: int| 0 <= k < t.len() && t[k] == 47 && forall|j: int| k < j < t.len() ==> t[j] != 47;
    assert(c == pos) by {
        if c < pos {
            assert(t[pos as int] != 47);
        }
        if c > pos {
            assert(t[c] != 47);
        }
    }
    if pos == 0 {
        let mut v: Vec<u8> = Vec::new();
        v.push(47);
        assert(v@ =~= seq![47u8]);
        Some(v)
    } else {
        let v = copy_range(path, 0, pos);
        assert(v@ =~= t.take(pos as int));
        Some(v)
    }
}

/// The words `mk` shows for error `e`.
pub open spec fn mk_error_words(e: FError) -> &'static str {
    match e {
        FError::DiskErr => "Disk error",
        FError::Exists => "File exists",
        FError::NoPath => "No such path",
        FError::Invalid => "Invalid name",
        FError::MkfsAborted => "Out of clusters",
        _ => "Unknown error",
    }
}

/// The line `mk` shows when it cannot create the `label` named `path`.
pub open spec fn mk_error_line(path: Seq<u8>, label: &str, e: FError) -> Seq<u8> {
    "mk: cannot create ".spec_bytes() + label.spec_bytes() + " '".spec_bytes() + path + "': ".spec_bytes()
        + mk_error_words(e).spec_bytes() + seq![10u8]
}

/// Appends the line `mk` shows when it cannot create the `label` named
/// `path`.
pub fn show_err(out: &mut Vec<u8>, path: &str, label: &str, e: FError)
    ensures
        final(out)@ == old(out)@ + mk_error_line(path.spec_bytes(), label, e),
{
    push_str(out, "mk: cannot create ");
    push_str(out, label);
    push_str(out, " '");
    push_str(out, path);
    push_str(out, "': ");
    let words = match e {
        FError::DiskErr => "Disk error",
        FError::Exists => "File exists",
        FError::NoPath => "No such path",
        FError::Invalid => "Invalid name",
        FError::MkfsAborted => "Out of clusters",
        _ => "Unknown error",
    };
    assert(words == mk_error_words(e));
    push_str(out, words);
    out.push(10);
    proof {
        assert(final(out)@ =~= old(out)@ + mk_error_line(path.spec_bytes(), label, e));
    }
}

/// `path` names a directory to make: it ends with `/`.
pub open spec fn made_as_dir(path: Seq<u8>) -> bool {
    path.len() > 0 && path.last() == 47
}

/// The path `mk` works on for `path`: without its trailing slashes, as
/// text (`?` when not valid UTF-8).
pub open spec fn mk_target(path: Seq<u8>) -> Seq<u8> {
    path_text(path.take(trimmed_len(path)))
}

/// What `mk` calls the thing it makes of `path`.
pub open spec fn mk_kind(path: Seq<u8>) -> &'static str {
    if made_as_dir(path) {
        "directory"
    } else {
        "file"
    }
}

/// What on volume `v` can make creating `t` fail with `e`: `Exists` when
/// `t` names something, `NoPath` when its parent does not resolve,
/// `Invalid` for a final name that is empty or longer than 11 bytes,
/// `MkfsAborted` when every cluster is in use, or a device error.
pub open spec fn mk_error_cause<D: BlockDevice>(v: FatVolume<D>, t: Seq<u8>, e: FError) -> bool {
    &&& e == FError::Exists || e == FError::NoPath || e == FError::Invalid || e == FError::MkfsAborted || e
        == FError::DiskErr
    &&& e == FError::Exists ==> !names_nothing(v, t)
    &&& e == FError::NoPath ==> v.resolve(t) is NoPath
    &&& e == FError::Invalid ==> final_name(v, t).len() == 0 || final_name(v, t).len() > 11
    &&& e == FError::MkfsAborted ==> v.all_used(2, v.max_cluster())
}

/// What creating `path` on `v0` leaves (`v1`) and adds to the shown text
/// (`o0` to `o1`): nothing for an empty path; only lines are added; without
/// `parents` at most one line, naming the error that stopped it (see
/// [`mk_error_cause`]); where nothing stood and the parent resolves, the
/// directory asked for is made (see [`dir_cluster_made`],
/// [`dir_entry_added`]), or the empty file (see [`file_made`]), unless a
/// line says why not.
pub open spec fn creation<D: BlockDevice>(
    v0: FatVolume<D>,
    v1: FatVolume<D>,
    path: &str,
    parents: bool,
    o0: Seq<u8>,
    o1: Seq<u8>,
) -> bool {
    let t = mk_target(path.spec_bytes());
    &&& trimmed_len(path.spec_bytes()) == 0 ==> v1 == v0 && o1 == o0
    &&& o0.is_prefix_of(o1)
    &&& !parents ==> o1 == o0 || exists|e: FError|
        o1 == o0 + #[trigger] mk_error_line(t, mk_kind(path.spec_bytes()), e) && mk_error_cause(v0, t, e)
    &&& (!parents || v0.resolve(t) is Done) && trimmed_len(path.spec_bytes()) > 0 && !made_as_dir(path.spec_bytes())
        && names_nothing(v0, t) && o1 == o0 ==> exists|f: File| #[trigger] file_made(v0, v1, t, f)
    &&& (!parents || v0.resolve(t) is Done) && trimmed_len(path.spec_bytes()) > 0 && made_as_dir(path.spec_bytes())
        && names_nothing(v0, t) && o1 == o0 ==> exists|c: int, vm: FatVolume<D>|
        #[trigger] dir_cluster_made(v0, vm, c, resolved_parent(v0, t)) && dir_entry_added(
            vm,
            v1,
            resolved_parent(v0, t),
            final_name(v0, t),
            c,
        )
}

/// `vs` and `outs` step through creating `paths` in turn, each step as
/// [`creation`] says.
pub open spec fn creation_steps<D: BlockDevice>(
    vs: Seq<FatVolume<D>>,
    outs: Seq<Seq<u8>>,
    paths: Seq<&str>,
    parents: bool,
) -> bool {
    &&& vs.len() == paths.len() + 1
    &&& outs.len() == paths.len() + 1
    &&& forall|k: int| 0 <= k < paths.len() ==> #[trigger] creation(vs[k], vs[k + 1], paths[k], parents, outs[k], outs[k + 1])
}

/// Creates `path`: a directory when it ends with `/` (nothing when it
/// already names a directory), else an empty file (nothing when it
/// exists). With `parents`, a path whose parent is missing has its parent
/// created first, then is created again without a report; otherwise the
/// failure is reported. `depth` bounds the parents created in a row.
#[verifier::rlimit(60)]
#[verifier::spinoff_prover]
pub fn create_path<D: BlockDevice>(vol: &mut FatVolume<D>, path: &str, parents: bool, out: &mut Vec<u8>, depth: usize)
    requires
        old(vol).wf(),
    ensures
        final(vol).wf(),
        same_geometry(*old(vol), *final(vol)),
        creation(*old(vol), *final(vol), path, parents, old(out)@, final(out)@),
    decreases depth,
{
    let pb = path.as_bytes();
    let is_dir = pb.len() > 0 && pb[pb.len() - 1] == 47;
    let n = trim_slashes(pb);
    proof {
        lemma_trimmed_len(pb@);
    }
    if n == 0 {
        return;
    }
    let tb = copy_range(pb, 0, n);
    let p = path_str(tb.as_slice());
    proof {
        assert(pb@ == path.spec_bytes());
        assert(tb@ == path.spec_bytes().take(trimmed_len(path.spec_bytes())));
        assert(p.spec_bytes() == mk_target(path.spec_bytes()));
        assert(is_dir == made_as_dir(path.spec_bytes()));
        assert(old(out)@.is_prefix_of(old(out)@ + Seq::<u8>::empty())) by {
            assert(old(out)@ + Seq::<u8>::empty() =~= old(out)@);
        }
    }
    let ghost out0 = out@;
    let ghost v0 = *vol;
    if is_dir {
        if let Ok(info) = f_stat(vol, p) {
            if info.attributes & 0x10 != 0 {
                return;
            }
            show_err(out, p, "directory", FError::Exists);
            proof {
                assert(mk_error_cause(v0, p.spec_bytes(), FError::Exists));
                assert(mk_kind(path.spec_bytes()) == "directory");
                assert(out0.is_prefix_of(out@)) by {
                    assert(out@.subrange(0, out0.len() as int) =~= out0);
                }
            }
            return;
        }
        match f_mkdir(vol, p) {
            Ok(()) => {},
            Err(e) => {
                if e == FError::NoPath && parents {
                    if let Some(parent) = parent_path(p.as_bytes()) {
                        if depth > 0 {
                            let q = path_str(parent.as_slice());
                            create_path(vol, q, true, out, depth - 1);
                            let _ = f_mkdir(vol, p);
                        }
                    }
                } else {
                    show_err(out, p, "directory", e);
                    proof {
                        assert(mk_error_cause(v0, p.spec_bytes(), e));
                        assert(mk_kind(path.spec_bytes()) == "directory");
                        assert(out0.is_prefix_of(out@)) by {
                            assert(out@.subrange(0, out0.len() as int) =~= out0);
                        }
                    }
                }
            },
        }
    } else {
        match f_open(vol, p, FA_WRITE | FA_CREATE_NEW) {
            Ok(f) => {
                let _ = f_close(f);
            },
            Err(e) => {
                if e == FError::Exists {
                } else if e == FError::NoPath && parents {
                    if let Some(parent) = parent_path(p.as_bytes()) {
                        if depth > 0 {
                            let q = path_str(parent.as_slice());
                            create_path(vol, q, true, out, depth - 1);
                            if let Ok(f) = f_open(vol, p, FA_WRITE | FA_CREATE_NEW) {
                                let _ = f_close(f);
                            }
                        }
                    }
                } else {
                    show_err(out, p, "file", e);
                    proof {
                        lemma_flag_bits();
                        assert(creates(FA_WRITE | FA_CREATE_NEW));
                        assert(mk_error_cause(v0, p.spec_bytes(), e));
                        assert(mk_kind(path.spec_bytes()) == "file");
                        assert(out0.is_prefix_of(out@)) by {
                            assert(out@.subrange(0, out0.len() as int) =~= out0);
                        }
                    }
                }
            },
        }
    }
}

/// Most parents `mk -p` creates for one path: a path holds at most 255
/// bytes, so at most 128 components.
pub const MAX_DEPTH: usize = 128;

/// The `mk` applet: creates each path of `args`; refuses an unknown option
/// and a missing operand.
pub fn run<D: BlockDevice>(vol: &mut FatVolume<D>, args: &[&str]) -> (r: Vec<u8>)
    requires
        old(vol).wf(),
    ensures
        final(vol).wf(),
        same_geometry(*old(vol), *final(vol)),
        bad_option(args@, mk_letters()) ==> r@ == "mk: ".spec_bytes() + arg_error_text(ArgError::InvalidOption).spec_bytes()
            + seq![10u8] && *final(vol) == *old(vol),
        !bad_option(args@, mk_letters()) && operands(args@).len() == 0 ==> r@ == "mk: missing operand\n".spec_bytes()
            && *final(vol) == *old(vol),
        !bad_option(args@, mk_letters()) && operands(args@).len() > 0 ==> exists|
            vs: Seq<FatVolume<D>>,
            outs: Seq<Seq<u8>>,
        |
            #![trigger creation_steps(vs, outs, operands(args@), flag_set(args@, 112))]
            creation_steps(vs, outs, operands(args@), flag_set(args@, 112)) && vs[0] == *old(vol) && vs.last()
                == *final(vol) && outs[0] == Seq::<u8>::empty() && outs.last() == r@,
{
    let mut out: Vec<u8> = Vec::new();
    let (paths, parents) = match parse_args(args) {
        Ok(x) => x,
        Err(e) => {
            push_str(&mut out, "mk: ");
            push_str(&mut out, arg_error_message(e));
            out.push(10);
            return out;
        },
    };
    if paths.len() == 0 {
        push_str(&mut out, "mk: missing operand\n");
        return out;
    }
    let ghost mut vs: Seq<FatVolume<D>> = seq![*vol];
    let ghost mut outs: Seq<Seq<u8>> = seq![out@];
    let mut k: usize = 0;
    while k < paths.len()
        invariant
            vol.wf(),
            same_geometry(*old(vol), *vol),
            k <= paths@.len(),
            vs.len() == k + 1,
            outs.len() == k + 1,
            vs[0] == *old(vol),
            vs[k as int] == *vol,
            outs[0] == Seq::<u8>::empty(),
            outs[k as int] == out@,
            forall|t: int| 0 <= t < k ==> #[trigger] creation(vs[t], vs[t + 1], paths@[t], parents, outs[t], outs[t + 1]),
        decreases paths@.len() - k,
    {
        create_path(vol, paths[k], parents, &mut out, MAX_DEPTH);
        proof {
            vs = vs.push(*vol);
            outs = outs.push(out@);
        }
        k = k + 1;
    }
    proof {
        assert(creation_steps(vs, outs, paths@, parents));
    }
    out
}

} // verus!
