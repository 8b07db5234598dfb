//! What the file applets read from a directory listing: which entries are
//! the `.` and `..` links, how much of a listed name they use, and the
//! paths of a directory's children.
use vstd::prelude::*;
use vstd::string::StringSliceAdditionalSpecFns;
use crate::text::{as_utf8, prefix_len_before, position_of, utf8_valid};

verus! {

/// The listed name `n` is `.` or `..`.
pub open spec fn is_dot_entry(n: Seq<u8>) -> bool {
    n[0] == 46 && (n[1] == 0 || (n[1] == 46 && n[2] == 0))
}

/// Whether the listed name `n` is `.` or `..`.
pub fn dot_entry(n: &[u8; 13]) -> (r: bool)
    ensures
        r == is_dot_entry(n@),
{
    n[0] == 46 && (n[1] == 0 || (n[1] == 46 && n[2] == 0))
}

/// How many bytes of the listed name `n` the applets use: those before the
/// first NUL when `n` is valid UTF-8, else one (the name reads as `?`).
pub open spec fn label_len(n: Seq<u8>) -> int {
    if utf8_valid(n) {
        prefix_len_before(n, 0)
    } else {
        1
    }
}

/// How many bytes of the listed name `n` the applets use.
pub fn name_len(n: &[u8; 13]) -> (r: usize)
    ensures
        r == label_len(n@),
        r <= 13,
{
    if as_utf8(n.as_slice()).is_some() {
        position_of(n.as_slice(), 0)
    } else {
        1
    }
}

/// The path of child `name` of directory `dir`: `dir`, `/`, `name`.
pub open spec fn child_path(dir: Seq<u8>, name: Seq<u8>) -> Seq<u8> {
    dir + seq![47u8] + name
}

/// The text of path bytes `p`: the bytes themselves when they are valid
/// UTF-8, else `?`.
pub open spec fn path_text(p: Seq<u8>) -> Seq<u8> {
    if utf8_valid(p) {
        p
    } else {
        seq![63u8]
    }
}

/// Path bytes `p` as text: the bytes when valid UTF-8, else `?`.
pub fn path_str<'a>(p: &'a [u8]) -> (r: &'a str)
    ensures
        r.spec_bytes() == path_text(p@),
{
    match as_utf8(p) {
        Some(s) => s,
        None => {
            let q = "?";
            proof {
                reveal_strlit("?");
                vstd::string::is_ascii_spec_bytes(q);
                assert(q.spec_bytes() =~= seq![63u8]);
            }
            q
        },
    }
}

/// The path of child `name[..len]` of directory `dir`.
pub fn child_bytes(dir: &[u8], name: &[u8; 13], len: usize) -> (r: Vec<u8>)
    requires
        len <= 13,
    ensures
        r@ == child_path(dir@, name@.take(len as int)),
{
    let mut r: Vec<u8> = Vec::new();
    crate::text::push_bytes(&mut r, dir);
    r.push(47);
    let mut i: usize = 0;
    while i < len
        invariant
            i <= len <= 13,
            r@ == dir@ + seq![47u8] + name@.take(i as int),
        decreases len - i,
    {
        r.push(name[i]);
        i = i + 1;
        assert(r@ =~= dir@ + seq![47u8] + name@.take(i as int));
    }
    r
}

} // verus!
