//! The `ls` applet: lists directories, in columns or one entry per line,
//! ordered by name or by size.
use vstd::prelude::*;
use vstd::string::StringSliceAdditionalSpecFns;
use crate::applets::args::{ArgError, arg_error_message, arg_error_text, bad_option, flag_given, flag_set, operand_list, operands, option_error};
use crate::applets::entries::{child_bytes, child_path, dot_entry, is_dot_entry, label_len, name_len, path_str, path_text};
use crate::block::BlockDevice;
use crate::fat32::{Dir, FatVolume, f_closedir, f_opendir, f_readdir, f_stat};
use crate::fat32::dir::{DirStep, readdir_walk};
use crate::fat32::file::stat_info;
use crate::fat32::lookup::{Walk, entry_at};
use crate::fat32::names::{entry_name, pad};
use crate::fmt::{dec_digits, dec_str};
use crate::text::{as_utf8, copy_range, is_utf8, push_bytes, push_repeat, push_str, repeat, utf8_valid};

verus! {

/// Most entries one listing shows.
pub const MAX_ENTRIES: usize = 256;

/// Width of the screen the columns are laid out for.
pub const WIDTH: usize = 80;

/// The options of `ls`: `-l` long format, `-a` dot entries too, `-S` by
/// size, `-r` reversed order.
#[derive(Clone, Copy)]
pub struct LsFlags {
    pub long: bool,
    pub all: bool,
    pub sort_size: bool,
    pub reverse: bool,
}

/// One entry of a listing: its name as shown, its size, whether it is a
/// directory.
pub struct LsEntry {
    pub name: Vec<u8>,
    pub size: u32,
    pub is_dir: bool,
}

/// The option letters of `ls`.
pub open spec fn ls_letters() -> Seq<u8> {
    seq![108u8, 97, 83, 114]
}

/// The directories `ls` lists for `args`: its operands, or `/` when there
/// are none.
pub open spec fn ls_paths(args: Seq<&str>) -> Seq<&str> {
    if operands(args).len() == 0 {
        seq!["/"]
    } else {
        operands(args)
    }
}

/// The options of `ls` that `args` set.
pub open spec fn ls_flags(args: Seq<&str>) -> LsFlags {
    LsFlags {
        long: flag_set(args, 108),
        all: flag_set(args, 97),
        sort_size: flag_set(args, 83),
        reverse: flag_set(args, 114),
    }
}

/// The pattern of a listing opened without one: eleven zero bytes.
pub open spec fn no_pattern() -> Seq<u8> {
    Seq::new(11, |j: int| 0u8)
}

/// What `ls` shows for a directory at cluster `c` read from its start:
/// its listing (see [`dir_listing`]), or the line for one that cannot be
/// opened.
pub open spec fn shows_dir<D: BlockDevice>(v: FatVolume<D>, c: int, f: LsFlags, path: &str, sec: Seq<u8>) -> bool {
    ||| sec == cannot_access(path)
    ||| exists|es: Seq<LsEntry>, msgs: Seq<u8>, order: Seq<usize>|
        #![trigger collected(v, c, 0, false, no_pattern(), 0, f.all, es, msgs), sorted_order(es, order, f)]
        collected(v, c, 0, false, no_pattern(), 0, f.all, es, msgs) && sorted_order(es, order, f) && sec
            == dir_listing(es, order, f, msgs)
}

/// Splits the arguments of `ls` into directories and options.
pub fn parse_ls_args<'a>(args: &[&'a str]) -> (r: Result<(Vec<&'a str>, LsFlags), ArgError>)
    ensures
        r is Err <==> bad_option(args@, ls_letters()),
        r matches Err(e) ==> e == ArgError::InvalidOption,
        r matches Ok((p, f)) ==> {
            &&& p@ == ls_paths(args@)
            &&& f.long == flag_set(args@, 108)
            &&& f.all == flag_set(args@, 97)
            &&& f.sort_size == flag_set(args@, 83)
            &&& f.reverse == flag_set(args@, 114)
        },
{
    let letters: Vec<u8> = vec![108u8, 97, 83, 114];
    assert(letters@ =~= ls_letters());
    if option_error(args, letters.as_slice()) {
        return Err(ArgError::InvalidOption);
    }
    let flags = LsFlags {
        long: flag_given(args, 108),
        all: flag_given(args, 97),
        sort_size: flag_given(args, 83),
        reverse: flag_given(args, 114),
    };
    let mut paths = operand_list(args);
    if paths.len() == 0 {
        paths.push("/");
        assert(paths@ =~= seq!["/"]);
    }
    Ok((paths, flags))
}

/// `a` sorts before `b` byte by byte (a proper prefix sorts first).
pub open spec fn lex_lt(a: Seq<u8>, b: Seq<u8>) -> bool
    decreases a.len(),
{
    if a.len() == 0 {
        b.len() > 0
    } else if b.len() == 0 {
        false
    } else if a[0] != b[0] {
        a[0] < b[0]
    } else {
        lex_lt(a.drop_first(), b.drop_first())
    }
}

/// No name sorts before itself.
pub proof fn lemma_lex_irreflexive(a: Seq<u8>)
    ensures
        !lex_lt(a, a),
    decreases a.len(),
{
    if a.len() > 0 {
        lemma_lex_irreflexive(a.drop_first());
    }
}

/// Sorting before is transitive.
pub proof fn lemma_lex_transitive(a: Seq<u8>, b: Seq<u8>, c: Seq<u8>)
    requires
        lex_lt(a, b),
        lex_lt(b, c),
    ensures
        lex_lt(a, c),
    decreases a.len(),
{
    if a.len() > 0 && b.len() > 0 && c.len() > 0 && a[0] == b[0] && b[0] == c[0] {
        lemma_lex_transitive(a.drop_first(), b.drop_first(), c.drop_first());
    }
}

/// Of two different names, one sorts before the other.
pub proof fn lemma_lex_total(a: Seq<u8>, b: Seq<u8>)
    requires
        !lex_lt(a, b),
        !lex_lt(b, a),
    ensures
        a == b,
    decreases a.len(),
{
    if a.len() > 0 && b.len() > 0 {
        lemma_lex_total(a.drop_first(), b.drop_first());
        assert(a =~= seq![a[0]] + a.drop_first());
        assert(b =~= seq![b[0]] + b.drop_first());
    } else {
        assert(a =~= b);
    }
}

/// Whether `a` sorts before `b` byte by byte.
pub fn name_lt(a: &[u8], b: &[u8]) -> (r: bool)
    ensures
        r == lex_lt(a@, b@),
{
    let mut i: usize = 0;
    assert(a@.skip(0) =~= a@);
    assert(b@.skip(0) =~= b@);
    while i < a.len() && i < b.len()
        invariant
            i <= a@.len(),
            i <= b@.len(),
            forall|t: int| 0 <= t < i ==> a@[t] == b@[t],
            lex_lt(a@, b@) == lex_lt(a@.skip(i as int), b@.skip(i as int)),
        decreases a@.len() - i,
    {
        if a[i] != b[i] {
            return a[i] < b[i];
        }
        proof {
            assert(a@.skip(i as int).drop_first() =~= a@.skip(i + 1));
            assert(b@.skip(i as int).drop_first() =~= b@.skip(i + 1));
        }
        i = i + 1;
    }
    i < b.len()
}

/// The text a name is ordered by: the name itself when it is well-formed
/// UTF-8, else `?`.
pub open spec fn sort_key(n: Seq<u8>) -> Seq<u8> {
    if utf8_valid(n) {
        n
    } else {
        seq![63u8]
    }
}

/// The bytes of [`sort_key`] of `n`.
fn name_key(n: &[u8]) -> (r: Vec<u8>)
    ensures
        r@ == sort_key(n@),
{
    if is_utf8(n) {
        let r = copy_range(n, 0, n.len());
        assert(r@ =~= n@);
        r
    } else {
        let k: Vec<u8> = vec![63u8];
        assert(k@ =~= seq![63u8]);
        k
    }
}

/// Whether the exchange sort of `ls` puts `b` ahead of `a` that stands
/// before it: by size, or by name (names in descending order unless
/// reversed, sizes ascending unless reversed).
pub open spec fn displaces(f: LsFlags, a: LsEntry, b: LsEntry) -> bool {
    if f.sort_size {
        if f.reverse {
            a.size < b.size
        } else {
            a.size > b.size
        }
    } else if f.reverse {
        lex_lt(sort_key(b.name@), sort_key(a.name@))
    } else {
        lex_lt(sort_key(a.name@), sort_key(b.name@))
    }
}

/// The step the exchange sort relies on: an entry that displaces `a` is not
/// displaced by an entry that `a` does not yield to.
proof fn lemma_displaces_step(f: LsFlags, a: LsEntry, b: LsEntry, c: LsEntry)
    requires
        displaces(f, a, b),
        !displaces(f, a, c),
    ensures
        !displaces(f, b, c),
{
    if !f.sort_size {
        if f.reverse {
            if lex_lt(sort_key(c.name@), sort_key(b.name@)) {
                if lex_lt(sort_key(c.name@), sort_key(a.name@)) {
                } else if lex_lt(sort_key(a.name@), sort_key(c.name@)) {
                    lemma_lex_transitive(sort_key(a.name@), sort_key(c.name@), sort_key(b.name@));
                    lemma_lex_transitive(sort_key(b.name@), sort_key(a.name@), sort_key(b.name@));
                    lemma_lex_irreflexive(sort_key(b.name@));
                } else {
                    lemma_lex_total(sort_key(a.name@), sort_key(c.name@));
                    lemma_lex_transitive(sort_key(a.name@), sort_key(b.name@), sort_key(a.name@));
                    lemma_lex_irreflexive(sort_key(a.name@));
                }
            }
        } else {
            if lex_lt(sort_key(b.name@), sort_key(c.name@)) {
                if lex_lt(sort_key(a.name@), sort_key(c.name@)) {
                } else if lex_lt(sort_key(c.name@), sort_key(a.name@)) {
                    lemma_lex_transitive(sort_key(b.name@), sort_key(c.name@), sort_key(a.name@));
                    lemma_lex_transitive(sort_key(a.name@), sort_key(b.name@), sort_key(a.name@));
                    lemma_lex_irreflexive(sort_key(a.name@));
                } else {
                    lemma_lex_total(sort_key(a.name@), sort_key(c.name@));
                    lemma_lex_transitive(sort_key(a.name@), sort_key(b.name@), sort_key(a.name@));
                    lemma_lex_irreflexive(sort_key(a.name@));
                }
            }
        }
    }
}

/// Whether `b` displaces `a`.
fn displaces_exec(f: LsFlags, a: &LsEntry, b: &LsEntry) -> (r: bool)
    ensures
        r == displaces(f, *a, *b),
{
    if f.sort_size {
        if f.reverse {
            a.size < b.size
        } else {
            a.size > b.size
        }
    } else {
        let ka = name_key(a.name.as_slice());
        let kb = name_key(b.name.as_slice());
        if f.reverse {
            name_lt(kb.as_slice(), ka.as_slice())
        } else {
            name_lt(ka.as_slice(), kb.as_slice())
        }
    }
}

/// `order` lists each index below `n` once.
pub open spec fn is_permutation(order: Seq<usize>, n: int) -> bool {
    &&& order.len() == n
    &&& forall|i: int| 0 <= i < n ==> #[trigger] order[i] < n
    &&& forall|i: int, j: int| 0 <= i < j < n ==> order[i] != order[j]
}

/// `order` puts the entries of `es` in an order the exchange sort of `ls`
/// leaves: no entry displaces one that stands before it.
pub open spec fn sorted_order(es: Seq<LsEntry>, order: Seq<usize>, f: LsFlags) -> bool {
    &&& is_permutation(order, es.len() as int)
    &&& forall|i: int, j: int|
        0 <= i < j < es.len() ==> !displaces(f, #[trigger] es[order[i] as int], #[trigger] es[order[j] as int])
}

/// How `ls` orders what it lists, in terms of sizes and names: by size
/// (`-S`) the sizes go up, or down with `-r`; by name they go down, or up
/// with `-r` (names compared byte by byte as their text, `?` when not
/// UTF-8).
pub proof fn law_ls_order(es: Seq<LsEntry>, order: Seq<usize>, f: LsFlags, i: int, j: int)
    requires
        sorted_order(es, order, f),
        0 <= i < j < es.len(),
    ensures
        f.sort_size && !f.reverse ==> es[order[i] as int].size <= es[order[j] as int].size,
        f.sort_size && f.reverse ==> es[order[i] as int].size >= es[order[j] as int].size,
        !f.sort_size && !f.reverse ==> !lex_lt(sort_key(es[order[i] as int].name@), sort_key(es[order[j] as int].name@)),
        !f.sort_size && f.reverse ==> !lex_lt(sort_key(es[order[j] as int].name@), sort_key(es[order[i] as int].name@)),
{
    assert(!displaces(f, es[order[i] as int], es[order[j] as int]));
}

/// A permutation of `0..n` takes every value below `n`.
proof fn lemma_permutation_onto(order: Seq<usize>, n: int, k: int)
    requires
        is_permutation(order, n),
        0 <= k < n,
    ensures
        exists|p: int| 0 <= p < n && order[p] == k,
{
    let dom = vstd::set_lib::set_int_range(0, n);
    let f = |p: int| order[p] as int;
    let img = dom.map(f);
    vstd::set_lib::lemma_int_range(0, n);
    assert forall|p1: int, p2: int| dom.contains(p1) && dom.contains(p2) && #[trigger] f(p1) == #[trigger] f(p2)
        implies p1 == p2 by {
        if p1 < p2 {
            assert(order[p1] != order[p2]);
        } else if p2 < p1 {
            assert(order[p2] != order[p1]);
        }
    }
    vstd::set_lib::lemma_map_size(dom, img, f);
    assert forall|x: int| img.contains(x) implies dom.contains(x) by {
        let p = choose|p: int| dom.contains(p) && x == f(p);
        assert(order[p] < n);
    }
    vstd::set_lib::lemma_subset_equality(img, dom);
    assert(dom.contains(k));
    assert(img.contains(k));
    let p = choose|p: int| dom.contains(p) && k == f(p);
    assert(0 <= p < n && order[p] == k);
}

/// Where two orders with the sizes strictly going up agree before `k`, the
/// entry `a` puts at `k` is not smaller than the one `b` puts there.
proof fn lemma_not_smaller(es: Seq<LsEntry>, a: Seq<usize>, b: Seq<usize>, k: int)
    requires
        is_permutation(a, es.len() as int),
        is_permutation(b, es.len() as int),
        forall|i: int, j: int| 0 <= i < j < es.len() ==> es[b[i] as int].size < es[b[j] as int].size,
        0 <= k < es.len(),
        forall|t: int| 0 <= t < k ==> a[t] == b[t],
    ensures
        !(es[a[k] as int].size < es[b[k] as int].size),
{
    let n = es.len() as int;
    if es[a[k] as int].size < es[b[k] as int].size {
        lemma_permutation_onto(b, n, a[k] as int);
        let p = choose|p: int| 0 <= p < n && b[p] == a[k];
        if p < k {
            assert(a[p] == b[p]);
            assert(a[p] != a[k]);
        } else if p > k {
            assert(es[b[k] as int].size < es[b[p] as int].size);
        }
    }
}

/// Two orders of the same entries, each with the sizes strictly going up,
/// agree on their first `k` places.
proof fn lemma_increasing_prefix(es: Seq<LsEntry>, a: Seq<usize>, b: Seq<usize>, k: int)
    requires
        is_permutation(a, es.len() as int),
        is_permutation(b, es.len() as int),
        forall|i: int, j: int| 0 <= i < j < es.len() ==> es[a[i] as int].size < es[a[j] as int].size,
        forall|i: int, j: int| 0 <= i < j < es.len() ==> es[b[i] as int].size < es[b[j] as int].size,
        forall|i: int, j: int| 0 <= i < j < es.len() ==> es[i].size != es[j].size,
        0 <= k <= es.len(),
    ensures
        forall|t: int| 0 <= t < k ==> a[t] == b[t],
    decreases k,
{
    if k > 0 {
        lemma_increasing_prefix(es, a, b, k - 1);
        let m = k - 1;
        lemma_not_smaller(es, a, b, m);
        lemma_not_smaller(es, b, a, m);
        let x = a[m] as int;
        let y = b[m] as int;
        assert(x < es.len() && y < es.len());
        if x < y {
            assert(es[x].size != es[y].size);
        } else if y < x {
            assert(es[y].size != es[x].size);
        }
    }
}

/// Two orders of the same entries, each with the sizes strictly going up,
/// are the same order.
proof fn lemma_increasing_unique(es: Seq<LsEntry>, a: Seq<usize>, b: Seq<usize>)
    requires
        is_permutation(a, es.len() as int),
        is_permutation(b, es.len() as int),
        forall|i: int, j: int| 0 <= i < j < es.len() ==> es[a[i] as int].size < es[a[j] as int].size,
        forall|i: int, j: int| 0 <= i < j < es.len() ==> es[b[i] as int].size < es[b[j] as int].size,
        forall|i: int, j: int| 0 <= i < j < es.len() ==> es[i].size != es[j].size,
    ensures
        a == b,
{
    lemma_increasing_prefix(es, a, b, es.len() as int);
    assert(a =~= b);
}

/// `-r` reverses a size-sorted listing: when no two entries have the same
/// size, the order with `-S -r` is the order with `-S` read backwards.
pub proof fn law_ls_reverse_sizes(es: Seq<LsEntry>, up: Seq<usize>, down: Seq<usize>, f: LsFlags, g: LsFlags)
    requires
        f.sort_size && !f.reverse,
        g.sort_size && g.reverse,
        sorted_order(es, up, f),
        sorted_order(es, down, g),
        forall|i: int, j: int| 0 <= i < j < es.len() ==> es[i].size != es[j].size,
    ensures
        down == up.reverse(),
{
    let n = es.len() as int;
    let r = down.reverse();
    assert forall|i: int, j: int| 0 <= i < j < n implies es[up[i] as int].size < es[up[j] as int].size by {
        law_ls_order(es, up, f, i, j);
        assert(up[i] != up[j]);
        if up[i] < up[j] {
        } else {
        }
    }
    assert(is_permutation(r, n)) by {
        assert forall|i: int, j: int| 0 <= i < j < n implies r[i] != r[j] by {
            assert(r[i] == down[n - 1 - i] && r[j] == down[n - 1 - j]);
            assert(down[n - 1 - j] != down[n - 1 - i]);
        }
    }
    assert forall|i: int, j: int| 0 <= i < j < n implies es[r[i] as int].size < es[r[j] as int].size by {
        law_ls_order(es, down, g, n - 1 - j, n - 1 - i);
        assert(down[n - 1 - j] != down[n - 1 - i]);
    }
    lemma_increasing_unique(es, up, r);
    assert(down =~= r.reverse());
}

/// The order in which `ls` shows `es`.
pub fn sort_order(es: &Vec<LsEntry>, f: LsFlags) -> (r: Vec<usize>)
    ensures
        sorted_order(es@, r@, f),
{
    let n = es.len();
    let mut order: Vec<usize> = Vec::new();
    let mut k: usize = 0;
    while k < n
        invariant
            k <= n == es@.len(),
            order@.len() == k,
            forall|t: int| 0 <= t < k ==> order@[t] == t,
        decreases n - k,
    {
        order.push(k);
        k = k + 1;
    }
    let mut i: usize = 0;
    while i < n
        invariant
            i <= n == es@.len(),
            is_permutation(order@, n as int),
            forall|p: int, q: int|
                0 <= p < i && p < q < n ==> !displaces(f, #[trigger] es@[order@[p] as int], #[trigger] es@[order@[q] as int]),
        decreases n - i,
    {
        let mut j: usize = i + 1;
        while j < n
            invariant
                i < n == es@.len(),
                i + 1 <= j <= n,
                is_permutation(order@, n as int),
                forall|p: int, q: int|
                    0 <= p < i && p < q < n ==> !displaces(f, #[trigger] es@[order@[p] as int], #[trigger] es@[order@[q] as int]),
                forall|q: int| i < q < j ==> !displaces(f, es@[order@[i as int] as int], #[trigger] es@[order@[q] as int]),
            decreases n - j,
        {
            let a = order[i];
            let b = order[j];
            if displaces_exec(f, &es[a], &es[b]) {
                proof {
                    lemma_lex_irreflexive(sort_key(es@[a as int].name@));
                    lemma_displaces_step(f, es@[a as int], es@[b as int], es@[a as int]);
                    assert forall|q: int| i < q < j implies !displaces(f, es@[b as int], #[trigger] es@[order@[q] as int]) by {
                        lemma_displaces_step(f, es@[a as int], es@[b as int], es@[order@[q] as int]);
                    }
                }
                let ghost prev = order@;
                order.set(i, b);
                order.set(j, a);
                proof {
                    assert forall|p: int, q: int|
                        0 <= p < i && p < q < n implies !displaces(f, #[trigger] es@[order@[p] as int], #[trigger] es@[order@[q] as int]) by {
                        let oq = if q == i { j as int } else if q == j { i as int } else { q };
                        assert(order@[q] == prev[oq]);
                        assert(!displaces(f, es@[prev[p] as int], es@[prev[oq] as int]));
                    }
                }
            }
            j = j + 1;
        }
        i = i + 1;
    }
    order
}

/// The size column of the long format: the size right-aligned in eight
/// characters (only its last eight digits when it has more), then a NUL.
pub open spec fn size_field(v: u32) -> Seq<u8> {
    let d = dec_digits(v as nat);
    let shown = if d.len() >= 8 {
        d.subrange(d.len() - 8, d.len() as int)
    } else {
        repeat(32, (8 - d.len()) as nat) + d
    };
    shown + seq![0u8]
}

/// One line of the long format.
pub open spec fn long_line(e: LsEntry) -> Seq<u8> {
    seq![if e.is_dir { 100u8 } else { 32u8 }, 32u8] + size_field(e.size) + seq![32u8] + if e.name@.len() > 0 {
        e.name@ + seq![10u8]
    } else {
        Seq::empty()
    }
}

/// The long format of the first `k` entries of `es` in `order`.
pub open spec fn long_text(es: Seq<LsEntry>, order: Seq<usize>, k: int) -> Seq<u8>
    decreases k,
{
    if k <= 0 {
        Seq::empty()
    } else {
        long_text(es, order, k - 1) + long_line(es[order[k - 1] as int])
    }
}

/// The size column of the long format for `v`.
pub fn size_column(v: u32) -> (r: Vec<u8>)
    ensures
        r@ == size_field(v),
{
    let d = dec_str(v as u64);
    let mut r: Vec<u8> = Vec::new();
    if d.len() >= 8 {
        let mut i: usize = d.len() - 8;
        while i < d.len()
            invariant
                8 <= d@.len(),
                d.len() - 8 <= i <= d@.len(),
                r@ == d@.subrange(d@.len() - 8, i as int),
            decreases d@.len() - i,
        {
            r.push(d[i]);
            i = i + 1;
            assert(r@ =~= d@.subrange(d@.len() - 8, i as int));
        }
    } else {
        push_repeat(&mut r, 32, 8 - d.len());
        push_bytes(&mut r, d.as_slice());
    }
    r.push(0);
    proof {
        assert(r@ =~= size_field(v));
    }
    r
}

/// Lists `es` in `order`, one entry per line: type, size, name.
pub fn long_listing(es: &Vec<LsEntry>, order: &Vec<usize>) -> (r: Vec<u8>)
    requires
        is_permutation(order@, es@.len() as int),
    ensures
        r@ == long_text(es@, order@, es@.len() as int),
{
    let mut out: Vec<u8> = Vec::new();
    let mut i: usize = 0;
    while i < order.len()
        invariant
            i <= order@.len() == es@.len(),
            is_permutation(order@, es@.len() as int),
            out@ == long_text(es@, order@, i as int),
        decreases order@.len() - i,
    {
        let e = &es[order[i]];
        out.push(if e.is_dir { 100u8 } else { 32u8 });
        out.push(32);
        let s = size_column(e.size);
        push_bytes(&mut out, s.as_slice());
        out.push(32);
        if e.name.len() > 0 {
            push_bytes(&mut out, e.name.as_slice());
            out.push(10);
        }
        i = i + 1;
        assert(out@ =~= long_text(es@, order@, i as int));
    }
    out
}

/// The width `e` takes in a column: its name, and `/` after a directory.
pub open spec fn shown_width(e: LsEntry) -> int {
    e.name@.len() + if e.is_dir { 1int } else { 0int }
}

/// The widest of the first `k` entries of `es` in `order`.
pub open spec fn max_width(es: Seq<LsEntry>, order: Seq<usize>, k: int) -> int
    decreases k,
{
    if k <= 0 {
        0
    } else {
        let w = shown_width(es[order[k - 1] as int]);
        let m = max_width(es, order, k - 1);
        if w > m {
            w
        } else {
            m
        }
    }
}

/// The width of a column: the widest entry and two spaces, at least four.
pub open spec fn column_width(es: Seq<LsEntry>, order: Seq<usize>) -> int {
    let w = max_width(es, order, es.len() as int) + 2;
    if w > 4 {
        w
    } else {
        4
    }
}

/// How many columns of width `w` fit the screen (at least one).
pub open spec fn column_count(w: int) -> int {
    if (WIDTH as int) / w > 1 {
        (WIDTH as int) / w
    } else {
        1
    }
}

/// One cell: the name, `/` after a directory, and when `pad` spaces up to
/// the column width `w`.
pub open spec fn cell_text(e: LsEntry, pad: bool, w: int) -> Seq<u8> {
    let written = shown_width(e);
    e.name@ + (if e.is_dir { seq![47u8] } else { Seq::empty() }) + if pad && w > written {
        repeat(32, (w - written) as nat)
    } else {
        Seq::empty()
    }
}

/// The cells of row `r` from column `c` on: entry `c * rows + r` of each
/// column, up to the first column that has no entry in this row.
pub open spec fn row_text(es: Seq<LsEntry>, order: Seq<usize>, r: int, c: int, rows: int, cols: int, w: int) -> Seq<u8>
    decreases cols - c,
{
    if c >= cols || c < 0 || c * rows + r >= es.len() {
        Seq::empty()
    } else {
        cell_text(es[order[c * rows + r] as int], c < cols - 1, w) + row_text(es, order, r, c + 1, rows, cols, w)
    }
}

/// Rows `r` onward of the column layout, each ended by a newline.
pub open spec fn rows_text(es: Seq<LsEntry>, order: Seq<usize>, r: int, rows: int, cols: int, w: int) -> Seq<u8>
    decreases rows - r,
{
    if r >= rows || r < 0 {
        Seq::empty()
    } else {
        row_text(es, order, r, 0, rows, cols, w) + seq![10u8] + rows_text(es, order, r + 1, rows, cols, w)
    }
}

/// The column layout of `es` in `order`: entries run down the columns.
pub open spec fn columns_text(es: Seq<LsEntry>, order: Seq<usize>) -> Seq<u8> {
    let w = column_width(es, order);
    let cols = column_count(w);
    let rows = (es.len() + cols - 1) / cols;
    rows_text(es, order, 0, rows, cols, w)
}

/// Lists `es` in `order` down as many columns as fit the screen.
pub fn column_listing(es: &Vec<LsEntry>, order: &Vec<usize>) -> (r: Vec<u8>)
    requires
        is_permutation(order@, es@.len() as int),
        es@.len() <= MAX_ENTRIES,
        forall|i: int| 0 <= i < es@.len() ==> (#[trigger] es@[i]).name@.len() <= 13,
    ensures
        r@ == columns_text(es@, order@),
{
    let n = es.len();
    let mut max_w: usize = 0;
    let mut i: usize = 0;
    while i < n
        invariant
            i <= n == es@.len() == order@.len(),
            is_permutation(order@, n as int),
            forall|t: int| 0 <= t < n ==> (#[trigger] es@[t]).name@.len() <= 13,
            max_w == max_width(es@, order@, i as int),
            max_w <= 14,
        decreases n - i,
    {
        let e = &es[order[i]];
        let w = e.name.len() + if e.is_dir { 1usize } else { 0usize };
        if w > max_w {
            max_w = w;
        }
        i = i + 1;
    }
    let col_w: usize = if max_w + 2 > 4 { max_w + 2 } else { 4 };
    let cols: usize = if WIDTH / col_w > 1 { WIDTH / col_w } else { 1 };
    assert(WIDTH / col_w <= 20) by (nonlinear_arith)
        requires
            col_w >= 4,
            WIDTH == 80,
    ;
    assert(1 <= cols <= 20);
    let rows: usize = (n + cols - 1) / cols;
    assert(rows as int <= n as int) by (nonlinear_arith)
        requires
            rows as int == (n as int + cols as int - 1) / (cols as int),
            cols as int >= 1,
    ;
    let ghost w = col_w as int;
    let mut out: Vec<u8> = Vec::new();
    let mut row: usize = 0;
    while row < rows
        invariant
            n == es@.len() == order@.len() <= MAX_ENTRIES,
            is_permutation(order@, n as int),
            1 <= cols <= 20,
            rows <= n,
            col_w == w,
            row <= rows,
            forall|t: int| 0 <= t < n ==> (#[trigger] es@[t]).name@.len() <= 13,
            rows_text(es@, order@, 0, rows as int, cols as int, w) == out@ + rows_text(
                es@,
                order@,
                row as int,
                rows as int,
                cols as int,
                w,
            ),
        decreases rows - row,
    {
        let ghost before = out@;
        let mut col: usize = 0;
        let mut stop = false;
        while col < cols && !stop
            invariant
                n == es@.len() == order@.len() <= MAX_ENTRIES,
                is_permutation(order@, n as int),
                1 <= cols <= 20,
                rows <= n,
                row < rows,
                col_w == w,
                col <= cols,
                row_text(es@, order@, row as int, 0, rows as int, cols as int, w) == (out@.subrange(
                    before.len() as int,
                    out@.len() as int,
                )) + row_text(es@, order@, row as int, col as int, rows as int, cols as int, w),
                out@.subrange(0, before.len() as int) == before,
                out@.len() >= before.len(),
                forall|t: int| 0 <= t < n ==> (#[trigger] es@[t]).name@.len() <= 13,
                stop ==> col * rows + row >= n,
            decreases cols - col, if stop { 0int } else { 1int },
        {
            assert(col * rows + row < 20 * 256 + 256) by (nonlinear_arith)
                requires
                    col < 20,
                    rows <= 256,
                    row < rows,
            ;
            let idx = col * rows + row;
            if idx >= n {
                stop = true;
                continue;
            }
            let e = &es[order[idx]];
            let ghost mid = out@;
            push_bytes(&mut out, e.name.as_slice());
            if e.is_dir {
                out.push(47);
            }
            if col < cols - 1 {
                let written = if e.is_dir { e.name.len() + 1 } else { e.name.len() };
                if col_w > written {
                    push_repeat(&mut out, 32, col_w - written);
                }
            }
            proof {
                let cell = cell_text(es@[order@[idx as int] as int], col < cols - 1, w);
                assert(out@ =~= mid + cell);
                assert(out@.subrange(before.len() as int, out@.len() as int) =~= mid.subrange(
                    before.len() as int,
                    mid.len() as int,
                ) + cell);
                assert(out@.subrange(0, before.len() as int) =~= before);
            }
            col = col + 1;
        }
        out.push(10);
        proof {
            assert(out@.subrange(0, before.len() as int) =~= before);
            assert(out@ =~= before + row_text(es@, order@, row as int, 0, rows as int, cols as int, w) + seq![10u8]);
        }
        row = row + 1;
    }
    out
}

/// The text of a listing of `es`, in an order the exchange sort leaves.
pub open spec fn listing_text(es: Seq<LsEntry>, order: Seq<usize>, f: LsFlags) -> Seq<u8> {
    if f.long {
        long_text(es, order, es.len() as int)
    } else {
        columns_text(es, order)
    }
}

/// Sorts `es` and lays them out as `f` asks.
pub fn listing(es: &Vec<LsEntry>, f: LsFlags) -> (r: Vec<u8>)
    requires
        es@.len() <= MAX_ENTRIES,
        forall|i: int| 0 <= i < es@.len() ==> (#[trigger] es@[i]).name@.len() <= 13,
    ensures
        exists|order: Seq<usize>| sorted_order(es@, order, f) && r@ == listing_text(es@, order, f),
{
    let order = sort_order(es, f);
    let r = if f.long {
        long_listing(es, &order)
    } else {
        column_listing(es, &order)
    };
    assert(sorted_order(es@, order@, f) && r@ == listing_text(es@, order@, f));
    r
}

/// The name `ls` shows for a listed name `n` of which it keeps `end`
/// bytes: the kept bytes before the first NUL when they are valid UTF-8
/// (with NUL padding), else `?`.
pub open spec fn shown_text(n: Seq<u8>, end: int) -> Seq<u8> {
    let stored = Seq::new(13, |i: int| if i < end { n[i] } else { 0u8 });
    if crate::text::utf8_valid(stored) {
        stored.take(crate::text::prefix_len_before(stored, 0))
    } else {
        seq![63u8]
    }
}

/// The name `ls` shows for listed name `n` of which it keeps `end` bytes.
pub fn shown_name(n: &[u8; 13], end: usize) -> (r: Vec<u8>)
    requires
        end <= 13,
    ensures
        r@ == shown_text(n@, end as int),
        r@.len() <= 13,
{
    let mut stored = [0u8; 13];
    let mut i: usize = 0;
    while i < end
        invariant
            i <= end <= 13,
            forall|t: int| 0 <= t < i ==> stored@[t] == n@[t],
            forall|t: int| i <= t < 13 ==> stored@[t] == 0,
        decreases end - i,
    {
        stored[i] = n[i];
        i = i + 1;
    }
    let ghost spec_stored = Seq::new(13, |t: int| if t < end { n@[t] } else { 0u8 });
    assert(stored@ =~= spec_stored);
    if crate::text::is_utf8(stored.as_slice()) {
        let len = crate::text::position_of(stored.as_slice(), 0);
        let r = crate::text::copy_range(stored.as_slice(), 0, len);
        assert(r@ =~= spec_stored.take(len as int));
        r
    } else {
        let mut r: Vec<u8> = Vec::new();
        r.push(63);
        assert(r@ =~= seq![63u8]);
        r
    }
}

/// Most names one directory is read for: a FAT directory holds at most
/// 65536 entries.
pub const MAX_DIR_READS: u32 = 65536;

/// The names (NUL padded to 13 bytes) the next `n` reads of a listing
/// give, in order, when it is at entry `i` of cluster `c` (and has `ended`
/// or not): fewer when the listing ends first.
#[verifier::opaque]
pub open spec fn listing_hits<D: BlockDevice>(
    v: FatVolume<D>,
    c: int,
    i: int,
    ended: bool,
    pat: Seq<u8>,
    pl: int,
    n: nat,
) -> Seq<Seq<u8>>
    decreases n,
{
    if n == 0 || ended {
        Seq::empty()
    } else {
        match readdir_walk(v, c, i, pat, pl, v.max_cluster() as nat) {
            DirStep::Hit(c2, k) => seq![pad(entry_name(entry_at(v.cluster_bytes(c2), k - 1)), 13)] + listing_hits(
                v,
                c2,
                k,
                false,
                pat,
                pl,
                (n - 1) as nat,
            ),
            _ => Seq::empty(),
        }
    }
}

/// The names a listing shows of the read names `hits`: those with a
/// non-empty name, `.` and `..` only with `all`, as [`shown_text`] gives
/// them.
#[verifier::opaque]
pub open spec fn shown_names(hits: Seq<Seq<u8>>, all: bool) -> Seq<Seq<u8>>
    decreases hits.len(),
{
    if hits.len() == 0 {
        Seq::empty()
    } else {
        let rest = shown_names(hits.drop_last(), all);
        let n = hits.last();
        if (all || !is_dot_entry(n)) && label_len(n) > 0 {
            rest.push(shown_text(n, label_len(n)))
        } else {
            rest
        }
    }
}

/// `s`, cut to its first `n` items when it is longer.
pub open spec fn first_n<A>(s: Seq<A>, n: int) -> Seq<A> {
    if s.len() <= n {
        s
    } else {
        s.take(n)
    }
}

/// The names of entries `es`.
pub open spec fn entry_names(es: Seq<LsEntry>) -> Seq<Seq<u8>> {
    Seq::new(es.len(), |k: int| es[k].name@)
}

/// A listing whose next read ends it (or that has ended) gives no more
/// names.
proof fn lemma_listing_end<D: BlockDevice>(v: FatVolume<D>, d: Dir, b: nat)
    requires
        d.ended || match readdir_walk(v, d.current_cluster as int, d.entry_index as int, d.pattern@, d.pat_len as int, v.max_cluster() as nat) {
            DirStep::Hit(_, _) => false,
            _ => true,
        },
    ensures
        listing_hits(v, d.current_cluster as int, d.entry_index as int, d.ended, d.pattern@, d.pat_len as int, b + 1)
            == Seq::<Seq<u8>>::empty(),
{
    reveal(listing_hits);
}

/// After a read that gave name `nm`, the names the listing still gives
/// are `nm` then those from the new position.
proof fn lemma_listing_hit<D: BlockDevice>(
    v: FatVolume<D>,
    d: Dir,
    d2: Dir,
    b: nat,
    nm: Seq<u8>,
    hits: Seq<Seq<u8>>,
    all_hits: Seq<Seq<u8>>,
)
    requires
        !d.ended,
        all_hits == hits + listing_hits(v, d.current_cluster as int, d.entry_index as int, d.ended, d.pattern@, d.pat_len as int, b + 1),
        d2.pattern == d.pattern,
        d2.pat_len == d.pat_len,
        !d2.ended,
        readdir_walk(v, d.current_cluster as int, d.entry_index as int, d.pattern@, d.pat_len as int, v.max_cluster() as nat)
            == DirStep::Hit(d2.current_cluster as int, d2.entry_index as int),
        nm == pad(entry_name(entry_at(v.cluster_bytes(d2.current_cluster as int), d2.entry_index - 1)), 13),
    ensures
        all_hits == hits.push(nm) + listing_hits(
            v,
            d2.current_cluster as int,
            d2.entry_index as int,
            d2.ended,
            d.pattern@,
            d.pat_len as int,
            b,
        ),
{
    reveal(listing_hits);
    let after = listing_hits(v, d2.current_cluster as int, d2.entry_index as int, false, d.pattern@, d.pat_len as int, b);
    assert(listing_hits(v, d.current_cluster as int, d.entry_index as int, d.ended, d.pattern@, d.pat_len as int, b + 1)
        == seq![nm] + after);
    assert(all_hits =~= hits.push(nm) + after);
}

/// The shown names after one more read name `nm`, cut to `MAX_ENTRIES`,
/// are what [`add_listed`] leaves.
proof fn lemma_shown_step(hits: Seq<Seq<u8>>, nm: Seq<u8>, all: bool, before: Seq<Seq<u8>>, after: Seq<Seq<u8>>, full: bool)
    requires
        before == first_n(shown_names(hits, all), MAX_ENTRIES as int),
        before.len() <= MAX_ENTRIES,
        !(all || !is_dot_entry(nm)) ==> after == before,
        (all || !is_dot_entry(nm)) && before.len() >= MAX_ENTRIES ==> after == before,
        (all || !is_dot_entry(nm)) && before.len() < MAX_ENTRIES ==> after == (if label_len(nm) > 0 {
            before.push(shown_text(nm, label_len(nm)))
        } else {
            before
        }),
    ensures
        after == first_n(shown_names(hits.push(nm), all), MAX_ENTRIES as int),
{
    reveal(shown_names);
    let sh = shown_names(hits, all);
    let hp = hits.push(nm);
    assert(hp.drop_last() =~= hits);
    assert(hp.last() == nm);
    let sh2 = shown_names(hp, all);
    if before.len() >= MAX_ENTRIES {
        assert(sh.len() >= MAX_ENTRIES);
        if (all || !is_dot_entry(nm)) && label_len(nm) > 0 {
            assert(sh2.take(MAX_ENTRIES as int) =~= sh.take(MAX_ENTRIES as int));
        }
    } else {
        assert(before == sh);
    }
}

/// The next read of a listing, `f_readdir`'s, told over the names the
/// listing gives: with `hits` read so far out of `all_hits` and `b + 1`
/// reads left, a name read is the next of `all_hits`; `false` means none
/// is left.
fn next_name<D: BlockDevice>(
    vol: &FatVolume<D>,
    dir: &mut Dir,
    name: &mut [u8; 13],
    Ghost(hits): Ghost<Seq<Seq<u8>>>,
    Ghost(all_hits): Ghost<Seq<Seq<u8>>>,
    Ghost(b): Ghost<nat>,
) -> (r: crate::fat32::FResult<bool>)
    requires
        vol.wf(),
        old(dir).pat_len <= 11,
        all_hits == hits + listing_hits(
            *vol,
            old(dir).current_cluster as int,
            old(dir).entry_index as int,
            old(dir).ended,
            old(dir).pattern@,
            old(dir).pat_len as int,
            b + 1,
        ),
    ensures
        final(dir).pattern == old(dir).pattern,
        final(dir).pat_len == old(dir).pat_len,
        r matches Ok(true) ==> all_hits == hits.push(final(name)@) + listing_hits(
            *vol,
            final(dir).current_cluster as int,
            final(dir).entry_index as int,
            final(dir).ended,
            old(dir).pattern@,
            old(dir).pat_len as int,
            b,
        ),
        r matches Ok(false) ==> all_hits == hits,
{
    let ghost dd = *dir;
    let r = f_readdir(vol, dir, name);
    proof {
        if r matches Ok(true) {
            lemma_listing_hit(*vol, dd, *dir, b, name@, hits, all_hits);
        } else if r matches Ok(false) {
            lemma_listing_end(*vol, dd, b);
            assert(all_hits =~= hits);
        }
    }
    r
}

/// Adds the read name `n` to a listing's entries: nothing for a dot entry
/// (unless `all`) or an empty name; when the entries are full, the
/// too-many message instead, and `true`.
fn add_listed<D: BlockDevice>(vol: &FatVolume<D>, n: &[u8; 13], all: bool, entries: &mut Vec<LsEntry>, msgs: &mut Vec<u8>) -> (full: bool)
    requires
        vol.wf(),
        old(entries)@.len() <= MAX_ENTRIES,
        forall|i: int| 0 <= i < old(entries)@.len() ==> (#[trigger] old(entries)@[i]).name@.len() <= 13,
        forall|i: int| 0 <= i < old(entries)@.len() ==> listed_stat(*vol, #[trigger] old(entries)@[i]),
    ensures
        final(entries)@.len() <= MAX_ENTRIES,
        forall|i: int| 0 <= i < final(entries)@.len() ==> (#[trigger] final(entries)@[i]).name@.len() <= 13,
        forall|i: int| 0 <= i < final(entries)@.len() ==> listed_stat(*vol, #[trigger] final(entries)@[i]),
        full == ((all || !is_dot_entry(n@)) && old(entries)@.len() >= MAX_ENTRIES),
        full ==> final(msgs)@ == old(msgs)@ + "ls: too many entries\n".spec_bytes(),
        !full ==> final(msgs)@ == old(msgs)@,
        !(all || !is_dot_entry(n@)) || old(entries)@.len() >= MAX_ENTRIES ==> entry_names(final(entries)@) == entry_names(
            old(entries)@,
        ),
        (all || !is_dot_entry(n@)) && old(entries)@.len() < MAX_ENTRIES ==> entry_names(final(entries)@) == (if label_len(n@)
            > 0 {
            entry_names(old(entries)@).push(shown_text(n@, label_len(n@)))
        } else {
            entry_names(old(entries)@)
        }),
{
    if !all && dot_entry(n) {
        return false;
    }
    if entries.len() >= MAX_ENTRIES {
        push_str(msgs, "ls: too many entries\n");
        return true;
    }
    let end = name_len(n);
    if end == 0 {
        return false;
    }
    let root: Vec<u8> = Vec::new();
    let full = child_bytes(root.as_slice(), n, end);
    let path = path_str(full.as_slice());
    let (size, is_dir) = match f_stat(vol, path) {
        Ok(info) => (info.size, info.attributes & 0x10 != 0),
        Err(_) => (0u32, false),
    };
    let shown = shown_name(n, end);
    let ghost old_entries = entries@;
    let e = LsEntry { name: shown, size, is_dir };
    proof {
        assert(entry_stat(*vol, e, n@));
    }
    entries.push(e);
    proof {
        assert(entry_names(entries@) =~= entry_names(old_entries).push(e.name@));
        assert(listed_stat(*vol, entries@[entries@.len() - 1]));
    }
    false
}

/// The size and directory flag recorded for `e`, whose name was read as
/// `n`: those `f_stat` gives for the root entry `/name` (see
/// [`stat_info`]), or 0 and not a directory when that look-up fails (always
/// when there is no such entry).
pub open spec fn entry_stat<D: BlockDevice>(v: FatVolume<D>, e: LsEntry, n: Seq<u8>) -> bool {
    let p = path_text(child_path(Seq::empty(), n.take(label_len(n))));
    ||| e.size == 0 && !e.is_dir
    ||| stat_info(v, p) matches Some(info) && e.size == info.size && e.is_dir == (info.attributes & 0x10 != 0)
}

/// `e` is recorded for some name `n` read from the directory: its shown
/// name and its [`entry_stat`].
pub open spec fn listed_stat<D: BlockDevice>(v: FatVolume<D>, e: LsEntry) -> bool {
    exists|n: Seq<u8>| n.len() == 13 && #[trigger] entry_stat(v, e, n) && e.name@ == shown_text(n, label_len(n))
}

/// `es` and `msgs` are what reading the listing of a directory gives, from
/// cluster `c` and entry `i` on (`ended`, `pat`, `pl` as in a [`Dir`]):
/// at most `MAX_ENTRIES` entries, at most one message, and the entries'
/// names the first `MAX_ENTRIES` shown names of the names read, which are
/// all the listing gives when there is no message.
pub open spec fn collected<D: BlockDevice>(
    v: FatVolume<D>,
    c: int,
    i: int,
    ended: bool,
    pat: Seq<u8>,
    pl: int,
    all: bool,
    es: Seq<LsEntry>,
    msgs: Seq<u8>,
) -> bool {
    &&& es.len() <= MAX_ENTRIES
    &&& forall|k: int| 0 <= k < es.len() ==> (#[trigger] es[k]).name@.len() <= 13
    &&& forall|k: int| 0 <= k < es.len() ==> listed_stat(v, #[trigger] es[k])
    &&& msgs == Seq::<u8>::empty() || msgs == "ls: too many entries\n".spec_bytes() || msgs
        == "ls: error reading directory\n".spec_bytes()
    &&& exists|hits: Seq<Seq<u8>>|
        {
            &&& #[trigger] hits.is_prefix_of(listing_hits(v, c, i, ended, pat, pl, MAX_DIR_READS as nat))
            &&& msgs.len() == 0 ==> hits == listing_hits(v, c, i, ended, pat, pl, MAX_DIR_READS as nat)
            &&& entry_names(es) == first_n(shown_names(hits, all), MAX_ENTRIES as int)
        }
}

/// What `ls` shows for a directory whose listing gave `es` and `msgs`: the
/// messages, then the entries laid out in `order`.
pub open spec fn dir_listing(es: Seq<LsEntry>, order: Seq<usize>, f: LsFlags, msgs: Seq<u8>) -> Seq<u8> {
    msgs + if es.len() > 0 {
        listing_text(es, order, f)
    } else {
        Seq::empty()
    }
}

/// Reads the entries of `dir` for a listing: skips `.` and `..` unless
/// `all`, stops after `MAX_ENTRIES` (with a message), and takes each
/// entry's size and kind from the entry of the same name in the root
/// directory. Returns the entries and the messages shown while reading.
/// The entries are the first `MAX_ENTRIES` shown names of the names read
/// (see [`listing_hits`]); without a message, of all the listing gives.
#[verifier::rlimit(100)]
#[verifier::spinoff_prover]
pub fn collect_entries<D: BlockDevice>(vol: &FatVolume<D>, dir: Dir, all: bool) -> (r: (Vec<LsEntry>, Vec<u8>))
    requires
        vol.wf(),
        dir.pat_len <= 11,
    ensures
        collected(
            *vol,
            dir.current_cluster as int,
            dir.entry_index as int,
            dir.ended,
            dir.pattern@,
            dir.pat_len as int,
            all,
            r.0@,
            r.1@,
        ),
{
    let ghost d0 = dir;
    let ghost all_hits = listing_hits(
        *vol,
        dir.current_cluster as int,
        dir.entry_index as int,
        dir.ended,
        dir.pattern@,
        dir.pat_len as int,
        MAX_DIR_READS as nat,
    );
    let mut dir = dir;
    let mut entries: Vec<LsEntry> = Vec::new();
    let mut msgs: Vec<u8> = Vec::new();
    let mut name = [0u8; 13];
    let mut budget: u32 = MAX_DIR_READS;
    let mut done = false;
    let ghost mut hits: Seq<Seq<u8>> = Seq::empty();
    proof {
        assert(entry_names(entries@) =~= Seq::<Seq<u8>>::empty());
        assert(all_hits =~= hits + all_hits);
        reveal(shown_names);
    }
    proof {
        reveal_strlit("ls: too many entries\n");
        reveal_strlit("ls: error reading directory\n");
    }
    while budget > 0 && !done
        invariant
            vol.wf(),
            dir.pat_len <= 11,
            entries@.len() <= MAX_ENTRIES,
            "ls: too many entries\n".spec_bytes().len() > 0,
            "ls: error reading directory\n".spec_bytes().len() > 0,
            forall|i: int| 0 <= i < entries@.len() ==> (#[trigger] entries@[i]).name@.len() <= 13,
            forall|i: int| 0 <= i < entries@.len() ==> listed_stat(*vol, #[trigger] entries@[i]),
            dir.pattern == d0.pattern,
            dir.pat_len == d0.pat_len,
            msgs@ == Seq::<u8>::empty() || msgs@ == "ls: too many entries\n".spec_bytes() || msgs@
                == "ls: error reading directory\n".spec_bytes(),
            msgs@.len() > 0 ==> done,
            hits.is_prefix_of(all_hits),
            !done ==> all_hits == hits + listing_hits(
                *vol,
                dir.current_cluster as int,
                dir.entry_index as int,
                dir.ended,
                d0.pattern@,
                d0.pat_len as int,
                budget as nat,
            ),
            done && msgs@.len() == 0 ==> hits == all_hits,
            entry_names(entries@) == first_n(shown_names(hits, all), MAX_ENTRIES as int),
            all_hits == listing_hits(
                *vol,
                d0.current_cluster as int,
                d0.entry_index as int,
                d0.ended,
                d0.pattern@,
                d0.pat_len as int,
                MAX_DIR_READS as nat,
            ),
        decreases budget,
    {
        budget = budget - 1;
        let ghost prev = hits;
        match next_name(vol, &mut dir, &mut name, Ghost(hits), Ghost(all_hits), Ghost(budget as nat)) {
            Ok(true) => {
                proof {
                    hits = hits.push(name@);
                }
                let ghost old_names = entry_names(entries@);
                let full = add_listed(vol, &name, all, &mut entries, &mut msgs);
                proof {
                    lemma_shown_step(prev, name@, all, old_names, entry_names(entries@), full);
                }
                if full {
                    done = true;
                }
            },
            Ok(false) => {
                done = true;
            },
            Err(_) => {
                push_str(&mut msgs, "ls: error reading directory\n");
                done = true;
            },
        }
    }
    proof {
        if !done {
            assert(budget == 0);
            reveal(listing_hits);
            assert(all_hits =~= hits);
        }
        assert(hits.is_prefix_of(all_hits));
    }
    let _ = f_closedir(dir);
    (entries, msgs)
}

/// Lists the directory `dir` is a listing of: the messages shown while
/// reading it, then its entries laid out as `flags` asks (nothing when it
/// has none).
pub fn list_dir<D: BlockDevice>(vol: &FatVolume<D>, dir: Dir, flags: LsFlags) -> (r: Vec<u8>)
    requires
        vol.wf(),
        dir.pat_len <= 11,
    ensures
        exists|es: Seq<LsEntry>, msgs: Seq<u8>, order: Seq<usize>|
            #![trigger collected(*vol, dir.current_cluster as int, dir.entry_index as int, dir.ended, dir.pattern@, dir.pat_len as int, flags.all, es, msgs), sorted_order(es, order, flags)]
            collected(
                *vol,
                dir.current_cluster as int,
                dir.entry_index as int,
                dir.ended,
                dir.pattern@,
                dir.pat_len as int,
                flags.all,
                es,
                msgs,
            ) && sorted_order(es, order, flags) && r@ == dir_listing(es, order, flags, msgs),
{
    let (es, msgs) = collect_entries(vol, dir, flags.all);
    let ghost m0 = msgs@;
    let mut out = msgs;
    if es.len() == 0 {
        proof {
            let order: Seq<usize> = Seq::empty();
            assert(sorted_order(es@, order, flags));
            assert(out@ =~= dir_listing(es@, order, flags, m0));
        }
        return out;
    }
    let text = listing(&es, flags);
    push_bytes(&mut out, text.as_slice());
    proof {
        let order = choose|order: Seq<usize>| sorted_order(es@, order, flags) && text@ == listing_text(es@, order, flags);
        assert(out@ =~= dir_listing(es@, order, flags, m0));
    }
    out
}

/// What `ls` shows for directory `path` when it lists several: the path
/// and a colon first, an empty line after.
pub open spec fn framed(paths: Seq<&str>, secs: Seq<Seq<u8>>, k: int) -> Seq<u8>
    decreases k,
{
    if k <= 0 {
        Seq::empty()
    } else {
        let many = paths.len() > 1;
        framed(paths, secs, k - 1) + (if many { paths[k - 1].spec_bytes() + ":\n".spec_bytes() } else { Seq::empty() })
            + secs[k - 1] + if many { seq![10u8] } else { Seq::empty() }
    }
}

/// The line shown for a directory that cannot be opened.
pub open spec fn cannot_access(path: &str) -> Seq<u8> {
    "ls: cannot access '".spec_bytes() + path.spec_bytes() + "'\n".spec_bytes()
}

/// The `ls` applet: lists each directory named in `args` (`/` when none is
/// named) with the options of `args`; refuses an unknown option.
pub fn run<D: BlockDevice>(vol: &FatVolume<D>, args: &[&str]) -> (r: Vec<u8>)
    requires
        vol.wf(),
    ensures
        bad_option(args@, ls_letters()) ==> r@ == "ls: ".spec_bytes() + arg_error_text(ArgError::InvalidOption).spec_bytes()
            + seq![10u8],
        !bad_option(args@, ls_letters()) ==> exists|secs: Seq<Seq<u8>>|
            #![trigger framed(ls_paths(args@), secs, ls_paths(args@).len() as int)]
            {
                let paths = ls_paths(args@);
                &&& secs.len() == paths.len()
                &&& r@ == framed(paths, secs, paths.len() as int)
                &&& forall|k: int|
                    0 <= k < paths.len() && (#[trigger] vol.resolve(paths[k].spec_bytes())) is NoPath ==> secs[k]
                        == cannot_access(paths[k])
                &&& forall|k: int|
                    0 <= k < paths.len() ==> (#[trigger] vol.resolve(paths[k].spec_bytes()) matches Walk::Done(c, _)
                        ==> shows_dir(*vol, c, ls_flags(args@), paths[k], secs[k]))
            },
{
    let mut out: Vec<u8> = Vec::new();
    let (paths, flags) = match parse_ls_args(args) {
        Ok(x) => x,
        Err(e) => {
            push_str(&mut out, "ls: ");
            push_str(&mut out, arg_error_message(e));
            out.push(10);
            return out;
        },
    };
    let many = paths.len() > 1;
    let ghost mut secs: Seq<Seq<u8>> = Seq::empty();
    let mut k: usize = 0;
    while k < paths.len()
        invariant
            vol.wf(),
            k <= paths@.len(),
            many == (paths@.len() > 1),
            secs.len() == k,
            out@ == framed(paths@, secs, k as int),
            forall|t: int|
                0 <= t < k && (#[trigger] vol.resolve(paths@[t].spec_bytes())) is NoPath ==> secs[t] == cannot_access(
                    paths@[t],
                ),
            forall|t: int|
                0 <= t < k ==> (#[trigger] vol.resolve(paths@[t].spec_bytes()) matches Walk::Done(c, _) ==> shows_dir(
                    *vol,
                    c,
                    flags,
                    paths@[t],
                    secs[t],
                )),
            flags == ls_flags(args@),
        decreases paths@.len() - k,
    {
        let path = paths[k];
        let ghost start = out@;
        if many {
            push_str(&mut out, path);
            push_str(&mut out, ":\n");
        }
        let ghost mid = out@;
        let ghost mut shown_at: Option<int> = None;
        match f_opendir(vol, path) {
            Ok(dir) => {
                let t = list_dir(vol, dir, flags);
                push_bytes(&mut out, t.as_slice());
                proof {
                    assert(out@.subrange(mid.len() as int, out@.len() as int) =~= t@);
                    assert(dir.pattern@ =~= no_pattern());
                    shown_at = Some(dir.start_cluster as int);
                    assert(shows_dir(*vol, dir.start_cluster as int, flags, path, t@));
                }
            },
            Err(_) => {
                push_str(&mut out, "ls: cannot access '");
                push_str(&mut out, path);
                push_str(&mut out, "'\n");
            },
        }
        let ghost sec = out@.subrange(mid.len() as int, out@.len() as int);
        proof {
            match shown_at {
                Some(c0) => {
                    assert(shows_dir(*vol, c0, flags, path, sec));
                    assert(vol.resolve(path.spec_bytes()) matches Walk::Done(c, _) && c == c0);
                },
                None => {
                    assert(sec =~= cannot_access(path));
                },
            }
            assert(vol.resolve(path.spec_bytes()) matches Walk::Done(c, _) ==> shows_dir(*vol, c, flags, path, sec));
        }
        if many {
            out.push(10);
        }
        proof {
            assert(out@ =~= framed(paths@, secs.push(sec), k + 1)) by {
                assert(framed(paths@, secs.push(sec), k as int) == framed(paths@, secs, k as int)) by {
                    lemma_framed_prefix(paths@, secs, sec, k as int);
                }
            }
            secs = secs.push(sec);
        }
        k = k + 1;
    }
    out
}

proof fn lemma_framed_prefix(paths: Seq<&str>, secs: Seq<Seq<u8>>, sec: Seq<u8>, k: int)
    requires
        0 <= k <= secs.len(),
    ensures
        framed(paths, secs.push(sec), k) == framed(paths, secs, k),
    decreases k,
{
    if k > 0 {
        lemma_framed_prefix(paths, secs, sec, k - 1);
    }
}

} // verus!
