//! Directory entry names, search patterns and entry fields.
use vstd::prelude::*;
use crate::text::{le16, le32, read_le16, read_le32};

verus! {

/// Metadata of a file or directory.
#[derive(Debug, Clone, Copy, PartialEq, Eq, Structural)]
pub struct FileInfo {
    pub size: u32,
    pub attributes: u8,
    pub start_cluster: u32,
    pub write_time: u16,
    pub write_date: u16,
}

/// First index in `i..hi` holding a space or NUL, or `hi`.
pub open spec fn stop83(e: Seq<u8>, i: int, hi: int) -> int
    decreases hi - i,
{
    if i >= hi || e[i] == 32 || e[i] == 0 {
        i
    } else {
        stop83(e, i + 1, hi)
    }
}

/// The display name of the 8.3 directory entry `e`: the base name up to its
/// first space or NUL, then, when the extension does not start with one, a
/// dot and the extension up to its first space or NUL.
pub open spec fn entry_name(e: Seq<u8>) -> Seq<u8> {
    let base = e.subrange(0, stop83(e, 0, 8));
    if e[8] != 32 && e[8] != 0 {
        base + seq![46u8] + e.subrange(8, stop83(e, 8, 11))
    } else {
        base
    }
}

/// `s` padded with NUL bytes to length `n`.
pub open spec fn pad(s: Seq<u8>, n: int) -> Seq<u8> {
    s + Seq::new((n - s.len()) as nat, |i: int| 0u8)
}

proof fn lemma_stop83(e: Seq<u8>, i: int, hi: int)
    requires
        0 <= i <= hi <= e.len(),
    ensures
        i <= stop83(e, i, hi) <= hi,
        forall|j: int| i <= j < stop83(e, i, hi) ==> e[j] != 32 && e[j] != 0,
        stop83(e, i, hi) < hi ==> e[stop83(e, i, hi)] == 32 || e[stop83(e, i, hi)] == 0,
    decreases hi - i,
{
    if i < hi && e[i] != 32 && e[i] != 0 {
        lemma_stop83(e, i + 1, hi);
    }
}

/// The name of directory entry `entry`, NUL-padded to 13 bytes, or `None`
/// when it is empty.
pub fn read_dir_entry_name(entry: &[u8; 32]) -> (r: Option<[u8; 13]>)
    ensures
        r is None <==> entry_name(entry@).len() == 0,
        r matches Some(n) ==> n@ == pad(entry_name(entry@), 13),
{
    let ghost e = entry@;
    proof {
        lemma_stop83(e, 0, 8);
        lemma_stop83(e, 8, 11);
    }
    let mut name = [0u8; 13];
    let mut i: usize = 0;
    let mut j: usize = 0;
    while j < 8 && entry[j] != 32 && entry[j] != 0
        invariant
            e == entry@,
            i == j,
            j <= stop83(e, 0, 8),
            stop83(e, 0, 8) <= 8,
            forall|k: int| 0 <= k < j ==> name@[k] == e[k],
            forall|k: int| j <= k < 13 ==> name@[k] == 0,
            forall|k: int| 0 <= k < stop83(e, 0, 8) ==> e[k] != 32 && e[k] != 0,
            stop83(e, 0, 8) < 8 ==> e[stop83(e, 0, 8)] == 32 || e[stop83(e, 0, 8)] == 0,
        decreases 8 - j,
    {
        name[i] = entry[j];
        i = i + 1;
        j = j + 1;
    }
    let ghost nb = i as int;
    let ext_byte = entry[8];
    if ext_byte != 32 && ext_byte != 0 {
        name[i] = 46;
        i = i + 1;
        let mut j: usize = 8;
        while j < 11 && entry[j] != 32 && entry[j] != 0
            invariant
                e == entry@,
                nb == stop83(e, 0, 8),
                0 <= nb <= 8,
                i == nb + 1 + (j - 8),
                8 <= j <= stop83(e, 8, 11),
                stop83(e, 8, 11) <= 11,
                forall|k: int| 0 <= k < nb ==> name@[k] == e[k],
                name@[nb] == 46,
                forall|k: int| nb + 1 <= k < i ==> name@[k] == e[k - nb - 1 + 8],
                forall|k: int| i <= k < 13 ==> name@[k] == 0,
                forall|k: int| 8 <= k < stop83(e, 8, 11) ==> e[k] != 32 && e[k] != 0,
                stop83(e, 8, 11) < 11 ==> e[stop83(e, 8, 11)] == 32 || e[stop83(e, 8, 11)] == 0,
            decreases 11 - j,
        {
            let ghost before = name@;
            name[i] = entry[j];
            proof {
                assert(i as int != nb);
                assert(name@[nb] == before[nb]);
                assert forall|k: int| nb + 1 <= k < i + 1 implies name@[k] == e[k - nb - 1 + 8] by {
                    if k < i {
                        assert(name@[k] == before[k]);
                    }
                }
            }
            i = i + 1;
            j = j + 1;
        }
        proof {
            assert(name@ =~= pad(entry_name(e), 13));
        }
    } else {
        proof {
            assert(name@ =~= pad(entry_name(e), 13));
        }
    }
    if i == 0 {
        None
    } else {
        Some(name)
    }
}

/// `c` in lower case, for ASCII letters.
pub open spec fn lower(c: u8) -> u8 {
    if 65 <= c <= 90 {
        (c + 32) as u8
    } else {
        c
    }
}

/// The entry name `name` (NUL padded) matches the path component `target`:
/// the first `target.len()` bytes agree ignoring ASCII case.
pub open spec fn name_matches(name: Seq<u8>, target: Seq<u8>) -> bool {
    &&& target.len() <= 13
    &&& forall|i: int| 0 <= i < target.len() ==> lower(#[trigger] name[i]) == lower(target[i])
}

fn lower_byte(c: u8) -> (r: u8)
    ensures
        r == lower(c),
{
    if c >= 65 && c <= 90 {
        c + 32
    } else {
        c
    }
}

/// Whether entry name `name` matches the path component `target`.
pub fn names_match(name: &[u8; 13], target: &[u8]) -> (r: bool)
    ensures
        r == name_matches(name@, target@),
{
    if target.len() > 13 {
        return false;
    }
    let mut k: usize = 0;
    while k < target.len() && lower_byte(name[k]) == lower_byte(target[k])
        invariant
            target@.len() <= 13,
            k <= target@.len(),
            forall|i: int| 0 <= i < k ==> lower(#[trigger] name@[i]) == lower(target@[i]),
        decreases target.len() - k,
    {
        k = k + 1;
    }
    k == target.len()
}

/// Byte index of the first `.` of `s`, if any.
pub open spec fn dot_index(s: Seq<u8>) -> Option<int> {
    if exists|i: int| 0 <= i < s.len() && s[i] == 46 {
        Some(choose|i: int| 0 <= i < s.len() && s[i] == 46 && forall|j: int| 0 <= j < i ==> s[j] != 46)
    } else {
        None
    }
}

/// The 11 name bytes of a directory entry for the file name `n`: the part
/// before the first dot (at most 8 bytes) then the part after it (at most 3
/// bytes), each space padded, with no change of case.
pub open spec fn encode_83(n: Seq<u8>) -> Seq<u8> {
    let d = match dot_index(n) {
        Some(d) => d,
        None => n.len() as int,
    };
    let base_end = if d < 8 { d } else { 8 };
    let ext = match dot_index(n) {
        Some(d) => n.subrange(d + 1, if d + 4 < n.len() { d + 4 } else { n.len() as int }),
        None => Seq::empty(),
    };
    Seq::new(
        11,
        |i: int|
            if i < 8 {
                if i < base_end {
                    n[i]
                } else {
                    32u8
                }
            } else if i - 8 < ext.len() {
                ext[i - 8]
            } else {
                32u8
            },
    )
}

/// The entry name bytes for file name `n` (see [`encode_83`]).
pub fn encode_name_83(n: &[u8]) -> (r: [u8; 11])
    ensures
        r@ == encode_83(n@),
{
    let len = n.len();
    let mut dot: usize = 0;
    while dot < len && n[dot] != 46
        invariant
            dot <= len == n@.len(),
            forall|j: int| 0 <= j < dot ==> n@[j] != 46,
        decreases len - dot,
    {
        dot = dot + 1;
    }
    proof {
        if dot < len {
            let c = choose|i: int| 0 <= i < n@.len() && n@[i] == 46 && forall|j: int| 0 <= j < i ==> n@[j] != 46;
            assert(0 <= dot < n@.len() && n@[dot as int] == 46);
            if c < dot {
            } else if c > dot {
                assert(n@[dot as int] != 46);
            }
            assert(dot_index(n@) == Some(dot as int));
        } else {
            assert(dot_index(n@) is None);
        }
    }
    let mut r = [32u8; 11];
    let name_end = if dot < 8 { dot } else { 8 };
    let mut j: usize = 0;
    while j < name_end
        invariant
            name_end <= 8,
            name_end <= dot <= len == n@.len(),
            j <= name_end,
            forall|k: int| 0 <= k < j ==> r@[k] == n@[k],
            forall|k: int| j <= k < 11 ==> r@[k] == 32,
        decreases name_end - j,
    {
        r[j] = n[j];
        j = j + 1;
    }
    if dot < len {
        let ext_end = if len - dot > 4 { dot + 4 } else { len };
        let mut k: usize = 0;
        while k < ext_end - dot - 1
            invariant
                dot < len == n@.len(),
                ext_end == (if dot + 4 < len { dot + 4 } else { len as int }),
                k <= ext_end - dot - 1,
                ext_end - dot - 1 <= 3,
                name_end <= 8,
                forall|t: int| 0 <= t < name_end ==> r@[t] == n@[t],
                forall|t: int| name_end <= t < 8 ==> r@[t] == 32,
                forall|t: int| 8 <= t < 8 + k ==> r@[t] == n@[dot + 1 + t - 8],
                forall|t: int| 8 + k <= t < 11 ==> r@[t] == 32,
            decreases ext_end - dot - 1 - k,
        {
            r[8 + k] = n[dot + 1 + k];
            k = k + 1;
        }
    }
    proof {
        assert(r@ =~= encode_83(n@));
    }
    r
}

/// Start cluster recorded in directory entry `e` (high word at 0x14, low at 0x1A).
pub open spec fn entry_cluster(e: Seq<u8>, off: int) -> int {
    le16(e, off + 0x1A) + le16(e, off + 0x14) * 65536
}

/// Start cluster of the directory entry at `off` of `buf`.
pub fn read_entry_cluster(buf: &[u8], off: usize) -> (r: u32)
    requires
        off + 32 <= buf@.len(),
    ensures
        r == entry_cluster(buf@, off as int),
{
    let _n = buf.len();
    let lo = read_le16(buf, off + 0x1A) as u32;
    let hi = read_le16(buf, off + 0x14) as u32;
    lo + hi * 65536
}

/// The metadata directory entry `e` records (the entry at offset `off`).
pub open spec fn entry_info(e: Seq<u8>, off: int) -> FileInfo {
    FileInfo {
        size: le32(e, off + 0x1C) as u32,
        attributes: e[off + 0x0B],
        start_cluster: entry_cluster(e, off) as u32,
        write_time: le16(e, off + 0x16) as u16,
        write_date: le16(e, off + 0x18) as u16,
    }
}

/// Metadata of the directory entry at `off` of `buf`.
pub fn read_entry_info(buf: &[u8], off: usize) -> (r: FileInfo)
    requires
        off + 32 <= buf@.len(),
    ensures
        r == entry_info(buf@, off as int),
{
    let _n = buf.len();
    FileInfo {
        size: read_le32(buf, off + 0x1C),
        attributes: buf[off + 0x0B],
        start_cluster: read_entry_cluster(buf, off),
        write_time: read_le16(buf, off + 0x16),
        write_date: read_le16(buf, off + 0x18),
    }
}

/// Byte `n` of entry name `name`, reading NUL past its end.
pub open spec fn name_at(name: Seq<u8>, n: int) -> u8 {
    if 0 <= n < name.len() {
        name[n]
    } else {
        0
    }
}

/// Whether `name` (an entry name, NUL padded) matches pattern `pat` from
/// pattern byte `p` and name position `n`: `*` matches any run of name bytes
/// (stopping at a NUL or position 11), `?` any one byte but NUL or space,
/// other bytes themselves; at the end of the pattern the name must end there
/// (NUL or space).
pub open spec fn pat_match(name: Seq<u8>, n: int, pat: Seq<u8>, p: int) -> bool
    decreases pat.len() - p, 0int, 0int,
{
    if p < 0 || p >= pat.len() {
        name_at(name, n) == 0 || name_at(name, n) == 32
    } else if pat[p] == 42 {
        star_match(name, n, pat, p + 1)
    } else if pat[p] == 63 {
        if name_at(name, n) == 0 || name_at(name, n) == 32 {
            false
        } else {
            pat_match(name, n + 1, pat, p + 1)
        }
    } else {
        if name_at(name, n) != pat[p] {
            false
        } else {
            pat_match(name, n + 1, pat, p + 1)
        }
    }
}

/// Whether the pattern from `q` matches the name from some position at or
/// after `n`, trying each position while the name goes on (below 11).
pub open spec fn star_match(name: Seq<u8>, n: int, pat: Seq<u8>, q: int) -> bool
    decreases pat.len() - q, 1int, 13 - n,
{
    if 0 <= n < 11 && name_at(name, n) != 0 {
        pat_match(name, n, pat, q) || star_match(name, n + 1, pat, q)
    } else {
        pat_match(name, n, pat, q)
    }
}

/// `name` matches the first `pat_len` bytes of `pattern` (always, when the
/// pattern is empty).
pub open spec fn matches_pattern(name: Seq<u8>, pattern: Seq<u8>, pat_len: int) -> bool {
    pat_len == 0 || pat_match(name, 0, pattern.subrange(0, pat_len), 0)
}

/// Byte `i` of a pattern without `*` accepts the name byte `b` at the same
/// position: `?` any byte but NUL or space, any other byte itself.
pub open spec fn accepts(pc: u8, b: u8) -> bool {
    if pc == 63 {
        b != 0 && b != 32
    } else {
        b == pc
    }
}

/// Matching a pattern without `*` from pattern byte `p` against the name
/// from the same position goes byte by byte.
proof fn lemma_starless_match(name: Seq<u8>, pat: Seq<u8>, p: int)
    requires
        0 <= p <= pat.len(),
        forall|i: int| 0 <= i < pat.len() ==> pat[i] != 42,
    ensures
        pat_match(name, p, pat, p) <==> (forall|i: int| p <= i < pat.len() ==> accepts(pat[i], #[trigger] name_at(name, i)))
            && (name_at(name, pat.len() as int) == 0 || name_at(name, pat.len() as int) == 32),
    decreases pat.len() - p,
{
    if p < pat.len() {
        lemma_starless_match(name, pat, p + 1);
        if pat_match(name, p, pat, p) {
            assert forall|i: int| p <= i < pat.len() implies accepts(pat[i], #[trigger] name_at(name, i)) by {
                if i > p {
                    assert(p + 1 <= i);
                }
            }
        }
    }
}

/// What a pattern without `*` matches: the name byte at each pattern
/// position is accepted by the pattern byte there (`?` takes any byte but
/// NUL or space, any other byte only itself), and the name ends (NUL or
/// space) where the pattern does.
pub proof fn law_starless_pattern(name: Seq<u8>, pattern: Seq<u8>, pat_len: int)
    requires
        0 < pat_len <= pattern.len(),
        forall|i: int| 0 <= i < pat_len ==> pattern[i] != 42,
    ensures
        matches_pattern(name, pattern, pat_len) <==> (forall|i: int|
            0 <= i < pat_len ==> accepts(pattern[i], #[trigger] name_at(name, i))) && (name_at(name, pat_len) == 0
            || name_at(name, pat_len) == 32),
{
    let pat = pattern.subrange(0, pat_len);
    lemma_starless_match(name, pat, 0);
    assert forall|i: int| 0 <= i < pat_len implies pat[i] == pattern[i] by {}
}

/// In a pattern without `*`, a `?` at position `p` may be replaced by the
/// name's own byte there, when that byte is neither NUL nor space, without
/// changing whether the name matches.
pub proof fn law_question_mark(name: Seq<u8>, pattern: Seq<u8>, pat_len: int, p: int)
    requires
        0 < pat_len <= pattern.len(),
        forall|i: int| 0 <= i < pat_len ==> pattern[i] != 42,
        0 <= p < pat_len,
        pattern[p] == 63,
        name_at(name, p) != 0,
        name_at(name, p) != 32,
        name_at(name, p) != 42,
    ensures
        matches_pattern(name, pattern, pat_len) == matches_pattern(name, pattern.update(p, name_at(name, p)), pat_len),
{
    let q = pattern.update(p, name_at(name, p));
    law_starless_pattern(name, pattern, pat_len);
    law_starless_pattern(name, q, pat_len);
    assert forall|i: int| 0 <= i < pat_len implies accepts(pattern[i], name_at(name, i)) == accepts(q[i], name_at(name, i)) by {}
    if matches_pattern(name, pattern, pat_len) {
        assert forall|i: int| 0 <= i < pat_len implies accepts(q[i], #[trigger] name_at(name, i)) by {
            assert(accepts(pattern[i], name_at(name, i)));
        }
    }
    if matches_pattern(name, q, pat_len) {
        assert forall|i: int| 0 <= i < pat_len implies accepts(pattern[i], #[trigger] name_at(name, i)) by {
            assert(accepts(q[i], name_at(name, i)));
        }
    }
}

fn byte_at(name: &[u8; 13], n: usize) -> (r: u8)
    ensures
        r == name_at(name@, n as int),
{
    if n < 13 {
        name[n]
    } else {
        0
    }
}

/// Past the end of the name every position reads NUL, so matching from any
/// position beyond it is matching from position 13.
proof fn lemma_past_end(name: Seq<u8>, n: int, pat: Seq<u8>, p: int)
    requires
        n >= 13,
        name.len() == 13,
    ensures
        pat_match(name, n, pat, p) == pat_match(name, 13, pat, p),
        star_match(name, n, pat, p) == star_match(name, 13, pat, p),
    decreases pat.len() - p,
{
    if 0 <= p < pat.len() {
        lemma_past_end(name, n + 1, pat, p + 1);
        lemma_past_end(name, 14, pat, p + 1);
        lemma_past_end(name, n, pat, p + 1);
        assert(name_at(name, n) == 0 && name_at(name, 13) == 0 && name_at(name, n + 1) == 0);
    }
}

fn match_from(name: &[u8; 13], ni: usize, pat: &[u8], pi: usize) -> (r: bool)
    requires
        ni <= 13,
        pi <= pat@.len(),
    ensures
        r == pat_match(name@, ni as int, pat@, pi as int),
    decreases pat@.len() - pi, 0int, 0int,
{
    let mut n = ni;
    let mut p = pi;
    while p < pat.len()
        invariant
            n <= 13,
            pi <= p <= pat@.len(),
            pat_match(name@, ni as int, pat@, pi as int) == pat_match(name@, n as int, pat@, p as int),
        decreases pat@.len() - p,
    {
        let c = pat[p];
        let b = byte_at(name, n);
        if c == 42 {
            return match_star(name, n, pat, p + 1);
        } else if c == 63 {
            if b == 0 || b == 32 {
                return false;
            }
        } else {
            if b != c {
                return false;
            }
        }
        if n < 13 {
            n = n + 1;
        } else {
            proof {
                lemma_past_end(name@, 14, pat@, p + 1);
            }
        }
        p = p + 1;
    }
    let b = byte_at(name, n);
    b == 0 || b == 32
}

fn match_star(name: &[u8; 13], ni: usize, pat: &[u8], q: usize) -> (r: bool)
    requires
        ni <= 13,
        q <= pat@.len(),
    ensures
        r == star_match(name@, ni as int, pat@, q as int),
    decreases pat@.len() - q, 1int, 13 - ni,
{
    if ni < 11 && name[ni] != 0 {
        if match_from(name, ni, pat, q) {
            return true;
        }
        match_star(name, ni + 1, pat, q)
    } else {
        match_from(name, ni, pat, q)
    }
}

/// Whether entry name `name` (NUL padded, as [`read_dir_entry_name`] gives)
/// matches the first `pat_len` bytes of `pattern`.
pub fn match_pattern(name: &[u8; 13], pattern: &[u8; 11], pat_len: u8) -> (r: bool)
    requires
        pat_len <= 11,
    ensures
        r == matches_pattern(name@, pattern@, pat_len as int),
{
    if pat_len == 0 {
        return true;
    }
    let mut pat: Vec<u8> = Vec::new();
    let mut i: usize = 0;
    while i < pat_len as usize
        invariant
            pat_len <= 11,
            i <= pat_len,
            pat@ == pattern@.subrange(0, i as int),
        decreases pat_len - i,
    {
        pat.push(pattern[i]);
        i = i + 1;
        proof {
            assert(pat@ =~= pattern@.subrange(0, i as int));
        }
    }
    match_from(name, 0, pat.as_slice(), 0)
}

} // verus!
