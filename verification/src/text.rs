//! Byte-string helpers shared by the modules that produce text.
use vstd::prelude::*;
use vstd::string::StringSliceAdditionalSpecFns;

verus! {

/// `bytes` is well-formed UTF-8 (every scalar encoded in its shortest
/// form, no surrogates, nothing above U+10FFFF).
pub closed spec fn utf8_valid(bytes: Seq<u8>) -> bool {
    vstd::utf8::valid_utf8(bytes)
}

/// Every byte of `s` is 7-bit ASCII.
pub open spec fn all_ascii(s: Seq<u8>) -> bool {
    forall|i: int| 0 <= i < s.len() ==> #[trigger] s[i] < 128
}

/// `bytes` read as text by `core::str::from_utf8`: the text when the bytes
/// are well-formed UTF-8 (the same bytes, as a `&str`), else `None`, as
/// std documents it; ASCII text, which std documents as valid UTF-8, is
/// always read.
#[verifier::external_body]
pub fn as_utf8<'a>(bytes: &'a [u8]) -> (r: Option<&'a str>)
    ensures
        r is Some == utf8_valid(bytes@),
        r matches Some(s) ==> s.spec_bytes() == bytes@,
        all_ascii(bytes@) ==> r is Some,
{
    core::str::from_utf8(bytes).ok()
}

/// Whether `bytes` is well-formed UTF-8.
pub fn is_utf8(bytes: &[u8]) -> (r: bool)
    ensures
        r == utf8_valid(bytes@),
        all_ascii(bytes@) ==> r,
{
    as_utf8(bytes).is_some()
}

/// Index of the first byte of `s` equal to `b`, if any.
pub open spec fn first_index_of(s: Seq<u8>, b: u8) -> Option<int> {
    if exists|i: int| 0 <= i < s.len() && s[i] == b {
        Some(choose|i: int| 0 <= i < s.len() && s[i] == b && forall|j: int| 0 <= j < i ==> s[j] != b)
    } else {
        None
    }
}

/// `first_index_of` names the first occurrence of `b`, or none when `b`
/// does not occur.
pub proof fn lemma_first_index(s: Seq<u8>, b: u8)
    ensures
        match first_index_of(s, b) {
            Some(i) => 0 <= i < s.len() && s[i] == b && forall|j: int| 0 <= j < i ==> s[j] != b,
            None => forall|j: int| 0 <= j < s.len() ==> s[j] != b,
        },
    decreases s.len(),
{
    if s.len() > 0 {
        if s[0] == b {
            assert(0 <= 0 < s.len() && s[0] == b && forall|j: int| 0 <= j < 0 ==> s[j] != b);
        } else {
            let t = s.drop_first();
            lemma_first_index(t, b);
            match first_index_of(t, b) {
                Some(k) => {
                    assert(forall|j: int| 0 < j < k + 1 ==> s[j] == t[j - 1]);
                    assert(0 <= k + 1 < s.len() && s[k + 1] == b && forall|j: int| 0 <= j < k + 1 ==> s[j] != b);
                },
                None => {
                    assert forall|j: int| 0 <= j < s.len() implies s[j] != b by {
                        if j > 0 {
                            assert(s[j] == t[j - 1]);
                        }
                    }
                },
            }
        }
    }
}

/// Length of the prefix of `s` before its first `b` (all of `s` when there is none).
pub open spec fn prefix_len_before(s: Seq<u8>, b: u8) -> int {
    match first_index_of(s, b) {
        Some(i) => i,
        None => s.len() as int,
    }
}

/// Position of the first `b` in `s`, or `s.len()` when `b` does not occur.
pub fn position_of(s: &[u8], b: u8) -> (r: usize)
    ensures
        r <= s@.len(),
        forall|j: int| 0 <= j < r ==> s@[j] != b,
        r < s@.len() ==> s@[r as int] == b,
        r == prefix_len_before(s@, b),
{
    let mut i: usize = 0;
    while i < s.len()
        invariant
            i <= s@.len(),
            forall|j: int| 0 <= j < i ==> s@[j] != b,
        decreases s.len() - i,
    {
        if s[i] == b {
            proof {
                assert(exists|k: int| 0 <= k < s@.len() && s@[k] == b);
                let c = choose|k: int| 0 <= k < s@.len() && s@[k] == b && forall|j: int| 0 <= j < k ==> s@[j] != b;
                assert(0 <= i < s@.len() && s@[i as int] == b && forall|j: int| 0 <= j < i ==> s@[j] != b);
                if c < i {
                } else if c > i {
                    assert(s@[i as int] != b);
                }
            }
            return i;
        }
        i = i + 1;
    }
    proof {
        assert(!(exists|k: int| 0 <= k < s@.len() && s@[k] == b));
    }
    i
}

/// Copy of `s[lo..hi]`.
pub fn copy_range(s: &[u8], lo: usize, hi: usize) -> (r: Vec<u8>)
    requires
        lo <= hi <= s@.len(),
    ensures
        r@ == s@.subrange(lo as int, hi as int),
{
    let mut r: Vec<u8> = Vec::new();
    let mut i = lo;
    while i < hi
        invariant
            lo <= i <= hi <= s@.len(),
            r@ == s@.subrange(lo as int, i as int),
        decreases hi - i,
    {
        r.push(s[i]);
        i = i + 1;
        proof {
            assert(r@ =~= s@.subrange(lo as int, i as int));
        }
    }
    r
}

/// `a` followed by `b`.
pub fn concat(a: &[u8], b: &[u8]) -> (r: Vec<u8>)
    ensures
        r@ == a@ + b@,
{
    let mut r = copy_range(a, 0, a.len());
    proof {
        assert(a@.subrange(0, a@.len() as int) =~= a@);
        assert(a@ + b@.subrange(0, 0) =~= a@);
    }
    let mut i: usize = 0;
    while i < b.len()
        invariant
            i <= b@.len(),
            r@ == a@ + b@.subrange(0, i as int),
        decreases b.len() - i,
    {
        r.push(b[i]);
        i = i + 1;
        proof {
            assert(r@ =~= a@ + b@.subrange(0, i as int));
        }
    }
    proof {
        assert(b@.subrange(0, b@.len() as int) =~= b@);
        assert(a@.subrange(0, a@.len() as int) =~= a@);
    }
    r
}

/// Little-endian 16-bit value of `s[off..off + 2]`.
pub open spec fn le16(s: Seq<u8>, off: int) -> int {
    s[off] + s[off + 1] * 256
}

/// Little-endian 32-bit value of `s[off..off + 4]`.
pub open spec fn le32(s: Seq<u8>, off: int) -> int {
    le16(s, off) + le16(s, off + 2) * 65536
}

/// Little-endian 64-bit value of `s[off..off + 8]`.
pub open spec fn le64(s: Seq<u8>, off: int) -> int {
    le32(s, off) + le32(s, off + 4) * 0x1_0000_0000
}

/// Reads a little-endian `u16` at `off`.
pub fn read_le16(s: &[u8], off: usize) -> (r: u16)
    requires
        off + 2 <= s@.len(),
    ensures
        r == le16(s@, off as int),
{
    let _n = s.len();
    s[off] as u16 + (s[off + 1] as u16) * 256
}

/// Reads a little-endian `u32` at `off`.
pub fn read_le32(s: &[u8], off: usize) -> (r: u32)
    requires
        off + 4 <= s@.len(),
    ensures
        r == le32(s@, off as int),
{
    let _n = s.len();
    let lo = read_le16(s, off) as u32;
    let hi = read_le16(s, off + 2) as u32;
    lo + hi * 65536
}

/// Reads a little-endian `u64` at `off`.
pub fn read_le64(s: &[u8], off: usize) -> (r: u64)
    requires
        off + 8 <= s@.len(),
    ensures
        r == le64(s@, off as int),
{
    let _n = s.len();
    let lo = read_le32(s, off) as u64;
    let hi = read_le32(s, off + 4) as u64;
    lo + hi * 0x1_0000_0000
}

/// Appends the bytes of `s` to `out`.
pub fn push_str(out: &mut Vec<u8>, s: &str)
    ensures
        final(out)@ == old(out)@ + s.spec_bytes(),
{
    push_bytes(out, s.as_bytes());
}

/// Appends `s` to `out`.
pub fn push_bytes(out: &mut Vec<u8>, s: &[u8])
    ensures
        final(out)@ == old(out)@ + s@,
{
    let ghost start = out@;
    let mut i: usize = 0;
    while i < s.len()
        invariant
            i <= s@.len(),
            out@ == start + s@.take(i as int),
        decreases s@.len() - i,
    {
        out.push(s[i]);
        i = i + 1;
        assert(out@ =~= start + s@.take(i as int));
    }
    assert(s@.take(s@.len() as int) =~= s@);
}

/// `n` copies of byte `b`.
pub open spec fn repeat(b: u8, n: nat) -> Seq<u8> {
    Seq::new(n, |i: int| b)
}

/// Appends `n` copies of `b` to `out`.
pub fn push_repeat(out: &mut Vec<u8>, b: u8, n: usize)
    ensures
        final(out)@ == old(out)@ + repeat(b, n as nat),
{
    let ghost start = out@;
    let mut i: usize = 0;
    while i < n
        invariant
            i <= n,
            out@ == start + repeat(b, i as nat),
        decreases n - i,
    {
        out.push(b);
        i = i + 1;
        assert(out@ =~= start + repeat(b, i as nat));
    }
}

/// Whether `a` and `b` hold the same bytes.
pub fn bytes_eq(a: &[u8], b: &[u8]) -> (r: bool)
    ensures
        r == (a@ == b@),
{
    if a.len() != b.len() {
        return false;
    }
    let mut i: usize = 0;
    while i < a.len()
        invariant
            i <= a@.len(),
            a@.len() == b@.len(),
            forall|t: int| 0 <= t < i ==> a@[t] == b@[t],
        decreases a@.len() - i,
    {
        if a[i] != b[i] {
            return false;
        }
        i = i + 1;
    }
    assert(a@ =~= b@);
    true
}

} // verus!
