//! Chunk header encoding and the abstract chunk layout of a heap segment.
use vstd::prelude::*;
use vstd::arithmetic::power2::pow2;
use vstd::bits::low_bits_mask;
use super::memory::{Memory, covers};

verus! {

pub const CHUNK_ALIGN: usize = 16;
pub const MIN_CHUNK: usize = 32;
pub const MAX_SEGMENTS: usize = 16;

pub const SIZE_MASK: u64 = 0xFFFF_FFFF_FFFF_FFF8;
pub const IN_USE: u64 = 1;
pub const PREV_IN_USE: u64 = 2;

pub const PROLOGUE_SIZE: usize = 16;
pub const EPILOGUE_SIZE: usize = 16;
pub const HEADER_SIZE: usize = 16;

// ── Header encoding ──────────────────────────────────────────────────

/// Flag bits of a chunk header.
pub open spec fn flag_bits(used: bool, prev_used: bool) -> u64 {
    ((if used { 1int } else { 0int }) + (if prev_used { 2int } else { 0int })) as u64
}

/// The size|flags word of the chunk at `c`.
pub open spec fn hdr(m: Map<int, u64>, c: int) -> u64 {
    m[c + 8]
}

/// The prev_size word of the chunk at `c` (the footer of its predecessor).
pub open spec fn ftr(m: Map<int, u64>, c: int) -> u64 {
    m[c]
}

pub(crate) proof fn lemma_header_bits(x: u64, f: u64, w: u64)
    requires
        x % 8 == 0,
        f < 8,
        w == x + f,
    ensures
        x | f == w,
        w & SIZE_MASK == x,
        w & 7 == f,
        w & IN_USE == f & IN_USE,
        w & PREV_IN_USE == f & PREV_IN_USE,
{
    assert(x | f == w && w & 0xFFFF_FFFF_FFFF_FFF8u64 == x && w & 7 == f && w & 1 == f & 1
        && w & 2 == f & 2) by (bit_vector)
        requires
            x % 8 == 0,
            f < 8,
            w == x + f,
    ;
}

pub(crate) proof fn lemma_flag_bits(used: bool, prev_used: bool)
    ensures
        flag_bits(used, prev_used) < 4,
        (flag_bits(used, prev_used) & IN_USE != 0) == used,
        (flag_bits(used, prev_used) & PREV_IN_USE != 0) == prev_used,
        flag_bits(used, prev_used) & PREV_IN_USE == (if prev_used { 2u64 } else { 0u64 }),
        flag_bits(used, prev_used) & IN_USE == (if used { 1u64 } else { 0u64 }),
{
    assert(0u64 & 1 == 0 && 0u64 & 2 == 0) by (bit_vector);
    assert(1u64 & 1 == 1 && 1u64 & 2 == 0) by (bit_vector);
    assert(2u64 & 1 == 0 && 2u64 & 2 == 2) by (bit_vector);
    assert(3u64 & 1 == 1 && 3u64 & 2 == 2) by (bit_vector);
}

// ── Alignment helpers ────────────────────────────────────────────────

/// `a` is a power of two.
pub open spec fn is_pow2(a: int) -> bool {
    exists|n: nat| n < usize::BITS && pow2(n) == a
}

/// `x` rounded up to the next multiple of the power of two `a`.
pub open spec fn round_up(x: int, a: int) -> int {
    (x + a - 1) - (x + a - 1) % a
}

pub(crate) proof fn lemma_mask_is_round_up(y: usize, a: usize)
    requires
        is_pow2(a as int),
    ensures
        y & !((a - 1) as usize) == y - y % a,
{
    let n = choose|n: nat| n < usize::BITS && pow2(n) == a;
    vstd::bits::lemma_usize_low_bits_mask_is_mod(y, n);
    vstd::arithmetic::power2::lemma_pow2_pos(n);
    let m = (a - 1) as usize;
    assert(low_bits_mask(n) as usize == m);
    assert(y & !m == y - (y & m)) by (bit_vector);
}

/// Rounds `x` up to a multiple of `a` by masking: `(x + a - 1) & !(a - 1)`.
pub fn align_up(x: usize, a: usize) -> (r: usize)
    requires
        a >= 1,
        x + (a - 1) <= usize::MAX,
    ensures
        r == (x + a - 1) as usize & !((a - 1) as usize),
        is_pow2(a as int) ==> r == round_up(x as int, a as int),
{
    proof {
        if is_pow2(a as int) {
            lemma_mask_is_round_up((x + a - 1) as usize, a);
        }
    }
    (x + (a - 1)) & !(a - 1)
}

/// Overflow-checked [`align_up`]: `None` when `x` is `None` or the rounding
/// overflows.
pub fn align_up_checked(x: Option<usize>, a: usize) -> (r: Option<usize>)
    requires
        a >= 1,
    ensures
        r == (match x {
            None => None,
            Some(v) => if v + a - 1 <= usize::MAX {
                Some((v + a - 1) as usize & !((a - 1) as usize))
            } else {
                None
            },
        }),
        is_pow2(a as int) ==> (match r {
            Some(v) => v == round_up(x.unwrap() as int, a as int),
            None => true,
        }),
{
    match x {
        None => None,
        Some(v) => {
            match v.checked_add(a - 1) {
                None => None,
                Some(w) => {
                    proof {
                        if is_pow2(a as int) {
                            lemma_mask_is_round_up(w, a);
                        }
                    }
                    Some(w & !(a - 1))
                },
            }
        },
    }
}

// ── Abstract chunk layout ────────────────────────────────────────────

/// A heap segment `[base, end)`.
#[derive(Clone, Copy, Debug, PartialEq, Eq, Structural)]
pub struct Segment {
    pub base: usize,
    pub end: usize,
}

/// Abstract view of one chunk: its address, size and whether it is allocated.
pub struct ChunkV {
    pub addr: int,
    pub size: int,
    pub used: bool,
}

pub open spec fn prev_used(s: Seq<ChunkV>, k: int) -> bool {
    k == 0 || s[k - 1].used
}

/// Chunk `k` of `s` is faithfully encoded in memory `m` within segment `seg`.
#[verifier::opaque]
pub open spec fn chunk_ok(m: Map<int, u64>, seg: Segment, s: Seq<ChunkV>, k: int) -> bool {
    let c = s[k];
    &&& c.addr % 16 == 0
    &&& c.size % 16 == 0
    &&& c.size >= MIN_CHUNK
    &&& seg.base + PROLOGUE_SIZE <= c.addr
    &&& c.addr + c.size <= seg.end - EPILOGUE_SIZE
    &&& hdr(m, c.addr) == c.size + flag_bits(c.used, prev_used(s, k))
    &&& !c.used ==> ftr(m, c.addr + c.size) == c.size
    &&& k + 1 < s.len() ==> s[k + 1].addr == c.addr + c.size && (c.used || s[k + 1].used)
    &&& k + 1 == s.len() ==> c.addr + c.size == seg.end - EPILOGUE_SIZE
}

/// Segment `seg` of memory `m` holds prologue, the chunks `s` tiling its
/// interior in address order, and epilogue.
pub open spec fn seg_wf(m: Map<int, u64>, seg: Segment, s: Seq<ChunkV>) -> bool {
    &&& seg.base % 16 == 0
    &&& seg.end % 16 == 0
    &&& seg.base + MIN_CHUNK + PROLOGUE_SIZE + EPILOGUE_SIZE <= seg.end
    &&& covers(m, seg.base as int, seg.end as int)
    &&& s.len() >= 1
    &&& s[0].addr == seg.base + PROLOGUE_SIZE
    &&& forall|k: int| 0 <= k < s.len() ==> #[trigger] chunk_ok(m, seg, s, k)
    &&& forall|j: int, k: int|
        0 <= j < k < s.len() ==> #[trigger] s[j].addr + s[j].size <= #[trigger] s[k].addr
    &&& hdr(m, seg.base as int) == PROLOGUE_SIZE + flag_bits(true, true)
    &&& hdr(m, seg.end - EPILOGUE_SIZE) == EPILOGUE_SIZE + flag_bits(true, s.last().used)
}

pub open spec fn free_val() -> spec_fn(ChunkV) -> int {
    |c: ChunkV| if c.used { 0int } else { c.size }
}

pub open spec fn used_val() -> spec_fn(ChunkV) -> int {
    |c: ChunkV| if c.used { 1int } else { 0int }
}

pub open spec fn size_val() -> spec_fn(ChunkV) -> int {
    |c: ChunkV| c.size
}

/// Sum of `f` over the chunks of `s`.
pub open spec fn chunk_sum(s: Seq<ChunkV>, f: spec_fn(ChunkV) -> int) -> int
    decreases s.len(),
{
    if s.len() == 0 {
        0
    } else {
        chunk_sum(s.drop_last(), f) + f(s.last())
    }
}

/// Sum of `f` over the chunks of every segment of `l`.
pub open spec fn layout_sum(l: Seq<Seq<ChunkV>>, f: spec_fn(ChunkV) -> int) -> int
    decreases l.len(),
{
    if l.len() == 0 {
        0
    } else {
        layout_sum(l.drop_last(), f) + chunk_sum(l.last(), f)
    }
}

/// Sum of the usable spans (size minus the two fences) of the first `n` segments.
pub open spec fn span_sum(segs: Seq<Segment>, n: int) -> int
    decreases n,
{
    if n <= 0 {
        0
    } else {
        span_sum(segs, n - 1) + (segs[n - 1].end - segs[n - 1].base - PROLOGUE_SIZE - EPILOGUE_SIZE)
    }
}

pub(crate) proof fn lemma_chunk_sum_concat(a: Seq<ChunkV>, b: Seq<ChunkV>, f: spec_fn(ChunkV) -> int)
    ensures
        chunk_sum(a + b, f) == chunk_sum(a, f) + chunk_sum(b, f),
    decreases b.len(),
{
    if b.len() == 0 {
        assert(a + b =~= a);
    } else {
        lemma_chunk_sum_concat(a, b.drop_last(), f);
        assert((a + b).drop_last() =~= a + b.drop_last());
    }
}

pub(crate) proof fn lemma_chunk_sum_single(x: ChunkV, f: spec_fn(ChunkV) -> int)
    ensures
        chunk_sum(seq![x], f) == f(x),
{
    assert(seq![x].drop_last() =~= Seq::<ChunkV>::empty());
    assert(chunk_sum(Seq::<ChunkV>::empty(), f) == 0);
    assert(seq![x].last() == x);
}

pub(crate) proof fn lemma_layout_sum_update(l: Seq<Seq<ChunkV>>, i: int, s: Seq<ChunkV>, f: spec_fn(ChunkV) -> int)
    requires
        0 <= i < l.len(),
    ensures
        layout_sum(l.update(i, s), f) == layout_sum(l, f) - chunk_sum(l[i], f) + chunk_sum(s, f),
    decreases l.len(),
{
    if i == l.len() - 1 {
        assert(l.update(i, s).drop_last() =~= l.drop_last());
    } else {
        lemma_layout_sum_update(l.drop_last(), i, s, f);
        assert(l.update(i, s).drop_last() =~= l.drop_last().update(i, s));
    }
}

pub(crate) proof fn lemma_layout_sum_push(l: Seq<Seq<ChunkV>>, s: Seq<ChunkV>, f: spec_fn(ChunkV) -> int)
    ensures
        layout_sum(l.push(s), f) == layout_sum(l, f) + chunk_sum(s, f),
{
    assert(l.push(s).drop_last() =~= l);
}

// ── Chunk field accessors ────────────────────────────────────────────

/// Size field of the chunk header at `chunk`.
pub fn size_of(mem: &Memory, chunk: usize) -> (r: u64)
    requires
        chunk + 8 <= usize::MAX,
        mem@.dom().contains(chunk + 8),
    ensures
        r == hdr(mem@, chunk as int) & SIZE_MASK,
{
    mem.read_word(chunk + 8) & SIZE_MASK
}

/// Flag bits of the chunk header at `chunk`.
pub fn flags_of(mem: &Memory, chunk: usize) -> (r: u64)
    requires
        chunk + 8 <= usize::MAX,
        mem@.dom().contains(chunk + 8),
    ensures
        r == hdr(mem@, chunk as int) & 7,
{
    mem.read_word(chunk + 8) & 7
}

/// Previous-chunk size (footer) stored in front of the chunk at `chunk`.
pub fn prev_size_of(mem: &Memory, chunk: usize) -> (r: u64)
    requires
        mem@.dom().contains(chunk as int),
    ensures
        r == ftr(mem@, chunk as int) & SIZE_MASK,
{
    mem.read_word(chunk) & SIZE_MASK
}

pub(crate) fn set_header(mem: &mut Memory, chunk: usize, size: u64, flags: u64)
    requires
        chunk + 8 <= usize::MAX,
        old(mem)@.dom().contains(chunk + 8),
    ensures
        final(mem)@ == old(mem)@.insert(chunk + 8, size | flags),
        final(mem)@.dom() == old(mem)@.dom(),
        final(mem).size() == old(mem).size(),
{
    mem.write_word(chunk + 8, size | flags);
}

pub(crate) fn set_prev_size(mem: &mut Memory, chunk: usize, size: u64)
    requires
        old(mem)@.dom().contains(chunk as int),
    ensures
        final(mem)@ == old(mem)@.insert(chunk as int, size),
        final(mem)@.dom() == old(mem)@.dom(),
        final(mem).size() == old(mem).size(),
{
    mem.write_word(chunk, size);
}

/// Memories `m1` and `m2` agree on every word of the byte range `[lo, hi)`.
pub open spec fn same_words(m1: Map<int, u64>, m2: Map<int, u64>, lo: int, hi: int) -> bool {
    forall|a: int| lo <= a < hi ==> #[trigger] m1[a] == m2[a]
}

pub(crate) proof fn lemma_seg_wf_frame(m1: Map<int, u64>, m2: Map<int, u64>, seg: Segment, s: Seq<ChunkV>)
    requires
        seg_wf(m1, seg, s),
        m1.dom() == m2.dom(),
        same_words(m1, m2, seg.base as int, seg.end as int),
    ensures
        seg_wf(m2, seg, s),
{
    assert forall|k: int| 0 <= k < s.len() implies #[trigger] chunk_ok(m2, seg, s, k) by {
        reveal(chunk_ok);
        assert(chunk_ok(m1, seg, s, k));
        let c = s[k];
        assert(m1[c.addr + 8] == m2[c.addr + 8]);
        if !c.used {
            assert(m1[c.addr + c.size] == m2[c.addr + c.size]);
        }
    }
    assert(m1[seg.base + 8] == m2[seg.base + 8]);
    assert(m1[seg.end - 8] == m2[seg.end - 8]);
}

pub(crate) proof fn lemma_span_sum_prefix(a: Seq<Segment>, b: Seq<Segment>, n: int)
    requires
        0 <= n <= a.len(),
        n <= b.len(),
        forall|i: int| 0 <= i < n ==> a[i] == b[i],
    ensures
        span_sum(a, n) == span_sum(b, n),
    decreases n,
{
    if n > 0 {
        lemma_span_sum_prefix(a, b, n - 1);
    }
}

pub(crate) proof fn lemma_chunk_sum_free_le_size(s: Seq<ChunkV>)
    requires
        forall|k: int| 0 <= k < s.len() ==> s[k].size >= 0,
    ensures
        0 <= chunk_sum(s, free_val()) <= chunk_sum(s, size_val()),
    decreases s.len(),
{
    if s.len() > 0 {
        lemma_chunk_sum_free_le_size(s.drop_last());
    }
}

pub(crate) proof fn lemma_layout_sum_free_le_size(l: Seq<Seq<ChunkV>>)
    requires
        forall|i: int, k: int| 0 <= i < l.len() && 0 <= k < l[i].len() ==> l[i][k].size >= 0,
    ensures
        0 <= layout_sum(l, free_val()) <= layout_sum(l, size_val()),
    decreases l.len(),
{
    if l.len() > 0 {
        lemma_layout_sum_free_le_size(l.drop_last());
        lemma_chunk_sum_free_le_size(l.last());
    }
}


// ── Layout surgery ───────────────────────────────────────────────────

/// `s` with the chunks `[lo, hi)` replaced by `t`.
pub open spec fn splice(s: Seq<ChunkV>, lo: int, hi: int, t: Seq<ChunkV>) -> Seq<ChunkV> {
    s.subrange(0, lo) + t + s.subrange(hi, s.len() as int)
}

pub(crate) proof fn lemma_splice_index(s: Seq<ChunkV>, lo: int, hi: int, t: Seq<ChunkV>)
    requires
        0 <= lo <= hi <= s.len(),
    ensures
        splice(s, lo, hi, t).len() == s.len() - (hi - lo) + t.len(),
        forall|j: int| 0 <= j < lo ==> #[trigger] splice(s, lo, hi, t)[j] == s[j],
        forall|j: int| lo <= j < lo + t.len() ==> #[trigger] splice(s, lo, hi, t)[j] == t[j - lo],
        forall|j: int|
            lo + t.len() <= j < s.len() - (hi - lo) + t.len() ==> #[trigger] splice(s, lo, hi, t)[j]
                == s[j - t.len() + (hi - lo)],
{
}

pub(crate) proof fn lemma_chunk_sum_splice(s: Seq<ChunkV>, lo: int, hi: int, t: Seq<ChunkV>, f: spec_fn(ChunkV) -> int)
    requires
        0 <= lo <= hi <= s.len(),
    ensures
        chunk_sum(splice(s, lo, hi, t), f) == chunk_sum(s, f) - chunk_sum(s.subrange(lo, hi), f)
            + chunk_sum(t, f),
{
    let pre = s.subrange(0, lo);
    let mid = s.subrange(lo, hi);
    let post = s.subrange(hi, s.len() as int);
    assert(s =~= pre + mid + post);
    lemma_chunk_sum_concat(pre + mid, post, f);
    lemma_chunk_sum_concat(pre, mid, f);
    lemma_chunk_sum_concat(pre + t, post, f);
    lemma_chunk_sum_concat(pre, t, f);
}

pub(crate) proof fn lemma_chunk_sum_pair(x: ChunkV, y: ChunkV, f: spec_fn(ChunkV) -> int)
    ensures
        chunk_sum(seq![x, y], f) == f(x) + f(y),
{
    lemma_chunk_sum_concat(seq![x], seq![y], f);
    assert(seq![x] + seq![y] =~= seq![x, y]);
    lemma_chunk_sum_single(x, f);
    lemma_chunk_sum_single(y, f);
}

/// The words of the payload of chunk `c` are the same in `m1` and `m2`.
pub open spec fn payload_same(c: ChunkV, m1: Map<int, u64>, m2: Map<int, u64>) -> bool {
    forall|a: int| c.addr + HEADER_SIZE <= a < c.addr + c.size ==> #[trigger] m2[a] == m1[a]
}

/// Every allocated chunk of `l` keeps its payload words from `m1` to `m2`.
pub open spec fn payloads_kept(l: Seq<Seq<ChunkV>>, m1: Map<int, u64>, m2: Map<int, u64>) -> bool {
    forall|i: int, k: int|
        0 <= i < l.len() && 0 <= k < l[i].len() && #[trigger] l[i][k].used ==> payload_same(
            l[i][k],
            m1,
            m2,
        )
}

/// `m2` differs from `m` at most at the word indices in `ws`.
pub open spec fn changed_only(m: Map<int, u64>, m2: Map<int, u64>, ws: Set<int>) -> bool {
    &&& m2.dom() == m.dom()
    &&& forall|a: int| !ws.contains(a) ==> #[trigger] m2[a] == m[a]
}

} // verus!
