//! Freeing with coalescing of free neighbours.
use vstd::prelude::*;
use super::layout::{ChunkV, EPILOGUE_SIZE, HEADER_SIZE, IN_USE, MAX_SEGMENTS, MIN_CHUNK, PREV_IN_USE, PROLOGUE_SIZE, SIZE_MASK, Segment, chunk_ok, chunk_sum, flag_bits, free_val, ftr, hdr, layout_sum, lemma_chunk_sum_concat, lemma_chunk_sum_pair, lemma_chunk_sum_single, lemma_chunk_sum_splice, lemma_flag_bits, lemma_header_bits, lemma_layout_sum_free_le_size, lemma_layout_sum_update, lemma_splice_index, payload_same, prev_used, seg_wf, size_val, splice, used_val};
use super::memory::{Memory, covers};
use super::state::{HeapCore};

verus! {

// ── Freeing ──────────────────────────────────────────────────────────

/// First chunk of the free span that freeing chunk `k` of `s` creates.
pub open spec fn span_lo(s: Seq<ChunkV>, k: int) -> int {
    if k > 0 && !s[k - 1].used {
        k - 1
    } else {
        k
    }
}

/// One past the last chunk of the free span that freeing chunk `k` creates.
pub open spec fn span_hi(s: Seq<ChunkV>, k: int) -> int {
    if k + 1 < s.len() && !s[k + 1].used {
        k + 2
    } else {
        k + 1
    }
}

/// End address of the free span that freeing chunk `k` creates.
pub open spec fn span_end(s: Seq<ChunkV>, k: int) -> int {
    s[span_hi(s, k) - 1].addr + s[span_hi(s, k) - 1].size
}

/// The free chunk that freeing chunk `k` of `s` creates, coalesced with its
/// free neighbours.
pub open spec fn merged_chunk(s: Seq<ChunkV>, k: int) -> ChunkV {
    ChunkV {
        addr: s[span_lo(s, k)].addr,
        size: span_end(s, k) - s[span_lo(s, k)].addr,
        used: false,
    }
}

/// `s` after freeing allocated chunk `k` and coalescing it with its free
/// neighbours.
pub open spec fn coalesce(s: Seq<ChunkV>, k: int) -> Seq<ChunkV> {
    splice(s, span_lo(s, k), span_hi(s, k), seq![merged_chunk(s, k)])
}

/// Freeing chunk `k` of `s` may write the word at address `a`.
pub open spec fn coalesce_touches(s: Seq<ChunkV>, k: int, a: int) -> bool {
    ||| a == s[k].addr + 8
    ||| (k + 1 < s.len() && a == s[k + 1].addr + 8)
    ||| a == span_end(s, k)
    ||| a == span_end(s, k) + 8
    ||| a == s[span_lo(s, k)].addr + 8
}

/// Memory `m2` is `m` after freeing allocated chunk `k` of `s`.
pub open spec fn coalesce_pre(m: Map<int, u64>, m2: Map<int, u64>, seg: Segment, s: Seq<ChunkV>, k: int) -> bool {
    let e = span_end(s, k);
    let x = merged_chunk(s, k);
    &&& seg_wf(m, seg, s)
    &&& 0 <= k < s.len()
    &&& s[k].used
    &&& m2.dom() == m.dom()
    &&& forall|a: int| !coalesce_touches(s, k, a) ==> #[trigger] m2[a] == m[a]
    &&& m2[x.addr + 8] == x.size + 2
    &&& m2[e] == x.size
    &&& m2[e + 8] == (if span_hi(s, k) < s.len() { s[span_hi(s, k)].size } else { EPILOGUE_SIZE as int }) + 1
}

pub(crate) proof fn lemma_span_facts(m: Map<int, u64>, seg: Segment, s: Seq<ChunkV>, k: int)
    requires
        seg_wf(m, seg, s),
        0 <= k < s.len(),
        s[k].used,
    ensures
        ({
            let lo = span_lo(s, k);
            let hi = span_hi(s, k);
            let x = merged_chunk(s, k);
            &&& 0 <= lo <= k < hi <= s.len()
            &&& hi <= k + 2
            &&& lo >= k - 1
            &&& forall|j: int| lo <= j < hi && j != k ==> !s[j].used
            &&& lo > 0 ==> s[lo - 1].used
            &&& hi < s.len() ==> s[hi].used
            &&& x.addr % 16 == 0
            &&& x.size % 16 == 0
            &&& x.size >= MIN_CHUNK
            &&& x.addr >= seg.base + 16
            &&& x.addr + x.size <= seg.end - 16
            &&& x.addr + x.size == span_end(s, k)
            &&& hi < s.len() ==> s[hi].addr == span_end(s, k)
            &&& hi == s.len() ==> span_end(s, k) == seg.end - 16
            &&& s[k].addr >= seg.base + 16
            &&& s[k].size >= MIN_CHUNK
            &&& s[k].addr % 16 == 0
            &&& s[k].addr + s[k].size <= seg.end - 16
            &&& k + 1 < s.len() ==> s[k + 1].addr == s[k].addr + s[k].size && s[k + 1].addr + 32
                <= seg.end - 16
            &&& x.size == chunk_sum(s.subrange(lo, hi), size_val())
            &&& x.size == chunk_sum(s.subrange(lo, hi), free_val()) + s[k].size
        }),
{
    reveal(chunk_ok);
    let lo = span_lo(s, k);
    let hi = span_hi(s, k);
    assert(chunk_ok(m, seg, s, k));
    if k > 0 {
        assert(chunk_ok(m, seg, s, k - 1));
        if !s[k - 1].used && k - 1 > 0 {
            assert(chunk_ok(m, seg, s, k - 2));
        }
    }
    if k + 1 < s.len() {
        assert(chunk_ok(m, seg, s, k + 1));
        if !s[k + 1].used && k + 2 < s.len() {
            assert(chunk_ok(m, seg, s, k + 2));
        }
    }
    let sub = s.subrange(lo, hi);
    let c = s[k];
    if lo == k && hi == k + 1 {
        assert(sub =~= seq![c]);
        lemma_chunk_sum_single(c, size_val());
        lemma_chunk_sum_single(c, free_val());
    } else if lo == k - 1 && hi == k + 1 {
        assert(sub =~= seq![s[k - 1], c]);
        lemma_chunk_sum_pair(s[k - 1], c, size_val());
        lemma_chunk_sum_pair(s[k - 1], c, free_val());
    } else if lo == k && hi == k + 2 {
        assert(sub =~= seq![c, s[k + 1]]);
        lemma_chunk_sum_pair(c, s[k + 1], size_val());
        lemma_chunk_sum_pair(c, s[k + 1], free_val());
    } else {
        assert(sub =~= seq![s[k - 1], c] + seq![s[k + 1]]);
        lemma_chunk_sum_concat(seq![s[k - 1], c], seq![s[k + 1]], size_val());
        lemma_chunk_sum_concat(seq![s[k - 1], c], seq![s[k + 1]], free_val());
        lemma_chunk_sum_pair(s[k - 1], c, size_val());
        lemma_chunk_sum_pair(s[k - 1], c, free_val());
        lemma_chunk_sum_single(s[k + 1], size_val());
        lemma_chunk_sum_single(s[k + 1], free_val());
    }
}

pub(crate) proof fn lemma_coalesce_before(m: Map<int, u64>, m2: Map<int, u64>, seg: Segment, s: Seq<ChunkV>, k: int, j: int)
    requires
        coalesce_pre(m, m2, seg, s, k),
        0 <= j < span_lo(s, k),
    ensures
        chunk_ok(m2, seg, coalesce(s, k), j),
{
    lemma_span_facts(m, seg, s, k);
    reveal(chunk_ok);
    let lo = span_lo(s, k);
    let hi = span_hi(s, k);
    let x = merged_chunk(s, k);
    let s2 = coalesce(s, k);
    lemma_splice_index(s, lo, hi, seq![x]);
    assert(chunk_ok(m, seg, s, j));
    assert(chunk_ok(m, seg, s, lo));
    assert(s[j].addr + s[j].size <= s[lo].addr);
    if j + 1 < lo {
        assert(s[j + 1].addr + s[j + 1].size <= s[lo].addr);
    }
    if k + 1 < s.len() {
        assert(s[lo].addr <= s[k + 1].addr);
    }
}

pub(crate) proof fn lemma_coalesce_merged(m: Map<int, u64>, m2: Map<int, u64>, seg: Segment, s: Seq<ChunkV>, k: int)
    requires
        coalesce_pre(m, m2, seg, s, k),
    ensures
        chunk_ok(m2, seg, coalesce(s, k), span_lo(s, k)),
{
    lemma_span_facts(m, seg, s, k);
    reveal(chunk_ok);
    let lo = span_lo(s, k);
    let hi = span_hi(s, k);
    let x = merged_chunk(s, k);
    let s2 = coalesce(s, k);
    lemma_splice_index(s, lo, hi, seq![x]);
    lemma_flag_bits(false, true);
    assert(prev_used(s2, lo));
    assert(hdr(m2, x.addr) == x.size + 2);
    assert(ftr(m2, x.addr + x.size) == x.size);
    if hi < s.len() {
        assert(s2[lo + 1] == s[hi]);
    }
}

pub(crate) proof fn lemma_coalesce_next(m: Map<int, u64>, m2: Map<int, u64>, seg: Segment, s: Seq<ChunkV>, k: int)
    requires
        coalesce_pre(m, m2, seg, s, k),
        span_hi(s, k) < s.len(),
    ensures
        chunk_ok(m2, seg, coalesce(s, k), span_lo(s, k) + 1),
{
    lemma_span_facts(m, seg, s, k);
    reveal(chunk_ok);
    let lo = span_lo(s, k);
    let hi = span_hi(s, k);
    let x = merged_chunk(s, k);
    let s2 = coalesce(s, k);
    lemma_splice_index(s, lo, hi, seq![x]);
    lemma_flag_bits(true, false);
    assert(s2[lo + 1] == s[hi]);
    assert(chunk_ok(m, seg, s, hi));
    assert(!prev_used(s2, lo + 1));
    assert(hdr(m2, s[hi].addr) == s[hi].size + 1);
    if hi + 1 < s.len() {
        assert(s2[lo + 2] == s[hi + 1]);
    }
}

pub(crate) proof fn lemma_coalesce_after(m: Map<int, u64>, m2: Map<int, u64>, seg: Segment, s: Seq<ChunkV>, k: int, j: int)
    requires
        coalesce_pre(m, m2, seg, s, k),
        span_lo(s, k) + 1 < j < coalesce(s, k).len(),
    ensures
        chunk_ok(m2, seg, coalesce(s, k), j),
{
    lemma_span_facts(m, seg, s, k);
    reveal(chunk_ok);
    let lo = span_lo(s, k);
    let hi = span_hi(s, k);
    let x = merged_chunk(s, k);
    let s2 = coalesce(s, k);
    lemma_splice_index(s, lo, hi, seq![x]);
    let o = j - 1 + (hi - lo);
    assert(s2[j] == s[o]);
    assert(s2[j - 1] == s[o - 1]);
    assert(chunk_ok(m, seg, s, o));
    assert(chunk_ok(m, seg, s, hi));
    assert(s[hi].addr + s[hi].size <= s[o].addr);
    assert(span_end(s, k) == s[hi].addr);
    assert(s[k].addr + s[k].size <= s[o].addr);
    if k + 1 < s.len() {
        assert(chunk_ok(m, seg, s, k + 1));
        assert(s[k + 1].addr + s[k + 1].size <= s[o].addr);
    }
    if o + 1 < s.len() {
        assert(s2[j + 1] == s[o + 1]);
    }
}

pub(crate) proof fn lemma_coalesce_seg(m: Map<int, u64>, m2: Map<int, u64>, seg: Segment, s: Seq<ChunkV>, k: int)
    requires
        coalesce_pre(m, m2, seg, s, k),
    ensures
        seg_wf(m2, seg, coalesce(s, k)),
        forall|j: int| 0 <= j < s.len() && j != k && s[j].used ==> payload_same(s[j], m, m2),
{
    lemma_span_facts(m, seg, s, k);
    let lo = span_lo(s, k);
    let hi = span_hi(s, k);
    let x = merged_chunk(s, k);
    let s2 = coalesce(s, k);
    lemma_splice_index(s, lo, hi, seq![x]);
    assert forall|j: int| 0 <= j < s2.len() implies #[trigger] chunk_ok(m2, seg, s2, j) by {
        if j < lo {
            lemma_coalesce_before(m, m2, seg, s, k, j);
        } else if j == lo {
            lemma_coalesce_merged(m, m2, seg, s, k);
        } else if j == lo + 1 {
            lemma_coalesce_next(m, m2, seg, s, k);
        } else {
            lemma_coalesce_after(m, m2, seg, s, k, j);
        }
    }
    assert forall|a: int, b: int| 0 <= a < b < s2.len() implies #[trigger] s2[a].addr + s2[a].size
        <= #[trigger] s2[b].addr by {
        if a < lo && b > lo {
            assert(s[a].addr + s[a].size <= s[lo].addr);
            assert(s2[b] == s[b - 1 + (hi - lo)]);
            assert(x.addr <= s2[b].addr);
        } else if a == lo && b > lo {
            assert(s2[b] == s[b - 1 + (hi - lo)]);
            if b - 1 + (hi - lo) > hi {
                assert(s[hi].addr + s[hi].size <= s[b - 1 + (hi - lo)].addr);
                assert(chunk_ok(m, seg, s, hi)) by {}
            }
        } else if a > lo {
            assert(s2[a] == s[a - 1 + (hi - lo)]);
            assert(s2[b] == s[b - 1 + (hi - lo)]);
        }
    }
    assert(s2[0].addr == seg.base + 16);
    assert(s[k].addr + 8 != seg.base + 8);
    assert(x.addr + 8 != seg.base + 8);
    assert(span_end(s, k) != seg.base + 8);
    assert(!coalesce_touches(s, k, seg.base + 8));
    assert(hdr(m2, seg.base as int) == hdr(m, seg.base as int));
    if hi < s.len() {
        assert(s2.last() == s.last());
        assert(chunk_ok(m, seg, s, s.len() - 1));
        assert(s.last().addr + s.last().size == seg.end - 16) by {
            reveal(chunk_ok);
        }
        assert(s[hi].addr + 32 <= seg.end - 16) by {
            assert(chunk_ok(m, seg, s, hi));
            reveal(chunk_ok);
        }
        assert(hdr(m2, seg.end - 16) == hdr(m, seg.end - 16));
    } else {
        assert(s2.last() == x);
        lemma_flag_bits(true, false);
    }
    assert forall|j: int| 0 <= j < s.len() && j != k && s[j].used implies payload_same(s[j], m, m2) by {
        assert(chunk_ok(m, seg, s, j));
        reveal(chunk_ok);
        if j < lo {
            assert(s[j].addr + s[j].size <= s[lo].addr);
        } else {
            assert(j >= hi);
            assert(chunk_ok(m, seg, s, hi - 1));
            assert(s[hi - 1].addr + s[hi - 1].size <= s[j].addr);
        }
    }
}

pub(crate) proof fn lemma_coalesce_sums(m: Map<int, u64>, seg: Segment, s: Seq<ChunkV>, k: int)
    requires
        seg_wf(m, seg, s),
        0 <= k < s.len(),
        s[k].used,
    ensures
        chunk_sum(coalesce(s, k), free_val()) == chunk_sum(s, free_val()) + s[k].size,
        chunk_sum(coalesce(s, k), used_val()) == chunk_sum(s, used_val()) - 1,
        chunk_sum(coalesce(s, k), size_val()) == chunk_sum(s, size_val()),
{
    lemma_span_facts(m, seg, s, k);
    let lo = span_lo(s, k);
    let hi = span_hi(s, k);
    let x = merged_chunk(s, k);
    let sub = s.subrange(lo, hi);
    lemma_chunk_sum_splice(s, lo, hi, seq![x], free_val());
    lemma_chunk_sum_splice(s, lo, hi, seq![x], used_val());
    lemma_chunk_sum_splice(s, lo, hi, seq![x], size_val());
    lemma_chunk_sum_single(x, free_val());
    lemma_chunk_sum_single(x, used_val());
    lemma_chunk_sum_single(x, size_val());
    let c = s[k];
    if lo == k && hi == k + 1 {
        assert(sub =~= seq![c]);
        lemma_chunk_sum_single(c, used_val());
    } else if lo == k - 1 && hi == k + 1 {
        assert(sub =~= seq![s[k - 1], c]);
        lemma_chunk_sum_pair(s[k - 1], c, used_val());
    } else if lo == k && hi == k + 2 {
        assert(sub =~= seq![c, s[k + 1]]);
        lemma_chunk_sum_pair(c, s[k + 1], used_val());
    } else {
        assert(sub =~= seq![s[k - 1], c] + seq![s[k + 1]]);
        lemma_chunk_sum_concat(seq![s[k - 1], c], seq![s[k + 1]], used_val());
        lemma_chunk_sum_pair(s[k - 1], c, used_val());
        lemma_chunk_sum_single(s[k + 1], used_val());
    }
}

pub(crate) proof fn lemma_chunk_sum_used_nonneg(s: Seq<ChunkV>)
    ensures
        chunk_sum(s, used_val()) >= 0,
    decreases s.len(),
{
    if s.len() > 0 {
        lemma_chunk_sum_used_nonneg(s.drop_last());
    }
}

pub(crate) proof fn lemma_layout_sum_used_nonneg(l: Seq<Seq<ChunkV>>)
    ensures
        layout_sum(l, used_val()) >= 0,
    decreases l.len(),
{
    if l.len() > 0 {
        lemma_layout_sum_used_nonneg(l.drop_last());
        lemma_chunk_sum_used_nonneg(l.last());
    }
}

/// Room for freeing allocated chunk `k` of segment `i`: the free total plus
/// its size stays within the total chunk bytes, and it is counted as live.
pub(crate) proof fn lemma_used_chunk_counted(l: Seq<Seq<ChunkV>>, i: int, k: int)
    requires
        forall|i2: int, k2: int| 0 <= i2 < l.len() && 0 <= k2 < l[i2].len() ==> l[i2][k2].size >= 0,
        0 <= i < l.len(),
        0 <= k < l[i].len(),
        l[i][k].used,
    ensures
        layout_sum(l, free_val()) + l[i][k].size <= layout_sum(l, size_val()),
        layout_sum(l, used_val()) >= 1,
{
    let s = l[i];
    let e = Seq::<ChunkV>::empty();
    let s0 = splice(s, k, k + 1, e);
    lemma_splice_index(s, k, k + 1, e);
    assert(s.subrange(k, k + 1) =~= seq![s[k]]);
    lemma_chunk_sum_single(s[k], free_val());
    lemma_chunk_sum_single(s[k], size_val());
    lemma_chunk_sum_single(s[k], used_val());
    lemma_chunk_sum_splice(s, k, k + 1, e, free_val());
    lemma_chunk_sum_splice(s, k, k + 1, e, size_val());
    lemma_chunk_sum_splice(s, k, k + 1, e, used_val());
    let l0 = l.update(i, s0);
    lemma_layout_sum_update(l, i, s0, free_val());
    lemma_layout_sum_update(l, i, s0, size_val());
    lemma_layout_sum_update(l, i, s0, used_val());
    assert forall|i2: int, k2: int| 0 <= i2 < l0.len() && 0 <= k2 < l0[i2].len() implies l0[i2][k2].size >= 0 by {
        if i2 == i {
            if k2 >= k {
                assert(s0[k2] == s[k2 + 1]);
            }
        }
    }
    lemma_layout_sum_free_le_size(l0);
    lemma_layout_sum_used_nonneg(l0);
}

/// Header facts about the neighbourhood of allocated chunk `k` of `s`.
pub(crate) proof fn lemma_release_facts(m: Map<int, u64>, seg: Segment, s: Seq<ChunkV>, k: int)
    requires
        seg_wf(m, seg, s),
        0 <= k < s.len(),
        s[k].used,
    ensures
        ({
            let c = s[k];
            let lo = span_lo(s, k);
            &&& covers(m, seg.base as int, seg.end as int)
            &&& hdr(m, c.addr) & SIZE_MASK == c.size
            &&& hdr(m, c.addr) & IN_USE == 1
            &&& (hdr(m, c.addr) & 7) & PREV_IN_USE == 0 <==> lo < k
            &&& lo == k ==> (hdr(m, c.addr) & 7) & PREV_IN_USE == 2
            &&& lo < k ==> {
                &&& ftr(m, c.addr) & SIZE_MASK == s[k - 1].size
                &&& s[k - 1].addr == c.addr - s[k - 1].size
                &&& s[k - 1].addr >= seg.base + PROLOGUE_SIZE
                &&& hdr(m, s[k - 1].addr) & SIZE_MASK == s[k - 1].size
                &&& (hdr(m, s[k - 1].addr) & 7) & PREV_IN_USE == 2
            }
            &&& k + 1 < s.len() ==> {
                &&& hdr(m, s[k + 1].addr) & SIZE_MASK == s[k + 1].size
                &&& (hdr(m, s[k + 1].addr) & 7) & IN_USE == (if s[k + 1].used { 1u64 } else { 0u64 })
                &&& s[k + 1].size % 16 == 0
                &&& s[k + 1].size >= MIN_CHUNK
                &&& s[k + 1].addr % 16 == 0
            }
            &&& k + 2 < s.len() && !s[k + 1].used ==> (hdr(m, s[k + 2].addr) & 7) & IN_USE == 1
                && s[k + 2].addr == s[k + 1].addr + s[k + 1].size
            &&& hdr(m, seg.end - EPILOGUE_SIZE) & SIZE_MASK == EPILOGUE_SIZE
            &&& (hdr(m, seg.end - EPILOGUE_SIZE) & 7) & IN_USE == 1
            &&& span_hi(s, k) < s.len() ==> hdr(m, s[span_hi(s, k)].addr) & SIZE_MASK == s[span_hi(s, k)].size
                && (hdr(m, s[span_hi(s, k)].addr) & 7) & IN_USE == 1
        }),
{
    reveal(chunk_ok);
    lemma_span_facts(m, seg, s, k);
    let c = s[k];
    assert(chunk_ok(m, seg, s, k));
    let f = flag_bits(true, prev_used(s, k));
    lemma_flag_bits(true, prev_used(s, k));
    lemma_header_bits(c.size as u64, f, hdr(m, c.addr));
    let w = hdr(m, c.addr);
    assert((w & 7) & 2 == w & 2) by (bit_vector);
    if k > 0 {
        assert(chunk_ok(m, seg, s, k - 1));
        let p = s[k - 1];
        let fp = flag_bits(p.used, prev_used(s, k - 1));
        lemma_flag_bits(p.used, prev_used(s, k - 1));
        lemma_header_bits(p.size as u64, fp, hdr(m, p.addr));
        let pw = hdr(m, p.addr);
        assert((pw & 7) & 2 == pw & 2) by (bit_vector);
        if !p.used {
            if k - 1 > 0 {
                assert(chunk_ok(m, seg, s, k - 2));
            }
            let x = p.size as u64;
            assert(x & SIZE_MASK == x) by (bit_vector)
                requires
                    x % 8 == 0,
            ;
        }
    }
    if k + 1 < s.len() {
        assert(chunk_ok(m, seg, s, k + 1));
        let q = s[k + 1];
        let fq = flag_bits(q.used, prev_used(s, k + 1));
        lemma_flag_bits(q.used, prev_used(s, k + 1));
        lemma_header_bits(q.size as u64, fq, hdr(m, q.addr));
        let qw = hdr(m, q.addr);
        assert((qw & 7) & 1 == qw & 1) by (bit_vector);
        if k + 2 < s.len() {
            assert(chunk_ok(m, seg, s, k + 2));
            let r = s[k + 2];
            let fr = flag_bits(r.used, prev_used(s, k + 2));
            lemma_flag_bits(r.used, prev_used(s, k + 2));
            lemma_header_bits(r.size as u64, fr, hdr(m, r.addr));
            let rw = hdr(m, r.addr);
            assert((rw & 7) & 1 == rw & 1) by (bit_vector);
        }
    }
    let ef = flag_bits(true, s.last().used);
    lemma_flag_bits(true, s.last().used);
    lemma_header_bits(16, ef, hdr(m, seg.end - 16));
    let ew = hdr(m, seg.end - 16);
    assert((ew & 7) & 1 == ew & 1) by (bit_vector);
}

impl HeapCore {
    /// `c` lies in the chunk area (between the fences) of an installed segment.
    pub open spec fn in_chunk_area(&self, c: int) -> bool {
        exists|i: int|
            0 <= i < self.seg_count && #[trigger] self.segments@[i].base + PROLOGUE_SIZE <= c
                < self.segments@[i].end - EPILOGUE_SIZE
    }

    /// `ptr` is the payload of allocated chunk `k` of segment `i`.
    pub open spec fn live_at(&self, ptr: int, i: int, k: int) -> bool {
        &&& 0 <= i < self.seg_count
        &&& 0 <= k < self.layout()[i].len()
        &&& self.layout()[i][k].used
        &&& self.layout()[i][k].addr + HEADER_SIZE == ptr
    }

    /// `ptr` is the payload of some allocated chunk.
    pub open spec fn is_live(&self, ptr: int) -> bool {
        exists|i: int, k: int| #[trigger] self.live_at(ptr, i, k)
    }

    /// Freeing `ptr` is refused as a bad free: null, misaligned, outside every
    /// segment's chunk area, or naming an in-use header with an invalid size.
    pub open spec fn bad_free(&self, m: Map<int, u64>, ptr: int) -> bool {
        ||| ptr == 0
        ||| ptr % 16 != 0
        ||| !self.in_chunk_area(ptr - HEADER_SIZE)
        ||| (hdr(m, ptr - HEADER_SIZE) & IN_USE != 0 && ((hdr(m, ptr - HEADER_SIZE) & SIZE_MASK) % 16
            != 0 || (hdr(m, ptr - HEADER_SIZE) & SIZE_MASK) < MIN_CHUNK))
    }

    /// Freeing `ptr` is refused as a double free: it names, inside a segment,
    /// a header whose IN_USE bit is clear.
    pub open spec fn double_free(&self, m: Map<int, u64>, ptr: int) -> bool {
        &&& ptr != 0
        &&& ptr % 16 == 0
        &&& self.in_chunk_area(ptr - HEADER_SIZE)
        &&& hdr(m, ptr - HEADER_SIZE) & IN_USE == 0
    }

    /// Index of the segment whose chunk area holds `c`.
    pub(crate) fn find_segment(&self, c: usize) -> (r: Option<usize>)
        requires
            self.seg_count <= MAX_SEGMENTS,
            forall|i: int|
                0 <= i < self.seg_count ==> #[trigger] self.segments@[i].base + PROLOGUE_SIZE + EPILOGUE_SIZE
                    <= self.segments@[i].end,
        ensures
            r.is_none() <==> !self.in_chunk_area(c as int),
            r matches Some(i) ==> i < self.seg_count && self.segments@[i as int].base + PROLOGUE_SIZE
                <= c < self.segments@[i as int].end - EPILOGUE_SIZE,
    {
        let mut i: usize = 0;
        while i < self.seg_count
            invariant
                self.seg_count <= MAX_SEGMENTS,
                forall|i: int|
                    0 <= i < self.seg_count ==> #[trigger] self.segments@[i].base + PROLOGUE_SIZE + EPILOGUE_SIZE
                        <= self.segments@[i].end,
                i <= self.seg_count,
                forall|j: int|
                    0 <= j < i ==> !(#[trigger] self.segments@[j].base + PROLOGUE_SIZE <= c < self.segments@[j].end
                        - EPILOGUE_SIZE),
            decreases self.seg_count - i,
        {
            let base = self.segments[i].base;
            let end = self.segments[i].end;
            if c >= base + PROLOGUE_SIZE && c < end - EPILOGUE_SIZE {
                return Some(i);
            }
            i = i + 1;
        }
        None
    }
}

} // verus!
