//! Properties of the allocator that hold across its operations.
use vstd::prelude::*;
use super::layout::{ChunkV, EPILOGUE_SIZE, MIN_CHUNK, PROLOGUE_SIZE, Segment, chunk_ok, chunk_sum, free_val, layout_sum, lemma_splice_index, seg_wf, size_val, splice, used_val};
use super::state::{HeapCore, lemma_chunk_facts};
use super::carve::{fits, no_fit, take_chunk};
use super::coalesce::{coalesce, merged_chunk, span_end, span_hi, span_lo};

verus! {

/// A well-formed heap never holds two free chunks side by side.
pub proof fn lemma_no_adjacent_free(h: HeapCore, m: Map<int, u64>, i: int, k: int)
    requires
        h.wf(m),
        0 <= i < h.seg_count,
        0 <= k,
        k + 1 < h.layout()[i].len(),
    ensures
        h.layout()[i][k].used || h.layout()[i][k + 1].used,
{
    reveal(HeapCore::wf);
    let s = h.layout()[i];
    assert(seg_wf(m, h.segments@[i], s));
    reveal(chunk_ok);
    assert(chunk_ok(m, h.segments@[i], s, k));
}

/// Every chunk of a well-formed heap is 16-byte aligned, at least `MIN_CHUNK`
/// long, and lies strictly between its segment's prologue and epilogue, so a
/// payload handed out never overlaps a fence.
pub proof fn lemma_chunks_inside_fences(h: HeapCore, m: Map<int, u64>, i: int, k: int)
    requires
        h.wf(m),
        0 <= i < h.seg_count,
        0 <= k < h.layout()[i].len(),
    ensures
        h.layout()[i][k].addr % 16 == 0,
        h.layout()[i][k].size >= MIN_CHUNK,
        h.segments@[i].base + PROLOGUE_SIZE <= h.layout()[i][k].addr,
        h.layout()[i][k].addr + h.layout()[i][k].size <= h.segments@[i].end - EPILOGUE_SIZE,
{
    reveal(HeapCore::wf);
    assert(seg_wf(m, h.segments@[i], h.layout()[i]));
    lemma_chunk_facts(m, h.segments@[i], h.layout()[i], k);
}

/// A payload address names at most one allocated chunk of a well-formed heap.
pub proof fn lemma_live_unique(h: HeapCore, m: Map<int, u64>, ptr: int, i: int, k: int, i2: int, k2: int)
    requires
        h.wf(m),
        h.live_at(ptr, i, k),
        h.live_at(ptr, i2, k2),
    ensures
        i2 == i,
        k2 == k,
{
    reveal(HeapCore::wf);
    let seg = h.segments@[i];
    let seg2 = h.segments@[i2];
    assert(seg_wf(m, seg, h.layout()[i]));
    assert(seg_wf(m, seg2, h.layout()[i2]));
    lemma_chunk_facts(m, seg, h.layout()[i], k);
    lemma_chunk_facts(m, seg2, h.layout()[i2], k2);
    if i2 != i {
        assert(seg.end <= seg2.base || seg2.end <= seg.base);
    }
    let s = h.layout()[i];
    if k < k2 {
        assert(s[k].addr + s[k].size <= s[k2].addr);
    } else if k2 < k {
        assert(s[k2].addr + s[k2].size <= s[k].addr);
    }
}

/// Freeing the chunk that an allocation has just carved out of free chunk `k`
/// gives back exactly the chunk layout the segment had before the allocation.
pub proof fn lemma_alloc_then_free(m: Map<int, u64>, seg: Segment, s: Seq<ChunkV>, k: int, needed: int)
    requires
        seg_wf(m, seg, s),
        0 <= k < s.len(),
        fits(s[k], needed),
        needed > 0,
    ensures
        take_chunk(s, k, needed)[k].used,
        take_chunk(s, k, needed)[k].addr == s[k].addr,
        coalesce(take_chunk(s, k, needed), k) == s,
{
    reveal(chunk_ok);
    let c = s[k];
    assert(chunk_ok(m, seg, s, k));
    if k > 0 {
        assert(chunk_ok(m, seg, s, k - 1));
    }
    let t = take_chunk(s, k, needed);
    if c.size - needed >= MIN_CHUNK {
        let a = ChunkV { addr: c.addr, size: needed, used: true };
        let b = ChunkV { addr: c.addr + needed, size: c.size - needed, used: false };
        lemma_splice_index(s, k, k + 1, seq![a, b]);
        assert(t[k] == a);
        assert(t[k + 1] == b);
        if k > 0 {
            assert(t[k - 1] == s[k - 1]);
        }
        assert(span_lo(t, k) == k);
        assert(span_hi(t, k) == k + 2);
        assert(span_end(t, k) == c.addr + c.size);
        assert(merged_chunk(t, k) == c);
        let r = coalesce(t, k);
        lemma_splice_index(t, k, k + 2, seq![c]);
        assert(r.len() == s.len());
        assert forall|j: int| 0 <= j < s.len() implies r[j] == s[j] by {
            if j > k {
                assert(r[j] == t[j + 1]);
                assert(t[j + 1] == s[j]);
            }
        }
        assert(r =~= s);
    } else {
        let a = ChunkV { addr: c.addr, size: c.size, used: true };
        assert(t == s.update(k, a));
        if k > 0 {
            assert(t[k - 1] == s[k - 1]);
        }
        if k + 1 < s.len() {
            assert(chunk_ok(m, seg, s, k + 1));
            assert(t[k + 1] == s[k + 1]);
        }
        assert(span_lo(t, k) == k);
        assert(span_hi(t, k) == k + 1);
        assert(merged_chunk(t, k) == c);
        let r = coalesce(t, k);
        lemma_splice_index(t, k, k + 1, seq![c]);
        assert(r.len() == s.len());
        assert forall|j: int| 0 <= j < s.len() implies r[j] == s[j] by {}
        assert(r =~= s);
    }
}

/// Memory a free gives back serves a later request: once allocated chunk
/// `k` of segment `i` is freed (the layout [`HeapCore::dealloc`] leaves), a
/// request needing at most that chunk's size finds a fit, so
/// [`HeapCore::allocate`] does not fail for want of room.
pub proof fn lemma_free_then_fit(h: HeapCore, m: Map<int, u64>, i: int, k: int, needed: int)
    requires
        h.wf(m),
        0 <= i < h.seg_count,
        0 <= k < h.layout()[i].len(),
        h.layout()[i][k].used,
        needed <= h.layout()[i][k].size,
    ensures
        !no_fit(h.layout().update(i, coalesce(h.layout()[i], k)), needed),
{
    reveal(HeapCore::wf);
    let s = h.layout()[i];
    let seg = h.segments@[i];
    assert(seg_wf(m, seg, s));
    reveal(chunk_ok);
    assert(chunk_ok(m, seg, s, k));
    if k > 0 {
        assert(chunk_ok(m, seg, s, k - 1));
    }
    if k + 1 < s.len() {
        assert(chunk_ok(m, seg, s, k + 1));
    }
    let lo = span_lo(s, k);
    let hi = span_hi(s, k);
    let t = coalesce(s, k);
    lemma_splice_index(s, lo, hi, seq![merged_chunk(s, k)]);
    assert(t[lo] == merged_chunk(s, k));
    assert(merged_chunk(s, k).size >= s[k].size);
    let l2 = h.layout().update(i, t);
    assert(fits(l2[i][lo], needed));
}

/// A well-formed heap with nothing allocated is back in the state its
/// regions were installed in: each segment is one free chunk from the end
/// of its prologue to its epilogue, and every usable byte is free.
pub proof fn lemma_all_freed(h: HeapCore, m: Map<int, u64>)
    requires
        h.wf(m),
        h.alloc_count == 0,
    ensures
        forall|i: int|
            0 <= i < h.seg_count ==> #[trigger] h.layout()[i] == seq![
                ChunkV {
                    addr: h.segments@[i].base + PROLOGUE_SIZE,
                    size: h.segments@[i].end - h.segments@[i].base - PROLOGUE_SIZE - EPILOGUE_SIZE,
                    used: false,
                },
            ],
        h.free_bytes == h.capacity(),
{
    reveal(HeapCore::wf);
    let l = h.layout();
    assert(l.subrange(0, l.len() as int) =~= l);
    lemma_layout_unused(l, l.len() as int);
    assert forall|i: int| 0 <= i < h.seg_count implies #[trigger] h.layout()[i] == seq![
        ChunkV {
            addr: h.segments@[i].base + PROLOGUE_SIZE,
            size: h.segments@[i].end - h.segments@[i].base - PROLOGUE_SIZE - EPILOGUE_SIZE,
            used: false,
        },
    ] by {
        let s = l[i];
        let seg = h.segments@[i];
        assert(seg_wf(m, seg, s));
        assert(!s[0].used);
        if s.len() > 1 {
            assert(!s[1].used);
            lemma_no_adjacent_free(h, m, i, 0);
        }
        reveal(chunk_ok);
        assert(chunk_ok(m, seg, s, 0));
        assert(s =~= seq![
            ChunkV {
                addr: seg.base + PROLOGUE_SIZE,
                size: seg.end - seg.base - PROLOGUE_SIZE - EPILOGUE_SIZE,
                used: false,
            },
        ]);
    }
}

/// With no allocated chunk among the first `n` segments of `l`, each chunk
/// there is free and the free bytes are all their bytes.
proof fn lemma_layout_unused(l: Seq<Seq<ChunkV>>, n: int)
    requires
        0 <= n <= l.len(),
        layout_sum(l.subrange(0, n), used_val()) == 0,
    ensures
        forall|i: int, k: int| 0 <= i < n && 0 <= k < l[i].len() ==> !(#[trigger] l[i][k]).used,
        layout_sum(l.subrange(0, n), free_val()) == layout_sum(l.subrange(0, n), size_val()),
    decreases n,
{
    if n > 0 {
        let p = l.subrange(0, n);
        assert(p.drop_last() =~= l.subrange(0, n - 1));
        assert(p.last() == l[n - 1]);
        lemma_chunk_sum_nonneg(l[n - 1], used_val());
        lemma_layout_sum_nonneg(l.subrange(0, n - 1), used_val());
        lemma_layout_unused(l, n - 1);
        assert(l[n - 1].subrange(0, l[n - 1].len() as int) =~= l[n - 1]);
        lemma_chunks_unused(l[n - 1], l[n - 1].len() as int);
        assert forall|i: int, k: int| 0 <= i < n && 0 <= k < l[i].len() implies !(#[trigger] l[i][k]).used by {
            if i == n - 1 {
                assert(!l[n - 1][k].used);
            }
        }
    }
}

/// A sum of the used counts is never negative.
proof fn lemma_layout_sum_nonneg(l: Seq<Seq<ChunkV>>, f: spec_fn(ChunkV) -> int)
    requires
        f == used_val(),
    ensures
        layout_sum(l, f) >= 0,
    decreases l.len(),
{
    if l.len() > 0 {
        lemma_layout_sum_nonneg(l.drop_last(), f);
        lemma_chunk_sum_nonneg(l.last(), f);
    }
}

/// A sum of the used counts is never negative.
proof fn lemma_chunk_sum_nonneg(s: Seq<ChunkV>, f: spec_fn(ChunkV) -> int)
    requires
        f == used_val(),
    ensures
        chunk_sum(s, f) >= 0,
    decreases s.len(),
{
    if s.len() > 0 {
        lemma_chunk_sum_nonneg(s.drop_last(), f);
    }
}

/// With no allocated chunk among the first `n` chunks of `s`, each is free
/// and their free bytes are all their bytes.
proof fn lemma_chunks_unused(s: Seq<ChunkV>, n: int)
    requires
        0 <= n <= s.len(),
        chunk_sum(s.subrange(0, n), used_val()) == 0,
    ensures
        forall|k: int| 0 <= k < n ==> !(#[trigger] s[k]).used,
        chunk_sum(s.subrange(0, n), free_val()) == chunk_sum(s.subrange(0, n), size_val()),
    decreases n,
{
    if n > 0 {
        let p = s.subrange(0, n);
        assert(p.drop_last() =~= s.subrange(0, n - 1));
        lemma_chunk_sum_nonneg(s.subrange(0, n - 1), used_val());
        lemma_chunks_unused(s, n - 1);
    }
}

} // verus!
