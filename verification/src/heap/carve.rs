//! First-fit allocation with splitting.
use vstd::prelude::*;
use vstd::arithmetic::power2::pow2;
use super::layout::{CHUNK_ALIGN, ChunkV, EPILOGUE_SIZE, HEADER_SIZE, IN_USE, MAX_SEGMENTS, MIN_CHUNK, PREV_IN_USE, PROLOGUE_SIZE, Segment, align_up_checked, changed_only, chunk_ok, chunk_sum, flags_of, free_val, ftr, hdr, is_pow2, layout_sum, lemma_chunk_sum_free_le_size, lemma_chunk_sum_pair, lemma_chunk_sum_single, lemma_chunk_sum_splice, lemma_flag_bits, lemma_header_bits, lemma_layout_sum_free_le_size, lemma_layout_sum_update, lemma_seg_wf_frame, lemma_splice_index, payload_same, payloads_kept, prev_used, round_up, seg_wf, set_header, set_prev_size, size_of, size_val, splice, used_val};
use super::memory::{Memory, covers};
use super::state::{HeapCore, lemma_chunk_facts, lemma_seg_facts, lemma_wf_basic, lemma_wf_counters};

verus! {

/// Chunk `k` of `s` is free and large enough for a chunk of `needed` bytes.
pub open spec fn fits(c: ChunkV, needed: int) -> bool {
    !c.used && c.size >= needed
}

/// `s` after carving an allocated chunk of `needed` bytes out of free chunk
/// `k`: split when the remainder can hold a minimal chunk, else taken whole.
pub open spec fn take_chunk(s: Seq<ChunkV>, k: int, needed: int) -> Seq<ChunkV> {
    let c = s[k];
    if c.size - needed >= MIN_CHUNK {
        splice(
            s,
            k,
            k + 1,
            seq![
                ChunkV { addr: c.addr, size: needed, used: true },
                ChunkV { addr: c.addr + needed, size: c.size - needed, used: false },
            ],
        )
    } else {
        s.update(k, ChunkV { addr: c.addr, size: c.size, used: true })
    }
}


/// Word indices the split of chunk `c` for `needed` bytes writes.
pub open spec fn split_words(c: ChunkV, needed: int) -> Set<int> {
    set![c.addr + needed, c.addr + needed + 8, c.addr + 8, c.addr + c.size]
}

/// Memory `m2` is `m` after splitting free chunk `k` of `s` for `needed` bytes.
pub open spec fn split_pre(m: Map<int, u64>, m2: Map<int, u64>, seg: Segment, s: Seq<ChunkV>, k: int, needed: int) -> bool {
    &&& seg_wf(m, seg, s)
    &&& 0 <= k < s.len()
    &&& fits(s[k], needed)
    &&& needed % 16 == 0
    &&& needed >= MIN_CHUNK
    &&& s[k].size - needed >= MIN_CHUNK
    &&& changed_only(m, m2, split_words(s[k], needed))
    &&& m2[s[k].addr + needed] == needed
    &&& m2[s[k].addr + needed + 8] == s[k].size - needed + 2
    &&& m2[s[k].addr + 8] == needed + 3
    &&& m2[s[k].addr + s[k].size] == s[k].size - needed
}

pub(crate) proof fn lemma_split_chunk_before(m: Map<int, u64>, m2: Map<int, u64>, seg: Segment, s: Seq<ChunkV>, k: int, needed: int, j: int)
    requires
        split_pre(m, m2, seg, s, k, needed),
        0 <= j < k,
    ensures
        chunk_ok(m2, seg, take_chunk(s, k, needed), j),
{
    reveal(chunk_ok);
    let c = s[k];
    let t = seq![
        ChunkV { addr: c.addr, size: needed, used: true },
        ChunkV { addr: c.addr + needed, size: c.size - needed, used: false },
    ];
    let s2 = take_chunk(s, k, needed);
    lemma_splice_index(s, k, k + 1, t);
    assert(chunk_ok(m, seg, s, k));
    assert(chunk_ok(m, seg, s, j));
    assert(s[j].addr + s[j].size <= c.addr);
    if j + 1 < k {
        assert(s[j + 1].addr + s[j + 1].size <= c.addr);
    }
}

pub(crate) proof fn lemma_split_chunk_left(m: Map<int, u64>, m2: Map<int, u64>, seg: Segment, s: Seq<ChunkV>, k: int, needed: int)
    requires
        split_pre(m, m2, seg, s, k, needed),
    ensures
        chunk_ok(m2, seg, take_chunk(s, k, needed), k),
{
    reveal(chunk_ok);
    let c = s[k];
    let t = seq![
        ChunkV { addr: c.addr, size: needed, used: true },
        ChunkV { addr: c.addr + needed, size: c.size - needed, used: false },
    ];
    let s2 = take_chunk(s, k, needed);
    lemma_splice_index(s, k, k + 1, t);
    assert(chunk_ok(m, seg, s, k));
    lemma_flag_bits(true, true);
    if k > 0 {
        assert(chunk_ok(m, seg, s, k - 1));
    }
    assert(prev_used(s2, k));
    assert(hdr(m2, c.addr) == needed + 3);
}

pub(crate) proof fn lemma_split_chunk_right(m: Map<int, u64>, m2: Map<int, u64>, seg: Segment, s: Seq<ChunkV>, k: int, needed: int)
    requires
        split_pre(m, m2, seg, s, k, needed),
    ensures
        chunk_ok(m2, seg, take_chunk(s, k, needed), k + 1),
{
    reveal(chunk_ok);
    let c = s[k];
    let t = seq![
        ChunkV { addr: c.addr, size: needed, used: true },
        ChunkV { addr: c.addr + needed, size: c.size - needed, used: false },
    ];
    let s2 = take_chunk(s, k, needed);
    lemma_splice_index(s, k, k + 1, t);
    assert(chunk_ok(m, seg, s, k));
    lemma_flag_bits(false, true);
    assert(prev_used(s2, k + 1));
    assert(hdr(m2, c.addr + needed) == c.size - needed + 2);
    assert(ftr(m2, c.addr + c.size) == c.size - needed);
    if k + 1 < s.len() {
        assert(chunk_ok(m, seg, s, k + 1));
        assert(s2[k + 2] == s[k + 1]);
    }
}

pub(crate) proof fn lemma_split_chunk_after(m: Map<int, u64>, m2: Map<int, u64>, seg: Segment, s: Seq<ChunkV>, k: int, needed: int, j: int)
    requires
        split_pre(m, m2, seg, s, k, needed),
        k + 1 < j < take_chunk(s, k, needed).len(),
    ensures
        chunk_ok(m2, seg, take_chunk(s, k, needed), j),
{
    reveal(chunk_ok);
    let c = s[k];
    let t = seq![
        ChunkV { addr: c.addr, size: needed, used: true },
        ChunkV { addr: c.addr + needed, size: c.size - needed, used: false },
    ];
    let s2 = take_chunk(s, k, needed);
    lemma_splice_index(s, k, k + 1, t);
    let o = j - 1;
    assert(s2[j] == s[o]);
    assert(chunk_ok(m, seg, s, o));
    assert(chunk_ok(m, seg, s, k));
    assert(c.addr + c.size <= s[o].addr);
    if o + 1 < s.len() {
        assert(s2[j + 1] == s[o + 1]);
    }
    if j - 1 > k + 1 {
        assert(s2[j - 1] == s[o - 1]);
    }
}

pub(crate) proof fn lemma_take_split(m: Map<int, u64>, m2: Map<int, u64>, seg: Segment, s: Seq<ChunkV>, k: int, needed: int)
    requires
        split_pre(m, m2, seg, s, k, needed),
    ensures
        seg_wf(m2, seg, take_chunk(s, k, needed)),
        forall|j: int| 0 <= j < s.len() && j != k ==> payload_same(s[j], m, m2),
{
    let c = s[k];
    let y = ChunkV { addr: c.addr + needed, size: c.size - needed, used: false };
    let t = seq![ChunkV { addr: c.addr, size: needed, used: true }, y];
    let s2 = take_chunk(s, k, needed);
    lemma_splice_index(s, k, k + 1, t);
    assert forall|j: int| 0 <= j < s2.len() implies #[trigger] chunk_ok(m2, seg, s2, j) by {
        if j < k {
            lemma_split_chunk_before(m, m2, seg, s, k, needed, j);
        } else if j == k {
            lemma_split_chunk_left(m, m2, seg, s, k, needed);
        } else if j == k + 1 {
            lemma_split_chunk_right(m, m2, seg, s, k, needed);
        } else {
            lemma_split_chunk_after(m, m2, seg, s, k, needed, j);
        }
    }
    assert(chunk_ok(m, seg, s, k));
    assert(c.addr % 16 == 0 && c.size >= 32 && c.addr + c.size <= seg.end - 16 && c.addr >= seg.base
        + 16) by {
        reveal(chunk_ok);
    }
    assert forall|a: int, b: int| 0 <= a < b < s2.len() implies #[trigger] s2[a].addr + s2[a].size
        <= #[trigger] s2[b].addr by {
        if a < k && b > k + 1 {
            assert(s[a].addr + s[a].size <= s[b - 1].addr);
        } else if a < k {
            assert(s[a].addr + s[a].size <= c.addr);
        } else if a <= k + 1 && b > k + 1 {
            assert(c.addr + c.size <= s[b - 1].addr);
        } else if a > k + 1 {
            assert(s[a - 1].addr + s[a - 1].size <= s[b - 1].addr);
        }
    }
    assert(s2.last() == if k + 1 < s.len() { s.last() } else { y });
    assert(s2[0].addr == seg.base + 16);
    assert(hdr(m2, seg.base as int) == hdr(m, seg.base as int));
    assert(hdr(m2, seg.end - 16) == hdr(m, seg.end - 16));
    assert forall|j: int| 0 <= j < s.len() && j != k implies payload_same(s[j], m, m2) by {
        assert(chunk_ok(m, seg, s, j));
        reveal(chunk_ok);
        if j < k {
            assert(s[j].addr + s[j].size <= c.addr);
        } else {
            assert(c.addr + c.size <= s[j].addr);
        }
    }
}

/// Memory `m2` is `m` after handing out free chunk `k` of `s` whole.
pub open spec fn whole_pre(m: Map<int, u64>, m2: Map<int, u64>, seg: Segment, s: Seq<ChunkV>, k: int, needed: int) -> bool {
    &&& seg_wf(m, seg, s)
    &&& 0 <= k < s.len()
    &&& fits(s[k], needed)
    &&& s[k].size - needed < MIN_CHUNK
    &&& changed_only(m, m2, set![s[k].addr + 8, s[k].addr + s[k].size + 8])
    &&& m2[s[k].addr + 8] == s[k].size + 3
    &&& m2[s[k].addr + s[k].size + 8] == m[s[k].addr + s[k].size + 8] + 2
}

pub(crate) proof fn lemma_whole_chunk_ok(m: Map<int, u64>, m2: Map<int, u64>, seg: Segment, s: Seq<ChunkV>, k: int, needed: int, j: int)
    requires
        whole_pre(m, m2, seg, s, k, needed),
        0 <= j < s.len(),
    ensures
        chunk_ok(m2, seg, take_chunk(s, k, needed), j),
{
    reveal(chunk_ok);
    let c = s[k];
    let s2 = take_chunk(s, k, needed);
    assert(chunk_ok(m, seg, s, k));
    assert(chunk_ok(m, seg, s, j));
    lemma_flag_bits(true, true);
    lemma_flag_bits(false, true);
    lemma_flag_bits(true, false);
    if k > 0 {
        assert(chunk_ok(m, seg, s, k - 1));
    }
    assert(s2 == s.update(k, ChunkV { addr: c.addr, size: c.size, used: true }));
    if j < k {
        assert(s[j].addr + s[j].size <= c.addr);
        if j + 1 < k {
            assert(s[j + 1].addr + s[j + 1].size <= c.addr);
        }
        assert(chunk_ok(m2, seg, s2, j));
    } else if j == k {
        assert(prev_used(s2, k));
        assert(chunk_ok(m2, seg, s2, j));
    } else if j == k + 1 {
        assert(prev_used(s2, j));
        assert(!prev_used(s, j));
        assert(hdr(m, s[j].addr) == s[j].size + 1);
        assert(chunk_ok(m2, seg, s2, j));
    } else {
        assert(chunk_ok(m, seg, s, k + 1));
        assert(s[k + 1].addr + s[k + 1].size <= s[j].addr);
        assert(c.addr + c.size <= s[j - 1].addr);
        assert(prev_used(s2, j) == prev_used(s, j));
        assert(chunk_ok(m2, seg, s2, j));
    }
}

pub(crate) proof fn lemma_take_whole(m: Map<int, u64>, m2: Map<int, u64>, seg: Segment, s: Seq<ChunkV>, k: int, needed: int)
    requires
        whole_pre(m, m2, seg, s, k, needed),
    ensures
        seg_wf(m2, seg, take_chunk(s, k, needed)),
        forall|j: int| 0 <= j < s.len() && j != k ==> payload_same(s[j], m, m2),
{
    let c = s[k];
    let s2 = take_chunk(s, k, needed);
    assert forall|j: int| 0 <= j < s2.len() implies #[trigger] chunk_ok(m2, seg, s2, j) by {
        lemma_whole_chunk_ok(m, m2, seg, s, k, needed, j);
    }
    assert(chunk_ok(m, seg, s, k));
    assert(c.addr % 16 == 0 && c.size >= 32 && c.addr + c.size <= seg.end - 16 && c.addr >= seg.base
        + 16) by {
        reveal(chunk_ok);
    }
    assert forall|a: int, b: int| 0 <= a < b < s2.len() implies #[trigger] s2[a].addr + s2[a].size
        <= #[trigger] s2[b].addr by {
        assert(s[a].addr + s[a].size <= s[b].addr);
    }
    assert(hdr(m2, seg.base as int) == hdr(m, seg.base as int));
    if k + 1 == s.len() {
        assert(c.addr + c.size == seg.end - 16) by {
            reveal(chunk_ok);
        }
        lemma_flag_bits(true, false);
        lemma_flag_bits(true, true);
        assert(s2.last().used);
    } else {
        assert(chunk_ok(m, seg, s, k + 1));
        assert(s[k + 1].addr + s[k + 1].size <= seg.end - 16 && s[k + 1].size >= 32 && s[k + 1].addr
            == c.addr + c.size) by {
            reveal(chunk_ok);
        }
        assert(s2.last() == s.last());
        assert(hdr(m2, seg.end - 16) == hdr(m, seg.end - 16));
    }
    assert forall|j: int| 0 <= j < s.len() && j != k implies payload_same(s[j], m, m2) by {
        assert(chunk_ok(m, seg, s, j));
        reveal(chunk_ok);
        if j < k {
            assert(s[j].addr + s[j].size <= c.addr);
        } else {
            assert(c.addr + c.size <= s[j].addr);
        }
    }
}

// ── Allocation ───────────────────────────────────────────────────────

/// Payload bytes actually reserved for a request of `size` bytes (zero-size
/// requests still get a real chunk).
pub open spec fn payload_needed(size: int) -> int {
    if size < 1 {
        1
    } else {
        size
    }
}

/// The chunk size computation for a request of `size` bytes overflows.
pub open spec fn request_overflows(size: int) -> bool {
    payload_needed(size) + HEADER_SIZE + CHUNK_ALIGN - 1 > usize::MAX
}

/// Chunk size serving a request of `size` bytes: header plus payload, rounded
/// up to `CHUNK_ALIGN`, at least `MIN_CHUNK`.
pub open spec fn needed_size(size: int) -> int {
    let r = round_up(payload_needed(size) + HEADER_SIZE, CHUNK_ALIGN as int);
    if r < MIN_CHUNK {
        MIN_CHUNK as int
    } else {
        r
    }
}

/// Chunk `k` of segment `i` is the first free chunk, in segment order and then
/// address order, with room for `needed` bytes.
pub open spec fn first_fit(l: Seq<Seq<ChunkV>>, needed: int, i: int, k: int) -> bool {
    &&& 0 <= i < l.len()
    &&& 0 <= k < l[i].len()
    &&& fits(l[i][k], needed)
    &&& forall|i2: int, k2: int|
        0 <= i2 < i && 0 <= k2 < l[i2].len() ==> !fits(#[trigger] l[i2][k2], needed)
    &&& forall|k2: int| 0 <= k2 < k ==> !fits(#[trigger] l[i][k2], needed)
}

/// No chunk of `l` can serve `needed` bytes.
pub open spec fn no_fit(l: Seq<Seq<ChunkV>>, needed: int) -> bool {
    forall|i: int, k: int| 0 <= i < l.len() && 0 <= k < l[i].len() ==> !fits(#[trigger] l[i][k], needed)
}

/// Bytes leaving the free pool when free chunk `c` serves `needed` bytes.
pub open spec fn taken_bytes(c: ChunkV, needed: int) -> int {
    if c.size - needed >= MIN_CHUNK {
        needed
    } else {
        c.size
    }
}

pub(crate) proof fn lemma_take_sums(s: Seq<ChunkV>, k: int, needed: int)
    requires
        0 <= k < s.len(),
        fits(s[k], needed),
    ensures
        chunk_sum(take_chunk(s, k, needed), free_val()) == chunk_sum(s, free_val()) - taken_bytes(s[k], needed),
        chunk_sum(take_chunk(s, k, needed), used_val()) == chunk_sum(s, used_val()) + 1,
        chunk_sum(take_chunk(s, k, needed), size_val()) == chunk_sum(s, size_val()),
{
    let c = s[k];
    assert(s.subrange(k, k + 1) =~= seq![c]);
    lemma_chunk_sum_single(c, free_val());
    lemma_chunk_sum_single(c, used_val());
    lemma_chunk_sum_single(c, size_val());
    if c.size - needed >= MIN_CHUNK {
        let x = ChunkV { addr: c.addr, size: needed, used: true };
        let y = ChunkV { addr: c.addr + needed, size: c.size - needed, used: false };
        lemma_chunk_sum_splice(s, k, k + 1, seq![x, y], free_val());
        lemma_chunk_sum_splice(s, k, k + 1, seq![x, y], used_val());
        lemma_chunk_sum_splice(s, k, k + 1, seq![x, y], size_val());
        lemma_chunk_sum_pair(x, y, free_val());
        lemma_chunk_sum_pair(x, y, used_val());
        lemma_chunk_sum_pair(x, y, size_val());
    } else {
        let x = ChunkV { addr: c.addr, size: c.size, used: true };
        assert(take_chunk(s, k, needed) =~= splice(s, k, k + 1, seq![x]));
        lemma_chunk_sum_splice(s, k, k + 1, seq![x], free_val());
        lemma_chunk_sum_splice(s, k, k + 1, seq![x], used_val());
        lemma_chunk_sum_splice(s, k, k + 1, seq![x], size_val());
        lemma_chunk_sum_single(x, free_val());
        lemma_chunk_sum_single(x, used_val());
        lemma_chunk_sum_single(x, size_val());
    }
}

/// Heap `h2` over `m2` results from replacing the chunks of segment `i` of
/// `h` over `m` by `s2`, touching only memory inside that segment.
pub(crate) proof fn lemma_replace_segment(
    h: HeapCore,
    h2: HeapCore,
    m: Map<int, u64>,
    m2: Map<int, u64>,
    i: int,
    s2: Seq<ChunkV>,
)
    requires
        h.wf(m),
        0 <= i < h.seg_count,
        h2.seg_count == h.seg_count,
        h2.segments == h.segments,
        h2.layout() == h.layout().update(i, s2),
        seg_wf(m2, h.segments@[i], s2),
        m2.dom() == m.dom(),
        forall|a: int| !(h.segments@[i].base <= a < h.segments@[i].end) ==> #[trigger] m2[a] == m[a],
        h2.free_bytes == layout_sum(h2.layout(), free_val()),
        h2.alloc_count == layout_sum(h2.layout(), used_val()),
        chunk_sum(s2, size_val()) == chunk_sum(h.layout()[i], size_val()),
    ensures
        h2.wf(m2),
        forall|j: int, k: int|
            0 <= j < h.seg_count && j != i && 0 <= k < h.layout()[j].len()
                ==> payload_same(#[trigger] h.layout()[j][k], m, m2),
{
    reveal(HeapCore::wf);
    let l = h.layout();
    assert forall|j: int| 0 <= j < h2.seg_count implies #[trigger] seg_wf(m2, h2.segments@[j], h2.layout()[j]) by {
        if j != i {
            let sj = h.segments@[j];
            assert(seg_wf(m, sj, l[j]));
            assert(sj.end <= h.segments@[i].base || h.segments@[i].end <= sj.base);
            assert forall|a: int| sj.base <= a < sj.end implies #[trigger] m[a] == m2[a] by {}
            lemma_seg_wf_frame(m, m2, sj, l[j]);
        }
    }
    lemma_layout_sum_update(l, i, s2, size_val());
    assert forall|j: int, k: int|
        0 <= j < h.seg_count && j != i && 0 <= k < l[j].len() implies payload_same(#[trigger] l[j][k], m, m2) by {
        let sj = h.segments@[j];
        assert(seg_wf(m, sj, l[j]));
        assert(chunk_ok(m, sj, l[j], k));
        reveal(chunk_ok);
        assert(sj.end <= h.segments@[i].base || h.segments@[i].end <= sj.base);
    }
}

pub(crate) proof fn lemma_free_sum_ge_chunk(l: Seq<Seq<ChunkV>>, i: int, k: int)
    requires
        forall|i2: int, k2: int| 0 <= i2 < l.len() && 0 <= k2 < l[i2].len() ==> l[i2][k2].size >= 0,
        0 <= i < l.len(),
        0 <= k < l[i].len(),
    ensures
        layout_sum(l, free_val()) >= free_val()(l[i][k]),
{
    let s = l[i];
    let e = Seq::<ChunkV>::empty();
    let s0 = splice(s, k, k + 1, e);
    lemma_splice_index(s, k, k + 1, e);
    assert(s.subrange(k, k + 1) =~= seq![s[k]]);
    lemma_chunk_sum_single(s[k], free_val());
    lemma_chunk_sum_splice(s, k, k + 1, e, free_val());
    lemma_chunk_sum_free_le_size(s0);
    let l0 = l.update(i, s0);
    lemma_layout_sum_update(l, i, s0, free_val());
    assert forall|i2: int, k2: int| 0 <= i2 < l0.len() && 0 <= k2 < l0[i2].len() implies l0[i2][k2].size >= 0 by {
        if i2 == i {
            if k2 >= k {
                assert(s0[k2] == s[k2 + 1]);
            }
        }
    }
    lemma_layout_sum_free_le_size(l0);
}

pub(crate) proof fn lemma_take_facts(h: HeapCore, m: Map<int, u64>, i: int, k: int, needed: int)
    requires
        h.wf(m),
        0 <= i < h.seg_count,
        0 <= k < h.layout()[i].len(),
        fits(h.layout()[i][k], needed),
    ensures
        ({
            let seg = h.segments@[i];
            let s = h.layout()[i];
            let c = s[k];
            &&& seg_wf(m, seg, s)
            &&& covers(m, seg.base as int, seg.end as int)
            &&& c.addr % 16 == 0
            &&& c.size % 16 == 0
            &&& c.addr >= seg.base + 16
            &&& c.addr + c.size <= seg.end - 16
            &&& hdr(m, c.addr) & 7 == 2
            &&& seg.end <= usize::MAX
            &&& h.free_bytes >= c.size
            &&& k + 1 < s.len() ==> {
                &&& s[k + 1].addr == c.addr + c.size
                &&& s[k + 1].used
                &&& s[k + 1].size % 16 == 0
                &&& hdr(m, c.addr + c.size) == s[k + 1].size + 1
            }
            &&& k + 1 == s.len() ==> c.addr + c.size == seg.end - 16 && hdr(m, c.addr + c.size) == 17
            &&& forall|i2: int, k2: int| 0 <= i2 < h.layout().len() && 0 <= k2 < h.layout()[i2].len()
                ==> h.layout()[i2][k2].size >= 0
            &&& h.layout().len() == h.seg_count
            &&& h.free_bytes == layout_sum(h.layout(), free_val())
            &&& h.alloc_count == layout_sum(h.layout(), used_val())
        }),
{
    reveal(HeapCore::wf);
    let l = h.layout();
    let seg = h.segments@[i];
    let s = l[i];
    let c = s[k];
    assert(seg_wf(m, seg, s));
    assert(chunk_ok(m, seg, s, k));
    reveal(chunk_ok);
    if k > 0 {
        assert(chunk_ok(m, seg, s, k - 1));
    }
    lemma_flag_bits(false, true);
    lemma_header_bits(c.size as u64, 2, hdr(m, c.addr));
    if k + 1 < s.len() {
        assert(chunk_ok(m, seg, s, k + 1));
        lemma_flag_bits(true, false);
    } else {
        lemma_flag_bits(true, false);
    }
    assert forall|i2: int, k2: int| 0 <= i2 < l.len() && 0 <= k2 < l[i2].len() implies l[i2][k2].size >= 0 by {
        assert(seg_wf(m, h.segments@[i2], l[i2]));
        assert(chunk_ok(m, h.segments@[i2], l[i2], k2));
    }
    lemma_free_sum_ge_chunk(l, i, k);
}

impl HeapCore {
    /// Carves `needed` bytes out of free chunk `k` (at `chunk`, of size `sz`,
    /// flag bits `flags`) of segment `seg_idx`.
    #[verifier::rlimit(100)]
    pub(crate) fn take(&mut self, mem: &mut Memory, seg_idx: usize, chunk: usize, sz: usize, flags: u64, needed: usize, Ghost(k): Ghost<int>)
        requires
            old(self).wf(old(mem)@),
            seg_idx < old(self).seg_count,
            0 <= k < old(self).layout()[seg_idx as int].len(),
            old(self).layout()[seg_idx as int][k].addr == chunk,
            old(self).layout()[seg_idx as int][k].size == sz,
            fits(old(self).layout()[seg_idx as int][k], needed as int),
            flags == hdr(old(mem)@, chunk as int) & 7,
            needed % 16 == 0,
            needed >= MIN_CHUNK,
            old(self).alloc_count < u64::MAX,
        ensures
            final(self).wf(final(mem)@),
            final(mem)@.dom() == old(mem)@.dom(),
            final(mem).size() == old(mem).size(),
            final(self).segments == old(self).segments,
            final(self).seg_count == old(self).seg_count,
            final(self).layout() == old(self).layout().update(
                seg_idx as int,
                take_chunk(old(self).layout()[seg_idx as int], k, needed as int),
            ),
            final(self).free_bytes == old(self).free_bytes - taken_bytes(
                old(self).layout()[seg_idx as int][k],
                needed as int,
            ),
            final(self).alloc_count == old(self).alloc_count + 1,
            final(self).oom_count == old(self).oom_count,
            final(self).align_fail_count == old(self).align_fail_count,
            final(self).bad_free_count == old(self).bad_free_count,
            final(self).double_free_count == old(self).double_free_count,
            payloads_kept(old(self).layout(), old(mem)@, final(mem)@),
            changed_only(old(mem)@, final(mem)@, take_writes(chunk as int, sz as int, needed as int)),
    {
        let ghost h0 = *self;
        let ghost m0 = mem@;
        let ghost l = self.layout();
        let ghost i = seg_idx as int;
        let ghost seg = self.segments@[i];
        let ghost s = l[i];
        let ghost c = s[k];
        proof {
            lemma_take_facts(h0, m0, i, k, needed as int);
            assert((2u64 & PREV_IN_USE) | IN_USE == 3) by (bit_vector);
        }
        let rest = sz - needed;
        if rest >= MIN_CHUNK {
            let right = chunk + needed;
            set_prev_size(mem, right, needed as u64);
            set_header(mem, right, rest as u64, PREV_IN_USE);
            set_header(mem, chunk, needed as u64, (flags & PREV_IN_USE) | IN_USE);
            set_prev_size(mem, chunk + sz, rest as u64);
            self.free_bytes = self.free_bytes - needed;
            proof {
                lemma_take_sums(s, k, needed as int);
                lemma_layout_sum_update(l, i, take_chunk(s, k, needed as int), free_val());
                lemma_layout_sum_update(l, i, take_chunk(s, k, needed as int), used_val());
                lemma_header_bits(rest as u64, 2, (rest + 2) as u64);
                lemma_header_bits(needed as u64, 3, (needed + 3) as u64);
                assert(split_pre(m0, mem@, seg, s, k, needed as int));
                lemma_take_split(m0, mem@, seg, s, k, needed as int);
            }
        } else {
            set_header(mem, chunk, sz as u64, (flags & PREV_IN_USE) | IN_USE);
            let a = chunk + sz;
            let asz = size_of(mem, a);
            let af = flags_of(mem, a);
            proof {
                let w = hdr(m0, a as int);
                if k + 1 < s.len() {
                    lemma_header_bits(s[k + 1].size as u64, 1, w);
                } else {
                    lemma_header_bits(16, 1, w);
                }
                assert((1u64 & IN_USE) | PREV_IN_USE == 3) by (bit_vector);
                lemma_header_bits(asz, 3, (w + 2) as u64);
                lemma_header_bits(sz as u64, 3, (sz + 3) as u64);
            }
            set_header(mem, a, asz, (af & IN_USE) | PREV_IN_USE);
            self.free_bytes = self.free_bytes - sz;
            proof {
                lemma_take_sums(s, k, needed as int);
                lemma_layout_sum_update(l, i, take_chunk(s, k, needed as int), free_val());
                lemma_layout_sum_update(l, i, take_chunk(s, k, needed as int), used_val());
                assert(whole_pre(m0, mem@, seg, s, k, needed as int));
                lemma_take_whole(m0, mem@, seg, s, k, needed as int);
            }
        }
        self.alloc_count = self.alloc_count + 1;
        proof {
            let s2 = take_chunk(s, k, needed as int);
            self.chunks = Ghost(l.update(i, s2));
            lemma_replace_segment(h0, *self, m0, mem@, i, s2);
            assert forall|i2: int, k2: int|
                0 <= i2 < l.len() && 0 <= k2 < l[i2].len() && #[trigger] l[i2][k2].used implies payload_same(
                l[i2][k2],
                m0,
                mem@,
            ) by {
                if i2 == i {
                    assert(k2 != k);
                }
            }
        }
    }
}

/// The words an allocation that takes `needed` bytes of the free chunk at
/// `c` of size `sz` may write: the chunk's header, the header and prev_size
/// word of the remainder split off at `c + needed`, and the prev_size word
/// and header of the chunk after it.
pub open spec fn take_writes(c: int, sz: int, needed: int) -> Set<int> {
    set![c + 8, c + needed, c + needed + 8, c + sz, c + sz + 8]
}

impl HeapCore {
    /// Allocates a chunk for `size` payload bytes aligned to `align` (at most
    /// 16: payloads are always 16-byte aligned). First fit over the segments in
    /// order, then over the chunks in address order; a fitting chunk is split
    /// when the remainder can hold a minimal chunk. Returns the payload address,
    /// or 0 on failure: stricter alignment (counted in `align_fail_count`),
    /// size overflow (not counted), or no fitting chunk (counted in `oom_count`).
    #[verifier::rlimit(50)]
    pub fn allocate(&mut self, mem: &mut Memory, size: usize, align: usize) -> (r: usize)
        requires
            old(self).wf(old(mem)@),
            old(self).alloc_count < u64::MAX,
            old(self).oom_count < u64::MAX,
            old(self).align_fail_count < u64::MAX,
        ensures
            final(self).wf(final(mem)@),
            final(mem)@.dom() == old(mem)@.dom(),
            final(mem).size() == old(mem).size(),
            final(self).segments == old(self).segments,
            final(self).seg_count == old(self).seg_count,
            final(self).bad_free_count == old(self).bad_free_count,
            final(self).double_free_count == old(self).double_free_count,
            align > CHUNK_ALIGN ==> {
                &&& r == 0
                &&& final(self).align_fail_count == old(self).align_fail_count + 1
                &&& final(self).oom_count == old(self).oom_count
                &&& final(self).alloc_count == old(self).alloc_count
                &&& final(self).free_bytes == old(self).free_bytes
                &&& final(self).layout() == old(self).layout()
                &&& final(mem)@ == old(mem)@
            },
            align <= CHUNK_ALIGN ==> final(self).align_fail_count == old(self).align_fail_count,
            align <= CHUNK_ALIGN && request_overflows(size as int) ==> {
                &&& r == 0
                &&& final(self).oom_count == old(self).oom_count
                &&& final(self).alloc_count == old(self).alloc_count
                &&& final(self).free_bytes == old(self).free_bytes
                &&& final(self).layout() == old(self).layout()
                &&& final(mem)@ == old(mem)@
            },
            align <= CHUNK_ALIGN && !request_overflows(size as int) && no_fit(
                old(self).layout(),
                needed_size(size as int),
            ) ==> {
                &&& r == 0
                &&& final(self).oom_count == old(self).oom_count + 1
                &&& final(self).alloc_count == old(self).alloc_count
                &&& final(self).free_bytes == old(self).free_bytes
                &&& final(self).layout() == old(self).layout()
                &&& final(mem)@ == old(mem)@
            },
            align <= CHUNK_ALIGN && !request_overflows(size as int) && !no_fit(
                old(self).layout(),
                needed_size(size as int),
            ) ==> exists|i: int, k: int|
                #[trigger] first_fit(old(self).layout(), needed_size(size as int), i, k) && {
                    let l = old(self).layout();
                    let needed = needed_size(size as int);
                    &&& r == l[i][k].addr + HEADER_SIZE
                    &&& final(self).layout() == l.update(i, take_chunk(l[i], k, needed))
                    &&& final(self).free_bytes == old(self).free_bytes - taken_bytes(l[i][k], needed)
                    &&& final(self).alloc_count == old(self).alloc_count + 1
                    &&& final(self).oom_count == old(self).oom_count
                    &&& payloads_kept(l, old(mem)@, final(mem)@)
                    &&& changed_only(old(mem)@, final(mem)@, take_writes(l[i][k].addr, l[i][k].size, needed))
                },
    {
        if align > CHUNK_ALIGN {
            let ghost h0 = *self;
            self.align_fail_count = self.align_fail_count + 1;
            proof {
                lemma_wf_counters(h0, *self, mem@);
            }
            return 0;
        }
        proof {
            assert(is_pow2(16)) by {
                vstd::arithmetic::power2::lemma2_to64();
                assert(pow2(4) == 16);
            }
        }
        let payload_needed = if size > 1 { size } else { 1 };
        let payload_size = match payload_needed.checked_add(HEADER_SIZE) {
            Some(v) => v,
            None => return 0,
        };
        let needed = match align_up_checked(Some(payload_size), CHUNK_ALIGN) {
            Some(v) => v,
            None => return 0,
        };
        let needed = if needed > MIN_CHUNK { needed } else { MIN_CHUNK };
        let ghost l = self.layout();
        proof {
            lemma_wf_basic(*self, mem@);
            assert(needed == needed_size(size as int));
            assert(needed % 16 == 0) by {
                assert(round_up(payload_size as int, 16) % 16 == 0);
            }
        }

        let mut seg_idx: usize = 0;
        while seg_idx < self.seg_count
            invariant
                *self == *old(self),
                mem@ == old(mem)@,
                mem.size() == old(mem).size(),
                self.wf(mem@),
                l == self.layout(),
                l.len() == self.seg_count,
                self.seg_count <= MAX_SEGMENTS,
                needed == needed_size(size as int),
                needed % 16 == 0,
                needed >= MIN_CHUNK,
                align <= CHUNK_ALIGN,
                !request_overflows(size as int),
                self.alloc_count < u64::MAX,
                self.oom_count < u64::MAX,
                seg_idx <= self.seg_count,
                forall|i2: int, k2: int|
                    0 <= i2 < seg_idx && 0 <= k2 < l[i2].len() ==> !fits(#[trigger] l[i2][k2], needed as int),
            decreases self.seg_count - seg_idx,
        {
            let base = self.segments[seg_idx].base;
            let end = self.segments[seg_idx].end;
            let ghost i = seg_idx as int;
            let ghost seg = self.segments@[i];
            let ghost s = l[i];
            proof {
                lemma_seg_facts(*self, mem@, i);
                lemma_chunk_facts(mem@, seg, s, 0);
            }
            let epilogue = end - EPILOGUE_SIZE;
            let mut chunk = base + PROLOGUE_SIZE;
            let ghost mut k: int = 0;
            while chunk < epilogue
                invariant_except_break
                    *self == *old(self),
                    mem@ == old(mem)@,
                    mem.size() == old(mem).size(),
                    self.wf(mem@),
                    l == self.layout(),
                    l.len() == self.seg_count,
                    self.seg_count <= MAX_SEGMENTS,
                    needed == needed_size(size as int),
                    needed % 16 == 0,
                    needed >= MIN_CHUNK,
                    align <= CHUNK_ALIGN,
                    !request_overflows(size as int),
                    self.alloc_count < u64::MAX,
                    self.oom_count < u64::MAX,
                    seg_idx < self.seg_count,
                    i == seg_idx,
                    seg == self.segments@[i],
                    s == l[i],
                    seg_wf(mem@, seg, s),
                    base == seg.base,
                    end == seg.end,
                    epilogue == end - EPILOGUE_SIZE,
                    0 <= k <= s.len(),
                    chunk == if k < s.len() { s[k].addr } else { epilogue as int },
                    k < s.len() ==> chunk < epilogue,
                    forall|i2: int, k2: int|
                        0 <= i2 < seg_idx && 0 <= k2 < l[i2].len() ==> !fits(#[trigger] l[i2][k2], needed as int),
                    forall|k2: int| 0 <= k2 < k ==> !fits(#[trigger] s[k2], needed as int),
                ensures
                    *self == *old(self),
                    mem@ == old(mem)@,
                    mem.size() == old(mem).size(),
                    self.wf(mem@),
                    l.len() == self.seg_count,
                    self.seg_count <= MAX_SEGMENTS,
                    k == s.len(),
                    forall|i2: int, k2: int|
                        0 <= i2 < seg_idx && 0 <= k2 < l[i2].len() ==> !fits(#[trigger] l[i2][k2], needed as int),
                    forall|k2: int| 0 <= k2 < s.len() ==> !fits(#[trigger] s[k2], needed as int),
                decreases epilogue - chunk,
            {
                proof {
                    if k == s.len() {
                        assert(false);
                    }
                    lemma_chunk_facts(mem@, seg, s, k);
                }
                let sz = size_of(mem, chunk);
                let flags = flags_of(mem, chunk);
                if sz < MIN_CHUNK as u64 || sz % 16 != 0 {
                    break;
                }
                if flags & IN_USE == 0 && sz >= needed as u64 {
                    proof {
                        assert(first_fit(l, needed as int, i, k));
                    }
                    self.take(mem, seg_idx, chunk, sz as usize, flags, needed, Ghost(k));
                    return chunk + HEADER_SIZE;
                }
                chunk = chunk + sz as usize;
                proof {
                    k = k + 1;
                    if k < s.len() {
                        lemma_chunk_facts(mem@, seg, s, k);
                    }
                }
            }
            seg_idx = seg_idx + 1;
        }
        let ghost h0 = *self;
        self.oom_count = self.oom_count + 1;
        proof {
            lemma_wf_counters(h0, *self, mem@);
            assert(no_fit(l, needed as int));
        }
        0
    }
}

} // verus!
