//! Freeing: classification of the pointer and coalescing of the freed chunk.
use vstd::prelude::*;
use super::layout::{CHUNK_ALIGN, ChunkV, EPILOGUE_SIZE, HEADER_SIZE, IN_USE, MIN_CHUNK, PREV_IN_USE, PROLOGUE_SIZE, SIZE_MASK, chunk_ok, flags_of, free_val, hdr, layout_sum, lemma_header_bits, lemma_layout_sum_update, payload_same, prev_size_of, seg_wf, set_header, set_prev_size, size_of, size_val, used_val};
use super::memory::{Memory, covers};
use super::state::{HeapCore, lemma_chunk_facts, lemma_seg_facts, lemma_wf_basic, lemma_wf_counters};
use super::carve::{lemma_replace_segment};
use super::coalesce::{coalesce, coalesce_pre, coalesce_touches, lemma_coalesce_seg, lemma_coalesce_sums, lemma_release_facts, lemma_span_facts, lemma_used_chunk_counted, merged_chunk, span_end, span_hi, span_lo};

verus! {

/// Every allocated chunk of `l` other than chunk `k` of segment `i` keeps its
/// payload words from `m1` to `m2`.
pub open spec fn payloads_kept_except(l: Seq<Seq<ChunkV>>, i: int, k: int, m1: Map<int, u64>, m2: Map<int, u64>) -> bool {
    forall|i2: int, k2: int|
        0 <= i2 < l.len() && 0 <= k2 < l[i2].len() && #[trigger] l[i2][k2].used && !(i2 == i && k2 == k)
            ==> payload_same(l[i2][k2], m1, m2)
}

/// Address of chunk `j` of `s`, or of the epilogue when `j` is past the last chunk.
pub open spec fn chunk_at(s: Seq<ChunkV>, j: int, seg_end: int) -> int {
    if j < s.len() {
        s[j].addr
    } else {
        seg_end
    }
}

proof fn lemma_low_flags(w: u64)
    ensures
        (w & 7) & IN_USE == w & IN_USE,
        (w & 7) & PREV_IN_USE == w & PREV_IN_USE,
{
    assert((w & 7) & 1 == w & 1 && (w & 7) & 2 == w & 2) by (bit_vector);
}

/// Freeing allocated chunk `k` of segment `i` keeps the byte and chunk counts in range.
proof fn lemma_release_budget(h: HeapCore, m: Map<int, u64>, i: int, k: int)
    requires
        h.wf(m),
        0 <= i < h.seg_count,
        0 <= k < h.layout()[i].len(),
        h.layout()[i][k].used,
    ensures
        h.free_bytes + h.layout()[i][k].size <= usize::MAX,
        h.alloc_count >= 1,
{
    reveal(HeapCore::wf);
    let l = h.layout();
    assert forall|i2: int, k2: int| 0 <= i2 < l.len() && 0 <= k2 < l[i2].len() implies l[i2][k2].size
        >= 0 by {
        reveal(chunk_ok);
        assert(seg_wf(m, h.segments@[i2], l[i2]));
        assert(chunk_ok(m, h.segments@[i2], l[i2], k2));
    }
    lemma_used_chunk_counted(l, i, k);
}

impl HeapCore {
    /// Every installed segment has room for its two fences.
    proof fn lemma_fenced(&self, m: Map<int, u64>)
        requires
            self.wf(m),
        ensures
            self.seg_count <= 16,
            forall|i: int|
                0 <= i < self.seg_count ==> #[trigger] self.segments@[i].base + PROLOGUE_SIZE + EPILOGUE_SIZE
                    <= self.segments@[i].end,
    {
        reveal(HeapCore::wf);
        assert forall|i: int| 0 <= i < self.seg_count implies #[trigger] self.segments@[i].base + PROLOGUE_SIZE
            + EPILOGUE_SIZE <= self.segments@[i].end by {
            assert(seg_wf(m, self.segments@[i], self.layout()[i]));
        }
    }

    /// A live chunk lies in exactly one segment: the one whose chunk area holds it.
    proof fn lemma_live_segment(&self, m: Map<int, u64>, ptr: int, i: int, k: int, i2: int)
        requires
            self.wf(m),
            self.live_at(ptr, i, k),
            0 <= i2 < self.seg_count,
            self.segments@[i2].base + PROLOGUE_SIZE <= ptr - HEADER_SIZE < self.segments@[i2].end - EPILOGUE_SIZE,
        ensures
            i2 == i,
    {
        reveal(HeapCore::wf);
        let seg = self.segments@[i];
        assert(seg_wf(m, seg, self.layout()[i]));
        lemma_chunk_facts(m, seg, self.layout()[i], k);
        if i2 != i {
            assert(self.segments@[i].end <= self.segments@[i2].base || self.segments@[i2].end
                <= self.segments@[i].base);
        }
    }

    /// The three outcomes of a free exclude each other.
    pub proof fn lemma_free_classes(&self, m: Map<int, u64>, ptr: int)
        requires
            self.wf(m),
        ensures
            self.is_live(ptr) ==> !self.bad_free(m, ptr) && !self.double_free(m, ptr),
            self.double_free(m, ptr) ==> !self.bad_free(m, ptr),
    {
        if self.is_live(ptr) {
            let (i, k) = choose|i: int, k: int| #[trigger] self.live_at(ptr, i, k);
            reveal(HeapCore::wf);
            let seg = self.segments@[i];
            assert(seg_wf(m, seg, self.layout()[i]));
            lemma_chunk_facts(m, seg, self.layout()[i], k);
            lemma_low_flags(hdr(m, ptr - HEADER_SIZE));
            assert(self.segments@[i].base + PROLOGUE_SIZE <= ptr - HEADER_SIZE);
            assert(self.in_chunk_area(ptr - HEADER_SIZE));
        }
    }

    /// Frees allocated chunk `k` of segment `seg_idx` (at `chunk`, of size
    /// `c_size`, with header flags `cflags`), merging it with a free
    /// predecessor and a free successor.
    #[verifier::rlimit(100)]
    fn release(&mut self, mem: &mut Memory, seg_idx: usize, chunk: usize, c_size: u64, cflags: u64, Ghost(k): Ghost<int>)
        requires
            old(self).wf(old(mem)@),
            seg_idx < old(self).seg_count,
            0 <= k < old(self).layout()[seg_idx as int].len(),
            old(self).layout()[seg_idx as int][k].used,
            chunk == old(self).layout()[seg_idx as int][k].addr,
            c_size == old(self).layout()[seg_idx as int][k].size,
            cflags == hdr(old(mem)@, chunk as int) & 7,
        ensures
            final(self).wf(final(mem)@),
            final(mem)@.dom() == old(mem)@.dom(),
            final(mem).size() == old(mem).size(),
            final(self).segments == old(self).segments,
            final(self).seg_count == old(self).seg_count,
            final(self).layout() == old(self).layout().update(
                seg_idx as int,
                coalesce(old(self).layout()[seg_idx as int], k),
            ),
            final(self).free_bytes == old(self).free_bytes + c_size,
            final(self).alloc_count == old(self).alloc_count - 1,
            final(self).oom_count == old(self).oom_count,
            final(self).align_fail_count == old(self).align_fail_count,
            final(self).bad_free_count == old(self).bad_free_count,
            final(self).double_free_count == old(self).double_free_count,
            payloads_kept_except(old(self).layout(), seg_idx as int, k, old(mem)@, final(mem)@),
    {
        let ghost h0 = *self;
        let ghost m0 = mem@;
        let ghost l = self.layout();
        let ghost i = seg_idx as int;
        let ghost seg = self.segments@[i];
        let ghost s = l[i];
        let ghost c = s[k];
        let ghost lo = span_lo(s, k);
        let ghost hi = span_hi(s, k);
        let ghost x = merged_chunk(s, k);
        proof {
            lemma_seg_facts(h0, m0, i);
            lemma_release_facts(m0, seg, s, k);
            lemma_span_facts(m0, seg, s, k);
            lemma_release_budget(h0, m0, i, k);
            lemma_wf_basic(h0, m0);
        }
        let base = self.segments[seg_idx].base;
        let seg_end = self.segments[seg_idx].end - EPILOGUE_SIZE;
        let mut span = chunk;
        let mut span_size: usize = c_size as usize;
        if cflags & PREV_IN_USE == 0 {
            let prev = chunk.saturating_sub(prev_size_of(mem, chunk) as usize);
            if prev < base + PROLOGUE_SIZE {
                proof {
                    assert(false);
                }
                return;
            }
            let psz = size_of(mem, prev);
            span_size = span_size + psz as usize;
            span = prev;
            set_header(mem, chunk, 0, 0);
        }
        let mut n = chunk + c_size as usize;
        let ghost mut j: int = k + 1;
        loop
            invariant_except_break
                *self == h0,
                mem@.dom() == m0.dom(),
                mem.size() == old(mem).size(),
                seg_wf(m0, seg, s),
                covers(m0, seg.base as int, seg.end as int),
                base == seg.base,
                seg_end == seg.end - EPILOGUE_SIZE,
                seg.end <= usize::MAX,
                0 <= k < s.len(),
                s[k].used,
                c == s[k],
                lo == span_lo(s, k),
                hi == span_hi(s, k),
                x == merged_chunk(s, k),
                k + 2 < s.len() && !s[k + 1].used ==> (hdr(m0, s[k + 2].addr) & 7) & IN_USE == 1,
                j == k + 1 || (j == k + 2 && k + 1 < s.len() && !s[k + 1].used),
                n == chunk_at(s, j, seg_end as int),
                span == s[lo].addr,
                span_size == n - span,
                forall|a: int|
                    a != c.addr + 8 && (j == k + 1 || a != s[k + 1].addr + 8) ==> #[trigger] mem@[a] == m0[a],
                lo == k ==> mem@[c.addr + 8] == m0[c.addr + 8],
            ensures
                *self == h0,
                mem@.dom() == m0.dom(),
                mem.size() == old(mem).size(),
                j == hi,
                n == span_end(s, k),
                span == s[lo].addr,
                span_size == x.size,
                forall|a: int|
                    a != c.addr + 8 && (j == k + 1 || a != s[k + 1].addr + 8) ==> #[trigger] mem@[a] == m0[a],
                lo == k ==> mem@[c.addr + 8] == m0[c.addr + 8],
            decreases seg_end - n,
        {
            proof {
                lemma_chunk_facts(m0, seg, s, k);
                if k + 1 < s.len() {
                    lemma_chunk_facts(m0, seg, s, k + 1);
                }
                if j < s.len() {
                    lemma_chunk_facts(m0, seg, s, j);
                }
            }
            if n >= seg_end {
                break;
            }
            proof {
                assert(mem@[n + 8] == m0[n + 8]);
            }
            let nf = flags_of(mem, n);
            if nf & IN_USE != 0 {
                break;
            }
            proof {
                assert(j == k + 1);
            }
            let ns = size_of(mem, n);
            if ns < MIN_CHUNK as u64 || ns % 16 != 0 {
                proof {
                    assert(false);
                }
                break;
            }
            set_header(mem, n, 0, 0);
            span_size = span_size + ns as usize;
            n = n + ns as usize;
            proof {
                j = j + 1;
                if j < s.len() {
                    lemma_chunk_facts(m0, seg, s, j);
                }
            }
        }
        if n > seg_end {
            proof {
                assert(false);
            }
            return;
        }
        let ghost m1 = mem@;
        proof {
            assert(m1[span_end(s, k) + 8] == m0[span_end(s, k) + 8]);
            assert(m1[x.addr + 8] == m0[x.addr + 8]);
            assert(m0.dom().contains(span_end(s, k)));
            assert(m0.dom().contains(span_end(s, k) + 8));
            assert(m0.dom().contains(x.addr + 8));
        }
        set_prev_size(mem, n, span_size as u64);
        let sf = flags_of(mem, span);
        set_header(mem, span, span_size as u64, sf & PREV_IN_USE);
        let nsz = size_of(mem, n);
        let nfl = flags_of(mem, n);
        set_header(mem, n, nsz, nfl & IN_USE);
        self.free_bytes = self.free_bytes + c_size as usize;
        self.alloc_count = self.alloc_count - 1;
        proof {
            let m2 = mem@;
            let e = span_end(s, k);
            lemma_low_flags(m0[x.addr + 8]);
            lemma_header_bits(x.size as u64, 2, (x.size + 2) as u64);
            let nx = if hi < s.len() { s[hi].size } else { 16int };
            if hi < s.len() {
                lemma_chunk_facts(m0, seg, s, hi);
            }
            lemma_low_flags(m0[e + 8]);
            assert(nsz == nx);
            lemma_header_bits(nx as u64, 1, (nx + 1) as u64);
            assert(m2[x.addr + 8] == x.size + 2);
            assert(m2[e] == x.size);
            assert(m2[e + 8] == nx + 1);
            assert forall|a: int| !coalesce_touches(s, k, a) implies #[trigger] m2[a] == m0[a] by {}
            assert(coalesce_pre(m0, m2, seg, s, k));
            lemma_coalesce_seg(m0, m2, seg, s, k);
            lemma_coalesce_sums(m0, seg, s, k);
            let s2 = coalesce(s, k);
            lemma_layout_sum_update(l, i, s2, free_val());
            lemma_layout_sum_update(l, i, s2, used_val());
            self.chunks = Ghost(l.update(i, s2));
            assert forall|a: int| !(seg.base <= a < seg.end) implies #[trigger] m2[a] == m0[a] by {
                assert(!coalesce_touches(s, k, a));
            }
            lemma_replace_segment(h0, *self, m0, m2, i, s2);
        }
    }

    /// Whether `c`, inside the chunk area of segment `seg_idx`, is where one
    /// of its chunks starts: a walk over the segment's chunks by their sizes.
    fn is_chunk_start(&self, mem: &Memory, seg_idx: usize, c: usize) -> (r: bool)
        requires
            self.wf(mem@),
            seg_idx < self.seg_count,
            self.segments@[seg_idx as int].base + PROLOGUE_SIZE <= c < self.segments@[seg_idx as int].end
                - EPILOGUE_SIZE,
        ensures
            r == exists|k: int|
                0 <= k < self.layout()[seg_idx as int].len() && #[trigger] self.layout()[seg_idx as int][k].addr == c,
    {
        proof {
            reveal(HeapCore::wf);
        }
        let ghost s = self.layout()[seg_idx as int];
        let seg = self.segments[seg_idx];
        proof {
            assert(seg_wf(mem@, seg, s));
        }
        let stop = seg.end - EPILOGUE_SIZE;
        let mut a = seg.base + PROLOGUE_SIZE;
        let ghost mut j: int = 0;
        while a < c
            invariant
                seg_wf(mem@, seg, s),
                stop == seg.end - EPILOGUE_SIZE,
                seg.base + PROLOGUE_SIZE <= c < stop,
                0 <= j <= s.len(),
                j < s.len() ==> a == s[j].addr,
                j == s.len() ==> a == stop,
                forall|t: int| 0 <= t < j ==> #[trigger] s[t].addr < c,
            decreases stop - a,
        {
            proof {
                lemma_chunk_facts(mem@, seg, s, j);
            }
            let sz = size_of(mem, a);
            a = a + sz as usize;
            proof {
                j = j + 1;
            }
        }
        proof {
            if a == c {
                assert(j < s.len());
                assert(s[j].addr == c);
            } else {
                assert forall|k: int| 0 <= k < s.len() implies #[trigger] s[k].addr != c by {
                    if k > j && j < s.len() {
                        lemma_chunk_facts(mem@, seg, s, j);
                        assert(s[j].addr + s[j].size <= s[k].addr);
                    }
                }
            }
        }
        a == c
    }

    /// Frees the payload at `ptr`. A null, misaligned or out-of-segment
    /// pointer, one naming an allocated header with an impossible size, or
    /// one whose header is not where a chunk starts (a pointer into a
    /// payload) is counted in `bad_free_count`; one naming a free chunk is
    /// counted in `double_free_count`; in all these cases nothing else
    /// changes. Otherwise the chunk is freed and coalesced with its free
    /// neighbours, its size returns to `free_bytes` and `alloc_count` drops
    /// by one. The payload words of every other allocated chunk are left as
    /// they were.
    #[verifier::rlimit(60)]
    pub fn dealloc(&mut self, mem: &mut Memory, ptr: usize)
        requires
            old(self).wf(old(mem)@),
            old(self).bad_free_count < u64::MAX,
            old(self).double_free_count < u64::MAX,
        ensures
            final(self).wf(final(mem)@),
            final(mem)@.dom() == old(mem)@.dom(),
            final(mem).size() == old(mem).size(),
            final(self).segments == old(self).segments,
            final(self).seg_count == old(self).seg_count,
            final(self).oom_count == old(self).oom_count,
            final(self).align_fail_count == old(self).align_fail_count,
            old(self).bad_free(old(mem)@, ptr as int) ==> {
                &&& final(self).bad_free_count == old(self).bad_free_count + 1
                &&& final(self).double_free_count == old(self).double_free_count
                &&& final(self).layout() == old(self).layout()
                &&& final(self).free_bytes == old(self).free_bytes
                &&& final(self).alloc_count == old(self).alloc_count
                &&& final(mem)@ == old(mem)@
            },
            old(self).double_free(old(mem)@, ptr as int) ==> {
                &&& final(self).double_free_count == old(self).double_free_count + 1
                &&& final(self).bad_free_count == old(self).bad_free_count
                &&& final(self).layout() == old(self).layout()
                &&& final(self).free_bytes == old(self).free_bytes
                &&& final(self).alloc_count == old(self).alloc_count
                &&& final(mem)@ == old(mem)@
            },
            !old(self).bad_free(old(mem)@, ptr as int) && !old(self).double_free(old(mem)@, ptr as int)
                && !old(self).is_live(ptr as int) ==> {
                &&& final(self).bad_free_count == old(self).bad_free_count + 1
                &&& final(self).double_free_count == old(self).double_free_count
                &&& final(self).layout() == old(self).layout()
                &&& final(self).free_bytes == old(self).free_bytes
                &&& final(self).alloc_count == old(self).alloc_count
                &&& final(mem)@ == old(mem)@
            },
            old(self).is_live(ptr as int) ==> exists|i: int, k: int|
                #[trigger] old(self).live_at(ptr as int, i, k) && {
                    let l = old(self).layout();
                    &&& final(self).layout() == l.update(i, coalesce(l[i], k))
                    &&& final(self).free_bytes == old(self).free_bytes + l[i][k].size
                    &&& final(self).alloc_count == old(self).alloc_count - 1
                    &&& final(self).bad_free_count == old(self).bad_free_count
                    &&& final(self).double_free_count == old(self).double_free_count
                    &&& payloads_kept_except(l, i, k, old(mem)@, final(mem)@)
                },
    {
        let ghost h0 = *self;
        proof {
            h0.lemma_free_classes(mem@, ptr as int);
            h0.lemma_fenced(mem@);
        }
        if ptr == 0 || ptr % CHUNK_ALIGN != 0 {
            self.bad_free_count = self.bad_free_count + 1;
            proof {
                lemma_wf_counters(h0, *self, mem@);
            }
            return;
        }
        let c = ptr - HEADER_SIZE;
        let seg_idx = match self.find_segment(c) {
            Some(i) => i,
            None => {
                self.bad_free_count = self.bad_free_count + 1;
                proof {
                    lemma_wf_counters(h0, *self, mem@);
                }
                return;
            },
        };
        proof {
            lemma_seg_facts(h0, mem@, seg_idx as int);
            assert(h0.in_chunk_area(c as int));
        }
        let cflags = flags_of(mem, c);
        proof {
            lemma_low_flags(hdr(mem@, c as int));
        }
        if cflags & IN_USE == 0 {
            self.double_free_count = self.double_free_count + 1;
            proof {
                lemma_wf_counters(h0, *self, mem@);
            }
            return;
        }
        let c_size = size_of(mem, c);
        if c_size % 16 != 0 || c_size < MIN_CHUNK as u64 {
            self.bad_free_count = self.bad_free_count + 1;
            proof {
                lemma_wf_counters(h0, *self, mem@);
            }
            return;
        }
        if !self.is_chunk_start(mem, seg_idx, c) {
            self.bad_free_count = self.bad_free_count + 1;
            proof {
                lemma_wf_counters(h0, *self, mem@);
                if h0.is_live(ptr as int) {
                    let (i, k) = choose|i: int, k: int| #[trigger] h0.live_at(ptr as int, i, k);
                    h0.lemma_live_segment(mem@, ptr as int, i, k, seg_idx as int);
                    assert(h0.layout()[seg_idx as int][k].addr == c);
                }
            }
            return;
        }
        proof {
            let k = choose|k: int|
                0 <= k < h0.layout()[seg_idx as int].len() && #[trigger] h0.layout()[seg_idx as int][k].addr == c;
            reveal(HeapCore::wf);
            lemma_chunk_facts(mem@, h0.segments@[seg_idx as int], h0.layout()[seg_idx as int], k);
            assert(h0.live_at(ptr as int, seg_idx as int, k));
        }
        let ghost (i, k) = choose|i: int, k: int| #[trigger] h0.live_at(ptr as int, i, k);
        proof {
            h0.lemma_live_segment(mem@, ptr as int, i, k, seg_idx as int);
            lemma_chunk_facts(mem@, h0.segments@[i], h0.layout()[i], k);
        }
        self.release(mem, seg_idx, c, c_size, cflags, Ghost(k));
    }
}

} // verus!
