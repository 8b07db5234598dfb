//! Allocator state, its well-formedness, and segment installation.
use vstd::prelude::*;
use vstd::arithmetic::power2::pow2;
use super::layout::{CHUNK_ALIGN, changed_only, ChunkV, EPILOGUE_SIZE, IN_USE, MAX_SEGMENTS, MIN_CHUNK, PREV_IN_USE, PROLOGUE_SIZE, SIZE_MASK, Segment, align_up, chunk_ok, flag_bits, free_val, ftr, hdr, is_pow2, layout_sum, lemma_chunk_sum_single, lemma_flag_bits, lemma_header_bits, lemma_layout_sum_free_le_size, lemma_layout_sum_push, lemma_seg_wf_frame, lemma_span_sum_prefix, prev_used, round_up, seg_wf, set_header, set_prev_size, size_val, span_sum, used_val};
use super::memory::{Memory, covers};

verus! {

// ── Allocator state ──────────────────────────────────────────────────

/// Allocator state. All exec fields are public so diagnostics can inspect them.
pub struct HeapCore {
    pub segments: [Segment; 16],
    pub seg_count: usize,
    pub free_bytes: usize,
    pub alloc_count: u64,
    pub oom_count: u64,
    pub align_fail_count: u64,
    pub bad_free_count: u64,
    pub double_free_count: u64,
    pub chunks: Ghost<Seq<Seq<ChunkV>>>,
}

impl HeapCore {
    /// The chunk layout of every installed segment, in segment order.
    pub open spec fn layout(&self) -> Seq<Seq<ChunkV>> {
        self.chunks@
    }

    /// Total usable bytes of the installed segments.
    pub open spec fn capacity(&self) -> int {
        span_sum(self.segments@, self.seg_count as int)
    }

    /// Well-formedness of the allocator against memory `m`.
    #[verifier::opaque]
    pub open spec fn wf(&self, m: Map<int, u64>) -> bool {
        let l = self.layout();
        &&& self.seg_count <= MAX_SEGMENTS
        &&& l.len() == self.seg_count
        &&& forall|i: int| 0 <= i < self.seg_count ==> #[trigger] seg_wf(m, self.segments@[i], l[i])
        &&& forall|i: int, j: int|
            0 <= i < self.seg_count && 0 <= j < self.seg_count && i != j
                ==> #[trigger] self.segments@[i].end <= #[trigger] self.segments@[j].base
                || self.segments@[j].end <= self.segments@[i].base
        &&& self.free_bytes == layout_sum(l, free_val())
        &&& self.alloc_count == layout_sum(l, used_val())
        &&& layout_sum(l, size_val()) == self.capacity()
        &&& self.capacity() <= usize::MAX
    }

    /// An allocator with no segments.
    pub fn new() -> (h: Self)
        ensures
            forall|m: Map<int, u64>| #[trigger] h.wf(m),
            h.seg_count == 0,
            h.free_bytes == 0,
            h.alloc_count == 0,
            h.oom_count == 0,
            h.align_fail_count == 0,
            h.bad_free_count == 0,
            h.double_free_count == 0,
            h.layout() == Seq::<Seq<ChunkV>>::empty(),
    {
        let h = HeapCore {
            segments: [Segment { base: 0, end: 0 }; 16],
            seg_count: 0,
            free_bytes: 0,
            alloc_count: 0,
            oom_count: 0,
            align_fail_count: 0,
            bad_free_count: 0,
            double_free_count: 0,
            chunks: Ghost(Seq::empty()),
        };
        proof {
            reveal(HeapCore::wf);
        }
        h
    }
}

/// Start of the region `[base, end)` once aligned.
pub open spec fn region_base(base: int) -> int {
    round_up(base, 16)
}

/// End of the region `[base, end)` once aligned.
pub open spec fn region_end(end: int) -> int {
    end - end % 16
}


impl HeapCore {
    pub(crate) proof fn lemma_free_le_capacity(&self, m: Map<int, u64>)
        requires
            self.wf(m),
        ensures
            self.free_bytes <= self.capacity(),
    {
        reveal(HeapCore::wf);
        let l = self.layout();
        assert forall|i: int, k: int| 0 <= i < l.len() && 0 <= k < l[i].len() implies l[i][k].size
            >= 0 by {
            reveal(chunk_ok);
            assert(seg_wf(m, self.segments@[i], l[i]));
            assert(chunk_ok(m, self.segments@[i], l[i], k));
        }
        lemma_layout_sum_free_le_size(l);
    }
}

/// The words `init_region` writes for the segment `[b, e)`: the headers of
/// the prologue, of the free chunk and of the epilogue, and the free chunk's
/// size in the epilogue's prev_size word.
pub open spec fn init_writes(b: int, e: int) -> Set<int> {
    set![b + 8, b + 24, e - 16, e - 8]
}

pub(crate) proof fn lemma_init_region_wf(old_h: HeapCore, h: HeapCore, m0: Map<int, u64>, m: Map<int, u64>, chunk: ChunkV)
    requires
        old_h.wf(m0),
        old_h.seg_count < MAX_SEGMENTS,
        h.seg_count == old_h.seg_count + 1,
        ({
            let seg = h.segments@[old_h.seg_count as int];
            &&& seg.base % 16 == 0
            &&& seg.end % 16 == 0
            &&& seg.base + 64 <= seg.end
            &&& covers(m0, seg.base as int, seg.end as int)
            &&& chunk == ChunkV { addr: seg.base + 16, size: seg.end - seg.base - 32, used: false }
            &&& m.dom() == m0.dom()
            &&& forall|a: int| !(seg.base <= a < seg.end) ==> #[trigger] m[a] == m0[a]
            &&& hdr(m, seg.base as int) == 19
            &&& hdr(m, seg.base + 16) == chunk.size + 2
            &&& ftr(m, seg.end - 16) == chunk.size
            &&& hdr(m, seg.end - 16) == 17
            &&& forall|i: int|
                0 <= i < old_h.seg_count ==> #[trigger] old_h.segments@[i].end <= seg.base
                    || seg.end <= old_h.segments@[i].base
            &&& old_h.capacity() + chunk.size <= usize::MAX
        }),
        forall|i: int| 0 <= i < old_h.seg_count ==> h.segments@[i] == old_h.segments@[i],
        h.layout() == old_h.layout().push(seq![chunk]),
        h.free_bytes == old_h.free_bytes + chunk.size,
        h.alloc_count == old_h.alloc_count,
    ensures
        h.wf(m),
{
    reveal(HeapCore::wf);
    let n = old_h.seg_count as int;
    let seg = h.segments@[n];
    let s = seq![chunk];
    lemma_flag_bits(true, true);
    lemma_flag_bits(false, true);
    lemma_flag_bits(true, false);
    assert(chunk_ok(m, seg, s, 0)) by {
        reveal(chunk_ok);
    }
    assert(seg_wf(m, seg, s));
    assert forall|i: int| 0 <= i < h.seg_count implies #[trigger] seg_wf(
        m,
        h.segments@[i],
        h.layout()[i],
    ) by {
        if i < n {
            let si = old_h.segments@[i];
            assert(seg_wf(m0, si, old_h.layout()[i]));
            assert(si.end <= seg.base || seg.end <= si.base);
            assert forall|a: int| si.base <= a < si.end implies #[trigger] m0[a] == m[a] by {
            }
            lemma_seg_wf_frame(m0, m, si, old_h.layout()[i]);
        }
    }
    lemma_layout_sum_push(old_h.layout(), s, free_val());
    lemma_layout_sum_push(old_h.layout(), s, used_val());
    lemma_layout_sum_push(old_h.layout(), s, size_val());
    lemma_chunk_sum_single(chunk, free_val());
    lemma_chunk_sum_single(chunk, used_val());
    lemma_chunk_sum_single(chunk, size_val());
    lemma_span_sum_prefix(old_h.segments@, h.segments@, n);
}

impl HeapCore {
    /// `init_region(base, end)` installs a new segment.
    pub open spec fn region_accepted(&self, base: int, end: int) -> bool {
        self.seg_count < MAX_SEGMENTS
            && region_base(base) + MIN_CHUNK + PROLOGUE_SIZE + EPILOGUE_SIZE <= region_end(end)
    }

    /// Installs the region `[base, end)` (ends aligned inwards to 16 bytes) as
    /// a new heap segment: prologue + one free chunk + epilogue. Ignored when
    /// all segment slots are taken or the aligned region is smaller than the
    /// fences plus one minimal chunk.
    #[verifier::rlimit(100)]
    pub fn init_region(&mut self, mem: &mut Memory, base: usize, end: usize)
        requires
            old(self).wf(old(mem)@),
            base + CHUNK_ALIGN + MIN_CHUNK + PROLOGUE_SIZE + EPILOGUE_SIZE <= usize::MAX,
            old(self).region_accepted(base as int, end as int) ==> {
                &&& covers(old(mem)@, region_base(base as int), region_end(end as int))
                &&& old(self).capacity() + (region_end(end as int) - region_base(base as int)) <= usize::MAX
                &&& forall|i: int|
                    0 <= i < old(self).seg_count ==> #[trigger] old(self).segments@[i].end
                        <= region_base(base as int) || region_end(end as int)
                        <= old(self).segments@[i].base
            },
        ensures
            final(self).wf(final(mem)@),
            final(mem)@.dom() == old(mem)@.dom(),
            final(mem).size() == old(mem).size(),
            final(self).oom_count == old(self).oom_count,
            final(self).align_fail_count == old(self).align_fail_count,
            final(self).bad_free_count == old(self).bad_free_count,
            final(self).double_free_count == old(self).double_free_count,
            final(self).alloc_count == old(self).alloc_count,
            !old(self).region_accepted(base as int, end as int) ==> {
                &&& *final(self) == *old(self)
                &&& final(mem)@ == old(mem)@
            },
            old(self).region_accepted(base as int, end as int) ==> {
                let b = region_base(base as int);
                let e = region_end(end as int);
                &&& final(self).seg_count == old(self).seg_count + 1
                &&& final(self).segments@[old(self).seg_count as int] == (Segment {
                    base: b as usize,
                    end: e as usize,
                })
                &&& forall|i: int|
                    0 <= i < old(self).seg_count ==> final(self).segments@[i]
                        == old(self).segments@[i]
                &&& final(self).free_bytes == old(self).free_bytes + (e - b - PROLOGUE_SIZE
                    - EPILOGUE_SIZE)
                &&& final(self).layout() == old(self).layout().push(
                    seq![ChunkV { addr: b + PROLOGUE_SIZE, size: e - b - PROLOGUE_SIZE - EPILOGUE_SIZE, used: false }],
                )
                &&& forall|a: int| !(b <= a < e) ==> #[trigger] final(mem)@[a] == old(mem)@[a]
                &&& changed_only(old(mem)@, final(mem)@, init_writes(b, e))
            },
    {
        if self.seg_count >= MAX_SEGMENTS {
            return;
        }
        proof {
            assert(is_pow2(16)) by {
                vstd::arithmetic::power2::lemma2_to64();
                assert(pow2(4) == 16);
            }
        }
        let raw_end = end;
        let base = align_up(base, CHUNK_ALIGN);
        let end = end & !(CHUNK_ALIGN - 1);
        proof {
            assert(end == raw_end - raw_end % 16) by (bit_vector)
                requires
                    end == raw_end & !15usize,
            ;
        }
        if end < base + MIN_CHUNK + PROLOGUE_SIZE + EPILOGUE_SIZE {
            return;
        }
        let free_size = end - base - PROLOGUE_SIZE - EPILOGUE_SIZE;
        proof {
            self.lemma_free_le_capacity(mem@);
        }
        let ghost m0 = mem@;
        let ghost old_self = *self;

        set_header(mem, base, PROLOGUE_SIZE as u64, IN_USE | PREV_IN_USE);
        set_header(mem, base + PROLOGUE_SIZE, free_size as u64, PREV_IN_USE);
        set_prev_size(mem, end - EPILOGUE_SIZE, free_size as u64);
        set_header(mem, end - EPILOGUE_SIZE, EPILOGUE_SIZE as u64, IN_USE);
        proof {
            let m = mem@;
            assert(3u64 == 1u64 | 2u64) by (bit_vector);
            lemma_header_bits(16, 3, 19);
            lemma_header_bits(free_size as u64, 2, (free_size + 2) as u64);
            lemma_header_bits(16, 1, 17);
            assert(hdr(m, base as int) == 19);
            assert(hdr(m, base + 16) == free_size + 2);
            assert(ftr(m, end - 16) == free_size);
            assert(hdr(m, end - 16) == 17);
        }

        let idx = self.seg_count;
        self.segments[idx] = Segment { base, end };
        self.seg_count = idx + 1;
        self.free_bytes = self.free_bytes + free_size;
        let ghost chunk = ChunkV { addr: base + PROLOGUE_SIZE, size: free_size as int, used: false };
        proof {
            self.chunks = Ghost(old_self.layout().push(seq![chunk]));
            lemma_init_region_wf(old_self, *self, m0, mem@, chunk);
        }
    }
}

pub(crate) proof fn lemma_wf_basic(h: HeapCore, m: Map<int, u64>)
    requires
        h.wf(m),
    ensures
        h.seg_count <= MAX_SEGMENTS,
        h.layout().len() == h.seg_count,
        h.free_bytes == layout_sum(h.layout(), free_val()),
        h.alloc_count == layout_sum(h.layout(), used_val()),
{
    reveal(HeapCore::wf);
}

/// Well-formedness does not depend on the failure counters.
pub(crate) proof fn lemma_wf_counters(h: HeapCore, h2: HeapCore, m: Map<int, u64>)
    requires
        h.wf(m),
        h2.segments == h.segments,
        h2.seg_count == h.seg_count,
        h2.free_bytes == h.free_bytes,
        h2.alloc_count == h.alloc_count,
        h2.layout() == h.layout(),
    ensures
        h2.wf(m),
{
    reveal(HeapCore::wf);
}

pub(crate) proof fn lemma_seg_facts(h: HeapCore, m: Map<int, u64>, i: int)
    requires
        h.wf(m),
        0 <= i < h.seg_count,
    ensures
        seg_wf(m, h.segments@[i], h.layout()[i]),
        h.layout().len() == h.seg_count,
        h.segments@[i].end <= usize::MAX,
{
    reveal(HeapCore::wf);
}

pub(crate) proof fn lemma_chunk_facts(m: Map<int, u64>, seg: Segment, s: Seq<ChunkV>, k: int)
    requires
        seg_wf(m, seg, s),
        0 <= k < s.len(),
    ensures
        ({
            let c = s[k];
            &&& hdr(m, c.addr) & SIZE_MASK == c.size
            &&& (hdr(m, c.addr) & 7) & IN_USE == (if c.used { 1u64 } else { 0u64 })
            &&& c.size % 16 == 0
            &&& c.size >= MIN_CHUNK
            &&& c.addr % 16 == 0
            &&& seg.base + 16 <= c.addr
            &&& c.addr + c.size <= seg.end - 16
            &&& k + 1 < s.len() ==> s[k + 1].addr == c.addr + c.size
            &&& k + 1 == s.len() ==> c.addr + c.size == seg.end - 16
            &&& m.dom().contains(c.addr + 8)
        }),
{
    reveal(chunk_ok);
    assert(chunk_ok(m, seg, s, k));
    let c = s[k];
    let f = flag_bits(c.used, prev_used(s, k));
    lemma_flag_bits(c.used, prev_used(s, k));
    lemma_header_bits(c.size as u64, f, hdr(m, c.addr));
    let w = hdr(m, c.addr);
    assert((w & 7) & 1 == w & 1) by (bit_vector);
}

} // verus!
