//! Structural validation of the heap segments.
use vstd::prelude::*;
use super::layout::{ChunkV, EPILOGUE_SIZE, IN_USE, MAX_SEGMENTS, MIN_CHUNK, PREV_IN_USE, PROLOGUE_SIZE, SIZE_MASK, Segment, chunk_ok, flag_bits, flags_of, ftr, hdr, lemma_flag_bits, lemma_header_bits, prev_size_of, prev_used, seg_wf, size_of};
use super::memory::{Memory, covers};
use super::state::{HeapCore};

verus! {

// ── Structural check ─────────────────────────────────────────────────

/// The chunks met walking from `c` by their size fields up to `stop` are sane
/// (aligned sizes of at least `MIN_CHUNK`, tiling exactly up to `stop`), every
/// free chunk has a matching footer and an in-use successor that knows its
/// predecessor is free, and every allocated chunk's successor knows its
/// predecessor is allocated.
pub open spec fn walk_ok(m: Map<int, u64>, c: int, stop: int) -> bool
    decreases stop - c,
{
    if c >= stop {
        c == stop
    } else {
        let w = hdr(m, c);
        let sz = (w & SIZE_MASK) as int;
        let free = w & IN_USE == 0;
        let next = c + sz;
        if sz < MIN_CHUNK || sz % 16 != 0 || next > stop {
            false
        } else {
            let nw = hdr(m, next);
            let footer_ok = ftr(m, next) & SIZE_MASK == sz;
            let here_ok = if next < stop {
                if free {
                    footer_ok && nw & IN_USE != 0 && nw & PREV_IN_USE == 0
                } else {
                    nw & PREV_IN_USE != 0
                }
            } else {
                free ==> footer_ok && nw & PREV_IN_USE == 0
            };
            here_ok && walk_ok(m, next, stop)
        }
    }
}

/// Segment `seg` of `m` passes the structural check: live prologue fence, a
/// sane chunk walk ending exactly at the epilogue, live epilogue fence.
pub open spec fn seg_check(m: Map<int, u64>, seg: Segment) -> bool {
    let pro = hdr(m, seg.base as int);
    let epi = hdr(m, seg.end - EPILOGUE_SIZE);
    &&& pro & SIZE_MASK == PROLOGUE_SIZE
    &&& pro & 3 == 3
    &&& walk_ok(m, seg.base + PROLOGUE_SIZE, seg.end - EPILOGUE_SIZE)
    &&& epi & SIZE_MASK == EPILOGUE_SIZE
    &&& epi & IN_USE != 0
}

/// Segment `seg` lies inside `m`, with 16-aligned ends and room for both fences.
pub open spec fn seg_in_memory(m: Map<int, u64>, seg: Segment) -> bool {
    &&& seg.base % 16 == 0
    &&& seg.end % 16 == 0
    &&& seg.base + PROLOGUE_SIZE + EPILOGUE_SIZE <= seg.end
    &&& covers(m, seg.base as int, seg.end as int)
}

pub(crate) proof fn lemma_walk_from(m: Map<int, u64>, seg: Segment, s: Seq<ChunkV>, k: int)
    requires
        seg_wf(m, seg, s),
        0 <= k <= s.len(),
    ensures
        walk_ok(
            m,
            if k < s.len() { s[k].addr } else { seg.end - EPILOGUE_SIZE },
            seg.end - EPILOGUE_SIZE,
        ),
    decreases s.len() - k,
{
    reveal(chunk_ok);
    if k < s.len() {
        lemma_walk_from(m, seg, s, k + 1);
        assert(chunk_ok(m, seg, s, k));
        let c = s[k];
        lemma_flag_bits(c.used, prev_used(s, k));
        lemma_header_bits(c.size as u64, flag_bits(c.used, prev_used(s, k)), hdr(m, c.addr));
        let next = c.addr + c.size;
        if k + 1 < s.len() {
            assert(chunk_ok(m, seg, s, k + 1));
            let d = s[k + 1];
            lemma_flag_bits(d.used, prev_used(s, k + 1));
            lemma_header_bits(d.size as u64, flag_bits(d.used, prev_used(s, k + 1)), hdr(m, d.addr));
        } else {
            lemma_flag_bits(true, c.used);
            lemma_header_bits(16, flag_bits(true, c.used), hdr(m, next));
        }
        if !c.used {
            let x = c.size as u64;
            assert(x & SIZE_MASK == x) by (bit_vector)
                requires
                    x % 8 == 0,
            ;
        }
    }
}

/// Structural validation of one segment.
#[verifier::rlimit(30)]
pub fn check_segment(mem: &Memory, seg: Segment) -> (ok: bool)
    requires
        seg_in_memory(mem@, seg),
    ensures
        ok == seg_check(mem@, seg),
{
    let base = seg.base;
    let end = seg.end;
    let pro = base;
    proof {
        let w = hdr(mem@, base as int);
        assert((w & 7) & 3 == w & 3) by (bit_vector);
        assert(IN_USE | PREV_IN_USE == 3) by (bit_vector);
    }
    if size_of(mem, pro) != PROLOGUE_SIZE as u64 || flags_of(mem, pro) & (IN_USE | PREV_IN_USE) != (
    IN_USE | PREV_IN_USE) {
        return false;
    }
    let stop = end - EPILOGUE_SIZE;
    let mut c = base + PROLOGUE_SIZE;
    loop
        invariant
            seg_in_memory(mem@, seg),
            base == seg.base,
            end == seg.end,
            stop == end - EPILOGUE_SIZE,
            c % 16 == 0,
            base + PROLOGUE_SIZE <= c <= stop,
            hdr(mem@, base as int) & SIZE_MASK == PROLOGUE_SIZE,
            hdr(mem@, base as int) & 3 == 3,
            walk_ok(mem@, base + PROLOGUE_SIZE, stop as int) == walk_ok(mem@, c as int, stop as int),
        ensures
            c == stop,
            walk_ok(mem@, base + PROLOGUE_SIZE, stop as int),
        decreases stop - c,
    {
        if c >= stop {
            break;
        }
        let sz = size_of(mem, c);
        if sz < MIN_CHUNK as u64 || sz % 16 != 0 {
            proof {
                assert(!walk_ok(mem@, c as int, stop as int));
            }
            return false;
        }
        if sz > (stop - c) as u64 {
            proof {
                assert(!walk_ok(mem@, c as int, stop as int));
            }
            return false;
        }
        let cflags = flags_of(mem, c);
        let next = c + sz as usize;
        proof {
            let w = hdr(mem@, c as int);
            assert((w & 7) & 1 == w & 1) by (bit_vector);
        }
        if next < stop {
            let nflags = flags_of(mem, next);
            proof {
                let nw = hdr(mem@, next as int);
                assert((nw & 7) & 1 == nw & 1 && (nw & 7) & 2 == nw & 2) by (bit_vector);
            }
            if cflags & IN_USE == 0 {
                if prev_size_of(mem, next) != sz {
                    proof {
                        assert(!walk_ok(mem@, c as int, stop as int));
                    }
                    return false;
                }
                if nflags & IN_USE == 0 || nflags & PREV_IN_USE != 0 {
                    proof {
                        assert(!walk_ok(mem@, c as int, stop as int));
                    }
                    return false;
                }
            } else if nflags & PREV_IN_USE == 0 {
                proof {
                    assert(!walk_ok(mem@, c as int, stop as int));
                }
                return false;
            }
        } else if cflags & IN_USE == 0 {
            let nflags = flags_of(mem, next);
            proof {
                let nw = hdr(mem@, next as int);
                assert((nw & 7) & 2 == nw & 2) by (bit_vector);
            }
            if prev_size_of(mem, next) != sz || nflags & PREV_IN_USE != 0 {
                proof {
                    assert(!walk_ok(mem@, c as int, stop as int));
                }
                return false;
            }
        }
        c = next;
    }
    let epi = c;
    proof {
        let w = hdr(mem@, epi as int);
        assert((w & 7) & 1 == w & 1) by (bit_vector);
    }
    if size_of(mem, epi) != EPILOGUE_SIZE as u64 || flags_of(mem, epi) & IN_USE == 0 {
        return false;
    }
    true
}

impl HeapCore {
    /// Every installed segment lies inside memory `m`.
    pub open spec fn segments_in(&self, m: Map<int, u64>) -> bool {
        &&& self.seg_count <= MAX_SEGMENTS
        &&& forall|i: int| 0 <= i < self.seg_count ==> #[trigger] seg_in_memory(m, self.segments@[i])
    }

    /// Full structural validation of every segment; false on any violation.
    pub fn check_invariants(&self, mem: &Memory) -> (ok: bool)
        requires
            self.segments_in(mem@),
        ensures
            ok == forall|i: int| 0 <= i < self.seg_count ==> #[trigger] seg_check(mem@, self.segments@[i]),
    {
        let mut seg_idx: usize = 0;
        while seg_idx < self.seg_count
            invariant
                self.segments_in(mem@),
                seg_idx <= self.seg_count,
                forall|i: int| 0 <= i < seg_idx ==> #[trigger] seg_check(mem@, self.segments@[i]),
            decreases self.seg_count - seg_idx,
        {
            let seg = self.segments[seg_idx];
            assert(seg_in_memory(mem@, self.segments@[seg_idx as int]));
            if !check_segment(mem, seg) {
                return false;
            }
            seg_idx = seg_idx + 1;
        }
        true
    }

    /// A well-formed allocator passes its own structural check.
    pub proof fn lemma_wf_passes_check(&self, m: Map<int, u64>)
        requires
            self.wf(m),
        ensures
            self.segments_in(m),
            forall|i: int| 0 <= i < self.seg_count ==> #[trigger] seg_check(m, self.segments@[i]),
    {
        reveal(HeapCore::wf);
        assert forall|i: int| 0 <= i < self.seg_count implies #[trigger] seg_in_memory(m, self.segments@[i]) by {
            assert(seg_wf(m, self.segments@[i], self.layout()[i]));
        }
        assert forall|i: int| 0 <= i < self.seg_count implies #[trigger] seg_check(m, self.segments@[i]) by {
            let seg = self.segments@[i];
            let s = self.layout()[i];
            assert(seg_wf(m, seg, s));
            lemma_walk_from(m, seg, s, 0);
            lemma_flag_bits(true, true);
            lemma_header_bits(16, 3, hdr(m, seg.base as int));
            let pw = hdr(m, seg.base as int);
            assert(pw & 3 == 3) by (bit_vector)
                requires
                    pw == 19,
            ;
            lemma_flag_bits(true, s.last().used);
            lemma_header_bits(16, flag_bits(true, s.last().used), hdr(m, seg.end - 16));
        }
    }
}

} // verus!
