//! Heap allocator scenarios: arenas carved from one flat `Memory`, checked
//! against exact accounting, fence placement and payload canaries.

use lib::heap::{
    align_up, flags_of, prev_size_of, size_of, HeapCore, Memory, CHUNK_ALIGN, EPILOGUE_SIZE, IN_USE,
    MAX_SEGMENTS, MIN_CHUNK, PREV_IN_USE, PROLOGUE_SIZE,
};

const ARENA_SIZE: usize = 4 * 1024 * 1024;

/// Unused bytes kept before and after each arena.
const GAP: usize = 4096;

/// A region of the flat memory handed to the allocator.
struct Arena {
    base: usize,
    len: usize,
}

impl Arena {
    fn contains(&self, p: usize) -> bool {
        p >= self.base && p < self.base + self.len
    }
}

/// The flat memory and the next free place for an arena.
struct Space {
    mem: Memory,
    next: usize,
}

impl Space {
    fn new(total: usize) -> Self {
        Space { mem: Memory::new(total), next: GAP }
    }

    fn for_arenas(count: usize, len: usize) -> Self {
        Space::new(GAP + count * (len + GAP))
    }

    fn arena(&mut self, len: usize) -> Arena {
        let base = self.next;
        self.next = base + len + GAP;
        Arena { base, len }
    }

    fn heap(&mut self, arena: &Arena) -> HeapCore {
        let mut core = HeapCore::new();
        core.init_region(&mut self.mem, arena.base, arena.base + arena.len);
        core
    }
}

/// One arena of `len` bytes and a heap over it.
fn single(len: usize) -> (Space, Arena, HeapCore) {
    let mut space = Space::for_arenas(1, len);
    let arena = space.arena(len);
    let core = space.heap(&arena);
    (space, arena, core)
}

/// Deterministic PRNG (LCG, MMIX-style) for reproducible scenarios.
struct Lcg(u64);

impl Lcg {
    fn new(seed: u64) -> Self {
        Lcg(seed)
    }

    fn next(&mut self) -> u64 {
        self.0 = self.0.wrapping_mul(6364136223846793005).wrapping_add(1442695040888963407);
        self.0
    }

    fn below(&mut self, n: u64) -> u64 {
        self.next() % n
    }
}

/// Fills the payload at `ptr` with a pattern unique to (`ptr`, `seed`):
/// eight bytes per generator step, little-endian.
fn fill_canary(mem: &mut Memory, ptr: usize, size: usize, seed: u64) {
    let mut rng = Lcg::new((ptr as u64).wrapping_mul(0x9E3779B97F4A7C15).wrapping_add(seed));
    let mut off = 0;
    while off < size {
        let v = rng.next();
        let n = (size - off).min(8);
        if n == 8 && (ptr + off) % 8 == 0 {
            mem.write_word(ptr + off, v);
        } else {
            for i in 0..n {
                mem.write_byte(ptr + off + i, (v >> (8 * i)) as u8);
            }
        }
        off += 8;
    }
}

/// Whether the payload at `ptr` still holds its canary.
fn check_canary(mem: &Memory, ptr: usize, size: usize, seed: u64) -> bool {
    let mut rng = Lcg::new((ptr as u64).wrapping_mul(0x9E3779B97F4A7C15).wrapping_add(seed));
    let mut off = 0;
    while off < size {
        let v = rng.next();
        let n = (size - off).min(8);
        if n == 8 && (ptr + off) % 8 == 0 {
            if mem.read_word(ptr + off) != v {
                return false;
            }
        } else {
            for i in 0..n {
                if mem.read_byte(ptr + off + i) != (v >> (8 * i)) as u8 {
                    return false;
                }
            }
        }
        off += 8;
    }
    true
}


fn assert_invariants(core: &HeapCore, mem: &Memory) {
    assert!(core.check_invariants(mem), "heap invariant violation");
}

#[test]
fn init_region_creates_single_free_chunk() {
    let (space, arena, core) = single(ARENA_SIZE);
    assert_eq!(core.seg_count, 1);
    assert_eq!(core.segments[0].base, arena.base);
    assert_eq!(core.segments[0].end, arena.base + ARENA_SIZE);
    assert_eq!(core.free_bytes, ARENA_SIZE - 32);
    assert_eq!(core.alloc_count, 0);
    assert_invariants(&core, &space.mem);

    let c = arena.base + PROLOGUE_SIZE;
    assert_eq!(size_of(&space.mem, c) as usize, ARENA_SIZE - 32);
    assert_eq!(flags_of(&space.mem, c) & IN_USE, 0);
    assert_ne!(flags_of(&space.mem, c) & PREV_IN_USE, 0);
    assert_eq!(prev_size_of(&space.mem, arena.base + ARENA_SIZE - EPILOGUE_SIZE) as usize, ARENA_SIZE - 32);
}

#[test]
fn init_region_rejects_tiny_regions() {
    let mut space = Space::for_arenas(2, ARENA_SIZE);
    let a = space.arena(ARENA_SIZE);
    let b = space.arena(ARENA_SIZE);
    let mut core = HeapCore::new();
    core.init_region(&mut space.mem, a.base, a.base + 16);
    core.init_region(&mut space.mem, a.base, a.base + 63);
    core.init_region(&mut space.mem, a.base, a.base + 64);
    core.init_region(&mut space.mem, b.base + 1, b.base + 1000001);
    assert_eq!(core.seg_count, 2);
    let b_base = align_up(b.base + 1, CHUNK_ALIGN);
    let b_end = (b.base + 1000001) & !(CHUNK_ALIGN - 1);
    assert_eq!(core.free_bytes, 32 + (b_end - b_base - 32));
    assert_invariants(&core, &space.mem);
}

#[test]
fn segment_exhaustion_ignored() {
    let mut space = Space::for_arenas(MAX_SEGMENTS + 4, 0x80000);
    let mut core = HeapCore::new();
    for _ in 0..(MAX_SEGMENTS + 4) {
        let arena = space.arena(0x80000);
        core.init_region(&mut space.mem, arena.base, arena.base + arena.len);
    }
    assert_eq!(core.seg_count, MAX_SEGMENTS);
    assert_eq!(core.free_bytes, MAX_SEGMENTS * (0x80000 - 32));
    assert_invariants(&core, &space.mem);
}

#[test]
fn alloc_minimum_block() {
    let (mut space, arena, mut core) = single(ARENA_SIZE);
    let p = core.allocate(&mut space.mem, 1, 1);
    assert!(p != 0);
    assert!(arena.contains(p));
    assert_eq!(p % CHUNK_ALIGN, 0);
    assert_eq!(core.free_bytes, ARENA_SIZE - 32 - MIN_CHUNK);
    assert_eq!(core.alloc_count, 1);
    assert_invariants(&core, &space.mem);
    core.dealloc(&mut space.mem, p);
    assert_eq!(core.free_bytes, ARENA_SIZE - 32);
    assert_eq!(core.alloc_count, 0);
    assert_invariants(&core, &space.mem);
}

#[test]
fn alloc_payload_alignment() {
    let (mut space, _arena, mut core) = single(1 << 20);
    for align in [1usize, 2, 4, 8, 16] {
        let p = core.allocate(&mut space.mem, 7, align);
        assert!(p != 0);
        assert_eq!(p % align, 0);
        core.dealloc(&mut space.mem, p);
    }
    assert_eq!(core.alloc_count, 0);
    assert_eq!(core.free_bytes, (1 << 20) - 32);
    assert_invariants(&core, &space.mem);
}

#[test]
fn align_above_16_rejected() {
    let (mut space, _arena, mut core) = single(1 << 20);
    for align in [32usize, 64, 4096] {
        let before = core.align_fail_count;
        let p = core.allocate(&mut space.mem, 16, align);
        assert!(p == 0);
        assert_eq!(core.align_fail_count, before + 1);
    }
    assert_eq!(core.alloc_count, 0);
    assert_eq!(core.free_bytes, (1 << 20) - 32);
    assert_invariants(&core, &space.mem);
}

#[test]
fn zero_size_alloc_ok() {
    let (mut space, _arena, mut core) = single(1 << 20);
    let p = core.allocate(&mut space.mem, 0, 1);
    assert!(p != 0);
    assert_eq!(core.alloc_count, 1);
    core.dealloc(&mut space.mem, p);
    assert_eq!(core.alloc_count, 0);
    assert_eq!(core.free_bytes, (1 << 20) - 32);
    assert_invariants(&core, &space.mem);
}

#[test]
fn overflow_size_returns_null_no_panic() {
    let (mut space, _arena, mut core) = single(1 << 20);
    let p = core.allocate(&mut space.mem, isize::MAX as usize & !7, 8);
    assert!(p == 0);
    assert_eq!(core.alloc_count, 0);
    assert_eq!(core.oom_count, 1, "legit exhaustion is counted as OOM");
    assert_invariants(&core, &space.mem);
}

#[test]
fn oom_when_exhausted_then_recovery() {
    let (mut space, arena, mut core) = single(1 << 20);
    let mut ptrs = Vec::new();
    loop {
        let p = core.allocate(&mut space.mem, MIN_CHUNK - 16, 1);
        if p == 0 {
            break;
        }
        assert!(arena.contains(p));
        assert_eq!(p % CHUNK_ALIGN, 0);
        ptrs.push(p);
        assert_invariants(&core, &space.mem);
    }
    assert!(ptrs.len() * MIN_CHUNK >= (1 << 20) - 0x1000);
    assert_eq!(core.free_bytes, 0);
    assert_eq!(core.oom_count, 1);
    for p in &ptrs {
        let a = *p;
        assert!(a >= arena.base + PROLOGUE_SIZE + CHUNK_ALIGN);
        assert!(a < arena.base + (1 << 20) - EPILOGUE_SIZE);
        assert_eq!((a - PROLOGUE_SIZE - arena.base) % CHUNK_ALIGN, 0);
    }
    for (i, p) in ptrs.iter().enumerate() {
        if i % 2 == 0 {
            core.dealloc(&mut space.mem, *p);
        }
    }
    let p = core.allocate(&mut space.mem, MIN_CHUNK - 16, 1);
    assert!(p != 0, "holes not reused after partial free");
    core.dealloc(&mut space.mem, p);
    for (i, p) in ptrs.iter().enumerate() {
        if i % 2 == 1 {
            core.dealloc(&mut space.mem, *p);
        }
    }
    assert_eq!(core.free_bytes, (1 << 20) - 32);
    assert_eq!(core.alloc_count, 0);
    assert_invariants(&core, &space.mem);
}

#[test]
fn split_and_recoalesce_roundtrip() {
    let (mut space, _arena, mut core) = single(1 << 20);
    let big = core.allocate(&mut space.mem, 1000, 8);
    assert!(big != 0);
    assert_eq!(core.free_bytes, (1 << 20) - 32 - 1024);
    assert_invariants(&core, &space.mem);

    let small = core.allocate(&mut space.mem, 8, 8);
    assert!(small != 0);
    assert_eq!(core.free_bytes, (1 << 20) - 32 - 1024 - MIN_CHUNK);
    assert_invariants(&core, &space.mem);

    core.dealloc(&mut space.mem, small);
    core.dealloc(&mut space.mem, big);
    assert_eq!(core.free_bytes, (1 << 20) - 32);
    assert_eq!(core.alloc_count, 0);
    assert_invariants(&core, &space.mem);
}

#[test]
fn free_out_of_order_recoalesces() {
    let (mut space, _arena, mut core) = single(1 << 20);
    let mut allocs: Vec<usize> = Vec::new();
    let mut rng = Lcg::new(0xDEADBEEF);
    for _ in 0..64 {
        let size = 16 + rng.below(256) as usize * 16;
        let p = core.allocate(&mut space.mem, size, 16);
        assert!(p != 0);
        allocs.push(p);
    }
    let mut order: Vec<usize> = (0..allocs.len()).collect();
    for i in (1..order.len()).rev() {
        let j = rng.below(i as u64 + 1) as usize;
        order.swap(i, j);
    }
    for i in order {
        core.dealloc(&mut space.mem, allocs[i]);
    }
    assert_eq!(core.free_bytes, (1 << 20) - 32, "freed bytes must return exactly");
    assert_eq!(core.alloc_count, 0);
    assert_eq!(core.double_free_count, 0);
    assert_invariants(&core, &space.mem);
}

#[test]
fn middle_free_creates_hole_then_reused() {
    let (mut space, _arena, mut core) = single(1 << 20);
    let a = core.allocate(&mut space.mem, 128, 16);
    let b = core.allocate(&mut space.mem, 128, 16);
    let c = core.allocate(&mut space.mem, 128, 16);
    assert!(a < b && b < c, "first-fit must lay out monotonically");
    core.dealloc(&mut space.mem, b);
    let b2 = core.allocate(&mut space.mem, 128, 16);
    assert_eq!(b2, b, "hole was not reused");
    core.dealloc(&mut space.mem, a);
    core.dealloc(&mut space.mem, b2);
    core.dealloc(&mut space.mem, c);
    assert_eq!(core.free_bytes, (1 << 20) - 32);
    assert_invariants(&core, &space.mem);
}

#[test]
fn adjacent_free_chunks_never_coexist() {
    let (mut space, _arena, mut core) = single(1 << 20);
    let mut ptrs = Vec::new();
    for _ in 0..48 {
        let p = core.allocate(&mut space.mem, 64, 16);
        assert!(p != 0);
        ptrs.push(p);
    }
    for round in 0..6 {
        for (i, p) in ptrs.iter().enumerate() {
            if (i + round) % 3 == 0 {
                core.dealloc(&mut space.mem, *p);
            }
        }
        assert_invariants(&core, &space.mem);
    }
    for p in &ptrs {
        core.dealloc(&mut space.mem, *p);
    }
    assert_eq!(core.free_bytes, (1 << 20) - 32);
    assert_eq!(core.alloc_count, 0);
    assert_invariants(&core, &space.mem);
}

#[test]
fn double_free_detected() {
    let (mut space, _arena, mut core) = single(1 << 20);
    let p = core.allocate(&mut space.mem, 32, 16);
    core.dealloc(&mut space.mem, p);
    let before = core.free_bytes;
    core.dealloc(&mut space.mem, p);
    assert_eq!(core.double_free_count, 1);
    assert_eq!(core.free_bytes, before, "double free must not corrupt accounting");
    assert_eq!(core.alloc_count, 0);
    assert_invariants(&core, &space.mem);
}

#[test]
fn bogus_frees_detected() {
    const M: usize = 1 << 20;
    let (mut space, arena, mut core) = single(M);
    let p = core.allocate(&mut space.mem, 32, 16);

    core.dealloc(&mut space.mem, 0);
    core.dealloc(&mut space.mem, p + 1);
    core.dealloc(&mut space.mem, arena.base + 2);
    core.dealloc(&mut space.mem, arena.base);
    core.dealloc(&mut space.mem, arena.base + 16);
    core.dealloc(&mut space.mem, arena.base + M - EPILOGUE_SIZE);
    core.dealloc(&mut space.mem, arena.base + M);
    core.dealloc(&mut space.mem, arena.base + M - 32);
    core.dealloc(&mut space.mem, arena.base + PROLOGUE_SIZE + 32);
    let bad = core.bad_free_count;
    assert_eq!(core.double_free_count, 3);
    assert_eq!(core.alloc_count, 1, "live allocation must survive bogus frees");
    assert_eq!(core.free_bytes, M - 32 - 48, "bogus frees must not touch accounting (bad={})", bad);
    assert_eq!(bad, 6);

    core.dealloc(&mut space.mem, p);
    assert_eq!(core.alloc_count, 0);
    assert_eq!(core.free_bytes, M - 32);
    assert_invariants(&core, &space.mem);
}

#[test]
fn payload_canaries_survive_neighboring_allocations() {
    let (mut space, _arena, mut core) = single(1 << 20);
    let mut seeded: Vec<(usize, usize, u64)> = Vec::new();
    let mut rng = Lcg::new(0xF00D);
    for _ in 0..200 {
        let size = (8 + rng.below(8) * 16) as usize;
        let seed = rng.next();
        let p = core.allocate(&mut space.mem, size, 16);
        assert!(p != 0);
        fill_canary(&mut space.mem, p, size, seed);
        seeded.push((p, size, seed));
    }
    for _ in 0..500 {
        let size = (8 + rng.below(16) * 16) as usize;
        let p = core.allocate(&mut space.mem, size, 16);
        assert!(p != 0);
        let s = rng.next();
        fill_canary(&mut space.mem, p, size, s);
        core.dealloc(&mut space.mem, p);
    }
    for &(p, size, seed) in &seeded {
        assert!(check_canary(&space.mem, p, size, seed), "payload corrupted by overlapping allocation");
    }
    for &(p, _, _) in &seeded {
        core.dealloc(&mut space.mem, p);
    }
    assert_eq!(core.free_bytes, (1 << 20) - 32);
    assert_invariants(&core, &space.mem);
}

struct Live {
    ptr: usize,
    size: usize,
    seed: u64,
}


fn stress(core: &mut HeapCore, mem: &mut Memory, rng: &mut Lcg, iterations: usize, arena: &Arena) {
    let mut live: Vec<Live> = Vec::new();
    let mut oom = 0u64;
    let mut max_live = 0usize;

    for it in 0..iterations {
        let balance: u64 = (live.len() as u64).min(2000);
        let r = rng.below(100);
        let do_free = !live.is_empty() && (r < 30 || balance > 1500);
        if do_free {
            let idx = rng.below(live.len() as u64) as usize;
            let alloc = &live[idx];
            assert!(
                check_canary(mem, alloc.ptr, alloc.size, alloc.seed),
                "canary corruption before free (ptr={:x})",
                alloc.ptr
            );
            core.dealloc(mem, alloc.ptr);
            live.swap_remove(idx);
        } else {
            let size = match rng.below(10) {
                0..=5 => 1 + rng.below(256) as usize,
                6..=7 => 1 + rng.below(4096) as usize,
                _ => 1 + rng.below(65536) as usize,
            };
            let align = [1usize, 2, 4, 8, 16][rng.below(5) as usize];
            let p = core.allocate(mem, size, align);
            let seed = rng.next();
            if p == 0 {
                oom += 1;
                continue;
            }
            assert!(arena.contains(p));
            assert_eq!(p % align, 0, "alignment violated");
            fill_canary(mem, p, size, seed);
            live.push(Live { ptr: p, size, seed });
        }
        max_live = max_live.max(live.len());
        if it % 4096 == 0 {
            assert_invariants(core, mem);
        }
    }
    assert_invariants(core, mem);
    for alloc in &live {
        assert!(
            check_canary(mem, alloc.ptr, alloc.size, alloc.seed),
            "canary corruption at final sweep (ptr={:x})",
            alloc.ptr
        );
        core.dealloc(mem, alloc.ptr);
    }
    let total: usize = core.segments[..core.seg_count].iter().map(|s| s.end - s.base - 32).sum();
    assert_eq!(
        core.free_bytes, total,
        "leak: free bytes did not return to the initial total (peak live={}, oom={})",
        max_live, oom
    );
    assert_eq!(core.alloc_count, 0);
    assert_eq!(core.double_free_count, 0);
    assert_eq!(core.bad_free_count, 0);
}

#[test]
fn randomized_stress_bounded() {
    for seed in [1u64, 2, 0x12345678, 0xDEADBEEF, 0xFFFF_FFFF_FFFF_FFFF] {
        let (mut space, arena, mut core) = single(ARENA_SIZE);
        let mut rng = Lcg::new(seed);
        stress(&mut core, &mut space.mem, &mut rng, 200_000, &arena);
        assert_invariants(&core, &space.mem);
    }
}

#[test]
fn tiny_block_fragmentation_storm() {
    let (mut space, _arena, mut core) = single(1 << 20);
    let mut live: Vec<usize> = Vec::new();
    loop {
        let p = core.allocate(&mut space.mem, 2, 2);
        if p == 0 {
            break;
        }
        live.push(p);
    }
    assert_eq!(core.free_bytes, 0);
    for round in 0..3 {
        for (i, p) in live.iter().enumerate() {
            if (i + round) % 2 == 0 {
                core.dealloc(&mut space.mem, *p);
            }
        }
        let mut count = 0;
        loop {
            let p = core.allocate(&mut space.mem, 2, 2);
            if p == 0 {
                break;
            }
            count += 1;
        }
        assert!(count > 0, "round {}: could not refill holes", round);
        assert_invariants(&core, &space.mem);
    }
    for p in &live {
        core.dealloc(&mut space.mem, *p);
    }
    assert_eq!(core.free_bytes, (1 << 20) - 32, "storm left fragmentation behind");
    assert_eq!(core.alloc_count, 0);
    assert_invariants(&core, &space.mem);
}

#[test]
fn multi_segment_roundtrip() {
    let mut space = Space::for_arenas(2, 1 << 20);
    let a = space.arena(1 << 20);
    let b = space.arena(1 << 20);
    let mut core = HeapCore::new();
    core.init_region(&mut space.mem, a.base, a.base + a.len);
    core.init_region(&mut space.mem, b.base, b.base + b.len);
    assert_eq!(core.seg_count, 2);
    assert_eq!(core.free_bytes, 2 * ((1 << 20) - 32));

    let mut ptrs = Vec::new();
    let mut rng = Lcg::new(0xABCD);
    for _ in 0..2000 {
        let size = (8 + rng.below(50) * 16) as usize;
        let p = core.allocate(&mut space.mem, size, 8);
        assert!(p != 0);
        assert!(a.contains(p) || b.contains(p));
        ptrs.push(p);
    }
    assert_invariants(&core, &space.mem);
    for (i, p) in ptrs.iter().enumerate() {
        if i % 2 == 0 {
            core.dealloc(&mut space.mem, *p);
        }
    }
    assert_invariants(&core, &space.mem);
    for (i, p) in ptrs.iter().enumerate() {
        if i % 2 == 1 {
            core.dealloc(&mut space.mem, *p);
        }
    }
    assert_eq!(core.free_bytes, 2 * ((1 << 20) - 32));
    assert_eq!(core.alloc_count, 0);
    assert_invariants(&core, &space.mem);
}

#[test]
fn full_fill_preserves_fences() {
    let (mut space, arena, mut core) = single(1 << 20);
    loop {
        let p = core.allocate(&mut space.mem, MIN_CHUNK - 16, 8);
        if p == 0 {
            break;
        }
        fill_canary(&mut space.mem, p, MIN_CHUNK - 16, 0x7777);
        assert!(check_canary(&space.mem, p, MIN_CHUNK - 16, 0x7777), "washer broke on freshly allocated block");
        assert!(p >= arena.base + PROLOGUE_SIZE + CHUNK_ALIGN);
        assert!(p < arena.base + (1 << 20) - EPILOGUE_SIZE);
    }
    assert_invariants(&core, &space.mem);
}

#[test]
fn freed_memory_is_reused() {
    let (mut space, _arena, mut core) = single(64 * 1024);
    let a = core.allocate(&mut space.mem, 100, 16);
    let b = core.allocate(&mut space.mem, 100, 16);
    assert_ne!(a, 0);
    assert_ne!(b, 0);
    core.dealloc(&mut space.mem, a);
    let c = core.allocate(&mut space.mem, 100, 16);
    assert_eq!(c, a);
    assert_invariants(&core, &space.mem);
}

#[test]
fn freeing_everything_restores_initial_state() {
    let (mut space, arena, mut core) = single(64 * 1024);
    let initial = core.free_bytes;
    let mut ptrs = Vec::new();
    for size in [24usize, 200, 7, 1000, 64] {
        let p = core.allocate(&mut space.mem, size, 16);
        assert_ne!(p, 0);
        ptrs.push(p);
    }
    for &p in ptrs.iter().rev().step_by(2) {
        core.dealloc(&mut space.mem, p);
    }
    for &p in ptrs.iter().rev().skip(1).step_by(2) {
        core.dealloc(&mut space.mem, p);
    }
    assert_eq!(core.alloc_count, 0);
    assert_eq!(core.free_bytes, initial);
    let c = arena.base + PROLOGUE_SIZE;
    assert_eq!(size_of(&space.mem, c) as usize, 64 * 1024 - 32);
    assert_eq!(flags_of(&space.mem, c) & IN_USE, 0);
    assert_invariants(&core, &space.mem);
}

#[test]
fn free_inside_a_payload_is_a_bad_free() {
    let (mut space, _arena, mut core) = single(64 * 1024);
    let p = core.allocate(&mut space.mem, 256, 16);
    let q = core.allocate(&mut space.mem, 32, 16);
    // A payload word that looks like an allocated header of valid size.
    space.mem.write_word(p + 64 + 8, 48 | 3);
    let free_before = core.free_bytes;
    core.dealloc(&mut space.mem, p + 80);
    assert_eq!(core.bad_free_count, 1);
    assert_eq!(core.double_free_count, 0);
    assert_eq!(core.alloc_count, 2);
    assert_eq!(core.free_bytes, free_before);
    core.dealloc(&mut space.mem, q);
    core.dealloc(&mut space.mem, p);
    assert_eq!(core.alloc_count, 0);
    assert_invariants(&core, &space.mem);
}
