//! The kernel heap behind a lock: interrupt state saved by the lock, and
//! the failure reports of the global allocator.
use vstd::prelude::*;
use crate::heap::{HeapCore, Memory, CHUNK_ALIGN, HEADER_SIZE};
use crate::heap::carve::{first_fit, needed_size, no_fit, request_overflows, take_chunk, take_writes, taken_bytes};
use crate::heap::coalesce::coalesce;
use crate::heap::layout::{changed_only, payloads_kept};
use crate::heap::release::payloads_kept_except;

verus! {

/// Base of the kernel heap region.
pub const HEAP_BASE: usize = 0x200000;
/// End of the kernel heap region.
pub const HEAP_END: usize = 0x600000;

/// A spin lock that also remembers whether interrupts were enabled when it
/// was taken (they stay disabled while it is held).
pub struct SpinLock {
    pub locked: bool,
    pub saved_if: bool,
}

impl SpinLock {
    /// A free lock.
    pub fn new() -> (l: Self)
        ensures
            !l.locked,
            l.saved_if,
    {
        SpinLock { locked: false, saved_if: true }
    }

    /// Takes the lock, remembering the interrupt flag `if_set` the caller
    /// read before disabling interrupts.
    pub fn lock(&mut self, if_set: bool)
        requires
            !old(self).locked,
        ensures
            final(self).locked,
            final(self).saved_if == if_set,
    {
        self.saved_if = if_set;
        self.locked = true;
    }

    /// Releases the lock; returns whether interrupts are to be enabled again.
    pub fn unlock(&mut self) -> (enable: bool)
        requires
            old(self).locked,
        ensures
            !final(self).locked,
            final(self).saved_if == old(self).saved_if,
            enable == old(self).saved_if,
    {
        self.locked = false;
        self.saved_if
    }
}

/// The global allocator: the heap core and its memory behind a lock.
pub struct LockedHeap {
    pub lock: SpinLock,
    pub core: HeapCore,
    pub mem: Memory,
}

impl LockedHeap {
    /// An unlocked heap with no region yet over `mem`.
    pub fn new(mem: Memory) -> (h: Self)
        ensures
            !h.lock.locked,
            h.core.wf(h.mem@),
            h.core.seg_count == 0,
            h.mem == mem,
    {
        LockedHeap { lock: SpinLock::new(), core: HeapCore::new(), mem }
    }

    /// Allocates under the lock, as [`HeapCore::allocate`] does; also returns
    /// whether the allocation failed in a way the allocator counts (out of
    /// memory or too strict an alignment), which the kernel reports as a
    /// warning.
    pub fn allocate(&mut self, size: usize, align: usize, if_set: bool) -> (r: (usize, bool, bool))
        requires
            !old(self).lock.locked,
            old(self).core.wf(old(self).mem@),
            old(self).core.alloc_count < u64::MAX,
            old(self).core.oom_count < u64::MAX,
            old(self).core.align_fail_count < u64::MAX,
        ensures
            !final(self).lock.locked,
            final(self).core.wf(final(self).mem@),
            r.2 == if_set,
            final(self).mem@.dom() == old(self).mem@.dom(),
            final(self).mem.size() == old(self).mem.size(),
            final(self).core.segments == old(self).core.segments,
            final(self).core.seg_count == old(self).core.seg_count,
            final(self).core.bad_free_count == old(self).core.bad_free_count,
            final(self).core.double_free_count == old(self).core.double_free_count,
            align > CHUNK_ALIGN ==> {
                &&& r.0 == 0
                &&& final(self).core.align_fail_count == old(self).core.align_fail_count + 1
                &&& final(self).core.oom_count == old(self).core.oom_count
                &&& final(self).core.alloc_count == old(self).core.alloc_count
                &&& final(self).core.free_bytes == old(self).core.free_bytes
                &&& final(self).core.layout() == old(self).core.layout()
                &&& final(self).mem@ == old(self).mem@
            },
            align <= CHUNK_ALIGN ==> final(self).core.align_fail_count == old(self).core.align_fail_count,
            align <= CHUNK_ALIGN && request_overflows(size as int) ==> {
                &&& r.0 == 0
                &&& final(self).core.oom_count == old(self).core.oom_count
                &&& final(self).core.alloc_count == old(self).core.alloc_count
                &&& final(self).core.free_bytes == old(self).core.free_bytes
                &&& final(self).core.layout() == old(self).core.layout()
                &&& final(self).mem@ == old(self).mem@
            },
            align <= CHUNK_ALIGN && !request_overflows(size as int) && no_fit(
                old(self).core.layout(),
                needed_size(size as int),
            ) ==> {
                &&& r.0 == 0
                &&& final(self).core.oom_count == old(self).core.oom_count + 1
                &&& final(self).core.alloc_count == old(self).core.alloc_count
                &&& final(self).core.free_bytes == old(self).core.free_bytes
                &&& final(self).core.layout() == old(self).core.layout()
                &&& final(self).mem@ == old(self).mem@
            },
            align <= CHUNK_ALIGN && !request_overflows(size as int) && !no_fit(
                old(self).core.layout(),
                needed_size(size as int),
            ) ==> exists|i: int, k: int|
                #[trigger] first_fit(old(self).core.layout(), needed_size(size as int), i, k) && {
                    let l = old(self).core.layout();
                    let needed = needed_size(size as int);
                    &&& r.0 == l[i][k].addr + HEADER_SIZE
                    &&& final(self).core.layout() == l.update(i, take_chunk(l[i], k, needed))
                    &&& final(self).core.free_bytes == old(self).core.free_bytes - taken_bytes(l[i][k], needed)
                    &&& final(self).core.alloc_count == old(self).core.alloc_count + 1
                    &&& final(self).core.oom_count == old(self).core.oom_count
                    &&& payloads_kept(l, old(self).mem@, final(self).mem@)
                    &&& changed_only(old(self).mem@, final(self).mem@, take_writes(l[i][k].addr, l[i][k].size, needed))
                },
            r.1 == (final(self).core.oom_count + final(self).core.align_fail_count != old(self).core.oom_count
                + old(self).core.align_fail_count),
    {
        self.lock.lock(if_set);
        let before = self.core.oom_count as u128 + self.core.align_fail_count as u128;
        let p = self.core.allocate(&mut self.mem, size, align);
        let after = self.core.oom_count as u128 + self.core.align_fail_count as u128;
        let enable = self.lock.unlock();
        (p, after != before, enable)
    }

    /// Frees under the lock, as [`HeapCore::dealloc`] does; also returns
    /// whether the free was refused (a bad or double free), which the kernel
    /// reports as a warning.
    pub fn dealloc(&mut self, ptr: usize, if_set: bool) -> (r: (bool, bool))
        requires
            !old(self).lock.locked,
            old(self).core.wf(old(self).mem@),
            old(self).core.bad_free_count < u64::MAX,
            old(self).core.double_free_count < u64::MAX,
        ensures
            !final(self).lock.locked,
            r.1 == if_set,
            final(self).core.wf(final(self).mem@),
            final(self).mem@.dom() == old(self).mem@.dom(),
            final(self).mem.size() == old(self).mem.size(),
            final(self).core.segments == old(self).core.segments,
            final(self).core.seg_count == old(self).core.seg_count,
            final(self).core.oom_count == old(self).core.oom_count,
            final(self).core.align_fail_count == old(self).core.align_fail_count,
            old(self).core.bad_free(old(self).mem@, ptr as int) ==> {
                &&& final(self).core.bad_free_count == old(self).core.bad_free_count + 1
                &&& final(self).core.double_free_count == old(self).core.double_free_count
                &&& final(self).core.layout() == old(self).core.layout()
                &&& final(self).core.free_bytes == old(self).core.free_bytes
                &&& final(self).core.alloc_count == old(self).core.alloc_count
                &&& final(self).mem@ == old(self).mem@
            },
            old(self).core.double_free(old(self).mem@, ptr as int) ==> {
                &&& final(self).core.double_free_count == old(self).core.double_free_count + 1
                &&& final(self).core.bad_free_count == old(self).core.bad_free_count
                &&& final(self).core.layout() == old(self).core.layout()
                &&& final(self).core.free_bytes == old(self).core.free_bytes
                &&& final(self).core.alloc_count == old(self).core.alloc_count
                &&& final(self).mem@ == old(self).mem@
            },
            !old(self).core.bad_free(old(self).mem@, ptr as int) && !old(self).core.double_free(old(self).mem@, ptr as int)
                && !old(self).core.is_live(ptr as int) ==> {
                &&& final(self).core.bad_free_count == old(self).core.bad_free_count + 1
                &&& final(self).core.double_free_count == old(self).core.double_free_count
                &&& final(self).core.layout() == old(self).core.layout()
                &&& final(self).core.free_bytes == old(self).core.free_bytes
                &&& final(self).core.alloc_count == old(self).core.alloc_count
                &&& final(self).mem@ == old(self).mem@
            },
            old(self).core.is_live(ptr as int) ==> exists|i: int, k: int|
                #[trigger] old(self).core.live_at(ptr as int, i, k) && {
                    let l = old(self).core.layout();
                    &&& final(self).core.layout() == l.update(i, coalesce(l[i], k))
                    &&& final(self).core.free_bytes == old(self).core.free_bytes + l[i][k].size
                    &&& final(self).core.alloc_count == old(self).core.alloc_count - 1
                    &&& final(self).core.bad_free_count == old(self).core.bad_free_count
                    &&& final(self).core.double_free_count == old(self).core.double_free_count
                    &&& payloads_kept_except(l, i, k, old(self).mem@, final(self).mem@)
                },
            r.0 == (final(self).core.bad_free_count + final(self).core.double_free_count != old(self).core.bad_free_count
                + old(self).core.double_free_count),
    {
        self.lock.lock(if_set);
        let before = self.core.bad_free_count as u128 + self.core.double_free_count as u128;
        self.core.dealloc(&mut self.mem, ptr);
        let after = self.core.bad_free_count as u128 + self.core.double_free_count as u128;
        let enable = self.lock.unlock();
        (after != before, enable)
    }

    /// Free bytes of the heap.
    pub fn heap_free_bytes(&self) -> (r: usize)
        ensures
            r == self.core.free_bytes,
    {
        self.core.free_bytes
    }

    /// Live allocations of the heap.
    pub fn heap_alloc_count(&self) -> (r: u64)
        ensures
            r == self.core.alloc_count,
    {
        self.core.alloc_count
    }
}

} // verus!
