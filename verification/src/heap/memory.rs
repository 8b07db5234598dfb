//! The flat word-addressed memory the allocator manages.
use vstd::prelude::*;

verus! {

// ── Memory ───────────────────────────────────────────────────────────

/// A flat byte-addressed memory starting at address 0, held as 64-bit words.
pub struct Memory {
    words: Vec<u64>,
}

impl View for Memory {
    type V = Map<int, u64>;

    /// Word at each 8-aligned byte address.
    closed spec fn view(&self) -> Map<int, u64> {
        Map::new(
            |a: int| 0 <= a < 8 * self.words@.len() && a % 8 == 0,
            |a: int| self.words@[a / 8],
        )
    }
}

/// Every 8-aligned byte address of `[lo, hi)` is a word of `m`.
pub open spec fn covers(m: Map<int, u64>, lo: int, hi: int) -> bool {
    forall|a: int| lo <= a < hi && a % 8 == 0 ==> #[trigger] m.dom().contains(a)
}

/// Byte `lane` (little-endian) of the word `w`.
pub open spec fn byte_lane(w: u64, lane: u64) -> u8 {
    ((w >> (8 * lane)) & 0xff) as u8
}

impl Memory {
    /// Size of the memory in bytes.
    pub closed spec fn size(&self) -> int {
        8 * self.words@.len() as int
    }

    /// The words of the memory are exactly its 8-aligned addresses below `size`.
    pub proof fn lemma_dom(&self)
        ensures
            self.size() >= 0,
            forall|a: int| #[trigger] self@.dom().contains(a) <==> 0 <= a < self.size() && a % 8 == 0,
    {
    }

    /// A zero-filled memory of `len_bytes` bytes (rounded down to whole words).
    pub fn new(len_bytes: usize) -> (m: Memory)
        ensures
            m.size() == len_bytes - len_bytes % 8,
            forall|a: int| #[trigger] m@.dom().contains(a) <==> 0 <= a < m.size() && a % 8 == 0,
            forall|a: int| #[trigger] m@.dom().contains(a) ==> m@[a] == 0,
    {
        let n = len_bytes / 8;
        let mut words: Vec<u64> = Vec::new();
        let mut i: usize = 0;
        while i < n
            invariant
                i <= n,
                words@.len() == i,
                forall|j: int| 0 <= j < i ==> words@[j] == 0,
            decreases n - i,
        {
            words.push(0);
            i = i + 1;
        }
        Memory { words }
    }

    /// Size of the memory in bytes.
    pub fn len_bytes(&self) -> (r: usize)
        requires
            self.size() <= usize::MAX,
        ensures
            r == self.size(),
    {
        self.words.len() * 8
    }

    /// Reads the 64-bit word at the 8-aligned byte address `addr`.
    pub fn read_word(&self, addr: usize) -> (r: u64)
        requires
            self@.dom().contains(addr as int),
        ensures
            r == self@[addr as int],
    {
        self.words[addr / 8]
    }

    /// Writes the 64-bit word at the 8-aligned byte address `addr`.
    pub fn write_word(&mut self, addr: usize, val: u64)
        requires
            old(self)@.dom().contains(addr as int),
        ensures
            final(self)@ == old(self)@.insert(addr as int, val),
            final(self)@.dom() == old(self)@.dom(),
            final(self).size() == old(self).size(),
    {
        self.words.set(addr / 8, val);
        proof {
            assert(self@ =~= old(self)@.insert(addr as int, val));
        }
    }

    /// Reads the byte at address `addr`.
    pub fn read_byte(&self, addr: usize) -> (r: u8)
        requires
            addr < self.size(),
        ensures
            r == byte_lane(self@[addr - addr % 8], (addr % 8) as u64),
    {
        let w = self.words[addr / 8];
        let lane = (addr % 8) as u64;
        ((w >> (8 * lane)) & 0xff) as u8
    }

    /// Writes the byte at address `addr`, leaving every other byte unchanged.
    pub fn write_byte(&mut self, addr: usize, b: u8)
        requires
            addr < old(self).size(),
        ensures
            final(self).size() == old(self).size(),
            final(self)@.dom() == old(self)@.dom(),
            forall|a: int| a != addr - addr % 8 ==> #[trigger] final(self)@[a] == old(self)@[a],
            byte_lane(final(self)@[addr - addr % 8], (addr % 8) as u64) == b,
            forall|lane: u64| lane < 8 && lane != (addr % 8) as u64
                ==> #[trigger] byte_lane(final(self)@[addr - addr % 8], lane)
                    == byte_lane(old(self)@[addr - addr % 8], lane),
    {
        let idx = addr / 8;
        let w = self.words[idx];
        let lane = (addr % 8) as u64;
        let sh = 8 * lane;
        let nw = (w & !(0xffu64 << sh)) | ((b as u64) << sh);
        assert(byte_lane(nw, lane) == b) by (bit_vector)
            requires
                lane < 8,
                sh == 8 * lane,
                nw == (w & !(0xffu64 << sh)) | ((b as u64) << sh),
        ;
        assert forall|l: u64| l < 8 && l != lane implies byte_lane(nw, l) == byte_lane(w, l) by {
            assert(byte_lane(nw, l) == byte_lane(w, l)) by (bit_vector)
                requires
                    lane < 8,
                    l < 8,
                    l != lane,
                    sh == 8 * lane,
                    nw == (w & !(0xffu64 << sh)) | ((b as u64) << sh),
            ;
        }
        self.words.set(idx, nw);
        proof {
            assert(self@ =~= old(self)@.insert(addr - addr % 8, nw));
        }
    }
}

} // verus!
