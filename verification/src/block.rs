//! Block devices: sector-addressed storage the file system runs on.
use vstd::prelude::*;

verus! {

/// Bytes in one sector.
pub const SECTOR_SIZE: usize = 512;

/// A device of 512-byte sectors. The FAT32 driver works on any implementation.
pub trait BlockDevice {
    /// The sectors the device holds, in address order.
    spec fn sectors(&self) -> Seq<Seq<u8>>;

    /// Reads sector `lba` into `buf`; `true` on success, which only happens for
    /// an existing sector and yields its bytes.
    fn read_sector(&self, lba: u32, buf: &mut [u8; 512]) -> (ok: bool)
        ensures
            ok ==> lba < self.sectors().len() && final(buf)@ == self.sectors()[lba as int],
    ;

    /// Writes `buf` to sector `lba`; `true` on success, which only happens for
    /// an existing sector and stores the bytes there. No other sector changes.
    fn write_sector(&mut self, lba: u32, buf: &[u8; 512]) -> (ok: bool)
        ensures
            final(self).sectors().len() == old(self).sectors().len(),
            forall|i: int| 0 <= i < old(self).sectors().len() && i != lba ==> #[trigger] final(self).sectors()[i]
                == old(self).sectors()[i],
            ok ==> lba < old(self).sectors().len() && final(self).sectors()[lba as int] == buf@,
            !ok ==> final(self).sectors() == old(self).sectors(),
    ;

    /// Number of sectors of the device.
    fn sector_count(&self) -> (n: u64)
        ensures
            n == self.sectors().len(),
    ;
}

/// A block device held in memory.
pub struct RamDisk {
    /// The disk image: sector `i` is bytes `512 * i .. 512 * i + 512`.
    pub data: Vec<u8>,
}

impl RamDisk {

    /// A zero-filled disk of `sectors` sectors.
    pub fn new(sectors: u32) -> (d: Self)
        requires
            sectors * 512 <= usize::MAX,
        ensures
            d.sectors() == Seq::new(sectors as nat, |i: int| Seq::new(512, |j: int| 0u8)),
            d.data@.len() == 512 * sectors,
    {
        let total = sectors as usize * SECTOR_SIZE;
        let d = RamDisk { data: vec![0u8; total] };
        proof {
            assert forall|i: int| 0 <= i < sectors implies #[trigger] d.sectors()[i] =~= Seq::new(
                512,
                |j: int| 0u8,
            ) by {
                assert forall|j: int| 0 <= j < 512 implies d.sectors()[i][j] == 0u8 by {
                    assert(d.data@[512 * i + j] == 0u8);
                }
            }
            assert(d.sectors() =~= Seq::new(sectors as nat, |i: int| Seq::new(512, |j: int| 0u8)));
        }
        d
    }

    /// Byte `i` of the disk image.
    pub fn byte(&self, i: usize) -> (r: u8)
        requires
            i < 512 * self.sectors().len(),
        ensures
            r == self.sectors()[(i / 512) as int][(i % 512) as int],
    {
        self.data[i]
    }

    /// Size of the disk image in bytes.
    pub fn len(&self) -> (r: usize)
        requires
            self.data@.len() % 512 == 0,
        ensures
            r == 512 * self.sectors().len(),
    {
        self.data.len()
    }
}

impl BlockDevice for RamDisk {
    open spec fn sectors(&self) -> Seq<Seq<u8>> {
        Seq::new(
            (self.data@.len() / 512) as nat,
            |i: int| self.data@.subrange(512 * i, 512 * i + 512),
        )
    }

    fn read_sector(&self, lba: u32, buf: &mut [u8; 512]) -> (ok: bool)
        ensures
            ok == (lba < self.sectors().len()),
    {
        let n = self.data.len() / SECTOR_SIZE;
        if lba as usize >= n {
            return false;
        }
        let base = lba as usize * SECTOR_SIZE;
        let mut i: usize = 0;
        while i < SECTOR_SIZE
            invariant
                n == self.data@.len() / 512,
                lba < n,
                base == 512 * lba,
                base + 512 <= self.data@.len(),
                i <= 512,
                forall|j: int| 0 <= j < i ==> buf@[j] == self.data@[base + j],
            decreases 512 - i,
        {
            buf[i] = self.data[base + i];
            i = i + 1;
        }
        proof {
            assert(buf@ =~= self.data@.subrange(512 * lba, 512 * lba + 512));
        }
        true
    }

    fn write_sector(&mut self, lba: u32, buf: &[u8; 512]) -> (ok: bool)
        ensures
            ok == (lba < old(self).sectors().len()),
    {
        let n = self.data.len() / SECTOR_SIZE;
        if lba as usize >= n {
            return false;
        }
        let ghost d0 = self.data@;
        let base = lba as usize * SECTOR_SIZE;
        let mut i: usize = 0;
        while i < SECTOR_SIZE
            invariant
                n == d0.len() / 512,
                self.data@.len() == d0.len(),
                lba < n,
                base == 512 * lba,
                base + 512 <= d0.len(),
                i <= 512,
                forall|j: int| 0 <= j < i ==> self.data@[base + j] == buf@[j],
                forall|j: int| 0 <= j < d0.len() && !(base <= j < base + i) ==> self.data@[j] == d0[j],
            decreases 512 - i,
        {
            self.data.set(base + i, buf[i]);
            i = i + 1;
        }
        proof {
            let s0 = Seq::new((d0.len() / 512) as nat, |k: int| d0.subrange(512 * k, 512 * k + 512));
            assert forall|k: int| 0 <= k < s0.len() && k != lba implies #[trigger] self.sectors()[k] == s0[k] by {
                assert(self.sectors()[k] =~= s0[k]);
            }
            assert(self.sectors()[lba as int] =~= buf@);
        }
        true
    }

    fn sector_count(&self) -> (n: u64) {
        (self.data.len() / SECTOR_SIZE) as u64
    }
}

} // verus!
