//! ATA (IDE) channel state and the register values of its commands.
use vstd::prelude::*;

verus! {

/// Register offsets from the channel's I/O base.
pub const DATA: u16 = 0;
pub const ERROR: u16 = 1;
pub const SECTOR_COUNT: u16 = 2;
pub const LBA_LO: u16 = 3;
pub const LBA_MID: u16 = 4;
pub const LBA_HI: u16 = 5;
pub const DRIVE: u16 = 6;
pub const CMD_STATUS: u16 = 7;

/// Status bits.
pub const STAT_BSY: u8 = 0x80;
pub const STAT_DRDY: u8 = 0x40;
pub const STAT_DRQ: u8 = 0x08;
pub const STAT_ERR: u8 = 0x01;

/// Commands.
pub const CMD_IDENTIFY: u8 = 0xEC;
pub const CMD_READ: u8 = 0x20;
pub const CMD_WRITE: u8 = 0x30;

/// Drive-register bit selecting LBA addressing.
pub const LBA_BIT: u8 = 0x40;

/// One drive on an IDE channel.
#[derive(Clone, Copy, Debug)]
pub struct AtaChannel {
    pub base: u16,
    pub drive_select: u8,
    pub sector_count: u64,
}

impl AtaChannel {
    /// The master (`0xA0`) or slave (`0xB0`) drive of the channel at `base`,
    /// not yet probed.
    pub fn new(base: u16, master: bool) -> (c: Self)
        ensures
            c.base == base,
            c.drive_select == (if master { 0xA0u8 } else { 0xB0u8 }),
            c.sector_count == 0,
    {
        AtaChannel { base, drive_select: if master { 0xA0 } else { 0xB0 }, sector_count: 0 }
    }

    /// Whether a probe found a drive with sectors.
    pub fn is_present(&self) -> (r: bool)
        ensures
            r == (self.sector_count > 0),
    {
        self.sector_count > 0
    }

    /// Records the drive size from its IDENTIFY data: the 28-bit sector
    /// count in words 60 (low) and 61 (high).
    pub fn set_identify(&mut self, ident: &[u16]) -> (n: u64)
        requires
            ident@.len() >= 62,
        ensures
            n == ident@[60] + ident@[61] * 65536,
            *final(self) == (AtaChannel { sector_count: n, ..*old(self) }),
    {
        let low = ident[60] as u64;
        let high = ident[61] as u64;
        let n = low + high * 65536;
        self.sector_count = n;
        n
    }

    /// The register writes that address `count` sectors at `lba`: pairs of
    /// port and value for the count, the three low LBA bytes and the drive
    /// register (drive, LBA mode, LBA bits 24..27).
    pub fn lba_registers(&self, lba: u32, count: u8) -> (r: Vec<(u16, u8)>)
        requires
            self.base + 6 <= u16::MAX,
        ensures
            r@ == seq![
                ((self.base + SECTOR_COUNT) as u16, count),
                ((self.base + LBA_LO) as u16, (lba % 256) as u8),
                ((self.base + LBA_MID) as u16, ((lba / 256) % 256) as u8),
                ((self.base + LBA_HI) as u16, ((lba / 65536) % 256) as u8),
                ((self.base + DRIVE) as u16, (self.drive_select | LBA_BIT | (((lba / 16777216) % 16) as u8)) as u8),
            ],
    {
        let r = vec![
            (self.base + SECTOR_COUNT, count),
            (self.base + LBA_LO, (lba % 256) as u8),
            (self.base + LBA_MID, ((lba / 256) % 256) as u8),
            (self.base + LBA_HI, ((lba / 65536) % 256) as u8),
            (self.base + DRIVE, self.drive_select | LBA_BIT | (((lba / 16777216) % 16) as u8)),
        ];
        proof {
            assert(r@ =~= seq![
                ((self.base + SECTOR_COUNT) as u16, count),
                ((self.base + LBA_LO) as u16, (lba % 256) as u8),
                ((self.base + LBA_MID) as u16, ((lba / 256) % 256) as u8),
                ((self.base + LBA_HI) as u16, ((lba / 65536) % 256) as u8),
                ((self.base + DRIVE) as u16, (self.drive_select | LBA_BIT | (((lba / 16777216) % 16) as u8)) as u8),
            ]);
        }
        r
    }
}

/// The 256 data words of a sector: each little-endian byte pair.
pub fn sector_words(buf: &[u8; 512]) -> (w: Vec<u16>)
    ensures
        w@.len() == 256,
        forall|i: int| 0 <= i < 256 ==> #[trigger] w@[i] == buf@[2 * i] + buf@[2 * i + 1] * 256,
{
    let mut w: Vec<u16> = Vec::new();
    let mut i: usize = 0;
    while i < 256
        invariant
            i <= 256,
            w@.len() == i,
            forall|j: int| 0 <= j < i ==> #[trigger] w@[j] == buf@[2 * j] + buf@[2 * j + 1] * 256,
        decreases 256 - i,
    {
        w.push(buf[2 * i] as u16 + (buf[2 * i + 1] as u16) * 256);
        i = i + 1;
    }
    w
}

/// The sector bytes of 256 data words read from the drive.
pub fn words_to_sector(w: &[u16]) -> (buf: [u8; 512])
    requires
        w@.len() == 256,
    ensures
        forall|i: int| 0 <= i < 256 ==> #[trigger] buf@[2 * i] == w@[i] % 256 && buf@[2 * i + 1] == w@[i] / 256,
{
    let mut buf = [0u8; 512];
    let mut i: usize = 0;
    while i < 256
        invariant
            i <= 256,
            w@.len() == 256,
            forall|j: int| 0 <= j < i ==> #[trigger] buf@[2 * j] == w@[j] % 256 && buf@[2 * j + 1] == w@[j] / 256,
        decreases 256 - i,
    {
        let ghost before = buf@;
        buf[2 * i] = (w[i] % 256) as u8;
        buf[2 * i + 1] = (w[i] / 256) as u8;
        proof {
            assert forall|j: int| 0 <= j < i + 1 implies #[trigger] buf@[2 * j] == w@[j] % 256 && buf@[2 * j + 1]
                == w@[j] / 256 by {
                if j < i {
                    assert(buf@[2 * j] == before[2 * j]);
                    assert(buf@[2 * j + 1] == before[2 * j + 1]);
                }
            }
        }
        i = i + 1;
    }
    buf
}

} // verus!
