//! CMOS real-time-clock value decoding.
use vstd::prelude::*;

verus! {

/// Calendar date and wall-clock time as read from the RTC.
#[derive(Debug, Clone, Copy, PartialEq, Eq, Structural)]
pub struct RtcDate {
    pub year: u16,
    pub month: u8,
    pub day: u8,
    pub hours: u8,
    pub minutes: u8,
    pub seconds: u8,
}

/// Value of a packed two-digit BCD byte (low nibble + 10 * high nibble).
pub open spec fn bcd_value(bcd: u8) -> int {
    (bcd % 16) + (bcd / 16) * 10
}

/// Decodes a packed BCD byte: low nibble plus ten times the high nibble.
pub fn bcd_to_bin(bcd: u8) -> (r: u8)
    ensures
        r == bcd_value(bcd),
{
    let lo = bcd & 0x0F;
    let hi = bcd >> 4;
    assert(lo == bcd % 16 && hi == bcd / 16) by (bit_vector)
        requires
            lo == bcd & 0x0F,
            hi == bcd >> 4,
    ;
    lo + hi * 10
}

/// Full year for a two-digit RTC year: 2000-2079 below 80, else 1900s.
pub open spec fn century_of(year: u8) -> int {
    if year < 80 {
        year + 2000
    } else {
        year + 1900
    }
}

/// Expands a two-digit year: below 80 it is 20xx, otherwise 19xx.
pub fn century(year: u8) -> (r: u16)
    ensures
        r == century_of(year),
{
    let y = year as u16;
    if y < 80 {
        y + 2000
    } else {
        y + 1900
    }
}

/// Status register B bit that selects binary (rather than BCD) values.
pub const RTC_BCD: u8 = 0x04;

/// One read of the time registers: seconds read before and after the others.
#[derive(Debug, Clone, Copy, PartialEq, Eq, Structural)]
pub struct RtcSample {
    pub sec1: u8,
    pub minutes: u8,
    pub hours: u8,
    pub day: u8,
    pub month: u8,
    pub year: u8,
    pub sec2: u8,
}

/// Attempts at a stable read before the last read is taken as it is.
pub const RTC_TRIES: u32 = 100;

/// Register value `v` as a number: BCD-decoded when `bcd` holds.
pub open spec fn reg_value(bcd: bool, v: u8) -> int {
    if bcd {
        bcd_value(v)
    } else {
        v as int
    }
}

/// The date a sample denotes, in BCD or binary mode.
pub open spec fn sample_date(bcd: bool, s: RtcSample) -> RtcDate {
    RtcDate {
        year: century_of(reg_value(bcd, s.year) as u8) as u16,
        month: reg_value(bcd, s.month) as u8,
        day: reg_value(bcd, s.day) as u8,
        hours: reg_value(bcd, s.hours) as u8,
        minutes: reg_value(bcd, s.minutes) as u8,
        seconds: reg_value(bcd, s.sec1) as u8,
    }
}

fn reg(bcd: bool, v: u8) -> (r: u8)
    ensures
        r == reg_value(bcd, v),
{
    if bcd {
        bcd_to_bin(v)
    } else {
        v
    }
}

/// Values are BCD unless status register B selects binary mode.
pub open spec fn is_bcd(status_b: u8) -> bool {
    status_b & RTC_BCD == 0
}

/// Decides one read of the clock. Attempts below [`RTC_TRIES`] succeed only
/// when the seconds did not change during the read (no update in between);
/// the read after them is taken as it is. The date is decoded from BCD
/// unless status register B selects binary mode, and two-digit years are
/// expanded by [`century`]. `None` asks the caller to read again.
pub fn read_datetime(status_b: u8, attempt: u32, s: RtcSample) -> (r: Option<RtcDate>)
    ensures
        r == (if attempt >= RTC_TRIES || s.sec1 == s.sec2 {
            Some(sample_date(is_bcd(status_b), s))
        } else {
            None
        }),
{
    if attempt < RTC_TRIES && s.sec1 != s.sec2 {
        return None;
    }
    let bcd = status_b & RTC_BCD == 0;
    let y = reg(bcd, s.year);
    Some(RtcDate {
        year: century(y),
        month: reg(bcd, s.month),
        day: reg(bcd, s.day),
        hours: reg(bcd, s.hours),
        minutes: reg(bcd, s.minutes),
        seconds: reg(bcd, s.sec1),
    })
}

} // verus!
