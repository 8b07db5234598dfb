//! The `datetime` applet: the date and time of the real-time clock.
use vstd::prelude::*;
use vstd::string::StringSliceAdditionalSpecFns;
use crate::fmt::{dec_digits, dec_str};
use crate::rtc::RtcDate;
use crate::text::{push_bytes, push_str};

verus! {

/// English name of month `m` (1 to 12); `???` past December.
pub open spec fn month_name(m: u8) -> &'static str {
    if m == 1 {
        "January"
    } else if m == 2 {
        "February"
    } else if m == 3 {
        "March"
    } else if m == 4 {
        "April"
    } else if m == 5 {
        "May"
    } else if m == 6 {
        "June"
    } else if m == 7 {
        "July"
    } else if m == 8 {
        "August"
    } else if m == 9 {
        "September"
    } else if m == 10 {
        "October"
    } else if m == 11 {
        "November"
    } else if m == 12 {
        "December"
    } else {
        "???"
    }
}

/// English name of month `m` (1 to 12); `???` past December.
pub fn month_text(m: u8) -> (r: &'static str)
    ensures
        r == month_name(m),
{
    if m == 1 {
        "January"
    } else if m == 2 {
        "February"
    } else if m == 3 {
        "March"
    } else if m == 4 {
        "April"
    } else if m == 5 {
        "May"
    } else if m == 6 {
        "June"
    } else if m == 7 {
        "July"
    } else if m == 8 {
        "August"
    } else if m == 9 {
        "September"
    } else if m == 10 {
        "October"
    } else if m == 11 {
        "November"
    } else if m == 12 {
        "December"
    } else {
        "???"
    }
}

/// Two characters for `n`: its tens and its units, each offset from `0`.
pub open spec fn two_digits(n: u8) -> Seq<u8> {
    seq![(48 + n / 10) as u8, (48 + n % 10) as u8]
}

/// Two characters for `n`: its tens and its units, each offset from `0`.
pub fn fmt_two(n: u8) -> (r: Vec<u8>)
    ensures
        r@ == two_digits(n),
{
    let mut r: Vec<u8> = Vec::new();
    r.push(48 + n / 10);
    r.push(48 + n % 10);
    proof {
        assert(r@ =~= two_digits(n));
    }
    r
}

/// The line shown for date `dt`.
pub open spec fn date_line(dt: RtcDate) -> Seq<u8> {
    month_name(dt.month).spec_bytes() + " ".spec_bytes() + dec_digits(dt.day as nat) + ", ".spec_bytes()
        + dec_digits(dt.year as nat) + "  ".spec_bytes() + two_digits(dt.hours) + ":".spec_bytes()
        + two_digits(dt.minutes) + ":".spec_bytes() + two_digits(dt.seconds) + seq![10u8]
}

/// The date and time line for `dt`: month name, day, year, then the time
/// as `hh:mm:ss`.
pub fn run(dt: RtcDate) -> (r: Vec<u8>)
    requires
        dt.month != 0,
    ensures
        r@ == date_line(dt),
{
    let mut out: Vec<u8> = Vec::new();
    push_str(&mut out, month_text(dt.month));
    push_str(&mut out, " ");
    let d = dec_str(dt.day as u64);
    push_bytes(&mut out, d.as_slice());
    push_str(&mut out, ", ");
    let y = dec_str(dt.year as u64);
    push_bytes(&mut out, y.as_slice());
    push_str(&mut out, "  ");
    let h = fmt_two(dt.hours);
    push_bytes(&mut out, h.as_slice());
    push_str(&mut out, ":");
    let m = fmt_two(dt.minutes);
    push_bytes(&mut out, m.as_slice());
    push_str(&mut out, ":");
    let s = fmt_two(dt.seconds);
    push_bytes(&mut out, s.as_slice());
    out.push(10);
    proof {
        assert(out@ =~= date_line(dt));
    }
    out
}

} // verus!
