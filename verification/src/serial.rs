//! Boot-log line formatting for the serial console.
use vstd::prelude::*;
use crate::fmt::{dec_digits, dec_str, radix_digits, radix_str};
use crate::text::{concat, copy_range};
use vstd::string::StringSliceAdditionalSpecFns;

verus! {

/// Size of the log line buffer.
pub const LOG_LEN: usize = 224;

/// `buf` after writing `s` from index `i`, keeping only what fits.
pub open spec fn clipped(buf: Seq<u8>, i: int, s: Seq<u8>) -> Seq<u8> {
    Seq::new(buf.len(), |k: int| if i <= k < i + s.len() { s[k - i] } else { buf[k] })
}

/// Index after writing `s` from index `i` into a buffer of length `n`.
pub open spec fn clipped_end(n: int, i: int, s: Seq<u8>) -> int {
    if i >= n {
        i
    } else if i + s.len() < n {
        i + s.len()
    } else {
        n
    }
}

/// Stores `b` at `i` when it is inside `buf`; returns the next index.
pub fn put(buf: &mut Vec<u8>, i: usize, b: u8) -> (r: usize)
    ensures
        final(buf)@ == clipped(old(buf)@, i as int, seq![b]),
        r == clipped_end(old(buf)@.len() as int, i as int, seq![b]),
{
    let n = buf.len();
    if i < n {
        buf.set(i, b);
        proof {
            assert(buf@ =~= clipped(old(buf)@, i as int, seq![b]));
        }
        i + 1
    } else {
        proof {
            assert(buf@ =~= clipped(old(buf)@, i as int, seq![b]));
        }
        i
    }
}

/// Writes `s` from `i`, as much as fits; returns the next index.
pub fn put_str(buf: &mut Vec<u8>, i: usize, s: &[u8]) -> (r: usize)
    ensures
        final(buf)@ == clipped(old(buf)@, i as int, s@),
        r == clipped_end(old(buf)@.len() as int, i as int, s@),
{
    let n = buf.len();
    let mut j: usize = 0;
    let mut at = i;
    while j < s.len()
        invariant
            n == buf@.len(),
            buf@.len() == old(buf)@.len(),
            j <= s@.len(),
            at == clipped_end(n as int, i as int, s@.subrange(0, j as int)),
            buf@ == clipped(old(buf)@, i as int, s@.subrange(0, j as int)),
        decreases s@.len() - j,
    {
        let ghost before = buf@;
        at = put(buf, at, s[j]);
        j = j + 1;
        proof {
            assert(buf@ =~= clipped(old(buf)@, i as int, s@.subrange(0, j as int)));
        }
    }
    proof {
        assert(s@.subrange(0, s@.len() as int) =~= s@);
    }
    at
}

/// The bytes `put_pad` writes: the first `width` bytes of `s`, then spaces
/// up to `width`.
pub open spec fn padded(s: Seq<u8>, width: int) -> Seq<u8> {
    let used = if s.len() < width { s.len() as int } else { width };
    s.subrange(0, used) + Seq::new((width - used) as nat, |k: int| 32u8)
}

fn padded_bytes(s: &[u8], width: usize) -> (r: Vec<u8>)
    ensures
        r@ == padded(s@, width as int),
{
    let used = if s.len() < width { s.len() } else { width };
    let mut r = copy_range(s, 0, used);
    let mut k = used;
    while k < width
        invariant
            used <= k <= width,
            r@ == s@.subrange(0, used as int) + Seq::new((k - used) as nat, |t: int| 32u8),
        decreases width - k,
    {
        r.push(32u8);
        k = k + 1;
        proof {
            assert(r@ =~= s@.subrange(0, used as int) + Seq::new((k - used) as nat, |t: int| 32u8));
        }
    }
    r
}

/// Writes `s` padded or cut to `width` bytes (see [`padded`]).
pub fn put_pad(buf: &mut Vec<u8>, i: usize, s: &[u8], width: usize) -> (r: usize)
    ensures
        final(buf)@ == clipped(old(buf)@, i as int, padded(s@, width as int)),
        r == clipped_end(old(buf)@.len() as int, i as int, padded(s@, width as int)),
{
    let p = padded_bytes(s, width);
    put_str(buf, i, p.as_slice())
}

/// Writes the decimal digits of `v`.
pub fn put_dec(buf: &mut Vec<u8>, i: usize, v: u64) -> (r: usize)
    ensures
        final(buf)@ == clipped(old(buf)@, i as int, dec_digits(v as nat)),
        r == clipped_end(old(buf)@.len() as int, i as int, dec_digits(v as nat)),
{
    let d = dec_str(v);
    put_str(buf, i, d.as_slice())
}

/// Writes the lower-case hexadecimal digits of `v` without leading zeros.
pub fn put_hex(buf: &mut Vec<u8>, i: usize, v: u64) -> (r: usize)
    ensures
        final(buf)@ == clipped(old(buf)@, i as int, radix_digits(v as nat, 16, false)),
        r == clipped_end(old(buf)@.len() as int, i as int, radix_digits(v as nat, 16, false)),
{
    let d = radix_str(v, 16, false);
    put_str(buf, i, d.as_slice())
}

/// Spaces that align the processor tag: three less the number of digits.
pub open spec fn cpu_pad(cpu: u64) -> Seq<u8> {
    let nd = dec_digits(cpu as nat).len();
    Seq::new(if nd < 3 { (3 - nd) as nat } else { 0 }, |k: int| 32u8)
}

/// The log line `[CPUn] [PART  ] [SUB   ] message (s.t ms)\r\n`: processor
/// number padded to a six-character tag, part and subsystem padded or cut to
/// six bytes, the message cut to 112 bytes, and the elapsed time in tenths
/// of a millisecond.
pub open spec fn log_text(cpu: u64, part: Seq<u8>, sub: Seq<u8>, msg: Seq<u8>, ms10: u64) -> Seq<u8> {
    let m = if msg.len() < 112 { msg } else { msg.subrange(0, 112) };
    seq![91u8, 67, 80, 85] + dec_digits(cpu as nat) + cpu_pad(cpu) + seq![93u8, 32, 91] + padded(part, 6) + seq![93u8, 32, 91]
        + padded(sub, 6) + seq![93u8, 32] + m + seq![32u8, 40] + dec_digits((ms10 / 10) as nat) + seq![46u8]
        + dec_digits((ms10 % 10) as nat) + seq![32u8, 109, 115, 41, 13, 10]
}

fn spaces(n: usize) -> (r: Vec<u8>)
    ensures
        r@ == Seq::new(n as nat, |k: int| 32u8),
{
    let mut r: Vec<u8> = Vec::new();
    let mut k: usize = 0;
    while k < n
        invariant
            k <= n,
            r@ == Seq::new(k as nat, |t: int| 32u8),
        decreases n - k,
    {
        r.push(32u8);
        k = k + 1;
        proof {
            assert(r@ =~= Seq::new(k as nat, |t: int| 32u8));
        }
    }
    r
}

/// Formats one boot-log line (see [`log_text`]).
pub fn log_line(cpu: u64, part: &[u8], sub: &[u8], msg: &[u8], ms10: u64) -> (r: Vec<u8>)
    ensures
        r@ == log_text(cpu, part@, sub@, msg@, ms10),
{
    let ml = if msg.len() < 112 { msg.len() } else { 112 };
    let m = copy_range(msg, 0, ml);
    let digits = dec_str(cpu);
    let nd = digits.len();
    let pad = spaces(if nd < 3 { 3 - nd } else { 0 });
    let t: Vec<u8> = vec![91u8, 67, 80, 85];
    let t = concat(t.as_slice(), digits.as_slice());
    let t = concat(t.as_slice(), pad.as_slice());
    let s1: Vec<u8> = vec![93u8, 32, 91];
    let t = concat(t.as_slice(), s1.as_slice());
    let p = padded_bytes(part, 6);
    let t = concat(t.as_slice(), p.as_slice());
    let t = concat(t.as_slice(), s1.as_slice());
    let q = padded_bytes(sub, 6);
    let t = concat(t.as_slice(), q.as_slice());
    let s2: Vec<u8> = vec![93u8, 32];
    let t = concat(t.as_slice(), s2.as_slice());
    let t = concat(t.as_slice(), m.as_slice());
    let s3: Vec<u8> = vec![32u8, 40];
    let t = concat(t.as_slice(), s3.as_slice());
    let a = dec_str(ms10 / 10);
    let t = concat(t.as_slice(), a.as_slice());
    let s4: Vec<u8> = vec![46u8];
    let t = concat(t.as_slice(), s4.as_slice());
    let b = dec_str(ms10 % 10);
    let t = concat(t.as_slice(), b.as_slice());
    let s5: Vec<u8> = vec![32u8, 109, 115, 41, 13, 10];
    let t = concat(t.as_slice(), s5.as_slice());
    proof {
        assert(s1@ =~= seq![93u8, 32, 91]);
        assert(s2@ =~= seq![93u8, 32]);
        assert(s3@ =~= seq![32u8, 40]);
        assert(s4@ =~= seq![46u8]);
        assert(s5@ =~= seq![32u8, 109, 115, 41, 13, 10]);
        assert(m@ =~= (if msg@.len() < 112 { msg@ } else { msg@.subrange(0, 112) }));
        assert(t@ =~= log_text(cpu, part@, sub@, msg@, ms10));
    }
    t
}

/// The text of a hexadecimal log message: `prefix`, `0x`, the lower-case
/// digits of `val`, `suffix`.
pub open spec fn hex_text(prefix: Seq<u8>, val: u64, suffix: Seq<u8>) -> Seq<u8> {
    prefix + seq![48u8, 120] + radix_digits(val as nat, 16, false) + suffix
}

/// Formats the message of a hexadecimal log line (see [`hex_text`]).
pub fn log_hex(prefix: &[u8], val: u64, suffix: &[u8]) -> (r: Vec<u8>)
    ensures
        r@ == hex_text(prefix@, val, suffix@),
{
    let ox: Vec<u8> = vec![48u8, 120];
    let t = concat(prefix, ox.as_slice());
    let d = radix_str(val, 16, false);
    let t = concat(t.as_slice(), d.as_slice());
    let t = concat(t.as_slice(), suffix);
    proof {
        assert(ox@ =~= seq![48u8, 120]);
    }
    t
}

/// Tenths of milliseconds between two time-stamp-counter readings at
/// `per_ms` ticks per millisecond (the counter may wrap).
pub fn ms10_between(start: u64, now: u64, per_ms: u64) -> (r: u64)
    requires
        per_ms > 0,
    ensures
        r == (((now - start) % 0x1_0000_0000_0000_0000) * 10 / per_ms as int) % 0x1_0000_0000_0000_0000,
{
    let d = now.wrapping_sub(start) as u128;
    let q = d * 10 / per_ms as u128;
    proof {
        assert(d == (now - start) % 0x1_0000_0000_0000_0000);
    }
    (q % 0x1_0000_0000_0000_0000u128) as u64
}

/// The bytes `serial_write_str` sends for `s`: every byte of it.
pub fn serial_write_str(s: &str) -> (r: Vec<u8>)
    ensures
        r@ == s.spec_bytes(),
{
    let b = s.as_bytes();
    copy_range(b, 0, b.len())
}

} // verus!
