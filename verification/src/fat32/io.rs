//! Character and formatted I/O on open files.
use vstd::prelude::*;
use crate::block::BlockDevice;
use crate::fmt::{dec_digits, dec_str, radix_digits, radix_str};
use crate::text::{concat, copy_range, position_of, prefix_len_before};
use super::volume::{FA_READ, FA_WRITE, FError, FResult, FatVolume};
use super::file::{File, f_read, f_write, file_wf, same_geometry, write_effect};

verus! {

/// An argument of [`f_printf`].
pub enum FmtArg<'a> {
    Char(u8),
    Str(&'a [u8]),
    Int(i32),
    Hex(u32),
}

/// Text of `%s` for argument `a`: the string up to its first NUL.
pub open spec fn arg_str(a: Option<FmtArg>) -> Seq<u8> {
    match a {
        Some(FmtArg::Str(s)) => s@.subrange(0, prefix_len_before(s@, 0)),
        _ => Seq::empty(),
    }
}

/// Text of `%c` for argument `a`.
pub open spec fn arg_char(a: Option<FmtArg>) -> Seq<u8> {
    match a {
        Some(FmtArg::Char(c)) => seq![c],
        _ => Seq::empty(),
    }
}

/// Text of `%d` for argument `a`: a minus sign when negative, then the
/// decimal digits of the magnitude.
pub open spec fn arg_int(a: Option<FmtArg>) -> Seq<u8> {
    match a {
        Some(FmtArg::Int(v)) => if v < 0 {
            seq![45u8] + dec_digits((-v) as nat)
        } else {
            dec_digits(v as nat)
        },
        _ => Seq::empty(),
    }
}

/// Text of `%x` / `%X` for argument `a`: upper-case hexadecimal digits.
pub open spec fn arg_hex(a: Option<FmtArg>) -> Seq<u8> {
    match a {
        Some(FmtArg::Hex(v)) => radix_digits(v as nat, 16, true),
        _ => Seq::empty(),
    }
}

/// Argument `i` of `args`, if there is one.
pub open spec fn arg(args: Seq<FmtArg>, i: int) -> Option<FmtArg> {
    if 0 <= i < args.len() {
        Some(args[i])
    } else {
        None
    }
}

/// The text `fmt` produces from byte `i` on, with argument `a` next:
/// ordinary bytes are copied, `%c %s %d %x %X` take the next argument (and
/// print nothing when it has another kind), `%%` is a percent sign, any
/// other `%` pair is copied, and a trailing `%` ends the text.
pub open spec fn printf_text(fmt: Seq<u8>, args: Seq<FmtArg>, i: int, a: int) -> Seq<u8>
    decreases fmt.len() - i,
{
    if i < 0 || i >= fmt.len() {
        Seq::empty()
    } else if fmt[i] != 37 {
        seq![fmt[i]] + printf_text(fmt, args, i + 1, a)
    } else if i + 1 >= fmt.len() {
        Seq::empty()
    } else {
        let c = fmt[i + 1];
        if c == 99 {
            arg_char(arg(args, a)) + printf_text(fmt, args, i + 2, a + 1)
        } else if c == 115 {
            arg_str(arg(args, a)) + printf_text(fmt, args, i + 2, a + 1)
        } else if c == 100 {
            arg_int(arg(args, a)) + printf_text(fmt, args, i + 2, a + 1)
        } else if c == 120 || c == 88 {
            arg_hex(arg(args, a)) + printf_text(fmt, args, i + 2, a + 1)
        } else if c == 37 {
            seq![37u8] + printf_text(fmt, args, i + 2, a)
        } else {
            seq![37u8, c] + printf_text(fmt, args, i + 2, a)
        }
    }
}

fn arg_text(args: &[FmtArg], a: usize, conv: u8) -> (r: Vec<u8>)
    ensures
        conv == 99 ==> r@ == arg_char(arg(args@, a as int)),
        conv == 115 ==> r@ == arg_str(arg(args@, a as int)),
        conv == 100 ==> r@ == arg_int(arg(args@, a as int)),
        conv == 120 ==> r@ == arg_hex(arg(args@, a as int)),
{
    if a >= args.len() {
        return Vec::new();
    }
    match &args[a] {
        FmtArg::Char(c) => {
            if conv == 99 {
                let mut v = Vec::new();
                v.push(*c);
                proof {
                    assert(v@ =~= seq![*c]);
                }
                v
            } else {
                Vec::new()
            }
        },
        FmtArg::Str(s) => {
            if conv == 115 {
                let end = position_of(s, 0);
                copy_range(s, 0, end)
            } else {
                Vec::new()
            }
        },
        FmtArg::Int(v) => {
            if conv == 100 {
                if *v < 0 {
                    let mag = (-(*v as i64)) as u64;
                    let digits = dec_str(mag);
                    let minus: Vec<u8> = vec![45u8];
                    proof {
                        assert(minus@ =~= seq![45u8]);
                    }
                    concat(minus.as_slice(), digits.as_slice())
                } else {
                    dec_str(*v as u64)
                }
            } else {
                Vec::new()
            }
        },
        FmtArg::Hex(v) => {
            if conv == 120 {
                radix_str(*v as u64, 16, true)
            } else {
                Vec::new()
            }
        },
    }
}

/// The text [`f_printf`] writes for `fmt` and `args`.
pub fn format_text(fmt: &[u8], args: &[FmtArg]) -> (r: Vec<u8>)
    ensures
        r@ == printf_text(fmt@, args@, 0, 0),
{
    let mut out: Vec<u8> = Vec::new();
    let mut i: usize = 0;
    let mut a: usize = 0;
    while i < fmt.len()
        invariant
            i <= fmt@.len(),
            a <= i,
            printf_text(fmt@, args@, 0, 0) == out@ + printf_text(fmt@, args@, i as int, a as int),
        decreases fmt@.len() - i,
    {
        let ghost before = out@;
        if fmt[i] != 37 {
            out.push(fmt[i]);
            proof {
                assert(before + printf_text(fmt@, args@, i as int, a as int) =~= out@ + printf_text(
                    fmt@,
                    args@,
                    i + 1,
                    a as int,
                ));
            }
            i = i + 1;
        } else if i + 1 >= fmt.len() {
            proof {
                assert(out@ + printf_text(fmt@, args@, i as int, a as int) =~= out@ + printf_text(
                    fmt@,
                    args@,
                    fmt@.len() as int,
                    a as int,
                ));
            }
            i = fmt.len();
        } else {
            let c = fmt[i + 1];
            if c == 99 || c == 115 || c == 100 || c == 120 || c == 88 {
                let conv = if c == 88 { 120u8 } else { c };
                let piece = arg_text(args, a, conv);
                out = concat(out.as_slice(), piece.as_slice());
                proof {
                    assert(before + printf_text(fmt@, args@, i as int, a as int) =~= out@ + printf_text(
                        fmt@,
                        args@,
                        i + 2,
                        a + 1,
                    ));
                }
                a = a + 1;
            } else if c == 37 {
                out.push(37u8);
                proof {
                    assert(before + printf_text(fmt@, args@, i as int, a as int) =~= out@ + printf_text(
                        fmt@,
                        args@,
                        i + 2,
                        a as int,
                    ));
                }
            } else {
                out.push(37u8);
                out.push(c);
                proof {
                    assert(before + printf_text(fmt@, args@, i as int, a as int) =~= out@ + printf_text(
                        fmt@,
                        args@,
                        i + 2,
                        a as int,
                    ));
                }
            }
            i = i + 2;
        }
    }
    proof {
        assert(out@ + printf_text(fmt@, args@, i as int, a as int) =~= out@);
    }
    out
}

/// Writes the formatted text of `fmt` and `args` (see [`printf_text`]) at
/// the file position; the count of bytes written is returned. Nothing is
/// written for an empty text.
pub fn f_printf<D: BlockDevice>(vol: &mut FatVolume<D>, file: &mut File, fmt: &[u8], args: &[FmtArg]) -> (r: FResult<usize>)
    requires
        old(vol).wf(),
        file_wf(*old(vol), *old(file)),
        old(file).flags & FA_WRITE != 0 ==> old(file).position + printf_text(fmt@, args@, 0, 0).len() <= u32::MAX,
    ensures
        final(vol).wf(),
        same_geometry(*old(vol), *final(vol)),
        printf_text(fmt@, args@, 0, 0).len() == 0 ==> r == Ok::<usize, FError>(0) && *final(file) == *old(file)
            && *final(vol) == *old(vol),
        printf_text(fmt@, args@, 0, 0).len() > 0 ==> write_effect(
            *old(vol),
            *old(file),
            *final(vol),
            *final(file),
            printf_text(fmt@, args@, 0, 0),
            r,
        ),
{
    let text = format_text(fmt, args);
    if text.len() == 0 {
        return Ok(0);
    }
    f_write(vol, file, text.as_slice())
}

/// Writes the byte `c` at the file position, as [`f_write`] of that one
/// byte.
pub fn f_putc<D: BlockDevice>(vol: &mut FatVolume<D>, c: u8, file: &mut File) -> (r: FResult<usize>)
    requires
        old(vol).wf(),
        file_wf(*old(vol), *old(file)),
        old(file).flags & FA_WRITE != 0 ==> old(file).position + 1 <= u32::MAX,
    ensures
        final(vol).wf(),
        same_geometry(*old(vol), *final(vol)),
        write_effect(*old(vol), *old(file), *final(vol), *final(file), seq![c], r),
{
    let mut b: Vec<u8> = Vec::new();
    b.push(c);
    proof {
        assert(b@ =~= seq![c]);
    }
    f_write(vol, file, b.as_slice())
}

/// Writes the bytes of `s` before its first NUL, as [`f_write`] of them;
/// nothing when there are none.
pub fn f_puts<D: BlockDevice>(vol: &mut FatVolume<D>, s: &[u8], file: &mut File) -> (r: FResult<usize>)
    requires
        old(vol).wf(),
        file_wf(*old(vol), *old(file)),
        old(file).flags & FA_WRITE != 0 ==> old(file).position + prefix_len_before(s@, 0) <= u32::MAX,
    ensures
        final(vol).wf(),
        same_geometry(*old(vol), *final(vol)),
        prefix_len_before(s@, 0) == 0 ==> r == Ok::<usize, FError>(0) && *final(file) == *old(file) && *final(vol)
            == *old(vol),
        prefix_len_before(s@, 0) > 0 ==> write_effect(
            *old(vol),
            *old(file),
            *final(vol),
            *final(file),
            s@.subrange(0, prefix_len_before(s@, 0)),
            r,
        ),
{
    let end = position_of(s, 0);
    if end > 0 {
        let part = copy_range(s, 0, end);
        f_write(vol, file, part.as_slice())
    } else {
        Ok(0)
    }
}

/// The line [`f_gets`] takes from the file bytes `d`, from index `j` on,
/// with `out` stored so far: carriage returns are skipped, a newline is
/// stored and ends the line, and it also ends after `max` stored bytes, at
/// the end of `d`, or at index `lim` (the end of the file). Gives the
/// number of bytes consumed and the bytes stored.
pub open spec fn gets_take(d: Seq<u8>, j: int, out: Seq<u8>, max: int, lim: int) -> (int, Seq<u8>)
    decreases d.len() - j,
{
    if out.len() >= max || j < 0 || j >= d.len() || j >= lim {
        (j, out)
    } else if d[j] == 13 {
        gets_take(d, j + 1, out, max, lim)
    } else if d[j] == 10 {
        (j + 1, out.push(10))
    } else {
        gets_take(d, j + 1, out.push(d[j]), max, lim)
    }
}

/// Reads a line into `buf`: bytes up to and including a newline, at most
/// `n - 1` and at most `buf.len() - 1`, carriage returns dropped; the text
/// is NUL-terminated when room remains. Returns the number of bytes stored;
/// the line and the bytes consumed are those [`gets_take`] gives for the
/// file's bytes from its position.
pub fn f_gets<D: BlockDevice>(vol: &FatVolume<D>, buf: &mut Vec<u8>, n: usize, file: &mut File) -> (r: FResult<usize>)
    requires
        vol.wf(),
        n >= 1,
        file_wf(*vol, *old(file)),
        old(file).position <= old(file).size,
    ensures
        final(buf)@.len() == old(buf)@.len(),
        r matches Ok(i) ==> {
            &&& i <= n - 1
            &&& (i as int) <= old(buf)@.len() - 1 || i == 0
            &&& i < final(buf)@.len() ==> final(buf)@[i as int] == 0
            &&& forall|k: int| 0 <= k < i ==> #[trigger] final(buf)@[k] != 13
            &&& forall|k: int| 0 <= k < i as int - 1 ==> #[trigger] final(buf)@[k] != 10
        },
        r matches Err(e) ==> final(file).error == e && (e == FError::Denied || e == FError::DiskErr),
        r matches Err(e) && e == FError::Denied ==> old(file).flags & FA_READ == 0,
        n == 1 || old(buf)@.len() <= 1 ==> r == Ok::<usize, FError>(0) && *final(file) == *old(file),
        n > 1 && old(buf)@.len() > 1 && old(file).flags & FA_READ == 0 ==> r == Err::<usize, FError>(FError::Denied),
        old(file).flags & FA_READ != 0 && old(file).position == old(file).size ==> r == Ok::<usize, FError>(0)
            && *final(file) == *old(file),
        r matches Ok(i) ==> {
            let cap = if old(buf)@.len() > 0 { old(buf)@.len() - 1 } else { 0 };
            let max = if n - 1 < cap { n - 1 } else { cap };
            let lim = old(file).size - old(file).position;
            let d = vol.stream(
                old(file).current_cluster as int,
                old(file).sector_in_cluster as int,
                old(file).byte_in_sector as int,
                lim as nat,
            );
            let (j, line) = gets_take(d, 0, Seq::empty(), max, lim);
            &&& final(buf)@.subrange(0, i as int) == line
            &&& final(file).position == old(file).position + j
        },
{
    let ghost c0 = file.current_cluster as int;
    let ghost s0 = file.sector_in_cluster as int;
    let ghost b0 = file.byte_in_sector as int;
    let ghost pos0 = file.position as int;
    let ghost size0 = file.size as int;
    let ghost lim = size0 - pos0;
    let ghost d = vol.stream(c0, s0, b0, lim as nat);
    let ghost mut j: int = 0;
    let ghost mut alive = true;
    let cap = if buf.len() > 0 { buf.len() - 1 } else { 0 };
    let max = if n - 1 < cap { n - 1 } else { cap };
    let mut i: usize = 0;
    let mut one: Vec<u8> = vec![0u8];
    proof {
        assert(buf@.subrange(0, 0) =~= Seq::<u8>::empty());
        assert forall|t: nat| t >= j implies #[trigger] vol.stream(c0, s0, b0, t) == d.subrange(0, j) + vol.stream(
            file.current_cluster as int,
            file.sector_in_cluster as int,
            file.byte_in_sector as int,
            (t - j) as nat,
        ) by {
            assert(d.subrange(0, 0) =~= Seq::<u8>::empty());
            assert(Seq::<u8>::empty() + vol.stream(c0, s0, b0, t) =~= vol.stream(c0, s0, b0, t));
        }
    }
    loop
        invariant_except_break
            vol.wf(),
            file_wf(*vol, *file),
            file.position <= file.size,
            one@.len() == 1,
            buf@.len() == old(buf)@.len(),
            max <= n - 1,
            max <= cap,
            cap == (if old(buf)@.len() > 0 { old(buf)@.len() - 1 } else { 0 }),
            i <= max,
            forall|k: int| 0 <= k < i ==> #[trigger] buf@[k] != 13,
            forall|k: int| 0 <= k < i ==> #[trigger] buf@[k] != 10,
            file.size == size0,
            file.flags == old(file).flags,
            pos0 == old(file).position,
            size0 == old(file).size,
            i > 0 ==> old(file).flags & FA_READ != 0,
            j == 0 ==> *file == *old(file),
            lim == size0 - pos0,
            file.position == pos0 + j,
            0 <= j <= lim,
            j <= d.len(),
            d == vol.stream(c0, s0, b0, lim as nat),
            alive ==> forall|t: nat|
                t >= j ==> #[trigger] vol.stream(c0, s0, b0, t) == d.subrange(0, j) + vol.stream(
                    file.current_cluster as int,
                    file.sector_in_cluster as int,
                    file.byte_in_sector as int,
                    (t - j) as nat,
                ),
            !alive ==> file.current_cluster == 0,
            gets_take(d, 0, Seq::empty(), max as int, lim) == gets_take(d, j, buf@.subrange(0, i as int), max as int, lim),
        ensures
            buf@.len() == old(buf)@.len(),
            i <= max,
            max <= n - 1,
            max <= cap,
            cap == (if old(buf)@.len() > 0 { old(buf)@.len() - 1 } else { 0 }),
            forall|k: int| 0 <= k < i ==> #[trigger] buf@[k] != 13,
            forall|k: int| 0 <= k < i as int - 1 ==> #[trigger] buf@[k] != 10,
            file.position == pos0 + j,
            gets_take(d, 0, Seq::empty(), max as int, lim) == (j, buf@.subrange(0, i as int)),
            max > 0 ==> old(file).flags & FA_READ != 0,
            j == 0 ==> *file == *old(file),
        decreases file.size - file.position,
    {
        if i >= max {
            proof {
                assert(buf@.subrange(0, i as int).len() == i);
            }
            break;
        }
        let ghost fs = *file;
        let ghost bs = buf@;
        proof {
            if pos0 == size0 {
                assert(crate::fat32::file::min_int(one@.len() as int, file.size - file.position) == 0);
            }
        }
        let got = match f_read(vol, file, &mut one) {
            Ok(x) => x,
            Err(e) => {
                return Err(e);
            },
        };
        proof {
            let want = crate::fat32::file::min_int(1, fs.size - fs.position);
            assert(got <= want);
            assert(got == want || (file.current_cluster == 0 && got > 0));
        }
        if got == 0 {
            proof {
                assert(fs.size - fs.position == 0);
                assert(j == lim);
            }
            break;
        }
        let c = one[0];
        proof {
            assert(got == 1);
            assert(alive);
            assert(lim - j >= 1);
            let tt: nat = (lim - j) as nat;
            assert(tt >= got);
            let x = vol.stream(fs.current_cluster as int, fs.sector_in_cluster as int, fs.byte_in_sector as int, tt);
            assert(vol.stream(c0, s0, b0, lim as nat) == d.subrange(0, j) + x);
            assert(x =~= d.subrange(j, d.len() as int));
            let data = one@.subrange(0, 1);
            assert(x == data + vol.stream(
                file.current_cluster as int,
                file.sector_in_cluster as int,
                file.byte_in_sector as int,
                (lim - j - 1) as nat,
            ) || (file.current_cluster == 0 && x == data));
            assert(x[0] == c);
            assert(d[j] == c);
            assert(d.subrange(0, j + 1) =~= d.subrange(0, j) + data);
            if file.current_cluster != 0 {
                assert forall|t: nat| t >= j + 1 implies #[trigger] vol.stream(c0, s0, b0, t) == d.subrange(0, j + 1)
                    + vol.stream(
                    file.current_cluster as int,
                    file.sector_in_cluster as int,
                    file.byte_in_sector as int,
                    (t - (j + 1)) as nat,
                ) by {
                    assert(vol.stream(c0, s0, b0, t) == d.subrange(0, j) + vol.stream(
                        fs.current_cluster as int,
                        fs.sector_in_cluster as int,
                        fs.byte_in_sector as int,
                        (t - j) as nat,
                    ));
                    assert(vol.stream(fs.current_cluster as int, fs.sector_in_cluster as int, fs.byte_in_sector as int, (t - j) as nat)
                        == data + vol.stream(
                        file.current_cluster as int,
                        file.sector_in_cluster as int,
                        file.byte_in_sector as int,
                        ((t - j) - 1) as nat,
                    ));
                }
            } else {
                alive = false;
            }
            j = j + 1;
        }
        if c == 13 {
            continue;
        }
        buf.set(i, c);
        i = i + 1;
        proof {
            assert(buf@.subrange(0, i as int) =~= bs.subrange(0, i - 1).push(c));
        }
        if c == 10 {
            break;
        }
    }
    if i < buf.len() {
        buf.set(i, 0);
    }
    Ok(i)
}

} // verus!
