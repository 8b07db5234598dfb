//! The `out` applet: shows a file, as text, or as a hex dump when its
//! first block holds a NUL byte; `-n N` shows at most its first N bytes.
use vstd::prelude::*;
use vstd::string::StringSliceAdditionalSpecFns;
use crate::applets::args::{ArgError, arg_error_message, arg_error_text, is_option, number_value, option_arg, parse_number};
use crate::applets::entries::path_text;
use crate::block::BlockDevice;
use crate::fat32::{FatVolume, f_close, f_lseek, f_open, f_read, f_size, f_stat};
use crate::fat32::file::{chain_nth, file_wf, path_lookup, same_geometry};
use crate::fat32::lookup::{Lookup, Walk};
use crate::fat32::names::{entry_cluster, entry_info};
use crate::applets::rm::{names_dir, names_file};
use crate::fat32::volume::{FA_READ, lemma_flag_bits};
use crate::fmt::{hex_fixed, hex_str_fixed};
use crate::text::{as_utf8, copy_range, le32, push_bytes, push_str, repeat, utf8_valid};

verus! {

/// Bytes read per block.
pub const BUF_SIZE: usize = 512;

/// Bytes per line of the hex dump.
pub const HEX_COLS: usize = 16;

/// The arguments of `out` from `i` on, with `path` and `limit` found so
/// far: a later operand replaces the path; `-n` takes the next argument as
/// the limit (0 when it is not a number, unchanged when there is none);
/// any other option is refused.
pub open spec fn out_args<'a>(args: Seq<&'a str>, i: int, path: &'a str, limit: nat) -> Result<(&'a str, nat), ArgError>
    decreases args.len() - i,
{
    if i >= args.len() || i < 0 {
        Ok((path, limit))
    } else {
        let a = args[i].spec_bytes();
        if is_option(a) {
            if a[1] == 110 {
                if i + 1 < args.len() {
                    let v = match number_value(args[i + 1].spec_bytes()) {
                        Some(v) => v,
                        None => 0,
                    };
                    out_args(args, i + 2, path, v)
                } else {
                    Ok((path, limit))
                }
            } else {
                Err(ArgError::InvalidOption)
            }
        } else {
            out_args(args, i + 1, args[i], limit)
        }
    }
}

/// Reads the arguments of `out`: the file to show and the byte limit (0
/// for none).
pub fn parse_args<'a>(args: &[&'a str]) -> (r: Result<(&'a str, usize), ArgError>)
    ensures
        match out_args(args@, 0, "", 0) {
            Ok((p, n)) => r matches Ok((q, m)) && q == p && m == n,
            Err(e) => r == Err::<(&'a str, usize), ArgError>(e),
        },
{
    let mut path: &'a str = "";
    let mut limit: usize = 0;
    let mut i: usize = 0;
    while i < args.len()
        invariant
            i <= args@.len() + 1,
            out_args(args@, 0, "", 0) == out_args(args@, i as int, path, limit as nat),
        decreases args@.len() + 1 - i,
    {
        let a = args[i].as_bytes();
        if option_arg(a) {
            if a[1] == 110 {
                i = i + 1;
                if i < args.len() {
                    limit = match parse_number(args[i].as_bytes()) {
                        Some(v) => v,
                        None => 0,
                    };
                } else {
                    return Ok((path, limit));
                }
            } else {
                return Err(ArgError::InvalidOption);
            }
        } else {
            path = args[i];
        }
        i = i + 1;
    }
    Ok((path, limit))
}

/// The printable form of byte `c` in the hex dump: itself when printable
/// ASCII, else `.`.
pub open spec fn printable(c: u8) -> u8 {
    if 0x20 <= c < 0x7F {
        c
    } else {
        46
    }
}

/// The hex cells of `bytes` from `j` on: two uppercase digits and a space
/// each.
pub open spec fn hex_cells(bytes: Seq<u8>, j: int) -> Seq<u8>
    decreases bytes.len() - j,
{
    if j >= bytes.len() || j < 0 {
        Seq::empty()
    } else {
        hex_fixed(bytes[j] as nat, 2, true) + seq![32u8] + hex_cells(bytes, j + 1)
    }
}

/// One line of the hex dump: the offset in eight uppercase hex digits,
/// two spaces, a cell per byte, three spaces per missing byte of a short
/// line, then ` |`, the printable bytes and `|`.
pub open spec fn hex_line(offset: u32, bytes: Seq<u8>) -> Seq<u8> {
    hex_fixed(offset as nat, 8, true) + "  ".spec_bytes() + hex_cells(bytes, 0) + repeat(
        32,
        (3 * (HEX_COLS - bytes.len())) as nat,
    ) + " |".spec_bytes() + bytes.map_values(|c: u8| printable(c)) + "|\n".spec_bytes()
}

/// The hex dump of `data`, whose first byte is at `offset` of the file: a
/// line per sixteen bytes, from row `k` on.
pub open spec fn hex_lines(offset: u32, data: Seq<u8>, k: int) -> Seq<u8>
    decreases data.len() - k,
{
    if k < 0 || 16 * k >= data.len() {
        Seq::empty()
    } else {
        let end = if 16 * k + 16 < data.len() { 16 * k + 16 } else { data.len() as int };
        hex_line((offset + 16 * k) as u32, data.subrange(16 * k, end)) + hex_lines(offset, data, k + 1)
    }
}

/// One line of the hex dump, for `bytes` at `offset`.
pub fn hex_row(offset: u32, bytes: &[u8]) -> (r: Vec<u8>)
    requires
        bytes@.len() <= HEX_COLS,
    ensures
        r@ == hex_line(offset, bytes@),
{
    let mut out = hex_str_fixed(offset as u64, 8, true);
    push_str(&mut out, "  ");
    let ghost start = out@;
    let mut j: usize = 0;
    while j < bytes.len()
        invariant
            j <= bytes@.len() <= HEX_COLS,
            hex_cells(bytes@, 0) == out@.subrange(start.len() as int, out@.len() as int) + hex_cells(bytes@, j as int),
            out@.subrange(0, start.len() as int) == start,
            out@.len() >= start.len(),
        decreases bytes@.len() - j,
    {
        let ghost before = out@;
        let h = hex_str_fixed(bytes[j] as u64, 2, true);
        push_bytes(&mut out, h.as_slice());
        out.push(32);
        proof {
            assert(out@ =~= before + hex_fixed(bytes@[j as int] as nat, 2, true) + seq![32u8]);
            assert(out@.subrange(0, start.len() as int) =~= start);
            assert(out@.subrange(start.len() as int, out@.len() as int) =~= before.subrange(
                start.len() as int,
                before.len() as int,
            ) + hex_fixed(bytes@[j as int] as nat, 2, true) + seq![32u8]);
        }
        j = j + 1;
    }
    proof {
        assert(out@ =~= start + hex_cells(bytes@, 0));
    }
    crate::text::push_repeat(&mut out, 32, 3 * (HEX_COLS - bytes.len()));
    push_str(&mut out, " |");
    let ghost mid = out@;
    let mut j: usize = 0;
    while j < bytes.len()
        invariant
            j <= bytes@.len(),
            out@ == mid + bytes@.take(j as int).map_values(|c: u8| printable(c)),
        decreases bytes@.len() - j,
    {
        let c = bytes[j];
        out.push(if c >= 0x20 && c < 0x7F { c } else { 46 });
        j = j + 1;
        assert(out@ =~= mid + bytes@.take(j as int).map_values(|c: u8| printable(c)));
    }
    push_str(&mut out, "|\n");
    proof {
        assert(bytes@.take(bytes@.len() as int) =~= bytes@);
        assert(out@ =~= hex_line(offset, bytes@));
    }
    out
}

/// The hex dump of `data` read at `offset`.
pub fn hex_dump(offset: u32, data: &[u8]) -> (r: Vec<u8>)
    requires
        offset + data@.len() <= u32::MAX,
    ensures
        r@ == hex_lines(offset, data@, 0),
{
    let mut out: Vec<u8> = Vec::new();
    let mut row_start: usize = 0;
    let ghost mut k: int = 0;
    while row_start < data.len()
        invariant
            offset + data@.len() <= u32::MAX,
            16 * k < data@.len() ==> row_start == 16 * k,
            16 * k >= data@.len() ==> row_start == data@.len(),
            k >= 0,
            hex_lines(offset, data@, 0) == out@ + hex_lines(offset, data@, k),
        decreases data@.len() - row_start,
    {
        let end = if data.len() - row_start > HEX_COLS { row_start + HEX_COLS } else { data.len() };
        let row = crate::text::copy_range(data, row_start, end);
        let o = offset + row_start as u32;
        let line = hex_row(o, row.as_slice());
        let ghost before = out@;
        push_bytes(&mut out, line.as_slice());
        proof {
            assert(out@ =~= before + hex_line((offset + 16 * k) as u32, data@.subrange(16 * k, end as int)));
        }
        row_start = end;
        proof {
            k = k + 1;
        }
    }
    proof {
        if data@.len() == 0 {
            assert(out@ =~= hex_lines(offset, data@, 0));
        } else {
            assert(16 * k >= data@.len());
            assert(hex_lines(offset, data@, k) =~= Seq::<u8>::empty());
            assert(out@ =~= hex_lines(offset, data@, 0));
        }
    }
    out
}

/// A block of text mode: the bytes themselves when valid UTF-8, else `?`.
pub fn text_block(out: &mut Vec<u8>, block: &[u8])
    ensures
        final(out)@ == old(out)@ + path_text(block@),
{
    match as_utf8(block) {
        Some(s) => push_str(out, s),
        None => out.push(63),
    }
    proof {
        assert(final(out)@ =~= old(out)@ + path_text(block@));
    }
}

/// Whether `s` holds a NUL byte.
fn has_nul(s: &[u8]) -> (r: bool)
    ensures
        r == s@.contains(0u8),
{
    crate::applets::args::contains_byte(s, 0)
}

/// Block `k` of the bytes `d` as `out` shows it: the `BUF_SIZE` bytes from
/// `k * BUF_SIZE` on (fewer at the end), as a hex dump at that offset or as
/// text.
pub open spec fn out_piece(d: Seq<u8>, hex: bool, k: int) -> Seq<u8> {
    let lo = k * 512;
    let hi = if d.len() < lo + 512 {
        d.len() as int
    } else {
        lo + 512
    };
    if hex {
        hex_lines(lo as u32, d.subrange(lo, hi), 0)
    } else {
        path_text(d.subrange(lo, hi))
    }
}

/// The first `n` blocks of `d` as `out` shows them.
pub open spec fn out_blocks(d: Seq<u8>, hex: bool, n: nat) -> Seq<u8>
    decreases n,
{
    if n == 0 {
        Seq::empty()
    } else {
        out_blocks(d, hex, (n - 1) as nat) + out_piece(d, hex, n - 1)
    }
}

/// The entry of the file `p` names on `v` (32 bytes).
pub open spec fn file_entry<D: BlockDevice>(v: FatVolume<D>, p: Seq<u8>) -> Seq<u8> {
    match path_lookup(v, p) {
        Lookup::Found(c, k) => v.cluster_bytes(c).subrange(32 * k, 32 * k + 32),
        _ => Seq::empty(),
    }
}

/// How many bytes of a file whose entry is `e` `out` shows with `limit`:
/// `limit` when it is not zero and below the file size, else the size.
pub open spec fn out_remain(e: Seq<u8>, limit: nat) -> int {
    if limit > 0 && limit < le32(e, 0x1C) {
        limit as int
    } else {
        le32(e, 0x1C)
    }
}

/// The bytes `out` shows of the file whose entry is `e` on `v`.
pub open spec fn out_data<D: BlockDevice>(v: FatVolume<D>, e: Seq<u8>, limit: nat) -> Seq<u8> {
    v.stream(entry_cluster(e, 0), 0, 0, out_remain(e, limit) as nat)
}

/// The first block (up to `BUF_SIZE` bytes) of the file whose entry is `e`.
pub open spec fn first_block<D: BlockDevice>(v: FatVolume<D>, e: Seq<u8>) -> Seq<u8> {
    v.stream(entry_cluster(e, 0), 0, 0, (if le32(e, 0x1C) < 512 {
        le32(e, 0x1C)
    } else {
        512
    }) as nat)
}

/// What `out` shows of a file whose entry is `e` on `v`, limited to
/// `limit` bytes when that is not zero: its first bytes block by block, as
/// text with a final newline or, when the file's first block holds a NUL,
/// as a hex dump; the blocks shown are the first `n`, all of them when every
/// read succeeds.
pub open spec fn shows_file<D: BlockDevice>(v: FatVolume<D>, e: Seq<u8>, limit: nat, r: Seq<u8>) -> bool {
    exists|n: nat|
        #![trigger out_blocks(out_data(v, e, limit), false, n)]
        #![trigger out_blocks(out_data(v, e, limit), true, n)]
        n * 512 < out_data(v, e, limit).len() + 512 && (r == out_blocks(out_data(v, e, limit), false, n) + seq![10u8]
            || (first_block(v, e).contains(0u8) && r == out_blocks(out_data(v, e, limit), true, n)))
}

/// The `out` applet: shows the file named in `args` (its last operand),
/// as text or, when its first block holds a NUL byte, as a hex dump; with
/// `-n N` at most its first N bytes.
pub fn run<D: BlockDevice>(vol: &mut FatVolume<D>, args: &[&str]) -> (r: Vec<u8>)
    requires
        old(vol).wf(),
    ensures
        final(vol).wf(),
        same_geometry(*old(vol), *final(vol)),
        out_args(args@, 0, "", 0) is Err ==> r@ == "out: ".spec_bytes() + arg_error_text(ArgError::InvalidOption).spec_bytes()
            + seq![10u8],
        out_args(args@, 0, "", 0) matches Ok((p, _)) ==> (p.spec_bytes().len() == 0 ==> r@ == "out: missing file operand\n".spec_bytes()),
        out_args(args@, 0, "", 0) matches Ok((p, _)) ==> (p.spec_bytes().len() > 0 && old(vol).resolve(p.spec_bytes()) is NoPath
            ==> r@ == "out: cannot access '".spec_bytes() + p.spec_bytes() + "': No such file or directory\n".spec_bytes()),
        out_args(args@, 0, "", 0) matches Ok((p, _)) ==> (p.spec_bytes().len() > 0 && names_dir(*old(vol), p.spec_bytes())
            ==> r@ == "out: '".spec_bytes() + p.spec_bytes() + "': Is a directory\n".spec_bytes() || r@
            == "out: cannot access '".spec_bytes() + p.spec_bytes() + "': No such file or directory\n".spec_bytes()),
        out_args(args@, 0, "", 0) matches Ok((p, limit)) ==> (p.spec_bytes().len() > 0 && names_file(*old(vol), p.spec_bytes())
            ==> r@ == "out: cannot access '".spec_bytes() + p.spec_bytes() + "': No such file or directory\n".spec_bytes()
            || r@ == "out: cannot open '".spec_bytes() + p.spec_bytes() + "'\n".spec_bytes() || shows_file(
            *old(vol),
            file_entry(*old(vol), p.spec_bytes()),
            limit,
            r@,
        )),
{
    let mut out: Vec<u8> = Vec::new();
    let (path, limit) = match parse_args(args) {
        Ok(x) => x,
        Err(e) => {
            proof {
                assert(e == ArgError::InvalidOption) by {
                    lemma_out_args_error(args@, 0, "", 0);
                }
            }
            push_str(&mut out, "out: ");
            push_str(&mut out, arg_error_message(e));
            out.push(10);
            return out;
        },
    };
    if path.as_bytes().len() == 0 {
        push_str(&mut out, "out: missing file operand\n");
        return out;
    }
    let info = match f_stat(vol, path) {
        Ok(i) => i,
        Err(_) => {
            push_str(&mut out, "out: cannot access '");
            push_str(&mut out, path);
            push_str(&mut out, "': No such file or directory\n");
            return out;
        },
    };
    proof {
        if names_dir(*old(vol), path.spec_bytes()) {
            lemma_flag_bits();
            if !(old(vol).resolve(path.spec_bytes()) matches Walk::Done(_, i) && i == path.spec_bytes().len()) {
                let (c, k) = choose|c: int, k: int| path_lookup(*old(vol), path.spec_bytes()) == Lookup::Found(c, k);
                assert(info == entry_info(old(vol).cluster_bytes(c), 32 * k));
            }
            assert(info.attributes & 0x10 != 0);
        }
    }
    if info.attributes & 0x10 != 0 {
        push_str(&mut out, "out: '");
        push_str(&mut out, path);
        push_str(&mut out, "': Is a directory\n");
        return out;
    }
    show_file(vol, path, limit)
}

/// Shows the file `path` as `out` does (see [`shows_file`]), `limit`
/// bytes of it when that is not zero, or the line for a file that cannot
/// be opened.
#[verifier::rlimit(100)]
#[verifier::spinoff_prover]
fn show_file<D: BlockDevice>(vol: &mut FatVolume<D>, path: &str, limit: usize) -> (out: Vec<u8>)
    requires
        old(vol).wf(),
    ensures
        *final(vol) == *old(vol),
        names_file(*old(vol), path.spec_bytes()) ==> out@ == "out: cannot open '".spec_bytes() + path.spec_bytes()
            + "'\n".spec_bytes() || shows_file(*old(vol), file_entry(*old(vol), path.spec_bytes()), limit as nat, out@),
{
    let mut out: Vec<u8> = Vec::new();
    proof {
        lemma_flag_bits();
    }
    let ghost nf = names_file(*old(vol), path.spec_bytes());
    let ghost e = file_entry(*old(vol), path.spec_bytes());
    let ghost start = entry_cluster(e, 0);
    let ghost esize = le32(e, 0x1C);
    let mut file = match f_open(vol, path, FA_READ) {
        Ok(f) => f,
        Err(_) => {
            push_str(&mut out, "out: cannot open '");
            push_str(&mut out, path);
            push_str(&mut out, "'\n");
            proof {
                assert(out@ =~= "out: cannot open '".spec_bytes() + path.spec_bytes() + "'\n".spec_bytes());
            }
            return out;
        },
    };
    let size = f_size(&file);
    let mut probe: Vec<u8> = vec![0u8; BUF_SIZE];
    let ghost fp = file;
    let pr = f_read(vol, &mut file, &mut probe);
    let probe_len = match pr {
        Ok(n) => n,
        Err(_) => 0,
    };
    let head = copy_range(probe.as_slice(), 0, probe_len);
    let is_binary = has_nul(head.as_slice());
    let ghost first_len = (if esize < 512 {
        esize
    } else {
        512
    }) as nat;
    proof {
        if nf {
            assert(fp.current_cluster == start && fp.sector_in_cluster == 0 && fp.byte_in_sector == 0);
            assert(fp.size == esize && fp.position == 0);
            if is_binary {
                assert(head@ == old(vol).stream(start, 0, 0, first_len));
            }
        }
    }
    let ghost fq = file;
    let sought = f_lseek(vol, &mut file, 0);
    let readable = sought.is_ok() && file.byte_in_sector < 512 && file.sector_in_cluster < vol.sectors_per_cluster
        && file.position <= file.size;
    let remain: usize = if limit > 0 && limit < size as usize {
        limit
    } else {
        size as usize
    };
    let ghost dd = old(vol).stream(start, 0, 0, remain as nat);
    proof {
        if nf && readable {
            assert(fq.start_cluster == start);
            if fq.position != 0 {
                let cs = vol.cluster_size();
                assert(0int / cs == 0 && 0int % cs == 0) by (nonlinear_arith)
                    requires
                        cs > 0,
                ;
                assert(chain_nth(*vol, fq.start_cluster as int, 0) == Some(fq.start_cluster as int));
            } else {
                match pr {
                    Ok(n) => {
                        assert(fq == fp);
                    },
                    Err(_) => {},
                }
            }
            assert(file.current_cluster == start && file.sector_in_cluster == 0 && file.byte_in_sector == 0);
            assert forall|t: nat| t >= 0 implies #[trigger] old(vol).stream(start, 0, 0, t) == dd.subrange(0, 0)
                + old(vol).stream(
                file.current_cluster as int,
                file.sector_in_cluster as int,
                file.byte_in_sector as int,
                (t - 0) as nat,
            ) by {
                assert(dd.subrange(0, 0) =~= Seq::<u8>::empty());
                assert(Seq::<u8>::empty() + old(vol).stream(start, 0, 0, t) =~= old(vol).stream(start, 0, 0, t));
            }
        }
    }
    let ghost mut q: int = 0;
    let ghost mut k: nat = 0;
    let ghost mut alive = true;
    if is_binary {
        let mut offset: u32 = 0;
        let mut done = !readable;
        while offset < remain as u32 && !done
            invariant
                vol.wf(),
                *vol == *old(vol),
                remain <= size,
                offset <= remain,
                !done ==> file_wf(*vol, file),
                !done ==> file.position <= file.size,
                nf ==> q == offset,
                nf ==> size == esize,
                nf ==> dd == old(vol).stream(start, 0, 0, remain as nat),
                nf && !done ==> file.position == q && file.size == esize,
                nf && !done && alive ==> forall|t: nat|
                    t >= q ==> #[trigger] old(vol).stream(start, 0, 0, t) == dd.subrange(0, q) + old(vol).stream(
                        file.current_cluster as int,
                        file.sector_in_cluster as int,
                        file.byte_in_sector as int,
                        (t - q) as nat,
                    ),
                nf && !done && !alive ==> file.current_cluster == 0,
                nf ==> q <= dd.len(),
                nf ==> q == 512 * k || (q == dd.len() && 512 * k >= dd.len()),
                nf && alive && offset < remain ==> q == 512 * k,
                nf ==> k * 512 < dd.len() + 512,
                nf ==> out@ == out_blocks(dd, true, k),
            decreases remain - offset, if done { 0int } else { 1int },
        {
            let to_read = if remain - (offset as usize) < BUF_SIZE { remain - (offset as usize) } else { BUF_SIZE };
            let mut buf: Vec<u8> = vec![0u8; to_read];
            let ghost fs = file;
            let rr = f_read(vol, &mut file, &mut buf);
            let read = match rr {
                Ok(n) => n,
                Err(_) => 0,
            };
            if read == 0 {
                done = true;
                continue;
            }
            let chunk = copy_range(buf.as_slice(), 0, read);
            let text = hex_dump(offset, chunk.as_slice());
            let ghost o0 = out@;
            push_bytes(&mut out, text.as_slice());
            proof {
                if nf {
                    lemma_out_block(
                        *old(vol),
                        start,
                        dd,
                        q,
                        k,
                        remain as int,
                        to_read as int,
                        (fs.current_cluster as int, fs.sector_in_cluster as int, fs.byte_in_sector as int),
                        (file.current_cluster as int, file.sector_in_cluster as int, file.byte_in_sector as int),
                        chunk@,
                        alive,
                    );
                    assert(out_piece(dd, true, k as int) == text@);
                    assert(out@ == out_blocks(dd, true, k + 1));
                    alive = file.current_cluster != 0 && read == to_read;
                    q = q + read;
                    k = k + 1;
                }
            }
            offset = offset + read as u32;
        }
        proof {
            if nf {
                assert(old(vol).stream(start, 0, 0, first_len).contains(0u8));
                assert(dd == out_data(*old(vol), e, limit as nat));
                assert(old(vol).stream(start, 0, 0, first_len) == first_block(*old(vol), e));
                lemma_shows_file(*old(vol), e, limit as nat, out@, k, true);
            }
        }
    } else {
        let mut remaining: usize = remain;
        let mut done = !readable;
        while remaining > 0 && !done
            invariant
                vol.wf(),
                *vol == *old(vol),
                remaining <= remain,
                !done ==> file_wf(*vol, file),
                !done ==> file.position <= file.size,
                nf ==> q == remain - remaining,
                nf ==> size == esize,
                nf ==> remain <= esize,
                nf ==> dd == old(vol).stream(start, 0, 0, remain as nat),
                nf && !done ==> file.position == q && file.size == esize,
                nf && !done && alive ==> forall|t: nat|
                    t >= q ==> #[trigger] old(vol).stream(start, 0, 0, t) == dd.subrange(0, q) + old(vol).stream(
                        file.current_cluster as int,
                        file.sector_in_cluster as int,
                        file.byte_in_sector as int,
                        (t - q) as nat,
                    ),
                nf && !done && !alive ==> file.current_cluster == 0,
                nf ==> q <= dd.len(),
                nf ==> q == 512 * k || (q == dd.len() && 512 * k >= dd.len()),
                nf && alive && remaining > 0 ==> q == 512 * k,
                nf ==> k * 512 < dd.len() + 512,
                nf ==> out@ == out_blocks(dd, false, k),
            decreases remaining, if done { 0int } else { 1int },
        {
            let to_read = if remaining < BUF_SIZE { remaining } else { BUF_SIZE };
            let mut buf: Vec<u8> = vec![0u8; to_read];
            let ghost fs = file;
            let rr = f_read(vol, &mut file, &mut buf);
            let read = match rr {
                Ok(n) => n,
                Err(_) => 0,
            };
            if read == 0 {
                done = true;
                continue;
            }
            let chunk = copy_range(buf.as_slice(), 0, read);
            text_block(&mut out, chunk.as_slice());
            proof {
                if nf {
                    lemma_out_block(
                        *old(vol),
                        start,
                        dd,
                        q,
                        k,
                        remain as int,
                        to_read as int,
                        (fs.current_cluster as int, fs.sector_in_cluster as int, fs.byte_in_sector as int),
                        (file.current_cluster as int, file.sector_in_cluster as int, file.byte_in_sector as int),
                        chunk@,
                        alive,
                    );
                    assert(out@ == out_blocks(dd, false, k + 1));
                    alive = file.current_cluster != 0 && read == to_read;
                    q = q + read;
                    k = k + 1;
                }
            }
            remaining = remaining - read;
        }
        out.push(10);
        proof {
            if nf {
                assert(out@ == out_blocks(dd, false, k) + seq![10u8]);
                assert(dd == out_data(*old(vol), e, limit as nat));
                lemma_shows_file(*old(vol), e, limit as nat, out@, k, false);
            }
        }
    }
    let _ = f_close(file);
    out
}

/// [`shows_file`] holds with the first `n` blocks shown.
proof fn lemma_shows_file<D: BlockDevice>(v: FatVolume<D>, e: Seq<u8>, limit: nat, r: Seq<u8>, n: nat, hex: bool)
    requires
        n * 512 < out_data(v, e, limit).len() + 512,
        !hex ==> r == out_blocks(out_data(v, e, limit), false, n) + seq![10u8],
        hex ==> r == out_blocks(out_data(v, e, limit), true, n) && first_block(v, e).contains(0u8),
    ensures
        shows_file(v, e, limit, r),
{
    let d = out_data(v, e, limit);
    if hex {
        assert(out_blocks(d, true, n) == r);
    } else {
        assert(out_blocks(d, false, n) + seq![10u8] == r);
    }
}

/// One block of `out`: the bytes `data` a read of `want` bytes from state
/// `fc` gave (continuing from state `nc`) are the block of the file's
/// bytes `dd` that starts at `q`, and the reading can go on from there.
proof fn lemma_out_block<D: BlockDevice>(
    v: FatVolume<D>,
    start: int,
    dd: Seq<u8>,
    q: int,
    k: nat,
    remain: int,
    want: int,
    fc: (int, int, int),
    nc: (int, int, int),
    data: Seq<u8>,
    alive: bool,
)
    requires
        dd == v.stream(start, 0, 0, remain as nat),
        0 <= q <= dd.len(),
        q + want <= remain,
        1 <= want <= 512,
        want < 512 ==> q + want == remain,
        1 <= data.len() <= want,
        alive ==> forall|t: nat|
            t >= q ==> #[trigger] v.stream(start, 0, 0, t) == dd.subrange(0, q) + v.stream(fc.0, fc.1, fc.2, (t - q) as nat),
        !alive ==> fc.0 == 0,
        fc.0 >= 2,
        alive && q + want < remain ==> q == 512 * k,
        alive ==> q == 512 * k || want == remain - q,
        q == 512 * k || (q == dd.len() && 512 * k >= dd.len()),
        data == v.stream(fc.0, fc.1, fc.2, want as nat),
        data.len() == want || nc.0 == 0,
        forall|t: nat|
            t >= data.len() ==> (#[trigger] v.stream(fc.0, fc.1, fc.2, t) == data + v.stream(
                nc.0,
                nc.1,
                nc.2,
                (t - data.len()) as nat,
            ) || (nc.0 == 0 && v.stream(fc.0, fc.1, fc.2, t) == data)),
        data.len() < want ==> forall|t: nat| t >= data.len() ==> #[trigger] v.stream(fc.0, fc.1, fc.2, t) == data,
    ensures
        alive,
        q + data.len() <= dd.len(),
        dd.subrange(q, q + data.len()) == data,
        q == 512 * k,
        (if dd.len() < q + 512 { dd.len() as int } else { q + 512 }) == q + data.len(),
        nc.0 != 0 && data.len() == want ==> forall|t: nat|
            t >= q + data.len() ==> #[trigger] v.stream(start, 0, 0, t) == dd.subrange(0, q + data.len()) + v.stream(
                nc.0,
                nc.1,
                nc.2,
                (t - q - data.len()) as nat,
            ),
        q + data.len() == 512 * (k + 1) || (q + data.len() == dd.len() && 512 * (k + 1) >= dd.len()),
        (k + 1) * 512 < dd.len() + 512,
{
    let n = data.len() as int;
    let x = v.stream(fc.0, fc.1, fc.2, (remain - q) as nat);
    assert(v.stream(start, 0, 0, remain as nat) == dd.subrange(0, q) + x);
    assert(dd.subrange(q, dd.len() as int) =~= x);
    assert((remain - q) as nat >= n);
    if n < want || (nc.0 == 0 && x == data) {
        assert(x == data);
    } else {
        assert(x == data + v.stream(nc.0, nc.1, nc.2, ((remain - q) as nat - n) as nat));
    }
    assert(dd.subrange(q, q + n) =~= data);
    if want < 512 && n == want {
        assert(q + want == remain || !alive || q == 512 * k);
    }
    if n == want && want == remain - q {
        assert(v.stream(nc.0, nc.1, nc.2, 0) =~= Seq::<u8>::empty());
        assert(x == data);
    }
    if nc.0 != 0 && n == want {
        assert forall|t: nat| t >= q + n implies #[trigger] v.stream(start, 0, 0, t) == dd.subrange(0, q + n) + v.stream(
            nc.0,
            nc.1,
            nc.2,
            (t - q - n) as nat,
        ) by {
            assert(v.stream(start, 0, 0, t) == dd.subrange(0, q) + v.stream(fc.0, fc.1, fc.2, (t - q) as nat));
            assert(v.stream(fc.0, fc.1, fc.2, (t - q) as nat) == data + v.stream(
                nc.0,
                nc.1,
                nc.2,
                ((t - q) as nat - n) as nat,
            ));
            assert(dd.subrange(0, q + n) =~= dd.subrange(0, q) + data);
        }
    }
}

/// The arguments of `out` are refused only for an unknown option.
proof fn lemma_out_args_error<'a>(args: Seq<&'a str>, i: int, path: &'a str, limit: nat)
    ensures
        out_args(args, i, path, limit) matches Err(e) ==> e == ArgError::InvalidOption,
    decreases args.len() - i,
{
    if 0 <= i < args.len() {
        let a = args[i].spec_bytes();
        if is_option(a) {
            if a[1] == 110 && i + 1 < args.len() {
                let v = match number_value(args[i + 1].spec_bytes()) {
                    Some(v) => v,
                    None => 0,
                };
                lemma_out_args_error(args, i + 2, path, v);
            }
        } else {
            lemma_out_args_error(args, i + 1, args[i], limit);
        }
    }
}

} // verus!
