//! Scenarios of the kernel's pure parts: number formatting, the shell's
//! line editor and commands, the reporting applets, interrupts, the
//! keyboard, the console and the APIC arithmetic.

use lib::acpi::MadtInfo;
use lib::apic::{calibrate_step, current_cpu_index, icr_destination, ioapic_address, is_ready, sipi_command, ApicState, IOAPIC_DEFAULT_BASE};
use lib::applets::args::{parse_number, ArgError};
use lib::applets::{build_registry, AppletKind, AppletRegistry};
use lib::applets::{datetime, heap, ls, sysinfo};
use lib::cpuid::{query, CpuidLeaves, CpuidRegs};
use lib::display::VgaDisplay;
use lib::fmt::{dec_str, hex_str_fixed, radix_str};
use lib::framebuffer::FramebufferDisplay;
use lib::idt::{InterruptController, IrqAction};
use lib::block::{BlockDevice, RamDisk};
use lib::input::{irq1_handler, Input, Ps2Keyboard};
use lib::rtc::{read_datetime, RtcDate, RtcSample};
use lib::shell::builtins::print_help;
use lib::shell::{banner, echo, split_args, split_command, unknown_command, Builtin, Command, Shell};

fn text(v: &[u8]) -> String {
    String::from_utf8(v.to_vec()).unwrap()
}

fn regs(eax: u32, ebx: u32, ecx: u32, edx: u32) -> CpuidRegs {
    CpuidRegs { eax, ebx, ecx, edx }
}

fn word(s: &[u8]) -> u32 {
    u32::from_le_bytes([s[0], s[1], s[2], s[3]])
}

/// Leaves of a processor called `GenuineIntel` with brand `  Test CPU @ 1GHz`.
fn leaves() -> CpuidLeaves {
    let mut brand_bytes = [0u8; 48];
    let b = b"  Test CPU @ 1GHz";
    brand_bytes[..b.len()].copy_from_slice(b);
    let mut brand = [regs(0, 0, 0, 0); 3];
    for (i, r) in brand.iter_mut().enumerate() {
        let s = &brand_bytes[16 * i..16 * i + 16];
        *r = regs(word(&s[0..4]), word(&s[4..8]), word(&s[8..12]), word(&s[12..16]));
    }
    CpuidLeaves {
        basic: regs(0xD, word(b"Genu"), word(b"ntel"), word(b"ineI")),
        info: regs(0x000306A9, 0, 0x1, 0x1 | (1 << 4) | (1 << 26)),
        ext_max: regs(0x8000_0004, 0, 0, 0),
        ext_info: regs(0, 0, 0, 0),
        brand,
    }
}

#[test]
fn number_formatting() {
    assert_eq!(dec_str(0), b"0".to_vec());
    assert_eq!(dec_str(1234567890), b"1234567890".to_vec());
    assert_eq!(radix_str(255, 16, true), b"FF".to_vec());
    assert_eq!(radix_str(5, 2, false), b"101".to_vec());
    assert_eq!(hex_str_fixed(0xBEEF, 8, false), b"0000beef".to_vec());
}

#[test]
fn number_arguments_parse_like_usize() {
    assert_eq!(parse_number(b"42"), Some(42));
    assert_eq!(parse_number(b"+7"), Some(7));
    assert_eq!(parse_number(b""), None);
    assert_eq!(parse_number(b"+"), None);
    assert_eq!(parse_number(b"-3"), None);
    assert_eq!(parse_number(b"12x"), None);
    assert_eq!(parse_number(b"99999999999999999999999"), None);
}

#[test]
fn heap_report_text() {
    let out = heap::run(0x300000, 3);
    assert_eq!(
        text(&out),
        "planckOS v0.1 - Heap Allocator\n\
         Total heap:     0x0000000000400000\n\
         Free:           0x0000000000300000\n\
         Used:           0x0000000000100000\n\
         Live allocs:    3\n\
         Utilization:    25\n%\r\n"
    );
}

#[test]
fn datetime_line() {
    let dt = RtcDate { year: 2026, month: 3, day: 7, hours: 9, minutes: 5, seconds: 42 };
    assert_eq!(text(&datetime::run(dt)), "March 7, 2026  09:05:42\n");
    let odd = RtcDate { year: 2026, month: 13, day: 1, hours: 0, minutes: 0, seconds: 0 };
    assert_eq!(text(&datetime::run(odd)), "??? 1, 2026  00:00:00\n");
}

#[test]
fn rtc_stable_read_in_bcd() {
    let s = RtcSample { sec1: 0x42, minutes: 0x05, hours: 0x09, day: 0x07, month: 0x03, year: 0x26, sec2: 0x42 };
    let d = read_datetime(0x00, 0, s).unwrap();
    assert_eq!((d.year, d.month, d.day, d.hours, d.minutes, d.seconds), (2026, 3, 7, 9, 5, 42));
    let torn = RtcSample { sec2: 0x43, ..s };
    assert!(read_datetime(0x00, 0, torn).is_none());
}

#[test]
fn sysinfo_report_lines() {
    let info = query(&leaves());
    let out = text(&sysinfo::run(&info, 0x7A00000, 18 * 125));
    let lines: Vec<&str> = out.split('\n').collect();
    assert_eq!(lines[0], "planckOS v0.1 - System Information");
    assert_eq!(lines[1], "");
    assert_eq!(lines[2], "Kernel:       planckOS v0.1 (x86-64, Rust)\r");
    assert_eq!(lines[3], "CPU Vendor:   GenuineIntel");
    assert_eq!(lines[4], "CPU Model:    Test CPU @ 1GHz");
    assert_eq!(lines[6], "Features:     FPU TSC SSE2 SSE3");
    assert_eq!(lines[7], "Memory:       122 MB usable");
    assert_eq!(lines[8], "Uptime:       2m 5s");
}

#[test]
fn registry_lists_and_finds() {
    let reg = build_registry(true, false);
    let names: Vec<&str> = reg.list().iter().map(|a| a.name).collect();
    assert_eq!(names, vec!["sysinfo", "heap"]);
    assert!(reg.find("heap").is_some());
    assert!(reg.find("datetime").is_none());
    assert!(matches!(reg.find("sysinfo").unwrap().kind, AppletKind::Sysinfo));
    let empty = AppletRegistry::new(Vec::new());
    assert!(empty.find("heap").is_none());
}

#[test]
fn help_text_lists_builtins_and_applets() {
    let out = text(&print_help(&build_registry(false, true)));
    assert!(out.starts_with("Built-in commands:\n  echo        - Prints text\n"));
    assert!(out.contains("  shutdown    - Shuts down the system\n"));
    assert!(out.ends_with("Applets:\n  datetime    - Display current date and time\n  heap        - Show heap allocator statistics\n"));
}

#[test]
fn shell_edits_and_enters_a_line() {
    let mut sh = Shell::new(build_registry(false, false), 80);
    for &c in b"ecgo" {
        sh.handle_key(c);
    }
    sh.handle_key(3);
    sh.handle_key(8);
    let (_, none) = sh.handle_key(b'h');
    assert!(none.is_none());
    assert_eq!(sh.line, b"echo".to_vec());
    let (shown, entered) = sh.handle_key(b'\r');
    assert_eq!(shown, vec![b'\n']);
    assert_eq!(entered.unwrap(), b"echo".to_vec());
    assert_eq!(sh.history_get(0), b"echo".to_vec());
    assert!(sh.line.is_empty());
}

#[test]
fn shell_redraw_after_insert() {
    let mut sh = Shell::new(build_registry(false, false), 8);
    let (shown, _) = sh.handle_key(b'x');
    assert_eq!(shown, b"\r$      \r$ x".to_vec());
    sh.handle_key(3);
    let (shown, _) = sh.handle_key(b'y');
    assert_eq!(shown, b"\r$      \r$ yx\x08".to_vec());
}

#[test]
fn shell_history_navigation() {
    let mut sh = Shell::new(build_registry(false, false), 80);
    for line in [&b"ls"[..], b"cls"] {
        for &c in line {
            sh.handle_key(c);
        }
        sh.handle_key(b'\n');
    }
    sh.handle_key(1);
    assert_eq!(sh.line, b"cls".to_vec());
    sh.handle_key(1);
    assert_eq!(sh.line, b"ls".to_vec());
    sh.handle_key(1);
    assert_eq!(sh.line, b"ls".to_vec());
    sh.handle_key(2);
    assert_eq!(sh.line, b"cls".to_vec());
    sh.handle_key(2);
    assert!(sh.line.is_empty());
    assert_eq!(text(&sh.history_text()), " 02  ls\n 01  cls\n");
}

#[test]
fn shell_history_keeps_sixty_four() {
    let mut sh = Shell::new(build_registry(false, false), 80);
    for i in 0..70u32 {
        sh.history_push(format!("c{}", i).as_bytes());
    }
    assert_eq!(sh.history.len(), 64);
    assert_eq!(sh.history_get(0), b"c69".to_vec());
    assert_eq!(sh.history_get(63), b"c6".to_vec());
    assert!(sh.history_get(64).is_empty());
    sh.history_push(b"");
    assert_eq!(sh.history_get(0), b"c69".to_vec());
}

#[test]
fn shell_commands_are_classified() {
    let sh = Shell::new(build_registry(true, true), 80);
    assert!(matches!(sh.classify(b""), Command::Empty));
    assert!(matches!(sh.classify(b"echo hi there"), Command::Builtin(Builtin::Echo)));
    assert!(matches!(sh.classify(b"ls -l /"), Command::Builtin(Builtin::Ls)));
    assert!(matches!(sh.classify(b"datetime"), Command::Applet(AppletKind::Datetime)));
    assert!(matches!(sh.classify(b"frob"), Command::Unknown));
    assert_eq!(text(&unknown_command(b"frob")), "Unknown command: frob\n");
    assert_eq!(unknown_command(&[0xFF]), b"Unknown command: ?\n".to_vec());
}

#[test]
fn shell_splits_arguments() {
    let (cmd, args) = split_command(b"cp  a b");
    assert_eq!(cmd, b"cp".to_vec());
    assert_eq!(args, b" a b".to_vec());
    assert_eq!(split_args(&args), vec![b"a".to_vec(), b"b".to_vec()]);
    let many: Vec<u8> = (0..20).flat_map(|i| format!("w{} ", i).into_bytes()).collect();
    assert_eq!(split_args(&many).len(), 16);
    assert_eq!(split_args(&[b'a', b' ', 0xFF, b' ', b'c']), vec![b"a".to_vec(), b"c".to_vec()]);
    assert_eq!(echo(b"hi there"), b"hi there\n".to_vec());
    assert!(echo(&[0xC0]).is_empty());
    assert!(text(&banner()).starts_with("planckOS v0.1 - x86-64 Rust\n"));
}

#[test]
fn ls_options() {
    assert!(matches!(ls::parse_ls_args(&["-x"]), Err(ArgError::InvalidOption)));
    let (paths, flags) = ls::parse_ls_args(&["-lr", "a"]).ok().unwrap();
    assert_eq!(paths, vec!["a"]);
    assert!(flags.long && flags.reverse && !flags.all && !flags.sort_size);
    let (paths, _) = ls::parse_ls_args(&[]).ok().unwrap();
    assert_eq!(paths, vec!["/"]);
}

#[test]
fn ls_orders_and_lays_out() {
    let es = vec![
        ls::LsEntry { name: b"B.TXT".to_vec(), size: 5, is_dir: false },
        ls::LsEntry { name: b"A".to_vec(), size: 123456789, is_dir: true },
        ls::LsEntry { name: b"C".to_vec(), size: 0, is_dir: false },
    ];
    let by_name = ls::LsFlags { long: true, all: false, sort_size: false, reverse: false };
    let out = ls::listing(&es, by_name);
    let mut expect = Vec::new();
    expect.extend_from_slice(b"         0\0 C\n");
    expect.extend_from_slice(b"         5\0 B.TXT\n");
    expect.extend_from_slice(b"d 23456789\0 A\n");
    assert_eq!(out, expect);
    let cols = ls::LsFlags { long: false, all: false, sort_size: true, reverse: false };
    assert_eq!(text(&ls::listing(&es, cols)), "C      B.TXT  A/     \n");
}

#[test]
fn interrupts_dispatch() {
    let mut ic = InterruptController::new();
    assert!(matches!(ic.dispatch(32, 0), IrqAction::Tick));
    assert_eq!(ic.ticks, 1);
    assert!(matches!(ic.dispatch(33, 0), IrqAction::Keyboard));
    match ic.dispatch(14, 2) {
        IrqAction::Halt(t) => assert_eq!(text(&t), "EXC #000000000000000E ERR=0000000000000002 -- HALT"),
        _ => panic!("exception did not halt"),
    }
    assert_eq!(ic.ticks, 1);
}

#[test]
fn keyboard_decodes_scancodes() {
    let mut kbd = Ps2Keyboard::new();
    irq1_handler(&mut kbd, 0x1C);
    irq1_handler(&mut kbd, 0x12);
    irq1_handler(&mut kbd, 0x1C);
    irq1_handler(&mut kbd, 0xF0);
    irq1_handler(&mut kbd, 0x12);
    irq1_handler(&mut kbd, 0x5A);
    assert_eq!(kbd.getchar(), Some(b'a'));
    assert_eq!(kbd.getchar(), Some(b'A'));
    assert_eq!(kbd.getchar(), Some(b'\n'));
    assert_eq!(kbd.getchar(), None);
}

#[test]
fn console_wraps_and_scrolls() {
    let mut d = VgaDisplay::new();
    d.put_bytes(b"hi\n");
    assert_eq!(d.position(), (1, 0));
    for _ in 0..30 {
        d.put_byte(b'\n');
    }
    assert_eq!(d.position(), (24, 0));
}

#[test]
fn apic_values() {
    let mut s = ApicState::new();
    assert!(!is_ready(&s));
    let mut madt = MadtInfo::new();
    madt.cpu_count = 3;
    madt.cpu_apic_ids = [0, 2, 4, 0, 0, 0, 0, 0];
    assert_eq!(current_cpu_index(&s, &madt, 4), 0);
    s.ready = true;
    assert_eq!(current_cpu_index(&s, &madt, 4), 2);
    assert_eq!(current_cpu_index(&s, &madt, 9), 0);
    assert_eq!(ioapic_address(&madt), IOAPIC_DEFAULT_BASE);
    madt.io_apic_addr = 0xFEC1_0000;
    assert_eq!(ioapic_address(&madt), 0xFEC1_0000);
    assert_eq!(calibrate_step(0x0100_0000, 50), Some(0x0080_0000));
    assert_eq!(calibrate_step(1000, 100), None);
    assert_eq!(calibrate_step(1000, 0), None);
    assert_eq!(icr_destination(3), 0x0300_0000);
    assert_eq!(sipi_command(8), 0x608);
}

/// A PSF2 font of two 8x8 glyphs: glyph 0 blank, glyph 1 a diagonal.
fn tiny_font(with_table: bool) -> Vec<u8> {
    let mut f = vec![0u8; 32];
    f[0..4].copy_from_slice(&[0x72, 0xB5, 0x4A, 0x86]);
    f[8..12].copy_from_slice(&32u32.to_le_bytes());
    f[12..16].copy_from_slice(&(if with_table { 1u32 } else { 0 }).to_le_bytes());
    f[16..20].copy_from_slice(&2u32.to_le_bytes());
    f[20..24].copy_from_slice(&8u32.to_le_bytes());
    f[24..28].copy_from_slice(&8u32.to_le_bytes());
    f[28..32].copy_from_slice(&8u32.to_le_bytes());
    f.extend_from_slice(&[0u8; 8]);
    f.extend_from_slice(&[0x80, 0x40, 0x20, 0x10, 0x08, 0x04, 0x02, 0x01]);
    if with_table {
        for w in [b'X' as u16, 1, 0xFFFF, 7] {
            f.extend_from_slice(&w.to_le_bytes());
        }
    }
    f
}

#[test]
fn framebuffer_draws_and_wraps() {
    let mut d = FramebufferDisplay::new(&tiny_font(false), 16, 16, 64, 32);
    assert_eq!(d.glyph_index(1), 1);
    assert_eq!(d.glyph_index(3), 1);
    d.putchar(1);
    assert_eq!((d.cursor_x, d.cursor_y), (8, 0));
    for i in 0..8 {
        for j in 0..8 {
            let expect = if i == j { 0x00FF_FFFF } else { 0 };
            assert_eq!(d.fb[i * 16 + j], expect);
        }
    }
    d.putchar(2);
    assert_eq!((d.cursor_x, d.cursor_y), (0, 8));
    d.putchar(b'\n');
    assert_eq!((d.cursor_x, d.cursor_y), (0, 8));
    assert!(d.fb.iter().all(|&p| p == 0), "scrolled the drawn line away");
}

#[test]
fn framebuffer_unicode_table() {
    let d = FramebufferDisplay::new(&tiny_font(true), 16, 16, 64, 32);
    assert_eq!(d.unicode, vec![b'X' as u16, 1, 0xFFFF, 7]);
    assert_eq!(d.glyph_index(b'X'), 1);
    assert_eq!(d.glyph_index(7), 1);
    assert_eq!(d.glyph_index(0), 0);
}

#[test]
fn input_trait_reads_queue_and_resets() {
    let mut k = Ps2Keyboard::new();
    irq1_handler(&mut k, 0x1C);
    irq1_handler(&mut k, 0x1B);
    assert_eq!(Input::getchar(&mut k), Some(b'a'));
    Input::init(&mut k);
    assert_eq!(Input::getchar(&mut k), None);
}

#[test]
fn ram_disk_sectors_in_range_only() {
    let mut d = RamDisk::new(4);
    let mut sector = [7u8; 512];
    assert!(d.write_sector(3, &sector));
    assert!(!d.write_sector(4, &sector));
    sector = [0u8; 512];
    assert!(d.read_sector(3, &mut sector));
    assert_eq!(sector[100], 7);
    assert!(!d.read_sector(4, &mut sector));
}
