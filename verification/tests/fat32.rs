//! FAT32 driver scenarios on a small volume built in memory: a root
//! directory with a label, `KERNEL.BIN` and the directory `QASM` holding
//! `README.TXT`.

use lib::applets::{cp, ls, mk, out, rm};
use lib::block::RamDisk;
use lib::fat32::volume::{FA_CREATE_ALWAYS, FA_CREATE_NEW, FA_OPEN_ALWAYS, FA_OPEN_EXISTING, FA_READ, FA_WRITE};
use lib::fat32::{
    f_chdir, f_chmod, f_close, f_closedir, f_eof, f_error, f_expand, f_findfirst, f_findnext, f_getcwd, f_getfree,
    f_getlabel, f_gets, f_lseek, f_mkdir, f_mount, f_open, f_opendir, f_printf, f_putc, f_puts, f_read, f_readdir,
    f_rename, f_setlabel, f_size, f_stat, f_sync, f_tell, f_truncate, f_unlink, f_utime, f_write, FError, FatVolume,
    FmtArg,
};

const SECTORS: u32 = 560;
const DATA_LBA: usize = 40;
const KERNEL: &[u8] = b"\x7FELF-planck-kern";

fn put16(d: &mut [u8], off: usize, v: u16) {
    d[off..off + 2].copy_from_slice(&v.to_le_bytes());
}

fn put32(d: &mut [u8], off: usize, v: u32) {
    d[off..off + 4].copy_from_slice(&v.to_le_bytes());
}

fn entry(d: &mut [u8], off: usize, name: &[u8; 11], attr: u8, cluster: u32, size: u32) {
    d[off..off + 11].copy_from_slice(name);
    d[off + 11] = attr;
    put16(d, off + 0x14, (cluster >> 16) as u16);
    put16(d, off + 0x1A, cluster as u16);
    put32(d, off + 0x1C, size);
}

/// The test volume: 512-byte sectors, one sector per cluster, 32 reserved
/// sectors, two FATs of 4 sectors, root directory at cluster 2.
fn image() -> RamDisk {
    let mut disk = RamDisk::new(SECTORS);
    let d = &mut disk.data;
    put16(d, 0x0B, 512);
    d[0x0D] = 1;
    put16(d, 0x0E, 32);
    d[0x10] = 2;
    put32(d, 0x24, 4);
    put32(d, 0x2C, 2);
    d[0x1FE] = 0x55;
    d[0x1FF] = 0xAA;
    for fat in 0..2 {
        let base = (32 + fat * 4) * 512;
        put32(d, base, 0x0FFF_FFF8);
        put32(d, base + 4, 0x0FFF_FFFF);
        for c in 2..6 {
            put32(d, base + 4 * c, 0x0FFF_FFFF);
        }
    }
    let root = DATA_LBA * 512;
    entry(d, root, b"PLANCK     ", 0x08, 0, 0);
    entry(d, root + 32, b"KERNEL  BIN", 0x20, 3, KERNEL.len() as u32);
    entry(d, root + 64, b"QASM       ", 0x10, 4, 0);
    d[(DATA_LBA + 1) * 512..(DATA_LBA + 1) * 512 + KERNEL.len()].copy_from_slice(KERNEL);
    let qasm = (DATA_LBA + 2) * 512;
    entry(d, qasm, b".          ", 0x10, 4, 0);
    entry(d, qasm + 32, b"..         ", 0x10, 0, 0);
    entry(d, qasm + 64, b"README  TXT", 0x20, 5, 11);
    d[(DATA_LBA + 3) * 512..(DATA_LBA + 3) * 512 + 11].copy_from_slice(b"hello qasm\n");
    disk
}

fn mount() -> FatVolume<RamDisk> {
    match f_mount(image()) {
        Ok(v) => v,
        Err(e) => panic!("mount failed: {:?}", e),
    }
}

fn read_all(vol: &mut FatVolume<RamDisk>, path: &str, max: usize) -> Vec<u8> {
    let mut f = f_open(vol, path, FA_READ).expect("open for reading");
    let mut buf = vec![0u8; max];
    let n = f_read(vol, &mut f, &mut buf).expect("read");
    f_close(f).unwrap();
    buf.truncate(n);
    buf
}

fn write_new(vol: &mut FatVolume<RamDisk>, path: &str, data: &[u8]) {
    let mut f = f_open(vol, path, FA_WRITE | FA_CREATE_ALWAYS).expect("create");
    let w = f_write(vol, &mut f, data).expect("write");
    assert_eq!(w, data.len());
    f_sync(vol, &mut f).unwrap();
    f_close(f).unwrap();
}

#[test]
fn fat32_mount_reads_geometry() {
    let vol = mount();
    assert_eq!(vol.sectors_per_cluster, 1);
    assert_eq!(vol.reserved_sectors, 32);
    assert_eq!(vol.num_fats, 2);
    assert_eq!(vol.sectors_per_fat, 4);
    assert_eq!(vol.root_cluster, 2);
    assert_eq!(vol.data_region_lba, 40);
    assert_eq!(vol.cluster_to_lba(2), Some(40));
}

#[test]
fn fat32_mount_refusals() {
    assert!(matches!(f_mount(RamDisk::new(0)), Err(FError::DiskErr)));
    assert!(matches!(f_mount(RamDisk::new(4)), Err(FError::MkfsAborted)));
    let mut bad = image();
    bad.data[0x0D] = 3;
    assert!(matches!(f_mount(bad), Err(FError::Invalid)));
}

#[test]
fn fat32_stat_kernel() {
    let vol = mount();
    let info = f_stat(&vol, "/KERNEL.BIN").unwrap();
    assert_eq!(info.size, 16);
    assert_eq!(info.start_cluster, 3);
    assert!(matches!(f_stat(&vol, "/NOPE.BIN"), Err(FError::NoFile)));
    assert!(matches!(f_stat(&vol, "/NODIR/X.TXT"), Err(FError::NoPath)));
}

#[test]
fn fat32_open_read_tell_eof() {
    let mut vol = mount();
    let mut f = f_open(&mut vol, "/KERNEL.BIN", FA_READ).unwrap();
    assert_eq!(f_size(&f), 16);
    assert!(!f_eof(&f));
    assert_eq!(f_tell(&f), 0);
    assert!(!f_error(&f));
    let mut buf = vec![0u8; 16];
    let r = f_read(&vol, &mut f, &mut buf).unwrap();
    assert_eq!(r, 16);
    assert_eq!(&buf[..], KERNEL);
    assert!(f_eof(&f));
    f_close(f).unwrap();
}

#[test]
fn fat32_read_needs_read_access() {
    let mut vol = mount();
    let mut f = f_open(&mut vol, "/KERNEL.BIN", FA_WRITE).unwrap();
    let mut buf = vec![0u8; 4];
    assert!(matches!(f_read(&vol, &mut f, &mut buf), Err(FError::Denied)));
    assert!(f_error(&f));
}

#[test]
fn fat32_opendir_readdir_lists_entries() {
    let vol = mount();
    let mut d = f_opendir(&vol, "/").unwrap();
    let mut name = [0u8; 13];
    let mut names: Vec<Vec<u8>> = Vec::new();
    while f_readdir(&vol, &mut d, &mut name).unwrap() {
        let end = name.iter().position(|&b| b == 0).unwrap_or(13);
        names.push(name[..end].to_vec());
    }
    f_closedir(d).unwrap();
    assert_eq!(names, vec![b"KERNEL.BIN".to_vec(), b"QASM".to_vec()]);
}

#[test]
fn fat32_findfirst_patterns() {
    let vol = mount();
    let mut d = f_findfirst(&vol, "/", b"K*").unwrap();
    let mut name = [0u8; 13];
    assert!(f_findnext(&vol, &mut d, &mut name).unwrap());
    assert_eq!(name[0], b'K');
    f_closedir(d).unwrap();

    let mut d = f_findfirst(&vol, "/", b"ZZZ*").unwrap();
    assert!(!f_findnext(&vol, &mut d, &mut name).unwrap());

    let mut d = f_findfirst(&vol, "/", b"*BIN\0").unwrap();
    let mut count = 0;
    while f_findnext(&vol, &mut d, &mut name).unwrap() {
        count += 1;
    }
    assert!(count >= 1);
}

#[test]
fn fat32_create_write_read_back() {
    let mut vol = mount();
    f_mkdir(&mut vol, "/testdir").unwrap();
    let mut f = f_open(&mut vol, "/testdir/hello.txt", FA_WRITE | FA_CREATE_NEW).unwrap();
    assert_ne!(f.current_cluster, 0);
    f_putc(&mut vol, b'A', &mut f).unwrap();
    f_puts(&mut vol, b"BCDEF", &mut f).unwrap();
    f_lseek(&vol, &mut f, 0).unwrap();
    let w = f_write(&mut vol, &mut f, b"Hello from planckOS!").unwrap();
    assert_eq!(w, 20);
    f_sync(&mut vol, &mut f).unwrap();
    f_close(f).unwrap();
    assert_eq!(read_all(&mut vol, "/testdir/hello.txt", 32), b"Hello from planckOS!".to_vec());
    assert!(matches!(f_open(&mut vol, "/testdir/hello.txt", FA_WRITE | FA_CREATE_NEW), Err(FError::Exists)));
    assert!(matches!(f_mkdir(&mut vol, "/testdir"), Err(FError::Exists)));
}

#[test]
fn fat32_gets_reads_a_line() {
    let mut vol = mount();
    let mut f = f_open(&mut vol, "/QASM/README.TXT", FA_READ).unwrap();
    let mut buf = vec![0u8; 32];
    let r = f_gets(&vol, &mut buf, 32, &mut f).unwrap();
    assert!(r > 0);
    assert_eq!(&buf[..r], b"hello qasm\n");
}

#[test]
fn fat32_putc_puts_printf() {
    let mut vol = mount();
    write_new(&mut vol, "/note.txt", b"Hello from planckOS!");
    let mut f = f_open(&mut vol, "/note.txt", FA_WRITE | FA_OPEN_ALWAYS).unwrap();
    f_lseek(&vol, &mut f, 0).unwrap();
    f_putc(&mut vol, b'A', &mut f).unwrap();
    f_puts(&mut vol, b"BCDEF", &mut f).unwrap();
    f_printf(&mut vol, &mut f, b" %d", &[FmtArg::Int(42)]).unwrap();
    f_sync(&mut vol, &mut f).unwrap();
    f_close(f).unwrap();
    let data = read_all(&mut vol, "/note.txt", 32);
    assert_eq!(&data[..9], b"ABCDEF 42");
    assert_eq!(data.len(), 20);
}

#[test]
fn fat32_lseek_then_read() {
    let mut vol = mount();
    write_new(&mut vol, "/note.txt", b"Hello from planckOS!");
    let mut f = f_open(&mut vol, "/note.txt", FA_READ).unwrap();
    f_lseek(&vol, &mut f, 6).unwrap();
    assert_eq!(f_tell(&f), 6);
    let mut c = vec![0u8; 1];
    f_read(&vol, &mut f, &mut c).unwrap();
    assert_eq!(c[0], b'f');
}

#[test]
fn fat32_truncate_keeps_prefix() {
    let mut vol = mount();
    write_new(&mut vol, "/note.txt", b"Hello from planckOS!");
    let mut f = f_open(&mut vol, "/note.txt", FA_WRITE | FA_OPEN_EXISTING).unwrap();
    f_lseek(&vol, &mut f, 5).unwrap();
    f_truncate(&mut vol, &mut f).unwrap();
    assert_eq!(f_size(&f), 5);
    f_sync(&mut vol, &mut f).unwrap();
    f_close(f).unwrap();
    assert_eq!(read_all(&mut vol, "/note.txt", 10), b"Hello".to_vec());
}

#[test]
fn fat32_expand_grows_then_truncate() {
    let mut vol = mount();
    write_new(&mut vol, "/note.txt", b"Hello from planckOS!");
    let mut f = f_open(&mut vol, "/note.txt", FA_WRITE | FA_OPEN_EXISTING).unwrap();
    let old = f_size(&f);
    f_expand(&mut vol, &mut f, 10000).unwrap();
    assert!(f_size(&f) >= 10000);
    f_lseek(&vol, &mut f, old).unwrap();
    f_truncate(&mut vol, &mut f).unwrap();
    f_sync(&mut vol, &mut f).unwrap();
    f_close(f).unwrap();
    assert_eq!(read_all(&mut vol, "/note.txt", 64), b"Hello from planckOS!".to_vec());
}

#[test]
fn fat32_unlink_and_mkdir_subdir() {
    let mut vol = mount();
    f_mkdir(&mut vol, "/testdir").unwrap();
    write_new(&mut vol, "/testdir/hello.txt", b"x");
    f_unlink(&mut vol, "/testdir/hello.txt").unwrap();
    assert!(matches!(f_stat(&vol, "/testdir/hello.txt"), Err(FError::NoFile)));
    f_mkdir(&mut vol, "/testdir/subdir").unwrap();
    let info = f_stat(&vol, "/testdir/subdir").unwrap();
    assert_ne!(info.attributes & 0x10, 0);
    f_unlink(&mut vol, "/testdir/subdir").unwrap();
    f_unlink(&mut vol, "/testdir").unwrap();
    assert!(matches!(f_unlink(&mut vol, "/testdir"), Err(FError::NoFile)));
}

#[test]
fn fat32_rename_round_trip() {
    let mut vol = mount();
    f_rename(&mut vol, "/qasm/readme.txt", "/qasm/test.txt").unwrap();
    assert!(f_open(&mut vol, "/qasm/readme.txt", FA_READ).is_err());
    assert!(f_open(&mut vol, "/qasm/test.txt", FA_READ).is_ok());
    f_rename(&mut vol, "/qasm/test.txt", "/qasm/readme.txt").unwrap();
    assert_eq!(read_all(&mut vol, "/qasm/readme.txt", 32), b"hello qasm\n".to_vec());
}

#[test]
fn fat32_chmod_and_utime() {
    let mut vol = mount();
    f_mkdir(&mut vol, "/testdir").unwrap();
    f_chmod(&mut vol, "/testdir", 0x11).unwrap();
    assert_eq!(f_stat(&vol, "/testdir").unwrap().attributes, 0x11);
    f_chmod(&mut vol, "/testdir", 0x30).unwrap();
    assert_eq!(f_stat(&vol, "/testdir").unwrap().attributes, 0x30);
    f_utime(&mut vol, "/testdir", 0x7F00, 0x4A00).unwrap();
    let info = f_stat(&vol, "/testdir").unwrap();
    assert_eq!(info.write_time, 0x7F00);
    assert_eq!(info.write_date, 0x4A00);
    f_chmod(&mut vol, "/testdir", 0x10).unwrap();
    assert_eq!(f_stat(&vol, "/testdir").unwrap().attributes, 0x10);
}

#[test]
fn fat32_chmod_never_stores_long_name_mark() {
    let mut vol = mount();
    f_mkdir(&mut vol, "/testdir").unwrap();
    f_chmod(&mut vol, "/testdir", 0x1F).unwrap();
    assert_eq!(f_stat(&vol, "/testdir").unwrap().attributes, 0x10);
    f_chmod(&mut vol, "/testdir", 0x17).unwrap();
    assert_eq!(f_stat(&vol, "/testdir").unwrap().attributes, 0x17);
    assert!(matches!(f_chmod(&mut vol, "/nothere", 0x10), Err(FError::NoFile)));
}

#[test]
fn fat32_getfree_counts_clusters() {
    let vol = mount();
    let (free, total) = f_getfree(&vol).unwrap();
    assert_eq!(total, 4 * 128 - 2);
    assert_eq!(free, total - 4);
}

#[test]
fn fat32_label_round_trip() {
    let mut vol = mount();
    let mut label = [0u8; 12];
    f_getlabel(&vol, &mut label).unwrap();
    assert_eq!(&label[..6], b"PLANCK");
    f_setlabel(&mut vol, b"PLANCKOS").unwrap();
    let mut label2 = [0u8; 12];
    f_getlabel(&vol, &mut label2).unwrap();
    assert_eq!(&label2[..8], b"PLANCKOS");
    assert_eq!(&label2[8..], &[0u8; 4]);
}

#[test]
fn fat32_setlabel_uses_deleted_slot() {
    let mut disk = image();
    disk.data[DATA_LBA * 512] = 0xE5;
    let mut vol = match f_mount(disk) {
        Ok(v) => v,
        Err(e) => panic!("mount failed: {:?}", e),
    };
    let mut label = [0u8; 12];
    f_getlabel(&vol, &mut label).unwrap();
    assert_eq!(label, [0u8; 12]);
    f_setlabel(&mut vol, b"NEWVOL").unwrap();
    let mut label2 = [0u8; 12];
    f_getlabel(&vol, &mut label2).unwrap();
    assert_eq!(&label2[..6], b"NEWVOL");
    assert_eq!(&label2[6..], &[0u8; 6]);
    assert_eq!(&vol.dev.data[DATA_LBA * 512..DATA_LBA * 512 + 12], b"NEWVOL     \x08");
    assert!(f_open(&mut vol, "/kernel.bin", FA_READ).is_ok());
}

#[test]
fn fat32_chdir_getcwd() {
    let mut vol = mount();
    f_mkdir(&mut vol, "/testdir").unwrap();
    f_chdir(&mut vol, "/testdir").unwrap();
    let mut buf = vec![0u8; 64];
    f_getcwd(&vol, &mut buf).unwrap();
    let len = buf.iter().position(|&b| b == 0).unwrap_or(0);
    assert_eq!(&buf[..len], b"/testdir");
    f_chdir(&mut vol, "/").unwrap();
}

#[test]
fn fat32_mkdir_relative_path() {
    let mut vol = mount();
    f_mkdir(&mut vol, "testdir").unwrap();
    assert!(f_stat(&vol, "/testdir").is_ok());
}

fn text(v: &[u8]) -> String {
    String::from_utf8(v.to_vec()).unwrap()
}

#[test]
fn ls_applet_lists_root() {
    let vol = mount();
    assert_eq!(text(&ls::run(&vol, &[])), "QASM/       KERNEL.BIN  \n");
    let long = ls::run(&vol, &["-l"]);
    let mut expect = Vec::new();
    expect.extend_from_slice(b"d        0\0 QASM\n");
    expect.extend_from_slice(b"        16\0 KERNEL.BIN\n");
    assert_eq!(long, expect);
    assert_eq!(text(&ls::run(&vol, &["-z"])), "ls: invalid option\n");
    assert_eq!(text(&ls::run(&vol, &["/NOPE/X/"])), "ls: cannot access '/NOPE/X/'\n");
    assert_eq!(text(&ls::run(&vol, &["/", "/NOPE/X/"])), "/:\nQASM/       KERNEL.BIN  \n\n/NOPE/X/:\nls: cannot access '/NOPE/X/'\n\n");
}

#[test]
fn mk_applet_creates_files_and_directories() {
    let mut vol = mount();
    assert_eq!(text(&mk::run(&mut vol, &[])), "mk: missing operand\n");
    assert_eq!(text(&mk::run(&mut vol, &["-q", "x"])), "mk: invalid option\n");
    assert_eq!(text(&mk::run(&mut vol, &["/newdir/", "/f.txt"])), "");
    assert_ne!(f_stat(&vol, "/newdir").unwrap().attributes & 0x10, 0);
    assert_eq!(f_stat(&vol, "/f.txt").unwrap().size, 0);
    assert_eq!(text(&mk::run(&mut vol, &["/f.txt/"])), "mk: cannot create directory '/f.txt': File exists\n");
    assert_eq!(text(&mk::run(&mut vol, &["/a/b/"])), "mk: cannot create directory '/a/b': No such path\n");
    assert_eq!(text(&mk::run(&mut vol, &["-p", "/a/b/"])), "");
    assert_eq!(f_stat(&vol, "/a").unwrap().attributes & 0x10, 0);
    assert_eq!(mk::parent_path(b"/a/b//").unwrap(), b"/a".to_vec());
    assert_eq!(mk::parent_path(b"/a").unwrap(), b"/".to_vec());
    assert!(mk::parent_path(b"abc").is_none());
}

#[test]
fn rm_applet_removes() {
    let mut vol = mount();
    assert_eq!(text(&rm::run(&mut vol, &[])), "rm: missing operand\n");
    assert_eq!(text(&rm::run(&mut vol, &["-x"])), "rm: invalid option\n");
    assert_eq!(text(&rm::run(&mut vol, &["/nope"])), "rm: cannot remove '/nope': No such file or directory\n");
    assert_eq!(text(&rm::run(&mut vol, &["-f", "/nope"])), "");
    assert_eq!(text(&rm::run(&mut vol, &["/QASM"])), "rm: cannot remove '/QASM': Is a directory\n");
    assert_eq!(
        text(&rm::run(&mut vol, &["-r", "/QASM"])),
        "rm: cannot remove '/QASM/KERNEL.BIN': No such file or directory\nrm: cannot remove '/QASM/QASM': No such file or directory\n"
    );
    assert!(f_stat(&vol, "/QASM").is_err());
    assert_eq!(text(&rm::run(&mut vol, &["/KERNEL.BIN"])), "");
    assert!(matches!(f_stat(&vol, "/KERNEL.BIN"), Err(FError::NoFile)));
}

#[test]
fn cp_applet_copies() {
    let mut vol = mount();
    assert_eq!(text(&cp::run(&mut vol, &["/KERNEL.BIN"])), "cp: missing file operand\n");
    assert_eq!(text(&cp::run(&mut vol, &["-f", "a", "b"])), "cp: invalid option\n");
    assert_eq!(text(&cp::run(&mut vol, &["/KERNEL.BIN", "/K2.BIN"])), "");
    assert_eq!(read_all(&mut vol, "/K2.BIN", 64), KERNEL.to_vec());
    assert_eq!(text(&cp::run(&mut vol, &["/KERNEL.BIN", "/K2.BIN"])), "cp: cannot create '/K2.BIN': File exists\n");
    assert_eq!(text(&cp::run(&mut vol, &["/QASM", "/Q2"])), "cp: omitting directory '/QASM'\n");
    assert_eq!(text(&cp::run(&mut vol, &["/nope", "/Q2"])), "cp: cannot stat '/nope': No such file or directory\n");
    assert_eq!(
        text(&cp::run(&mut vol, &["-r", "/QASM", "/Q2"])),
        "cp: cannot stat '/QASM/KERNEL.BIN': No such file or directory\ncp: cannot stat '/QASM/QASM': No such file or directory\ncp: cannot stat '/QASM/K2.BIN': No such file or directory\ncp: cannot stat '/QASM/Q2': No such file or directory\n"
    );
    assert_ne!(f_stat(&vol, "/Q2").unwrap().attributes & 0x10, 0);
}

#[test]
fn out_applet_shows_files() {
    let mut vol = mount();
    assert_eq!(text(&out::run(&mut vol, &[])), "out: missing file operand\n");
    assert_eq!(text(&out::run(&mut vol, &["-x"])), "out: invalid option\n");
    assert_eq!(text(&out::run(&mut vol, &["/nope/x"])), "out: cannot access '/nope/x': No such file or directory\n");
    assert_eq!(text(&out::run(&mut vol, &["/QASM"])), "out: '/QASM': Is a directory\n");
    assert_eq!(text(&out::run(&mut vol, &["/QASM/README.TXT"])), "hello qasm\n\n");
    assert_eq!(text(&out::run(&mut vol, &["-n", "5", "/QASM/README.TXT"])), "hello\n");
    let data: Vec<u8> = (0u8..20).collect();
    write_new(&mut vol, "/bin.dat", &data);
    let dump = text(&out::run(&mut vol, &["/bin.dat"]));
    let expect = format!(
        "00000000  00 01 02 03 04 05 06 07 08 09 0A 0B 0C 0D 0E 0F  |................|\n00000010  10 11 12 13 {} |....|\n",
        " ".repeat(36)
    );
    assert_eq!(dump, expect);
}

#[test]
fn fat32_write_across_clusters_reads_back() {
    let mut vol = mount();
    let data: Vec<u8> = (0..1500u32).map(|i| (i % 251) as u8).collect();
    write_new(&mut vol, "/big.bin", &data);
    assert_eq!(read_all(&mut vol, "/big.bin", 2000), data);
    let mut f = f_open(&mut vol, "/big.bin", FA_READ | FA_WRITE).unwrap();
    f_lseek(&vol, &mut f, 500).unwrap();
    let patch = vec![0xEEu8; 600];
    assert_eq!(f_write(&mut vol, &mut f, &patch).unwrap(), 600);
    assert_eq!(f_size(&f), 1500);
    f_sync(&mut vol, &mut f).unwrap();
    f_close(f).unwrap();
    let mut expected = data.clone();
    expected[500..1100].copy_from_slice(&patch);
    assert_eq!(read_all(&mut vol, "/big.bin", 2000), expected);
}

fn fat_entry_of(vol: &FatVolume<RamDisk>, c: u32) -> u32 {
    let off = 32 * 512 + 4 * c as usize;
    u32::from_le_bytes([vol.dev.data[off], vol.dev.data[off + 1], vol.dev.data[off + 2], vol.dev.data[off + 3]])
        & 0x0FFF_FFFF
}

#[test]
fn fat32_create_writes_directory_entry() {
    let mut vol = mount();
    let f = f_open(&mut vol, "/new.txt", FA_WRITE | FA_CREATE_NEW).unwrap();
    assert_eq!(f.size, 0);
    assert_eq!(fat_entry_of(&vol, f.start_cluster), 0x0FFF_FFFF);
    let base = (DATA_LBA + (f.dir_sector as usize - 2)) * 512 + f.dir_offset as usize * 32;
    let e = &vol.dev.data[base..base + 32];
    assert_eq!(&e[..11], b"new     txt");
    assert_eq!(e[11], 0x20);
    assert_eq!(u16::from_le_bytes([e[0x1A], e[0x1B]]) as u32, f.start_cluster & 0xFFFF);
    assert_eq!(u16::from_le_bytes([e[0x14], e[0x15]]) as u32, f.start_cluster >> 16);
    f_close(f).unwrap();
    assert!(f_open(&mut vol, "/new.txt", FA_READ).is_ok());
    assert!(matches!(f_open(&mut vol, "/new.txt", FA_WRITE | FA_CREATE_NEW), Err(FError::Exists)));
    assert!(matches!(f_open(&mut vol, "/none.txt", FA_READ), Err(FError::NoFile)));
}

#[test]
fn fat32_truncate_frees_the_tail() {
    let mut vol = mount();
    let data: Vec<u8> = (0..1200u32).map(|i| (i % 251) as u8).collect();
    write_new(&mut vol, "/big.bin", &data);
    let mut f = f_open(&mut vol, "/big.bin", FA_WRITE | FA_OPEN_EXISTING).unwrap();
    let c1 = f.start_cluster;
    let c2 = fat_entry_of(&vol, c1);
    let c3 = fat_entry_of(&vol, c2);
    assert_eq!(fat_entry_of(&vol, c3), 0x0FFF_FFFF);
    f_lseek(&vol, &mut f, 100).unwrap();
    f_truncate(&mut vol, &mut f).unwrap();
    assert_eq!(f_size(&f), 100);
    assert_eq!(fat_entry_of(&vol, c1), 0x0FFF_FFFF);
    assert_eq!(fat_entry_of(&vol, c2), 0);
    assert_eq!(fat_entry_of(&vol, c3), 0);
}

#[test]
fn fat32_create_always_frees_old_chain() {
    let mut vol = mount();
    let data = vec![7u8; 1100];
    write_new(&mut vol, "/again.bin", &data);
    let f = f_open(&mut vol, "/again.bin", FA_READ).unwrap();
    let c1 = f.start_cluster;
    let c2 = fat_entry_of(&vol, c1);
    let c3 = fat_entry_of(&vol, c2);
    f_close(f).unwrap();
    let g = f_open(&mut vol, "/again.bin", FA_WRITE | FA_CREATE_ALWAYS).unwrap();
    assert_eq!(g.size, 0);
    assert_eq!(fat_entry_of(&vol, c1), 0);
    assert_eq!(fat_entry_of(&vol, c2), 0);
    assert_eq!(fat_entry_of(&vol, c3), 0);
}

#[test]
fn fat32_stat_missing_parent_is_no_path() {
    let vol = mount();
    assert!(matches!(f_stat(&vol, "/nodir/file.txt"), Err(FError::NoPath)));
    assert!(matches!(f_stat(&vol, "/qasm/none.txt"), Err(FError::NoFile)));
}

#[test]
fn fat32_putc_writes_the_byte() {
    let mut vol = mount();
    let mut f = f_open(&mut vol, "/c.txt", FA_WRITE | FA_CREATE_NEW).unwrap();
    assert_eq!(f_putc(&mut vol, b'Z', &mut f).unwrap(), 1);
    assert_eq!(f_puts(&mut vol, b"ap\0ignored", &mut f).unwrap(), 2);
    f_sync(&mut vol, &mut f).unwrap();
    f_close(f).unwrap();
    assert_eq!(read_all(&mut vol, "/c.txt", 16), b"Zap".to_vec());
}

#[test]
fn fat32_gets_drops_carriage_returns_and_stops_at_newline() {
    let mut vol = mount();
    write_new(&mut vol, "/crlf.txt", b"ab\r\ncd\r\nlast");
    let mut f = f_open(&mut vol, "/crlf.txt", FA_READ).unwrap();
    let mut buf = vec![0xAAu8; 16];
    assert_eq!(f_gets(&vol, &mut buf, 16, &mut f).unwrap(), 3);
    assert_eq!(&buf[..4], b"ab\n\0");
    assert_eq!(f_tell(&f), 4);
    assert_eq!(f_gets(&vol, &mut buf, 3, &mut f).unwrap(), 2);
    assert_eq!(&buf[..3], b"cd\0");
    assert_eq!(f_tell(&f), 6);
    assert_eq!(f_gets(&vol, &mut buf, 16, &mut f).unwrap(), 1);
    assert_eq!(&buf[..2], b"\n\0");
    assert_eq!(f_gets(&vol, &mut buf, 16, &mut f).unwrap(), 4);
    assert_eq!(&buf[..5], b"last\0");
    assert!(f_eof(&f));
    assert_eq!(f_gets(&vol, &mut buf, 16, &mut f).unwrap(), 0);
}

#[test]
fn out_applet_shows_every_block() {
    let mut vol = mount();
    let data: Vec<u8> = (0..1300u32).map(|i| b'a' + (i % 26) as u8).collect();
    write_new(&mut vol, "/long.txt", &data);
    let whole = String::from_utf8(data.clone()).unwrap();
    assert_eq!(text(&out::run(&mut vol, &["/long.txt"])), format!("{}\n", whole));
    assert_eq!(text(&out::run(&mut vol, &["-n", "600", "/long.txt"])), format!("{}\n", &whole[..600]));
}

#[test]
fn rm_applet_removes_each_operand() {
    let mut vol = mount();
    write_new(&mut vol, "/a.txt", b"a");
    write_new(&mut vol, "/b.txt", b"b");
    assert_eq!(
        text(&rm::run(&mut vol, &["/a.txt", "/nope", "/b.txt"])),
        "rm: cannot remove '/nope': No such file or directory\n"
    );
    assert!(f_stat(&vol, "/a.txt").is_err());
    assert!(f_stat(&vol, "/b.txt").is_err());
    assert!(f_stat(&vol, "/KERNEL.BIN").is_ok());
}

#[test]
fn fat32_gets_needs_no_read_for_an_empty_line() {
    let mut vol = mount();
    let mut f = f_open(&mut vol, "/QASM/README.TXT", FA_READ).unwrap();
    let mut buf = vec![7u8; 8];
    assert!(matches!(f_gets(&vol, &mut buf, 1, &mut f), Ok(0)));
    assert_eq!(f_tell(&f), 0);
    let mut one = vec![7u8; 1];
    assert!(matches!(f_gets(&vol, &mut one, 32, &mut f), Ok(0)));
    let mut rest = vec![0u8; 32];
    assert_eq!(f_gets(&vol, &mut rest, 32, &mut f).unwrap(), 11);
    assert!(matches!(f_gets(&vol, &mut rest, 32, &mut f), Ok(0)));
    assert_eq!(f_tell(&f), 11);
}

#[test]
fn fat32_gets_without_read_access_is_denied() {
    let mut vol = mount();
    let mut f = f_open(&mut vol, "/QASM/README.TXT", FA_WRITE).unwrap();
    let mut buf = vec![0u8; 8];
    assert!(matches!(f_gets(&vol, &mut buf, 8, &mut f), Err(FError::Denied)));
    assert!(f_error(&f));
}

#[test]
fn fat32_root_needs_no_lookup() {
    let mut vol = mount();
    let info = f_stat(&vol, "/").unwrap();
    assert_eq!(info.attributes, 0x10);
    assert_eq!(info.start_cluster, 2);
    assert_eq!(info.size, 0);
    let mut d = f_findfirst(&vol, "/", b"K*").unwrap();
    let mut n = [0u8; 13];
    assert!(f_findnext(&vol, &mut d, &mut n).unwrap());
    assert_eq!(n[0], b'K');
    assert!(matches!(f_unlink(&mut vol, "/"), Err(FError::Invalid)));
    assert!(matches!(f_mkdir(&mut vol, "//"), Err(FError::Invalid)));
}

#[test]
fn fat32_writable_file_is_not_denied() {
    let mut vol = mount();
    let mut f = f_open(&mut vol, "/KERNEL.BIN", FA_WRITE | FA_OPEN_EXISTING).unwrap();
    assert!(f_expand(&mut vol, &mut f, 600).is_ok());
    assert!(f_size(&f) >= 600);
    assert_eq!(f_write(&mut vol, &mut f, b"xy").unwrap(), 2);
    assert!(f_lseek(&vol, &mut f, 5).is_ok());
    assert!(f_truncate(&mut vol, &mut f).is_ok());
    assert_eq!(f_size(&f), 5);
    let mut r = f_open(&mut vol, "/KERNEL.BIN", FA_READ).unwrap();
    assert!(matches!(f_lseek(&vol, &mut r, 6), Ok(())));
    assert!(matches!(f_lseek(&vol, &mut r, 100), Err(FError::Denied)));
}

/// A volume with two sectors per cluster and an empty root directory.
fn two_sector_volume() -> FatVolume<RamDisk> {
    let mut disk = RamDisk::new(SECTORS);
    let d = &mut disk.data;
    put16(d, 0x0B, 512);
    d[0x0D] = 2;
    put16(d, 0x0E, 32);
    d[0x10] = 2;
    put32(d, 0x24, 4);
    put32(d, 0x2C, 2);
    d[0x1FE] = 0x55;
    d[0x1FF] = 0xAA;
    for fat in 0..2 {
        let base = (32 + fat * 4) * 512;
        put32(d, base, 0x0FFF_FFF8);
        put32(d, base + 4, 0x0FFF_FFFF);
        put32(d, base + 8, 0x0FFF_FFFF);
    }
    f_mount(disk).expect("mount")
}

#[test]
fn fat32_sync_updates_an_entry_in_a_later_sector() {
    let mut vol = two_sector_volume();
    for i in 0..20u8 {
        let name = format!("/F{}.TXT", i);
        let f = f_open(&mut vol, &name, FA_WRITE | FA_CREATE_NEW).expect("create");
        f_close(f).unwrap();
    }
    let mut f = f_open(&mut vol, "/F19.TXT", FA_WRITE | FA_OPEN_EXISTING).unwrap();
    assert!(f.dir_offset >= 16);
    assert_eq!(f_write(&mut vol, &mut f, b"late entry").unwrap(), 10);
    f_sync(&mut vol, &mut f).unwrap();
    f_close(f).unwrap();
    assert_eq!(f_stat(&vol, "/F19.TXT").unwrap().size, 10);
    assert_eq!(f_stat(&vol, "/F3.TXT").unwrap().size, 0);
    assert_eq!(read_all(&mut vol, "/F19.TXT", 32), b"late entry");
}

#[test]
fn fat32_chmod_and_utime_name_their_missing_part() {
    let mut vol = mount();
    assert!(matches!(f_chmod(&mut vol, "/nodir/x.txt", 0x01), Err(FError::NoPath)));
    assert!(matches!(f_chmod(&mut vol, "/qasm/none.txt", 0x01), Err(FError::NoFile)));
    assert!(matches!(f_utime(&mut vol, "/nodir/x.txt", 1, 2), Err(FError::NoPath)));
    assert!(matches!(f_utime(&mut vol, "/none.txt", 1, 2), Err(FError::NoFile)));
    assert!(matches!(f_unlink(&mut vol, "/none.txt"), Err(FError::NoFile)));
    assert!(matches!(f_open(&mut vol, "/nodir/x.txt", FA_READ), Err(FError::NoPath)));
    assert!(matches!(f_opendir(&vol, "/nodir/x/"), Err(FError::NoPath)));
}

#[test]
fn cp_applet_copies_a_file_of_several_blocks() {
    let mut vol = mount();
    let data: Vec<u8> = (0..1300u32).map(|i| (i % 253) as u8).collect();
    write_new(&mut vol, "/big.dat", &data);
    assert_eq!(text(&cp::run(&mut vol, &["/big.dat", "/copy.dat"])), "");
    assert_eq!(f_stat(&vol, "/copy.dat").unwrap().size, 1300);
    assert_eq!(read_all(&mut vol, "/copy.dat", 2000), data);
    assert_eq!(read_all(&mut vol, "/big.dat", 2000), data);
}

#[test]
fn ls_long_listing_takes_sizes_from_the_root_entries() {
    let mut vol = mount();
    write_new(&mut vol, "/a.txt", b"12345");
    let long = ls::run(&vol, &["-l", "-S"]);
    let mut expect = Vec::new();
    expect.extend_from_slice(b"d        0\0 QASM\n");
    expect.extend_from_slice(b"         5\0 a.txt\n");
    expect.extend_from_slice(b"        16\0 KERNEL.BIN\n");
    assert_eq!(long, expect);
}
