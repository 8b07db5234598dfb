# planckOS kernel library

The logic of the planckOS x86-64 hobby kernel, written in Verus with its
behaviour stated in `requires`/`ensures` contracts and proved.

## Layout

- `src/` — the verified library:
  - `fat32/` — the FAT32 driver over a `BlockDevice`: mounting, path
    resolution, file I/O (`f_open`, `f_read`, `f_write`, `f_lseek`,
    `f_truncate`, `f_expand`, `f_sync`, formatted output), directories and
    wildcard listings, and volume management (`f_mkdir`, `f_unlink`,
    `f_rename`, `f_chmod`, `f_utime`, labels, free-space counting).
  - `heap/` — the boundary-tag allocator with fenced segments, first-fit
    splitting and coalescing frees, modelled as a chunk layout over a flat
    word-addressed memory; `memory.rs` puts it behind an
    interrupt-saving lock.
  - `applets/` and `shell/` — the shell's line editor, history, command
    classification and the `ls`, `out`, `mk`, `rm`, `cp`, `sysinfo`,
    `datetime` and `heap` applets as functions from volume and arguments
    to text.
  - device decisions: `acpi.rs` (RSDP validation, RSDT/XSDT walk, FADT,
    MADT and `\_S5`), `ata.rs`, `rtc.rs`, `cpuid.rs`, `e820.rs`, `apic.rs`,
    `smp.rs`, `idt.rs`, the PS/2 keyboard decoder in `input.rs`, and the
    text console and framebuffer layout.
- `tests/` — scenario tests on in-memory disks and arenas.
- `app/` — the kernel's port and memory-mapped I/O around the library:
  reading physical memory for the ACPI tables, the ATA drive on the
  secondary channel, the interrupt table and PICs with the timer and
  keyboard interrupts, the screen, the file-system checks run at boot,
  and the shell loop.
