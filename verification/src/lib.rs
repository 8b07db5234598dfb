pub mod text;
pub mod fmt;
pub mod cpuid;
pub mod rtc;
pub mod e820;
pub mod acpi;
pub mod display;
pub mod input;
pub mod block;
pub mod ata;
pub mod idt;
pub mod smp;
pub mod serial;
pub mod memory;
pub mod fat32;
pub mod heap;
pub mod applets;
pub mod shell;
pub mod apic;
pub mod framebuffer;
pub mod console;
