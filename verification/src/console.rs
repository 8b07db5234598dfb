//! The console the kernel writes to: the VGA text screen or a pixel
//! framebuffer, whichever the boot loader provided.
use vstd::prelude::*;
use crate::display::{Display, VgaDisplay};
use crate::framebuffer::FramebufferDisplay;

verus! {

/// One of the two consoles.
pub enum DisplayBackend {
    Vga(VgaDisplay),
    Framebuffer(FramebufferDisplay),
}

impl Display for DisplayBackend {
    fn clear(&mut self) {
        match self {
            DisplayBackend::Vga(d) => d.clear(),
            DisplayBackend::Framebuffer(d) => d.clear(),
        }
    }

    fn write(&mut self, text: &[u8]) {
        match self {
            DisplayBackend::Vga(d) => d.write(text),
            DisplayBackend::Framebuffer(d) => d.write(text),
        }
    }

    fn writeln(&mut self, text: &[u8]) {
        match self {
            DisplayBackend::Vga(d) => d.writeln(text),
            DisplayBackend::Framebuffer(d) => d.writeln(text),
        }
    }

    fn putchar(&mut self, c: u8) {
        match self {
            DisplayBackend::Vga(d) => d.putchar(c),
            DisplayBackend::Framebuffer(d) => Display::putchar(d, c),
        }
    }

    fn set_cursor(&mut self, row: usize, col: usize) {
        match self {
            DisplayBackend::Vga(d) => d.set_cursor(row, col),
            DisplayBackend::Framebuffer(d) => d.set_cursor(row, col),
        }
    }

    fn scroll(&mut self) {
        match self {
            DisplayBackend::Vga(d) => d.scroll(),
            DisplayBackend::Framebuffer(d) => Display::scroll(d),
        }
    }

    fn reset_cursor(&mut self) {
        match self {
            DisplayBackend::Vga(d) => d.reset_cursor(),
            DisplayBackend::Framebuffer(d) => d.reset_cursor(),
        }
    }

    fn cols(&self) -> usize {
        match self {
            DisplayBackend::Vga(d) => d.cols(),
            DisplayBackend::Framebuffer(d) => d.cols(),
        }
    }

    fn rows(&self) -> usize {
        match self {
            DisplayBackend::Vga(d) => d.rows(),
            DisplayBackend::Framebuffer(d) => d.rows(),
        }
    }
}

} // verus!
