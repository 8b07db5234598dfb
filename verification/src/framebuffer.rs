//! A pixel framebuffer console: text drawn with the glyphs of a PSF2
//! font, one 32-bit pixel per framebuffer word.
use vstd::prelude::*;
use crate::display::Display;
use crate::text::{le32, read_le32};

verus! {

/// A text console on a pixel framebuffer.
pub struct FramebufferDisplay {
    /// The pixels, row by row, `pitch / 4` words per row.
    pub fb: Vec<u32>,
    pub width: usize,
    pub height: usize,
    pub pitch: usize,
    pub bpp: u8,
    pub cursor_x: usize,
    pub cursor_y: usize,
    pub fg: u32,
    pub bg: u32,
    pub scale: usize,
    pub glyph_w: usize,
    pub glyph_h: usize,
    /// The glyph bitmaps, `glyph_w * glyph_h / 8` bytes each.
    pub glyph_data: Vec<u8>,
    pub glyph_count: u32,
    /// The font's unicode table as 16-bit words (empty when it has none).
    pub unicode: Vec<u16>,
}

/// Largest screen side, in pixels, the console supports.
pub const MAX_SIDE: usize = 16384;

/// Largest glyph side, in pixels.
pub const MAX_GLYPH: usize = 256;

/// Glyph width of a PSF2 header `font` (8 when the header gives 0).
pub open spec fn font_glyph_w(font: Seq<u8>) -> int {
    if le32(font, 28) != 0 { le32(font, 28) } else { 8 }
}

/// Glyph height of a PSF2 header `font` (16 when the header gives 0).
pub open spec fn font_glyph_h(font: Seq<u8>) -> int {
    if le32(font, 24) != 0 { le32(font, 24) } else { 16 }
}

/// End of the glyph bitmaps of PSF2 font `font`: header size plus glyph
/// size times glyph count.
pub open spec fn glyphs_end(font: Seq<u8>) -> int {
    le32(font, 8) + le32(font, 20) * le32(font, 16)
}

/// `font` is a PSF2 font the console can use: a header, glyph bitmaps
/// within the font, at least one glyph, glyph sides of 1 to `MAX_GLYPH`.
pub open spec fn font_ok(font: Seq<u8>) -> bool {
    &&& font.len() >= 32
    &&& glyphs_end(font) <= font.len()
    &&& le32(font, 16) >= 1
    &&& 1 <= font_glyph_w(font) <= MAX_GLYPH
    &&& 1 <= font_glyph_h(font) <= MAX_GLYPH
    &&& le32(font, 12) % 2 == 1 ==> font.len() - glyphs_end(font) >= 2
}

/// The screen fits the console: its rows within the pitch, sides of at most
/// `MAX_SIDE` pixels, room for one line of glyphs of height `gh`.
pub open spec fn screen_ok(width: int, height: int, pitch: int, gh: int) -> bool {
    &&& width <= pitch / 4
    &&& pitch <= 4 * MAX_SIDE
    &&& width <= MAX_SIDE
    &&& gh <= height <= MAX_SIDE
}

/// Pixel (`x`, `y`) of pixels `fb` with rows of `w` words.
pub open spec fn pix(fb: Seq<u32>, w: int, y: int, x: int) -> u32 {
    fb[y * w + x]
}

impl FramebufferDisplay {
    /// Words per framebuffer row.
    pub open spec fn row_words(&self) -> int {
        self.pitch as int / 4
    }

    /// The console's fields agree: the geometry fits, the framebuffer holds
    /// `height` rows, the glyphs and scale are in range.
    pub open spec fn wf(&self) -> bool {
        &&& self.geometry_ok()
        &&& self.cursor_x <= MAX_SIDE
        &&& self.cursor_y <= MAX_SIDE
    }

    /// The console's fields but the cursor agree: the geometry fits, the
    /// framebuffer holds `height` rows, the glyphs and scale are in range.
    pub open spec fn geometry_ok(&self) -> bool {
        &&& screen_ok(self.width as int, self.height as int, self.pitch as int, self.glyph_h * self.scale)
        &&& self.fb@.len() == self.height * self.row_words()
        &&& 1 <= self.glyph_w <= MAX_GLYPH
        &&& 1 <= self.glyph_h <= MAX_GLYPH
        &&& 1 <= self.scale <= 16
        &&& self.glyph_count >= 1
    }

    /// A console on a `width` by `height` screen whose rows are `pitch`
    /// bytes apart, with the glyphs of PSF2 font `font`, white on black, at
    /// scale 1, cleared, the cursor at the top left.
    pub fn new(font: &[u8], width: usize, height: usize, pitch: usize, bpp: u8) -> (d: Self)
        requires
            font_ok(font@),
            screen_ok(width as int, height as int, pitch as int, font_glyph_h(font@)),
        ensures
            d.wf(),
            d.width == width && d.height == height && d.pitch == pitch && d.bpp == bpp,
            d.cursor_x == 0 && d.cursor_y == 0,
            d.fg == 0x00FF_FFFF && d.bg == 0,
            d.scale == 1,
            d.glyph_w == font_glyph_w(font@),
            d.glyph_h == font_glyph_h(font@),
            d.glyph_count == le32(font@, 16),
            d.glyph_data@ == font@.subrange(le32(font@, 8), glyphs_end(font@)),
            le32(font@, 12) % 2 == 1 ==> d.unicode@.len() == (font@.len() - glyphs_end(font@)) / 2,
            le32(font@, 12) % 2 == 0 ==> d.unicode@.len() == 0,
            forall|i: int| 0 <= i < d.unicode@.len() ==> #[trigger] d.unicode@[i] == font@[glyphs_end(font@) + 2 * i]
                + font@[glyphs_end(font@) + 2 * i + 1] * 256,
            forall|i: int| 0 <= i < d.fb@.len() ==> #[trigger] d.fb@[i] == 0,
    {
        let flen = font.len();
        let hdr_size = read_le32(font, 8);
        let flags = read_le32(font, 12);
        let n_glyphs = read_le32(font, 16);
        let g_size = read_le32(font, 20);
        let h = read_le32(font, 24);
        let w = read_le32(font, 28);
        let g_w: usize = if w != 0 { w as usize } else { 8 };
        let g_h: usize = if h != 0 { h as usize } else { 16 };
        assert(hdr_size as int + g_size as int * n_glyphs as int <= font@.len());
        assert(0 <= g_size as int * n_glyphs as int) by (nonlinear_arith);
        let end: usize = (hdr_size as u64 + g_size as u64 * n_glyphs as u64) as usize;
        let glyph_data = crate::text::copy_range(font, hdr_size as usize, end);
        let mut unicode: Vec<u16> = Vec::new();
        if flags & 1 != 0 {
            let count = (font.len() - end) / 2;
            let mut i: usize = 0;
            while i < count
                invariant
                    flen == font@.len(),
                    end <= font@.len(),
                    count == (font@.len() - end) / 2,
                    end == glyphs_end(font@),
                    i <= count,
                    unicode@.len() == i,
                    forall|t: int| 0 <= t < i ==> #[trigger] unicode@[t] == font@[end + 2 * t] + font@[end + 2 * t + 1] * 256,
                decreases count - i,
            {
                assert(end + 2 * i + 1 < font@.len()) by (nonlinear_arith)
                    requires
                        i < count,
                        count == (font@.len() - end) / 2,
                        end <= font@.len(),
                ;
                unicode.push(font[end + 2 * i] as u16 + (font[end + 2 * i + 1] as u16) * 256);
                i = i + 1;
            }
        }
        assert((flags & 1 != 0) == (flags % 2 == 1)) by (bit_vector);
        let words = pitch / 4;
        assert(height * words <= MAX_SIDE * MAX_SIDE) by (nonlinear_arith)
            requires
                height <= MAX_SIDE,
                words <= MAX_SIDE,
        ;
        let fb: Vec<u32> = vec![0u32; height * words];
        FramebufferDisplay {
            fb,
            width,
            height,
            pitch,
            bpp,
            cursor_x: 0,
            cursor_y: 0,
            fg: 0x00FF_FFFF,
            bg: 0,
            scale: 1,
            glyph_w: g_w,
            glyph_h: g_h,
            glyph_data,
            glyph_count: n_glyphs,
            unicode,
        }
    }
}

/// Where the unicode table `t` maps code `cp`, scanning from word `i`:
/// the word after the first entry equal to `cp` (a 0xFFFF word is skipped
/// together with the word after it); none when the table ends first.
pub open spec fn table_lookup(t: Seq<u16>, cp: int, i: int) -> Option<int>
    decreases t.len() - i,
{
    if i < 0 || i >= t.len() - 1 {
        None
    } else if t[i] == cp {
        Some(t[i + 1] as int)
    } else if t[i] == 0xFFFF {
        table_lookup(t, cp, i + 2)
    } else {
        table_lookup(t, cp, i + 1)
    }
}

/// Index of the glyph of byte `c`: the unicode table's glyph when it maps
/// `c`, else `c` itself when the font has that many glyphs, else `c`
/// modulo the glyph count.
pub open spec fn glyph_of(unicode: Seq<u16>, count: int, c: u8) -> int {
    match table_lookup(unicode, c as int, 0) {
        Some(g) => g,
        None => if (c as int) < count {
            c as int
        } else {
            c as int % count
        },
    }
}

/// A glyph index from the unicode table is a 16-bit word.
proof fn lemma_lookup_bound(t: Seq<u16>, cp: int, i: int)
    ensures
        table_lookup(t, cp, i) matches Some(g) ==> 0 <= g <= 0xFFFF,
    decreases t.len() - i,
{
    if 0 <= i < t.len() - 1 && t[i] != cp {
        if t[i] == 0xFFFF {
            lemma_lookup_bound(t, cp, i + 2);
        } else {
            lemma_lookup_bound(t, cp, i + 1);
        }
    }
}

/// Index `i` and index `j` of a row-major grid with rows of `w` words are
/// the same cell only when row and column agree.
proof fn lemma_cell_unique(w: int, a: int, b: int, c: int, d: int)
    requires
        0 <= a,
        0 <= c,
        0 <= b < w,
        0 <= d < w,
        a * w + b == c * w + d,
    ensures
        a == c && b == d,
{
    if a < c {
        assert(a * w + b < c * w + d) by (nonlinear_arith)
            requires
                a < c,
                0 <= b < w,
                0 <= d,
        ;
    } else if a > c {
        assert(c * w + d < a * w + b) by (nonlinear_arith)
            requires
                c < a,
                0 <= d < w,
                0 <= b,
        ;
    }
}

/// Bit `col` of row `row` of glyph `idx` in bitmaps `data` with glyphs
/// `gw` by `gh`: set (drawn in the foreground) or clear.
pub open spec fn glyph_bit(data: Seq<u8>, gw: int, gh: int, idx: int, row: int, col: int) -> bool {
    let g_size = gw * gh / 8;
    let byte_idx = row * (gw / 8) + col / 8;
    byte_idx < g_size && (data[idx * g_size + byte_idx] >> ((7 - col % 8) as u8)) & 1u8 != 0
}

impl FramebufferDisplay {
    /// Index of the glyph the console draws for byte `c`.
    pub fn glyph_index(&self, c: u8) -> (r: usize)
        requires
            self.wf(),
        ensures
            r == glyph_of(self.unicode@, self.glyph_count as int, c),
    {
        let cp = c as u16;
        let n = self.unicode.len();
        if n > 0 {
            let mut i: usize = 0;
            while i < n - 1
                invariant
                    cp == c as u16,
                    n == self.unicode@.len(),
                    n > 0,
                    i <= n,
                    table_lookup(self.unicode@, c as int, 0) == table_lookup(self.unicode@, c as int, i as int),
                decreases n - i,
            {
                if self.unicode[i] == cp {
                    return self.unicode[i + 1] as usize;
                }
                proof {
                    assert(table_lookup(self.unicode@, c as int, i as int) == if self.unicode@[i as int] == 0xFFFF {
                        table_lookup(self.unicode@, c as int, i + 2)
                    } else {
                        table_lookup(self.unicode@, c as int, i + 1)
                    });
                }
                if self.unicode[i] == 0xFFFF {
                    i = i + 2;
                } else {
                    i = i + 1;
                }
            }
        }
        if (c as u32) < self.glyph_count {
            c as usize
        } else {
            (c as u32 % self.glyph_count) as usize
        }
    }

    /// The pixel at row `qy`, column `qx` after glyph `idx` is drawn with
    /// its top left at (`x`, `y`) over pixels `old`: inside the glyph's box
    /// (scaled) and the screen, the foreground or background color of the
    /// glyph's bit there; elsewhere unchanged.
    pub open spec fn drawn(&self, old: Seq<u32>, idx: int, x: int, y: int, qy: int, qx: int) -> u32 {
        let s = self.scale as int;
        if x <= qx < x + self.glyph_w * s && y <= qy < y + self.glyph_h * s && qx < self.width && qy < self.height {
            if glyph_bit(self.glyph_data@, self.glyph_w as int, self.glyph_h as int, idx, (qy - y) / s, (qx - x) / s) {
                self.fg
            } else {
                self.bg
            }
        } else {
            pix(old, self.row_words(), qy, qx)
        }
    }

    /// The glyph `idx` has a whole bitmap in the font.
    pub open spec fn glyph_in_font(&self, idx: int) -> bool {
        let g_size = self.glyph_w * self.glyph_h / 8;
        idx * g_size + g_size <= self.glyph_data@.len()
    }

    /// Draws glyph `idx` with its top left at (`x`, `y`), scaled, clipped to
    /// the screen; nothing when the font has no such glyph.
    pub fn draw_glyph(&mut self, idx: usize, x: usize, y: usize)
        requires
            old(self).wf(),
            idx <= u32::MAX,
            x <= MAX_SIDE,
            y <= MAX_SIDE,
        ensures
            final(self).wf(),
            final(self).fb@.len() == old(self).fb@.len(),
            *final(self) == (FramebufferDisplay { fb: final(self).fb, ..*old(self) }),
            final(self).fb@ == old(self).draw_fb(old(self).fb@, idx as int, x as int, y as int),
            forall|qy: int, qx: int|
                0 <= qy < old(self).height && 0 <= qx < old(self).row_words() ==> #[trigger] pix(
                    final(self).fb@,
                    old(self).row_words(),
                    qy,
                    qx,
                ) == if old(self).glyph_in_font(idx as int) {
                    old(self).drawn(old(self).fb@, idx as int, x as int, y as int, qy, qx)
                } else {
                    pix(old(self).fb@, old(self).row_words(), qy, qx)
                },
    {
        assert(self.glyph_w * self.glyph_h <= MAX_GLYPH * MAX_GLYPH) by (nonlinear_arith)
            requires
                self.glyph_w <= MAX_GLYPH,
                self.glyph_h <= MAX_GLYPH,
        ;
        let g_size = self.glyph_w * self.glyph_h / 8;
        assert(idx as u64 * g_size as u64 <= 0xFFFF_FFFFu64 * 8192) by (nonlinear_arith)
            requires
                idx <= 0xFFFF_FFFFu64,
                g_size <= 8192,
        ;
        let base64 = idx as u64 * g_size as u64;
        if base64 + g_size as u64 > self.glyph_data.len() as u64 {
            assert(!self.glyph_in_font(idx as int));
            return;
        }
        let base = base64 as usize;
        let ghost old_fb = self.fb@;
        let dlen = self.glyph_data.len();
        let flen = self.fb.len();
        let w = self.pitch / 4;
        let s = self.scale;
        assert(self.glyph_w * s <= 4096 && self.glyph_h * s <= 4096) by (nonlinear_arith)
            requires
                self.glyph_w <= MAX_GLYPH,
                self.glyph_h <= MAX_GLYPH,
                s <= 16,
        ;
        let bw = self.glyph_w * s;
        let bh = self.glyph_h * s;
        let y_end = if y + bh < self.height { y + bh } else { self.height };
        let x_end = if x + bw < self.width { x + bw } else { self.width };
        let mut qy = y;
        while qy < y_end
            invariant
                self.wf(),
                w == self.row_words(),
                s == self.scale,
                bw == self.glyph_w * s,
                bh == self.glyph_h * s,
                y <= qy,
                y_end <= self.height,
                x_end <= self.width,
                y_end == (if y + bh < self.height { y + bh } else { self.height as int }),
                x_end == (if x + bw < self.width { x + bw } else { self.width as int }),
                base == idx * g_size,
                g_size == self.glyph_w * self.glyph_h / 8,
                base + g_size <= self.glyph_data@.len(),
                dlen == self.glyph_data@.len(),
                flen == self.fb@.len(),
                self.fb@.len() == old_fb.len(),
                *self == (FramebufferDisplay { fb: self.fb, ..*old(self) }),
                forall|py: int, px: int|
                    0 <= py < self.height && 0 <= px < w ==> #[trigger] pix(self.fb@, w as int, py, px) == if py < qy {
                        old(self).drawn(old_fb, idx as int, x as int, y as int, py, px)
                    } else {
                        pix(old_fb, w as int, py, px)
                    },
            decreases y_end - qy,
        {
            let mut qx = x;
            let ghost row_start = self.fb@;
            while qx < x_end
                invariant
                    self.wf(),
                    w == self.row_words(),
                    s == self.scale,
                    bw == self.glyph_w * s,
                    bh == self.glyph_h * s,
                    y <= qy < y_end,
                    x <= qx,
                    y_end <= self.height,
                    x_end <= self.width,
                    y_end == (if y + bh < self.height { y + bh } else { self.height as int }),
                    x_end == (if x + bw < self.width { x + bw } else { self.width as int }),
                    base == idx * g_size,
                    g_size == self.glyph_w * self.glyph_h / 8,
                    base + g_size <= self.glyph_data@.len(),
                    dlen == self.glyph_data@.len(),
                    flen == self.fb@.len(),
                    self.fb@.len() == old_fb.len(),
                    *self == (FramebufferDisplay { fb: self.fb, ..*old(self) }),
                    forall|py: int, px: int|
                        0 <= py < self.height && 0 <= px < w ==> #[trigger] pix(self.fb@, w as int, py, px) == if py < qy
                            || (py == qy && px < qx) {
                            old(self).drawn(old_fb, idx as int, x as int, y as int, py, px)
                        } else {
                            pix(old_fb, w as int, py, px)
                        },
                decreases x_end - qx,
            {
                let row = (qy - y) / s;
                let col = (qx - x) / s;
                assert(row < self.glyph_h && col < self.glyph_w) by (nonlinear_arith)
                    requires
                        row == (qy - y) / (s as int),
                        col == (qx - x) / (s as int),
                        qy - y < self.glyph_h * s,
                        qx - x < self.glyph_w * s,
                        y <= qy,
                        x <= qx,
                        s >= 1,
                ;
                assert(row * (self.glyph_w / 8) <= 256 * 32) by (nonlinear_arith)
                    requires
                        row < 256,
                        self.glyph_w <= 256,
                ;
                let byte_idx = row * (self.glyph_w / 8) + col / 8;
                let bit = 7 - col % 8;
                let on = if byte_idx < g_size {
                    (self.glyph_data[base + byte_idx] >> (bit as u8)) & 1u8
                } else {
                    0u8
                };
                let color = if on != 0 { self.fg } else { self.bg };
                let ghost before = self.fb@;
                assert(qy * w + qx < self.height * w) by (nonlinear_arith)
                    requires
                        qy < self.height,
                        qx < w,
                ;
                let i = qy * w + qx;
                self.fb.set(i, color);
                proof {
                    assert forall|py: int, px: int|
                        0 <= py < self.height && 0 <= px < w implies #[trigger] pix(self.fb@, w as int, py, px) == if py < qy
                            || (py == qy && px < qx + 1) {
                            old(self).drawn(old_fb, idx as int, x as int, y as int, py, px)
                        } else {
                            pix(old_fb, w as int, py, px)
                        } by {
                        if py == qy && px == qx {
                        } else {
                            if py * w + px == qy * w + qx {
                                lemma_cell_unique(w as int, py, px, qy as int, qx as int);
                            }
                            assert(0 <= py * w + px < self.height * w) by (nonlinear_arith)
                                requires
                                    0 <= py < self.height,
                                    0 <= px < w,
                            ;
                            assert(pix(self.fb@, w as int, py, px) == pix(before, w as int, py, px));
                        }
                    }
                }
                qx = qx + 1;
            }
            proof {
                assert forall|py: int, px: int|
                    0 <= py < self.height && 0 <= px < w implies #[trigger] pix(self.fb@, w as int, py, px) == if py < qy + 1 {
                        old(self).drawn(old_fb, idx as int, x as int, y as int, py, px)
                    } else {
                        pix(old_fb, w as int, py, px)
                    } by {
                    if py == qy && px >= qx {
                        assert(pix(self.fb@, w as int, py, px) == pix(old_fb, w as int, py, px));
                    }
                }
            }
            qy = qy + 1;
        }
        proof {
            assert forall|py: int, px: int|
                0 <= py < self.height && 0 <= px < w implies #[trigger] pix(self.fb@, w as int, py, px)
                    == old(self).drawn(old_fb, idx as int, x as int, y as int, py, px) by {
                if py >= qy {
                    assert(pix(self.fb@, w as int, py, px) == pix(old_fb, w as int, py, px));
                }
            }
            assert forall|i: int| 0 <= i < self.fb@.len() implies self.fb@[i] == old(self).draw_fb(
                old_fb,
                idx as int,
                x as int,
                y as int,
            )[i] by {
                assert(w > 0) by (nonlinear_arith)
                    requires
                        i < self.height * w,
                        0 <= i,
                ;
                lemma_grid(i, w as int);
                let qy = i / (w as int);
                let qx = i % (w as int);
                assert(qy < self.height) by (nonlinear_arith)
                    requires
                        i < self.height * w,
                        qy == i / (w as int),
                        w > 0,
                ;
                assert(pix(self.fb@, w as int, qy, qx) == self.fb@[i]);
            }
            assert(self.fb@ =~= old(self).draw_fb(old_fb, idx as int, x as int, y as int));
        }
    }
}

/// Cell `i` of a grid with rows of `w` cells is at row `i / w`, column
/// `i % w`.
proof fn lemma_grid(i: int, w: int)
    requires
        0 <= i,
        0 < w,
    ensures
        (i / w) * w + i % w == i,
        0 <= i % w < w,
        0 <= i / w,
{
    assert((i / w) * w + i % w == i && 0 <= i % w < w && 0 <= i / w) by (nonlinear_arith)
        requires
            0 <= i,
            0 < w,
    ;
}

impl FramebufferDisplay {
    /// Height of one line of text, in pixels.
    pub open spec fn line_h(&self) -> int {
        self.glyph_h * self.scale
    }

    /// Width of one character cell, in pixels.
    pub open spec fn cell_w(&self) -> int {
        self.glyph_w * self.scale
    }

    /// First pixel row of the last whole text line.
    pub open spec fn last_line_y(&self) -> int {
        (self.height as int / self.line_h() - 1) * self.line_h()
    }

    /// Pixel (`qx`, `qy`) after the screen scrolls one text line up: the
    /// pixel one line below, for rows above the last whole line; the
    /// background on the screen below that; unchanged beyond the width.
    pub open spec fn scrolled(&self, old: Seq<u32>, qy: int, qx: int) -> u32 {
        if qy < self.last_line_y() {
            pix(old, self.row_words(), qy + self.line_h(), qx)
        } else if qy < self.height && qx < self.width {
            self.bg
        } else {
            pix(old, self.row_words(), qy, qx)
        }
    }

    /// The pixels after scrolling `fb` one text line up.
    pub open spec fn scroll_fb(&self, fb: Seq<u32>) -> Seq<u32> {
        Seq::new(fb.len(), |i: int| self.scrolled(fb, i / self.row_words(), i % self.row_words()))
    }

    /// The pixels after drawing glyph `idx` at (`x`, `y`) over `fb`.
    pub open spec fn draw_fb(&self, fb: Seq<u32>, idx: int, x: int, y: int) -> Seq<u32> {
        if self.glyph_in_font(idx) {
            Seq::new(fb.len(), |i: int| self.drawn(fb, idx, x, y, i / self.row_words(), i % self.row_words()))
        } else {
            fb
        }
    }

    /// Scrolls the screen one text line up, clearing the last line; the
    /// cursor moves up a line (not above the top).
    pub fn scroll(&mut self)
        requires
            old(self).geometry_ok(),
            old(self).cursor_y <= 2 * MAX_SIDE,
        ensures
            final(self).geometry_ok(),
            final(self).fb@ == old(self).scroll_fb(old(self).fb@),
            *final(self) == (FramebufferDisplay {
                fb: final(self).fb,
                cursor_y: if old(self).cursor_y > old(self).line_h() { (old(self).cursor_y - old(self).line_h()) as usize } else { 0 },
                ..*old(self)
            }),
    {
        let ghost old_fb = self.fb@;
        let w = self.pitch / 4;
        assert(1 <= self.glyph_h * self.scale <= 4096) by (nonlinear_arith)
            requires
                1 <= self.glyph_h <= MAX_GLYPH,
                1 <= self.scale <= 16,
        ;
        let lh = self.glyph_h * self.scale;
        assert(lh * w <= self.height * w) by (nonlinear_arith)
            requires
                lh <= self.height,
        ;
        let flen = self.fb.len();
        let row_px = lh * w;
        let total_rows = self.height / lh;
        assert(total_rows >= 1 && (total_rows - 1) * lh <= self.height - lh && total_rows * lh <= self.height)
            by (nonlinear_arith)
            requires
                lh >= 1,
                lh <= self.height,
                total_rows == self.height / lh,
        ;
        let y0 = (total_rows - 1) * lh;
        assert(y0 * w + row_px <= self.height * w) by (nonlinear_arith)
            requires
                y0 + lh <= self.height,
                row_px == lh * w,
        ;
        let count = y0 * w;
        let mut i: usize = 0;
        while i < count
            invariant
                flen == self.fb@.len() == old_fb.len(),
                count + row_px <= flen,
                i <= count,
                forall|j: int| 0 <= j < i ==> #[trigger] self.fb@[j] == old_fb[j + row_px],
                forall|j: int| i <= j < flen ==> #[trigger] self.fb@[j] == old_fb[j],
                *self == (FramebufferDisplay { fb: self.fb, ..*old(self) }),
            decreases count - i,
        {
            let v = self.fb[i + row_px];
            self.fb.set(i, v);
            i = i + 1;
        }
        let ghost copied = self.fb@;
        proof {
            assert forall|qy: int, qx: int| 0 <= qy < self.height && 0 <= qx < w implies #[trigger] pix(
                self.fb@,
                w as int,
                qy,
                qx,
            ) == if qy < y0 {
                pix(old_fb, w as int, qy + lh, qx)
            } else {
                pix(old_fb, w as int, qy, qx)
            } by {
                if qy < y0 {
                    assert(qy * w + qx < y0 * w && (qy + lh) * w + qx == qy * w + qx + row_px) by (nonlinear_arith)
                        requires
                            qy < y0,
                            qx < w,
                            row_px == lh * w,
                    ;
                } else {
                    assert(qy * w + qx >= y0 * w && qy * w + qx < self.height * w) by (nonlinear_arith)
                        requires
                            qy >= y0,
                            qy < self.height,
                            qx >= 0,
                            qx < w,
                    ;
                }
            }
        }
        let mut y = y0;
        while y < self.height
            invariant
                flen == self.fb@.len() == old_fb.len() == self.height * w,
                w == self.row_words(),
                y0 <= y <= self.height,
                self.width <= w,
                *self == (FramebufferDisplay { fb: self.fb, ..*old(self) }),
                forall|qy: int, qx: int| 0 <= qy < self.height && 0 <= qx < w ==> #[trigger] pix(self.fb@, w as int, qy, qx)
                    == if qy < y0 {
                    pix(old_fb, w as int, qy + lh, qx)
                } else if qy < y && qx < self.width {
                    self.bg
                } else {
                    pix(old_fb, w as int, qy, qx)
                },
            decreases self.height - y,
        {
            let mut x: usize = 0;
            while x < self.width
                invariant
                    flen == self.fb@.len() == old_fb.len() == self.height * w,
                    w == self.row_words(),
                    y0 <= y < self.height,
                    x <= self.width,
                    self.width <= w,
                    *self == (FramebufferDisplay { fb: self.fb, ..*old(self) }),
                    forall|qy: int, qx: int| 0 <= qy < self.height && 0 <= qx < w ==> #[trigger] pix(self.fb@, w as int, qy, qx)
                        == if qy < y0 {
                        pix(old_fb, w as int, qy + lh, qx)
                    } else if (qy < y || (qy == y && qx < x)) && qx < self.width {
                        self.bg
                    } else {
                        pix(old_fb, w as int, qy, qx)
                    },
                decreases self.width - x,
            {
                assert(y * w + x < self.height * w) by (nonlinear_arith)
                    requires
                        y < self.height,
                        x < w,
                ;
                let ghost before = self.fb@;
                let bg = self.bg;
                self.fb.set(y * w + x, bg);
                proof {
                    assert forall|qy: int, qx: int| 0 <= qy < self.height && 0 <= qx < w implies #[trigger] pix(
                        self.fb@,
                        w as int,
                        qy,
                        qx,
                    ) == if qy < y0 {
                        pix(old_fb, w as int, qy + lh, qx)
                    } else if (qy < y || (qy == y && qx < x + 1)) && qx < self.width {
                        self.bg
                    } else {
                        pix(old_fb, w as int, qy, qx)
                    } by {
                        if !(qy == y && qx == x) {
                            if qy * w + qx == y * w + x {
                                lemma_cell_unique(w as int, qy, qx, y as int, x as int);
                            }
                            assert(0 <= qy * w + qx < self.height * w) by (nonlinear_arith)
                                requires
                                    0 <= qy < self.height,
                                    0 <= qx < w,
                            ;
                            assert(pix(self.fb@, w as int, qy, qx) == pix(before, w as int, qy, qx));
                        }
                    }
                }
                x = x + 1;
            }
            y = y + 1;
        }
        if self.cursor_y > 0 {
            self.cursor_y = if self.cursor_y > lh { self.cursor_y - lh } else { 0 };
        }
        proof {
            assert(y0 == old(self).last_line_y());
            assert forall|i: int| 0 <= i < self.fb@.len() implies self.fb@[i] == old(self).scroll_fb(old_fb)[i] by {
                assert(w > 0) by (nonlinear_arith)
                    requires
                        i < self.height * w,
                        0 <= i,
                ;
                lemma_grid(i, w as int);
                let qy = i / (w as int);
                let qx = i % (w as int);
                assert(qy < self.height) by (nonlinear_arith)
                    requires
                        i < self.height * w,
                        qy == i / (w as int),
                        w > 0,
                ;
                assert(pix(self.fb@, w as int, qy, qx) == self.fb@[i]);
            }
            assert(self.fb@ =~= old(self).scroll_fb(old_fb));
        }
    }
}

impl FramebufferDisplay {
    /// The pixels and cursor after byte `c` is shown: carriage return and
    /// newline move the cursor (a newline past the last line scrolls),
    /// backspace steps back a cell and blanks it with glyph 0, any other
    /// byte draws its glyph and advances, wrapping (and scrolling) at the
    /// right edge.
    pub open spec fn put(&self, c: u8) -> (Seq<u32>, int, int) {
        let gw = self.cell_w();
        let gh = self.line_h();
        let cx = self.cursor_x as int;
        let cy = self.cursor_y as int;
        if c == 13 {
            (self.fb@, 0, cy)
        } else if c == 10 {
            if cy + 2 * gh > self.height {
                (self.scroll_fb(self.fb@), 0, cy)
            } else {
                (self.fb@, 0, cy + gh)
            }
        } else if c == 8 {
            let cx2 = if cx >= gw { cx - gw } else { cx };
            (self.draw_fb(self.fb@, 0, cx2, cy), cx2, cy)
        } else {
            let fb2 = self.draw_fb(self.fb@, glyph_of(self.unicode@, self.glyph_count as int, c), cx, cy);
            if cx + 2 * gw > self.width {
                if cy + 2 * gh > self.height {
                    (self.scroll_fb(fb2), 0, cy)
                } else {
                    (fb2, 0, cy + gh)
                }
            } else {
                (fb2, cx + gw, cy)
            }
        }
    }

    /// Shows byte `c`, as `put` states.
    pub fn putchar(&mut self, c: u8)
        requires
            old(self).wf(),
        ensures
            final(self).wf(),
            ({
                let (fb, cx, cy) = old(self).put(c);
                *final(self) == (FramebufferDisplay {
                    fb: final(self).fb,
                    cursor_x: cx as usize,
                    cursor_y: cy as usize,
                    ..*old(self)
                }) && final(self).fb@ == fb
            }),
    {
        assert(1 <= self.glyph_h * self.scale <= 4096 && 1 <= self.glyph_w * self.scale <= 4096) by (nonlinear_arith)
            requires
                1 <= self.glyph_h <= MAX_GLYPH,
                1 <= self.glyph_w <= MAX_GLYPH,
                1 <= self.scale <= 16,
        ;
        let gw = self.glyph_w * self.scale;
        let gh = self.glyph_h * self.scale;
        if c == 13 {
            self.cursor_x = 0;
        } else if c == 10 {
            self.cursor_x = 0;
            self.cursor_y = self.cursor_y + gh;
            if self.cursor_y + gh > self.height {
                self.scroll();
            }
        } else if c == 8 {
            if self.cursor_x >= gw {
                self.cursor_x = self.cursor_x - gw;
            }
            let (x, y) = (self.cursor_x, self.cursor_y);
            self.draw_glyph(0, x, y);
        } else {
            let idx = self.glyph_index(c);
            assert(idx <= u32::MAX) by {
                lemma_lookup_bound(self.unicode@, c as int, 0);
            }
            let (x, y) = (self.cursor_x, self.cursor_y);
            self.draw_glyph(idx, x, y);
            self.cursor_x = self.cursor_x + gw;
            if self.cursor_x + gw > self.width {
                self.cursor_x = 0;
                self.cursor_y = self.cursor_y + gh;
                if self.cursor_y + gh > self.height {
                    self.scroll();
                }
            }
        }
    }

    /// Fills the screen with the background color and homes the cursor.
    pub fn clear_screen(&mut self)
        requires
            old(self).wf(),
        ensures
            final(self).wf(),
            *final(self) == (FramebufferDisplay { fb: final(self).fb, cursor_x: 0, cursor_y: 0, ..*old(self) }),
            final(self).fb@.len() == old(self).fb@.len(),
            forall|i: int| 0 <= i < final(self).fb@.len() ==> #[trigger] final(self).fb@[i] == old(self).bg,
    {
        let n = self.fb.len();
        let mut i: usize = 0;
        while i < n
            invariant
                n == self.fb@.len(),
                i <= n,
                *self == (FramebufferDisplay { fb: self.fb, ..*old(self) }),
                self.fb@.len() == old(self).fb@.len(),
                forall|j: int| 0 <= j < i ==> #[trigger] self.fb@[j] == old(self).bg,
            decreases n - i,
        {
            let bg = self.bg;
            self.fb.set(i, bg);
            i = i + 1;
        }
        self.cursor_x = 0;
        self.cursor_y = 0;
    }

    /// Whether the console's fields agree (see `wf`).
    pub fn fields_ok(&self) -> (r: bool)
        ensures
            r == self.wf(),
    {
        let w = self.pitch / 4;
        if !(self.width <= w && self.pitch <= 4 * MAX_SIDE && self.width <= MAX_SIDE && self.height <= MAX_SIDE
            && 1 <= self.glyph_w && self.glyph_w <= MAX_GLYPH && 1 <= self.glyph_h && self.glyph_h <= MAX_GLYPH
            && 1 <= self.scale && self.scale <= 16 && self.glyph_count >= 1 && self.cursor_x <= MAX_SIDE
            && self.cursor_y <= MAX_SIDE) {
            return false;
        }
        assert(self.glyph_h * self.scale <= 4096) by (nonlinear_arith)
            requires
                self.glyph_h <= MAX_GLYPH,
                self.scale <= 16,
        ;
        assert(self.height * w <= MAX_SIDE * MAX_SIDE) by (nonlinear_arith)
            requires
                self.height <= MAX_SIDE,
                w <= MAX_SIDE,
        ;
        self.glyph_h * self.scale <= self.height && self.fb.len() as u64 == self.height as u64 * w as u64
    }
}

impl Display for FramebufferDisplay {
    fn clear(&mut self) {
        if self.fields_ok() {
            self.clear_screen();
        }
    }

    fn write(&mut self, text: &[u8]) {
        if self.fields_ok() {
            let mut i: usize = 0;
            while i < text.len()
                invariant
                    self.wf(),
                decreases text@.len() - i,
            {
                self.putchar(text[i]);
                i = i + 1;
            }
        }
    }

    fn writeln(&mut self, text: &[u8]) {
        if self.fields_ok() {
            self.write(text);
            if self.fields_ok() {
                self.putchar(10);
            }
        }
    }

    fn putchar(&mut self, c: u8) {
        if self.fields_ok() {
            FramebufferDisplay::putchar(self, c);
        }
    }

    fn set_cursor(&mut self, row: usize, col: usize) {
        if self.fields_ok() && row <= MAX_SIDE && col <= MAX_SIDE {
            assert(col * self.glyph_w <= MAX_SIDE * 256 && row * self.glyph_h <= MAX_SIDE * 256 && col * self.glyph_w
                * self.scale <= MAX_SIDE * 256 * 16 && row * self.glyph_h * self.scale <= MAX_SIDE * 256 * 16)
                by (nonlinear_arith)
                requires
                    row <= MAX_SIDE,
                    col <= MAX_SIDE,
                    self.glyph_w <= 256,
                    self.glyph_h <= 256,
                    self.scale <= 16,
            ;
            let x = col as u64 * self.glyph_w as u64 * self.scale as u64;
            let y = row as u64 * self.glyph_h as u64 * self.scale as u64;
            if x <= MAX_SIDE as u64 && y <= MAX_SIDE as u64 {
                self.cursor_x = x as usize;
                self.cursor_y = y as usize;
            }
        }
    }

    fn scroll(&mut self) {
        if self.fields_ok() {
            FramebufferDisplay::scroll(self);
        }
    }

    fn reset_cursor(&mut self) {
        self.cursor_x = 0;
        self.cursor_y = 0;
    }

    fn cols(&self) -> usize {
        if self.glyph_w >= 1 && self.glyph_w <= MAX_GLYPH && self.scale >= 1 && self.scale <= 16 {
            assert(1 <= self.glyph_w * self.scale <= 4096) by (nonlinear_arith)
                requires
                    1 <= self.glyph_w <= 256,
                    1 <= self.scale <= 16,
            ;
            self.width / (self.glyph_w * self.scale)
        } else {
            0
        }
    }

    fn rows(&self) -> usize {
        if self.glyph_h >= 1 && self.glyph_h <= MAX_GLYPH && self.scale >= 1 && self.scale <= 16 {
            assert(1 <= self.glyph_h * self.scale <= 4096) by (nonlinear_arith)
                requires
                    1 <= self.glyph_h <= 256,
                    1 <= self.scale <= 16,
            ;
            self.height / (self.glyph_h * self.scale)
        } else {
            0
        }
    }
}

} // verus!
