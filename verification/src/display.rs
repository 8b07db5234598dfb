//! Text-mode console: an 80x25 grid of character cells with a cursor.
use vstd::prelude::*;

verus! {

/// Columns of the text grid.
pub const WIDTH: usize = 80;
/// Rows of the text grid.
pub const HEIGHT: usize = 25;
/// Attribute byte of every cell: white on deep purple.
pub const COLOR: u8 = 0x5F;

/// A text console the shell and the applets write to.
pub trait Display {
    fn clear(&mut self);
    fn write(&mut self, text: &[u8]);
    fn writeln(&mut self, text: &[u8]);
    fn putchar(&mut self, c: u8);
    fn set_cursor(&mut self, row: usize, col: usize);
    fn scroll(&mut self);
    fn reset_cursor(&mut self);
    fn cols(&self) -> usize;
    fn rows(&self) -> usize;
}

/// The cell value showing character `c` in attribute `color`.
pub open spec fn cell(c: u8, color: u8) -> u16 {
    (color as int * 256 + c as int) as u16
}

/// The cell value showing character `c` in the console colour.
pub fn entry(c: u8, color: u8) -> (r: u16)
    ensures
        r == cell(c, color),
{
    (color as u16) * 256 + c as u16
}

/// A blank cell.
pub open spec fn blank() -> u16 {
    cell(32, COLOR)
}

/// A grid of blank cells.
pub open spec fn blank_grid() -> Seq<u16> {
    Seq::new((WIDTH * HEIGHT) as nat, |i: int| blank())
}

/// The grid moved up one row, with a blank bottom row.
pub open spec fn scrolled(cells: Seq<u16>) -> Seq<u16> {
    cells.subrange(WIDTH as int, (WIDTH * HEIGHT) as int) + Seq::new(WIDTH as nat, |i: int| blank())
}

/// Abstract console state: the cells, the write position and the hardware
/// cursor position (row-major cell index).
pub struct ConsoleV {
    pub cells: Seq<u16>,
    pub row: int,
    pub col: int,
    pub cursor: int,
}

/// The cursor cell index of `(row, col)`.
pub open spec fn pos(row: int, col: int) -> int {
    row * WIDTH + col
}

/// Moving to the start of the next line, scrolling when it would leave the grid.
pub open spec fn newline(v: ConsoleV) -> ConsoleV {
    if v.row + 1 >= HEIGHT {
        ConsoleV { cells: scrolled(v.cells), row: HEIGHT - 1, col: 0, ..v }
    } else {
        ConsoleV { row: v.row + 1, col: 0, ..v }
    }
}

/// The console after writing byte `c`: backspace moves left (not past the
/// line start), carriage return goes to the line start, line feed starts a
/// new line, any other byte is stored at the write position (wrapping to a
/// new line first when the row is full) and the position advances. The
/// hardware cursor follows the write position except after a backspace at
/// the line start.
pub open spec fn put(v: ConsoleV, c: u8) -> ConsoleV {
    if c == 0x08 {
        if v.col > 0 {
            ConsoleV { col: v.col - 1, cursor: pos(v.row, v.col - 1), ..v }
        } else {
            v
        }
    } else if c == 0x0D {
        ConsoleV { col: 0, cursor: pos(v.row, 0), ..v }
    } else if c == 10 {
        let w = newline(v);
        ConsoleV { cursor: pos(w.row, w.col), ..w }
    } else {
        let w = if v.col >= WIDTH {
            newline(v)
        } else {
            v
        };
        ConsoleV {
            cells: w.cells.update(pos(w.row, w.col), cell(c, COLOR)),
            col: w.col + 1,
            cursor: pos(w.row, w.col + 1),
            ..w
        }
    }
}

/// The console after writing each byte of `s` in turn.
pub open spec fn put_all(v: ConsoleV, s: Seq<u8>) -> ConsoleV
    decreases s.len(),
{
    if s.len() == 0 {
        v
    } else {
        put(put_all(v, s.drop_last()), s.last())
    }
}

/// A VGA text-mode console.
pub struct VgaDisplay {
    cells: Vec<u16>,
    row: usize,
    col: usize,
    cursor: usize,
}

impl VgaDisplay {
    pub closed spec fn view(&self) -> ConsoleV {
        ConsoleV { cells: self.cells@, row: self.row as int, col: self.col as int, cursor: self.cursor as int }
    }

    /// The grid has its size and the write position lies on it (the column
    /// may sit just past the last cell of a row).
    pub closed spec fn wf(&self) -> bool {
        &&& self.cells@.len() == WIDTH * HEIGHT
        &&& self.row < HEIGHT
        &&& self.col <= WIDTH
        &&& self.cursor <= WIDTH * HEIGHT
    }

    /// A blank console with the cursor at the top left.
    pub fn new() -> (d: Self)
        ensures
            d.wf(),
            d@ == (ConsoleV { cells: blank_grid(), row: 0, col: 0, cursor: 0 }),
    {
        let mut cells: Vec<u16> = Vec::new();
        let b = entry(32, COLOR);
        let mut i: usize = 0;
        while i < WIDTH * HEIGHT
            invariant
                i <= WIDTH * HEIGHT,
                b == blank(),
                cells@ == Seq::new(i as nat, |j: int| blank()),
            decreases WIDTH * HEIGHT - i,
        {
            cells.push(b);
            i = i + 1;
            proof {
                assert(cells@ =~= Seq::new(i as nat, |j: int| blank()));
            }
        }
        VgaDisplay { cells, row: 0, col: 0, cursor: 0 }
    }

    /// Cell at row-major index `i`.
    pub fn cell_at(&self, i: usize) -> (r: u16)
        requires
            self.wf(),
            i < WIDTH * HEIGHT,
        ensures
            r == self@.cells[i as int],
    {
        self.cells[i]
    }

    /// Current write row and column.
    pub fn position(&self) -> (r: (usize, usize))
        ensures
            r.0 == self@.row && r.1 == self@.col,
    {
        (self.row, self.col)
    }

    /// Current hardware cursor cell index.
    pub fn cursor(&self) -> (r: usize)
        ensures
            r == self@.cursor,
    {
        self.cursor
    }

    /// Blanks the grid and homes the cursor (what start-up does too).
    pub fn init(&mut self)
        requires
            old(self).wf(),
        ensures
            final(self).wf(),
            final(self)@ == (ConsoleV { cells: blank_grid(), row: 0, col: 0, cursor: 0 }),
    {
        self.clear_cells();
    }

    fn clear_cells(&mut self)
        requires
            old(self).wf(),
        ensures
            final(self).wf(),
            final(self)@ == (ConsoleV { cells: blank_grid(), row: 0, col: 0, cursor: 0 }),
    {
        let b = entry(32, COLOR);
        let mut i: usize = 0;
        while i < WIDTH * HEIGHT
            invariant
                i <= WIDTH * HEIGHT,
                self.cells@.len() == WIDTH * HEIGHT,
                b == blank(),
                forall|j: int| 0 <= j < i ==> self.cells@[j] == blank(),
                self.row < HEIGHT,
                self.col <= WIDTH,
                self.cursor <= WIDTH * HEIGHT,
            decreases WIDTH * HEIGHT - i,
        {
            self.cells.set(i, b);
            i = i + 1;
        }
        self.row = 0;
        self.col = 0;
        self.cursor = 0;
        proof {
            assert(self.cells@ =~= blank_grid());
        }
    }

    /// Moves every row up by one and blanks the bottom row.
    pub fn scroll_up(&mut self)
        requires
            old(self).wf(),
        ensures
            final(self).wf(),
            final(self)@ == (ConsoleV { cells: scrolled(old(self)@.cells), ..old(self)@ }),
    {
        let ghost c0 = self.cells@;
        let mut i: usize = 0;
        while i < WIDTH * (HEIGHT - 1)
            invariant
                i <= WIDTH * (HEIGHT - 1),
                self.cells@.len() == WIDTH * HEIGHT,
                forall|j: int| 0 <= j < i ==> self.cells@[j] == c0[j + WIDTH],
                forall|j: int| i <= j < WIDTH * HEIGHT ==> self.cells@[j] == c0[j],
                c0.len() == WIDTH * HEIGHT,
                self.row < HEIGHT,
                self.col <= WIDTH,
                self.cursor <= WIDTH * HEIGHT,
                self.row == old(self).row,
                self.col == old(self).col,
                self.cursor == old(self).cursor,
                c0 == old(self).cells@,
            decreases WIDTH * (HEIGHT - 1) - i,
        {
            let c = self.cells[i + WIDTH];
            self.cells.set(i, c);
            i = i + 1;
        }
        let b = entry(32, COLOR);
        while i < WIDTH * HEIGHT
            invariant
                WIDTH * (HEIGHT - 1) <= i <= WIDTH * HEIGHT,
                self.cells@.len() == WIDTH * HEIGHT,
                b == blank(),
                forall|j: int| 0 <= j < WIDTH * (HEIGHT - 1) ==> self.cells@[j] == c0[j + WIDTH],
                forall|j: int| WIDTH * (HEIGHT - 1) <= j < i ==> self.cells@[j] == blank(),
                c0.len() == WIDTH * HEIGHT,
                self.row < HEIGHT,
                self.col <= WIDTH,
                self.cursor <= WIDTH * HEIGHT,
                self.row == old(self).row,
                self.col == old(self).col,
                self.cursor == old(self).cursor,
                c0 == old(self).cells@,
            decreases WIDTH * HEIGHT - i,
        {
            self.cells.set(i, b);
            i = i + 1;
        }
        proof {
            assert(self.cells@ =~= scrolled(c0));
        }
    }

    fn next_line(&mut self)
        requires
            old(self).wf(),
        ensures
            final(self).wf(),
            final(self)@ == newline(old(self)@),
    {
        if self.row + 1 >= HEIGHT {
            self.scroll_up();
            self.row = HEIGHT - 1;
        } else {
            self.row = self.row + 1;
        }
        self.col = 0;
    }

    /// Writes one byte (see [`put`]).
    pub fn put_byte(&mut self, c: u8)
        requires
            old(self).wf(),
        ensures
            final(self).wf(),
            final(self)@ == put(old(self)@, c),
    {
        if c == 0x08 {
            if self.col > 0 {
                self.col = self.col - 1;
                self.cursor = self.row * WIDTH + self.col;
            }
            return;
        }
        if c == 0x0D {
            self.col = 0;
            self.cursor = self.row * WIDTH;
            return;
        }
        if c == 10 {
            self.next_line();
            self.cursor = self.row * WIDTH + self.col;
            return;
        }
        if self.col >= WIDTH {
            self.next_line();
        }
        let e = entry(c, COLOR);
        let at = self.row * WIDTH + self.col;
        self.cells.set(at, e);
        self.col = self.col + 1;
        self.cursor = self.row * WIDTH + self.col;
    }

    /// Writes each byte of `s` in turn.
    pub fn put_bytes(&mut self, s: &[u8])
        requires
            old(self).wf(),
        ensures
            final(self).wf(),
            final(self)@ == put_all(old(self)@, s@),
    {
        let mut i: usize = 0;
        while i < s.len()
            invariant
                i <= s@.len(),
                self.wf(),
                self@ == put_all(old(self)@, s@.subrange(0, i as int)),
            decreases s.len() - i,
        {
            proof {
                assert(s@.subrange(0, i + 1).drop_last() =~= s@.subrange(0, i as int));
            }
            self.put_byte(s[i]);
            i = i + 1;
        }
        proof {
            assert(s@.subrange(0, s@.len() as int) =~= s@);
        }
    }

    /// Moves the hardware cursor to `(row, col)`; the write position stays.
    pub fn move_cursor(&mut self, row: usize, col: usize)
        requires
            old(self).wf(),
            row < HEIGHT,
            col <= WIDTH,
        ensures
            final(self).wf(),
            final(self)@ == (ConsoleV { cursor: pos(row as int, col as int), ..old(self)@ }),
    {
        self.cursor = row * WIDTH + col;
    }

    /// Sends the write position and the hardware cursor home.
    pub fn home(&mut self)
        requires
            old(self).wf(),
        ensures
            final(self).wf(),
            final(self)@ == (ConsoleV { row: 0, col: 0, cursor: 0, ..old(self)@ }),
    {
        self.row = 0;
        self.col = 0;
        self.cursor = 0;
    }
}

impl Display for VgaDisplay {
    fn clear(&mut self) {
        if self.cells.len() == WIDTH * HEIGHT && self.row < HEIGHT && self.col <= WIDTH && self.cursor <= WIDTH
            * HEIGHT {
            self.clear_cells();
        }
    }

    fn write(&mut self, text: &[u8]) {
        if self.cells.len() == WIDTH * HEIGHT && self.row < HEIGHT && self.col <= WIDTH && self.cursor <= WIDTH
            * HEIGHT {
            self.put_bytes(text);
        }
    }

    fn writeln(&mut self, text: &[u8]) {
        if self.cells.len() == WIDTH * HEIGHT && self.row < HEIGHT && self.col <= WIDTH && self.cursor <= WIDTH
            * HEIGHT {
            self.put_bytes(text);
            self.put_byte(10);
        }
    }

    fn putchar(&mut self, c: u8) {
        if self.cells.len() == WIDTH * HEIGHT && self.row < HEIGHT && self.col <= WIDTH && self.cursor <= WIDTH
            * HEIGHT {
            self.put_byte(c);
        }
    }

    fn set_cursor(&mut self, row: usize, col: usize) {
        if self.cells.len() == WIDTH * HEIGHT && self.row < HEIGHT && self.col <= WIDTH && self.cursor <= WIDTH
            * HEIGHT && row < HEIGHT && col <= WIDTH {
            self.move_cursor(row, col);
        }
    }

    fn scroll(&mut self) {
        if self.cells.len() == WIDTH * HEIGHT && self.row < HEIGHT && self.col <= WIDTH && self.cursor <= WIDTH
            * HEIGHT {
            self.scroll_up();
        }
    }

    fn reset_cursor(&mut self) {
        if self.cells.len() == WIDTH * HEIGHT && self.row < HEIGHT && self.col <= WIDTH && self.cursor <= WIDTH
            * HEIGHT {
            self.home();
        }
    }

    fn cols(&self) -> usize {
        WIDTH
    }

    fn rows(&self) -> usize {
        HEIGHT
    }
}

} // verus!
