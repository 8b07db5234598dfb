//! The command shell: a line editor with history, and the interpretation
//! of a finished line as a built-in command, an applet or an unknown
//! command. The shell holds no device: each key it is handed gives back the
//! bytes to show, and each finished line what to do with it.
pub mod builtins;

use vstd::prelude::*;
use vstd::string::StringSliceAdditionalSpecFns;
use crate::applets::{AppletKind, AppletRegistry, first_named};
use crate::text::{as_utf8, copy_range, first_index_of, lemma_first_index, position_of, prefix_len_before, push_bytes, push_repeat, push_str, repeat, utf8_valid};

verus! {

/// The prompt.
pub const PROMPT: &'static str = "$ ";
/// Longest command line, in bytes.
pub const MAX_CMD: usize = 256;
/// Most lines the history keeps.
pub const HISTORY_SIZE: usize = 64;
/// Most arguments handed to a command.
pub const MAX_ARGS: usize = 16;

/// What the editor sees of the shell: the line being edited, the cursor in
/// it, the history (most recent first) and the history entry being shown
/// (-1 for the line being typed).
pub struct ShellV {
    pub line: Seq<u8>,
    pub cursor: int,
    pub hist: Seq<Seq<u8>>,
    pub hist_cursor: int,
}

/// The shell's editing state and the applets it can run.
pub struct Shell {
    pub registry: AppletRegistry,
    pub cols: usize,
    pub cursor_pos: usize,
    pub line: Vec<u8>,
    pub history: Vec<Vec<u8>>,
    pub history_cursor: isize,
}

/// `s` with at most its first `n` elements.
pub open spec fn at_most<A>(s: Seq<A>, n: int) -> Seq<A> {
    if s.len() <= n {
        s
    } else {
        s.take(n)
    }
}

/// The history after `buf` is entered: unchanged for an empty line, else
/// the line (at most `MAX_CMD` bytes of it) in front, the oldest entry
/// dropped when the history was full.
pub open spec fn pushed(hist: Seq<Seq<u8>>, buf: Seq<u8>) -> Seq<Seq<u8>> {
    if buf.len() == 0 {
        hist
    } else {
        seq![at_most(buf, MAX_CMD as int)] + at_most(hist, HISTORY_SIZE - 1)
    }
}

/// What the line editor shows to redraw `line` with the cursor at `cursor`:
/// back to the line start, prompt, blanks over the rest of the screen
/// line, back again, prompt, the line, then back-steps to the cursor.
pub open spec fn redraw(cols: int, line: Seq<u8>, cursor: int) -> Seq<u8> {
    let clear = if cols > 3 { cols - 3 } else { 0 };
    seq![13u8, 36, 32] + repeat(32, clear as nat) + seq![13u8, 36, 32] + line + repeat(8, (line.len() - cursor) as nat)
}

/// The history entry `i` as the editor loads it.
pub open spec fn entry_of(hist: Seq<Seq<u8>>, i: int) -> Seq<u8> {
    if 0 <= i < hist.len() {
        at_most(hist[i], MAX_CMD as int)
    } else {
        Seq::empty()
    }
}

/// The state of `v` with `line` loaded and the cursor at its end.
pub open spec fn loaded(v: ShellV, line: Seq<u8>, hc: int) -> ShellV {
    ShellV { line, cursor: line.len() as int, hist: v.hist, hist_cursor: hc }
}

/// The effect of key `c` on the editor in state `v` with a screen `cols`
/// wide: the next state, what to show, and the line entered (for Enter).
pub open spec fn key_step(v: ShellV, c: u8, cols: int) -> (ShellV, Seq<u8>, Option<Seq<u8>>) {
    let len = v.line.len() as int;
    if c == 10 || c == 13 {
        (
            ShellV { line: Seq::empty(), cursor: 0, hist: pushed(v.hist, v.line), hist_cursor: -1 },
            seq![10u8],
            Some(v.line),
        )
    } else if c == 8 || c == 0x7F {
        if v.cursor > 0 && len > 0 {
            let line = v.line.take(v.cursor - 1) + v.line.skip(v.cursor);
            let w = ShellV { line, cursor: v.cursor - 1, ..v };
            (w, redraw(cols, line, v.cursor - 1), None)
        } else {
            (v, Seq::empty(), None)
        }
    } else if c == 3 {
        if v.cursor > 0 {
            (ShellV { cursor: v.cursor - 1, ..v }, seq![8u8], None)
        } else {
            (v, Seq::empty(), None)
        }
    } else if c == 4 {
        if v.cursor < len {
            (ShellV { cursor: v.cursor + 1, ..v }, seq![v.line[v.cursor]], None)
        } else {
            (v, Seq::empty(), None)
        }
    } else if c == 1 {
        if v.hist_cursor < v.hist.len() - 1 {
            let e = entry_of(v.hist, v.hist_cursor + 1);
            (loaded(v, e, v.hist_cursor + 1), redraw(cols, e, e.len() as int), None)
        } else {
            (v, Seq::empty(), None)
        }
    } else if c == 2 {
        if v.hist_cursor >= 0 {
            let hc = v.hist_cursor - 1;
            let e = entry_of(v.hist, hc);
            (loaded(v, e, hc), redraw(cols, e, e.len() as int), None)
        } else {
            (v, Seq::empty(), None)
        }
    } else if 0x20 <= c < 0x7F {
        let max_len = if cols > 2 { cols - 2 } else { 0 };
        if len < max_len {
            let line = v.line.take(v.cursor) + seq![c] + v.line.skip(v.cursor);
            (ShellV { line, cursor: v.cursor + 1, ..v }, redraw(cols, line, v.cursor + 1), None)
        } else {
            (v, Seq::empty(), None)
        }
    } else {
        (v, Seq::empty(), None)
    }
}

impl Shell {
    /// The editor state of the shell.
    pub open spec fn view(&self) -> ShellV {
        ShellV {
            line: self.line@,
            cursor: self.cursor_pos as int,
            hist: Seq::new(self.history@.len(), |i: int| self.history@[i]@),
            hist_cursor: self.history_cursor as int,
        }
    }

    /// The shell's fields agree: the line fits, the cursor is in it, the
    /// history holds at most `HISTORY_SIZE` lines of 1 to `MAX_CMD` bytes
    /// and its cursor is -1 or names one of them.
    pub open spec fn wf(&self) -> bool {
        &&& self.cols <= MAX_CMD + 2
        &&& self.line@.len() <= MAX_CMD
        &&& self.cursor_pos <= self.line@.len()
        &&& self.history@.len() <= HISTORY_SIZE
        &&& forall|i: int| 0 <= i < self.history@.len() ==> 0 < (#[trigger] self.history@[i])@.len() <= MAX_CMD
        &&& -1 <= self.history_cursor < self.history@.len()
    }

    /// A shell with the applets of `registry`, on a screen `cols` wide, an
    /// empty line and no history.
    pub fn new(registry: AppletRegistry, cols: usize) -> (s: Self)
        requires
            cols <= MAX_CMD + 2,
        ensures
            s.wf(),
            s.registry.applets@ == registry.applets@,
            s.cols == cols,
            s@.line.len() == 0,
            s@.cursor == 0,
            s@.hist.len() == 0,
            s@.hist_cursor == -1,
    {
        Shell { registry, cols, cursor_pos: 0, line: Vec::new(), history: Vec::new(), history_cursor: -1 }
    }

    /// Enters `buf` in the history, as `pushed` states.
    pub fn history_push(&mut self, buf: &[u8])
        requires
            old(self).wf(),
        ensures
            final(self).wf(),
            final(self)@.hist == pushed(old(self)@.hist, buf@),
            final(self).line == old(self).line,
            final(self).cursor_pos == old(self).cursor_pos,
            final(self).history_cursor == old(self).history_cursor,
            final(self).cols == old(self).cols,
            final(self).registry == old(self).registry,
    {
        let len = if buf.len() < MAX_CMD { buf.len() } else { MAX_CMD };
        if len == 0 {
            proof {
                assert(final(self)@.hist =~= pushed(old(self)@.hist, buf@));
            }
            return;
        }
        let entry = copy_range(buf, 0, len);
        let ghost h0 = self@.hist;
        if self.history.len() >= HISTORY_SIZE {
            self.history.pop();
        }
        self.history.insert(0, entry);
        proof {
            assert(entry@ =~= at_most(buf@, MAX_CMD as int));
            assert(self@.hist =~= pushed(h0, buf@));
            assert forall|i: int| 0 <= i < self.history@.len() implies 0 < (#[trigger] self.history@[i])@.len() <= MAX_CMD by {
                if i > 0 {
                    assert(self.history@[i]@ == self@.hist[i]);
                }
            }
        }
    }

    /// History entry `idx` (most recent first); empty past the last.
    pub fn history_get(&self, idx: usize) -> (r: Vec<u8>)
        requires
            self.wf(),
        ensures
            r@ == entry_of(self@.hist, idx as int),
    {
        if idx < self.history.len() {
            let e = &self.history[idx];
            let r = copy_range(e.as_slice(), 0, e.len());
            assert(r@ =~= entry_of(self@.hist, idx as int));
            r
        } else {
            Vec::new()
        }
    }

    /// What redrawing the current line shows.
    fn redraw_input(&self) -> (r: Vec<u8>)
        requires
            self.wf(),
        ensures
            r@ == redraw(self.cols as int, self.line@, self.cursor_pos as int),
    {
        let clear: usize = if self.cols > 3 { self.cols - 3 } else { 0 };
        let mut out: Vec<u8> = Vec::new();
        out.push(13);
        push_str(&mut out, PROMPT);
        push_repeat(&mut out, 32, clear);
        out.push(13);
        push_str(&mut out, PROMPT);
        push_bytes(&mut out, self.line.as_slice());
        push_repeat(&mut out, 8, self.line.len() - self.cursor_pos);
        proof {
            reveal_strlit("$ ");
            vstd::string::is_ascii_spec_bytes(PROMPT);
            assert(PROMPT.spec_bytes() =~= seq![36u8, 32]);
            assert(out@ =~= redraw(self.cols as int, self.line@, self.cursor_pos as int));
        }
        out
    }

    /// Loads history entry `hc` (-1: an empty line) with the cursor at its
    /// end.
    fn load_entry(&mut self, hc: isize)
        requires
            old(self).wf(),
            -1 <= hc < old(self).history@.len(),
        ensures
            final(self).wf(),
            final(self)@ == loaded(old(self)@, entry_of(old(self)@.hist, hc as int), hc as int),
            final(self).cols == old(self).cols,
            final(self).registry == old(self).registry,
    {
        let e = if hc >= 0 {
            self.history_get(hc as usize)
        } else {
            Vec::new()
        };
        proof {
            if hc < 0 {
                assert(e@ =~= entry_of(self@.hist, hc as int));
            }
        }
        self.cursor_pos = e.len();
        self.line = e;
        self.history_cursor = hc;
        proof {
            assert(self@.hist =~= old(self)@.hist);
        }
    }

    /// Handles key `c` (ASCII, with 1 to 4 for the arrows up, down, left
    /// and right): the bytes to show and, for Enter, the line entered.
    pub fn handle_key(&mut self, c: u8) -> (r: (Vec<u8>, Option<Vec<u8>>))
        requires
            old(self).wf(),
        ensures
            final(self).wf(),
            final(self).cols == old(self).cols,
            final(self).registry == old(self).registry,
            ({
                let (w, shown, entered) = key_step(old(self)@, c, old(self).cols as int);
                &&& final(self)@ == w
                &&& r.0@ == shown
                &&& match entered {
                    Some(l) => r.1 matches Some(v) && v@ == l,
                    None => r.1 is None,
                }
            }),
    {
        let len = self.line.len();
        if c == 10 || c == 13 {
            let line = copy_range(self.line.as_slice(), 0, len);
            assert(line@ =~= self.line@);
            self.history_push(line.as_slice());
            self.line = Vec::new();
            self.cursor_pos = 0;
            self.history_cursor = -1;
            let mut out: Vec<u8> = Vec::new();
            out.push(10);
            proof {
                assert(out@ =~= seq![10u8]);
            }
            return (out, Some(line));
        } else if c == 8 || c == 0x7F {
            if self.cursor_pos > 0 && len > 0 {
                let ghost l0 = self.line@;
                let ghost cur = self.cursor_pos as int;
                self.line.remove(self.cursor_pos - 1);
                self.cursor_pos = self.cursor_pos - 1;
                proof {
                    assert(self.line@ =~= l0.take(cur - 1) + l0.skip(cur));
                }
                return (self.redraw_input(), None);
            }
        } else if c == 3 {
            if self.cursor_pos > 0 {
                self.cursor_pos = self.cursor_pos - 1;
                let mut out: Vec<u8> = Vec::new();
                out.push(8);
                assert(out@ =~= seq![8u8]);
                return (out, None);
            }
        } else if c == 4 {
            if self.cursor_pos < len {
                let b = self.line[self.cursor_pos];
                self.cursor_pos = self.cursor_pos + 1;
                let mut out: Vec<u8> = Vec::new();
                out.push(b);
                assert(out@ =~= seq![b]);
                return (out, None);
            }
        } else if c == 1 {
            if self.history_cursor < self.history.len() as isize - 1 {
                let hc = self.history_cursor + 1;
                self.load_entry(hc);
                return (self.redraw_input(), None);
            }
        } else if c == 2 {
            if self.history_cursor >= 0 {
                let hc = self.history_cursor - 1;
                self.load_entry(hc);
                return (self.redraw_input(), None);
            }
        } else if c >= 0x20 && c < 0x7F {
            let max_len: usize = if self.cols > 2 { self.cols - 2 } else { 0 };
            if len < max_len {
                let ghost l0 = self.line@;
                let ghost cur = self.cursor_pos as int;
                self.line.insert(self.cursor_pos, c);
                self.cursor_pos = self.cursor_pos + 1;
                proof {
                    assert(self.line@ =~= l0.take(cur) + seq![c] + l0.skip(cur));
                }
                return (self.redraw_input(), None);
            }
        }
        (Vec::new(), None)
    }
}

/// The command word of line `cmd` ends at its first space.
pub fn find_space(s: &[u8]) -> (r: Option<usize>)
    ensures
        match first_index_of(s@, 32) {
            Some(i) => r == Some(i as usize),
            None => r is None,
        },
        r matches Some(i) ==> i < s@.len(),
{
    proof {
        lemma_first_index(s@, 32);
    }
    let i = position_of(s, 32);
    if i < s.len() {
        Some(i)
    } else {
        None
    }
}

/// The command word of line `cmd`: the bytes before its first space.
pub open spec fn command_word(cmd: Seq<u8>) -> Seq<u8> {
    match first_index_of(cmd, 32) {
        Some(i) => cmd.take(i),
        None => cmd,
    }
}

/// The arguments of line `cmd`: the bytes after its first space.
pub open spec fn argument_text(cmd: Seq<u8>) -> Seq<u8> {
    match first_index_of(cmd, 32) {
        Some(i) => cmd.skip(i + 1),
        None => Seq::empty(),
    }
}

/// Splits line `cmd` into its command word and argument text.
pub fn split_command(cmd: &[u8]) -> (r: (Vec<u8>, Vec<u8>))
    ensures
        r.0@ == command_word(cmd@),
        r.1@ == argument_text(cmd@),
{
    proof {
        lemma_first_index(cmd@, 32);
    }
    let i = position_of(cmd, 32);
    if i < cmd.len() {
        {
            let a = copy_range(cmd, 0, i);
            let b = copy_range(cmd, i + 1, cmd.len());
            proof {
                assert(a@ =~= cmd@.take(i as int));
                assert(b@ =~= cmd@.skip(i + 1));
            }
            (a, b)
        }
    } else {
        let a = copy_range(cmd, 0, cmd.len());
        assert(a@ =~= cmd@);
        (a, Vec::new())
    }
}

/// `acc` with word `t` added when it is non-empty valid UTF-8 and fewer
/// than `MAX_ARGS` words were taken.
pub open spec fn add_word(acc: Seq<Seq<u8>>, t: Seq<u8>) -> Seq<Seq<u8>> {
    if utf8_valid(t) && t.len() > 0 && acc.len() < MAX_ARGS {
        acc.push(t)
    } else {
        acc
    }
}

/// The words of `rem` (split at each space) added to `acc`.
pub open spec fn words(rem: Seq<u8>, acc: Seq<Seq<u8>>) -> Seq<Seq<u8>>
    decreases rem.len(),
{
    if rem.len() == 0 {
        acc
    } else {
        match first_index_of(rem, 32) {
            Some(p) => if 0 <= p < rem.len() {
                words(rem.skip(p + 1), add_word(acc, rem.take(p)))
            } else {
                acc
            },
            None => add_word(acc, rem),
        }
    }
}

proof fn lemma_words_step(rem: Seq<u8>, acc: Seq<Seq<u8>>, p: int)
    requires
        rem.len() > 0,
        p == prefix_len_before(rem, 32),
    ensures
        p < rem.len() ==> words(rem, acc) == words(rem.skip(p + 1), add_word(acc, rem.take(p))),
        p >= rem.len() ==> words(rem, acc) == add_word(acc, rem) && rem.take(p) == rem,
{
    lemma_first_index(rem, 32);
    if p >= rem.len() {
        assert(rem.take(p) =~= rem);
    }
}

/// The argument words of `args`: split at each space; empty words and
/// words that are not valid UTF-8 are left out, and only the first
/// `MAX_ARGS` kept.
#[verifier::spinoff_prover]
pub fn split_args(args: &[u8]) -> (r: Vec<Vec<u8>>)
    ensures
        r@.len() <= MAX_ARGS,
        Seq::new(r@.len(), |i: int| r@[i]@) == words(args@, Seq::empty()),
        forall|i: int| 0 <= i < r@.len() ==> utf8_valid((#[trigger] r@[i])@),
{
    let mut out: Vec<Vec<u8>> = Vec::new();
    let mut start: usize = 0;
    let ghost mut acc: Seq<Seq<u8>> = Seq::empty();
    assert(args@.skip(0) =~= args@);
    while start < args.len()
        invariant
            start <= args@.len(),
            out@.len() <= MAX_ARGS,
            acc.len() == out@.len(),
            forall|i: int| 0 <= i < out@.len() ==> acc[i] == (#[trigger] out@[i])@,
            forall|i: int| 0 <= i < out@.len() ==> utf8_valid((#[trigger] out@[i])@),
            words(args@, Seq::empty()) == words(args@.skip(start as int), acc),
        decreases args@.len() - start,
    {
        let ghost rem = args@.skip(start as int);
        let tail = copy_range(args, start, args.len());
        assert(tail@ =~= rem);
        let p = position_of(tail.as_slice(), 32);
        proof {
            lemma_words_step(rem, acc, p as int);
        }
        let word = copy_range(tail.as_slice(), 0, p);
        assert(word@ =~= rem.take(p as int));
        let keep = word.len() > 0 && out.len() < MAX_ARGS && as_utf8(word.as_slice()).is_some();
        let ghost acc2 = add_word(acc, rem.take(p as int));
        if keep {
            out.push(word);
        }
        proof {
            acc = acc2;
        }
        if p < tail.len() {
            proof {
                assert(rem.skip(p + 1) =~= args@.skip(start + p + 1));
            }
            start = start + p + 1;
        } else {
            proof {
                assert(words(args@.skip(args@.len() as int), acc) == acc);
            }
            start = args.len();
        }
    }
    proof {
        assert(args@.skip(start as int).len() == 0);
        assert(Seq::new(out@.len(), |i: int| out@[i]@) =~= acc);
    }
    out
}

/// The commands the shell carries out itself.
#[derive(Clone, Copy, PartialEq, Eq, Structural)]
pub enum Builtin {
    Echo,
    Cls,
    Banner,
    Help,
    History,
    Shutdown,
    Ls,
    Out,
    Mk,
    Rm,
    Cp,
}

/// What a finished line asks for.
#[derive(Clone, Copy, PartialEq, Eq, Structural)]
pub enum Command {
    /// Nothing was typed.
    Empty,
    /// A built-in command.
    Builtin(Builtin),
    /// A registered applet.
    Applet(AppletKind),
    /// A word that names nothing.
    Unknown,
}

/// The built-in command named `w`, if any.
pub open spec fn builtin_named(w: Seq<u8>) -> Option<Builtin> {
    if w == "echo".spec_bytes() {
        Some(Builtin::Echo)
    } else if w == "cls".spec_bytes() {
        Some(Builtin::Cls)
    } else if w == "banner".spec_bytes() {
        Some(Builtin::Banner)
    } else if w == "help".spec_bytes() {
        Some(Builtin::Help)
    } else if w == "history".spec_bytes() {
        Some(Builtin::History)
    } else if w == "shutdown".spec_bytes() {
        Some(Builtin::Shutdown)
    } else if w == "ls".spec_bytes() {
        Some(Builtin::Ls)
    } else if w == "out".spec_bytes() {
        Some(Builtin::Out)
    } else if w == "mk".spec_bytes() {
        Some(Builtin::Mk)
    } else if w == "rm".spec_bytes() {
        Some(Builtin::Rm)
    } else if w == "cp".spec_bytes() {
        Some(Builtin::Cp)
    } else {
        None
    }
}

/// The word, in bytes, that names the built-in command `b` at the prompt.
pub open spec fn builtin_word(b: Builtin) -> Seq<u8> {
    match b {
        Builtin::Echo => seq![101u8, 99, 104, 111],
        Builtin::Cls => seq![99u8, 108, 115],
        Builtin::Banner => seq![98u8, 97, 110, 110, 101, 114],
        Builtin::Help => seq![104u8, 101, 108, 112],
        Builtin::History => seq![104u8, 105, 115, 116, 111, 114, 121],
        Builtin::Shutdown => seq![115u8, 104, 117, 116, 100, 111, 119, 110],
        Builtin::Ls => seq![108u8, 115],
        Builtin::Out => seq![111u8, 117, 116],
        Builtin::Mk => seq![109u8, 107],
        Builtin::Rm => seq![114u8, 109],
        Builtin::Cp => seq![99u8, 112],
    }
}

/// The names of the built-in commands, as bytes.
proof fn lemma_builtin_words()
    ensures
        builtin_named(builtin_word(Builtin::Echo)) == Some(Builtin::Echo),
        builtin_named(builtin_word(Builtin::Cls)) == Some(Builtin::Cls),
        builtin_named(builtin_word(Builtin::Banner)) == Some(Builtin::Banner),
        builtin_named(builtin_word(Builtin::Help)) == Some(Builtin::Help),
        builtin_named(builtin_word(Builtin::History)) == Some(Builtin::History),
        builtin_named(builtin_word(Builtin::Shutdown)) == Some(Builtin::Shutdown),
        builtin_named(builtin_word(Builtin::Ls)) == Some(Builtin::Ls),
        builtin_named(builtin_word(Builtin::Out)) == Some(Builtin::Out),
        builtin_named(builtin_word(Builtin::Mk)) == Some(Builtin::Mk),
        builtin_named(builtin_word(Builtin::Rm)) == Some(Builtin::Rm),
        builtin_named(builtin_word(Builtin::Cp)) == Some(Builtin::Cp),
{
    reveal_strlit("echo");
    vstd::string::is_ascii_spec_bytes("echo");
    assert("echo".spec_bytes() =~= seq![101u8, 99, 104, 111]);
    reveal_strlit("cls");
    vstd::string::is_ascii_spec_bytes("cls");
    assert("cls".spec_bytes() =~= seq![99u8, 108, 115]);
    reveal_strlit("banner");
    vstd::string::is_ascii_spec_bytes("banner");
    assert("banner".spec_bytes() =~= seq![98u8, 97, 110, 110, 101, 114]);
    reveal_strlit("help");
    vstd::string::is_ascii_spec_bytes("help");
    assert("help".spec_bytes() =~= seq![104u8, 101, 108, 112]);
    reveal_strlit("history");
    vstd::string::is_ascii_spec_bytes("history");
    assert("history".spec_bytes() =~= seq![104u8, 105, 115, 116, 111, 114, 121]);
    reveal_strlit("shutdown");
    vstd::string::is_ascii_spec_bytes("shutdown");
    assert("shutdown".spec_bytes() =~= seq![115u8, 104, 117, 116, 100, 111, 119, 110]);
    reveal_strlit("ls");
    vstd::string::is_ascii_spec_bytes("ls");
    assert("ls".spec_bytes() =~= seq![108u8, 115]);
    reveal_strlit("out");
    vstd::string::is_ascii_spec_bytes("out");
    assert("out".spec_bytes() =~= seq![111u8, 117, 116]);
    reveal_strlit("mk");
    vstd::string::is_ascii_spec_bytes("mk");
    assert("mk".spec_bytes() =~= seq![109u8, 107]);
    reveal_strlit("rm");
    vstd::string::is_ascii_spec_bytes("rm");
    assert("rm".spec_bytes() =~= seq![114u8, 109]);
    reveal_strlit("cp");
    vstd::string::is_ascii_spec_bytes("cp");
    assert("cp".spec_bytes() =~= seq![99u8, 112]);
}

/// Each built-in command is named by its own word: that word classifies as
/// that command, and a word classifying as a built-in command is that
/// command's word, so distinct words give distinct commands.
pub proof fn law_builtin_names(b: Builtin, w: Seq<u8>)
    ensures
        builtin_named(builtin_word(b)) == Some(b),
        builtin_named(w) == Some(b) ==> w == builtin_word(b),
{
    lemma_builtin_words();
    if builtin_named(w) == Some(b) {
        lemma_builtin_words();
        assert(builtin_named(w) == builtin_named(builtin_word(b)));
        lemma_builtin_word_unique(w, b);
    }
}

/// A word that classifies as `b` is `b`'s word.
proof fn lemma_builtin_word_unique(w: Seq<u8>, b: Builtin)
    requires
        builtin_named(w) == Some(b),
    ensures
        w == builtin_word(b),
{
    reveal_strlit("echo");
    vstd::string::is_ascii_spec_bytes("echo");
    assert("echo".spec_bytes() =~= seq![101u8, 99, 104, 111]);
    reveal_strlit("cls");
    vstd::string::is_ascii_spec_bytes("cls");
    assert("cls".spec_bytes() =~= seq![99u8, 108, 115]);
    reveal_strlit("banner");
    vstd::string::is_ascii_spec_bytes("banner");
    assert("banner".spec_bytes() =~= seq![98u8, 97, 110, 110, 101, 114]);
    reveal_strlit("help");
    vstd::string::is_ascii_spec_bytes("help");
    assert("help".spec_bytes() =~= seq![104u8, 101, 108, 112]);
    reveal_strlit("history");
    vstd::string::is_ascii_spec_bytes("history");
    assert("history".spec_bytes() =~= seq![104u8, 105, 115, 116, 111, 114, 121]);
    reveal_strlit("shutdown");
    vstd::string::is_ascii_spec_bytes("shutdown");
    assert("shutdown".spec_bytes() =~= seq![115u8, 104, 117, 116, 100, 111, 119, 110]);
    reveal_strlit("ls");
    vstd::string::is_ascii_spec_bytes("ls");
    assert("ls".spec_bytes() =~= seq![108u8, 115]);
    reveal_strlit("out");
    vstd::string::is_ascii_spec_bytes("out");
    assert("out".spec_bytes() =~= seq![111u8, 117, 116]);
    reveal_strlit("mk");
    vstd::string::is_ascii_spec_bytes("mk");
    assert("mk".spec_bytes() =~= seq![109u8, 107]);
    reveal_strlit("rm");
    vstd::string::is_ascii_spec_bytes("rm");
    assert("rm".spec_bytes() =~= seq![114u8, 109]);
    reveal_strlit("cp");
    vstd::string::is_ascii_spec_bytes("cp");
    assert("cp".spec_bytes() =~= seq![99u8, 112]);
}

/// The command word of a line made of a word without spaces, alone or
/// followed by a space and more, is that word.
proof fn lemma_command_word(w: Seq<u8>, rest: Seq<u8>)
    requires
        forall|i: int| 0 <= i < w.len() ==> w[i] != 32,
    ensures
        command_word(w) == w,
        command_word(w + seq![32u8] + rest) == w,
{
    lemma_first_index(w, 32);
    let line = w + seq![32u8] + rest;
    lemma_first_index(line, 32);
    assert(line[w.len() as int] == 32);
    assert(forall|i: int| 0 <= i < w.len() ==> line[i] == w[i]);
    assert(line.take(w.len() as int) =~= w);
}

/// The names of the built-in commands hold no space and are not empty.
proof fn lemma_builtin_word_shape(b: Builtin)
    ensures
        builtin_word(b).len() > 0,
        forall|i: int| 0 <= i < builtin_word(b).len() ==> builtin_word(b)[i] != 32,
{
}

/// A line whose command word is a built-in command's name asks for that
/// command, with or without arguments after a space, whatever applets the
/// shell has.
pub proof fn law_builtin_lines(b: Builtin, rest: Seq<u8>, applets: Seq<crate::applets::Applet>)
    ensures
        command_of(builtin_word(b), applets) == Command::Builtin(b),
        command_of(builtin_word(b) + seq![32u8] + rest, applets) == Command::Builtin(b),
{
    law_builtin_names(b, builtin_word(b));
    lemma_builtin_word_shape(b);
    lemma_command_word(builtin_word(b), rest);
    assert((builtin_word(b) + seq![32u8] + rest).len() > 0);
}

/// The built-in command named `w`, if any.
pub fn builtin_of(w: &[u8]) -> (r: Option<Builtin>)
    ensures
        r == builtin_named(w@),
{
    if crate::text::bytes_eq(w, "echo".as_bytes()) {
        Some(Builtin::Echo)
    } else if crate::text::bytes_eq(w, "cls".as_bytes()) {
        Some(Builtin::Cls)
    } else if crate::text::bytes_eq(w, "banner".as_bytes()) {
        Some(Builtin::Banner)
    } else if crate::text::bytes_eq(w, "help".as_bytes()) {
        Some(Builtin::Help)
    } else if crate::text::bytes_eq(w, "history".as_bytes()) {
        Some(Builtin::History)
    } else if crate::text::bytes_eq(w, "shutdown".as_bytes()) {
        Some(Builtin::Shutdown)
    } else if crate::text::bytes_eq(w, "ls".as_bytes()) {
        Some(Builtin::Ls)
    } else if crate::text::bytes_eq(w, "out".as_bytes()) {
        Some(Builtin::Out)
    } else if crate::text::bytes_eq(w, "mk".as_bytes()) {
        Some(Builtin::Mk)
    } else if crate::text::bytes_eq(w, "rm".as_bytes()) {
        Some(Builtin::Rm)
    } else if crate::text::bytes_eq(w, "cp".as_bytes()) {
        Some(Builtin::Cp)
    } else {
        None
    }
}

/// What the line `cmd` asks of a shell with `applets`: nothing for an
/// empty line; a built-in command first; then an applet whose name is the
/// command word (when that word is valid UTF-8); else unknown.
pub open spec fn command_of(cmd: Seq<u8>, applets: Seq<crate::applets::Applet>) -> Command {
    let w = command_word(cmd);
    if cmd.len() == 0 {
        Command::Empty
    } else if builtin_named(w) is Some {
        Command::Builtin(builtin_named(w)->0)
    } else if utf8_valid(w) && first_named(applets, w) is Some {
        Command::Applet(applets[first_named(applets, w)->0].kind)
    } else {
        Command::Unknown
    }
}

impl Shell {
    /// What the entered line `cmd` asks for.
    pub fn classify(&self, cmd: &[u8]) -> (r: Command)
        ensures
            r == command_of(cmd@, self.registry.applets@),
    {
        if cmd.len() == 0 {
            return Command::Empty;
        }
        let (w, _) = split_command(cmd);
        if let Some(b) = builtin_of(w.as_slice()) {
            return Command::Builtin(b);
        }
        match as_utf8(w.as_slice()) {
            Some(name) => match self.registry.find(name) {
                Some(a) => Command::Applet(a.kind),
                None => Command::Unknown,
            },
            None => Command::Unknown,
        }
    }
}

/// What `echo` shows for argument text `args`: the text and a newline when
/// it is valid UTF-8, else nothing.
pub open spec fn echo_text(args: Seq<u8>) -> Seq<u8> {
    if utf8_valid(args) {
        args + seq![10u8]
    } else {
        Seq::empty()
    }
}

/// What `echo` shows for argument text `args`.
pub fn echo(args: &[u8]) -> (r: Vec<u8>)
    ensures
        r@ == echo_text(args@),
{
    let mut out: Vec<u8> = Vec::new();
    if as_utf8(args).is_some() {
        push_bytes(&mut out, args);
        out.push(10);
    }
    proof {
        assert(out@ =~= echo_text(args@));
    }
    out
}

/// The banner shown by `banner` (after clearing the screen).
pub open spec fn banner_text() -> Seq<u8> {
    "planckOS v0.1 - x86-64 Rust\nCopyright (C) 2026 Faris Alfarhan\nLicensed GPLv3\n".spec_bytes()
}

/// The banner text.
pub fn banner() -> (r: Vec<u8>)
    ensures
        r@ == banner_text(),
{
    let mut out: Vec<u8> = Vec::new();
    push_str(&mut out, "planckOS v0.1 - x86-64 Rust\nCopyright (C) 2026 Faris Alfarhan\nLicensed GPLv3\n");
    proof {
        assert(out@ =~= banner_text());
    }
    out
}

/// What `shutdown` shows before powering off.
pub fn shutdown_notice() -> (r: Vec<u8>)
    ensures
        r@ == "Shutting down...\n".spec_bytes(),
{
    let mut out: Vec<u8> = Vec::new();
    push_str(&mut out, "Shutting down...\n");
    proof {
        assert(out@ =~= "Shutting down...\n".spec_bytes());
    }
    out
}

/// What the shell shows for an unknown command word `w`.
pub open spec fn unknown_text(w: Seq<u8>) -> Seq<u8> {
    "Unknown command: ".spec_bytes() + if utf8_valid(w) {
        w + seq![10u8]
    } else {
        seq![63u8, 10u8]
    }
}

/// What the shell shows for the unknown command word `w`.
pub fn unknown_command(w: &[u8]) -> (r: Vec<u8>)
    ensures
        r@ == unknown_text(w@),
{
    let mut out: Vec<u8> = Vec::new();
    push_str(&mut out, "Unknown command: ");
    if as_utf8(w).is_some() {
        push_bytes(&mut out, w);
        out.push(10);
    } else {
        out.push(63);
        out.push(10);
    }
    proof {
        assert(out@ =~= unknown_text(w@));
    }
    out
}

/// One line of `history`: a space, the two-digit number `num`, two spaces,
/// then the entry (or `?` when it is not valid UTF-8) and a newline.
pub open spec fn history_line(num: int, e: Seq<u8>) -> Seq<u8> {
    seq![32u8, (num / 10 + 48) as u8, (num % 10 + 48) as u8, 32, 32] + if utf8_valid(e) {
        e + seq![10u8]
    } else {
        seq![63u8, 10u8]
    }
}

/// The lines of `history` for the `k` most recent entries of `hist`
/// (entry `i` numbered `i + 1`, so the most recent is 1), the oldest of
/// them first.
pub open spec fn history_lines(hist: Seq<Seq<u8>>, k: int) -> Seq<u8>
    decreases k,
{
    if k <= 0 {
        Seq::empty()
    } else {
        history_line(k, hist[k - 1]) + history_lines(hist, k - 1)
    }
}

impl Shell {
    /// What `history` shows: each entry, oldest first, numbered from the
    /// most recent (1) back.
    pub fn history_text(&self) -> (r: Vec<u8>)
        requires
            self.wf(),
        ensures
            r@ == history_lines(self@.hist, self@.hist.len() as int),
    {
        let n = self.history.len();
        let mut out: Vec<u8> = Vec::new();
        let mut i: usize = 0;
        while i < n
            invariant
                self.wf(),
                n == self.history@.len(),
                i <= n,
                history_lines(self@.hist, n as int) == out@ + history_lines(self@.hist, (n - i) as int),
            decreases n - i,
        {
            let idx = n - 1 - i;
            let num = idx + 1;
            let ghost before = out@;
            out.push(32);
            out.push((num / 10) as u8 + 48);
            out.push((num % 10) as u8 + 48);
            out.push(32);
            out.push(32);
            let e = self.history_get(idx);
            if as_utf8(e.as_slice()).is_some() {
                push_bytes(&mut out, e.as_slice());
                out.push(10);
            } else {
                out.push(63);
                out.push(10);
            }
            proof {
                let h = self@.hist;
                assert(e@ =~= h[idx as int]);
                assert(out@ =~= before + history_line(idx + 1, h[idx as int]));
            }
            i = i + 1;
        }
        out
    }
}

} // verus!
