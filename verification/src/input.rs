//! PS/2 keyboard: scancode set 2 decoding and the typed-character queue.
use vstd::prelude::*;

verus! {

/// Capacity of the character ring (one slot always stays empty).
pub const BUF_SZ: usize = 256;

/// ASCII character of scancode `sc` (set 2) with or without shift, or 0 when
/// the key produces no character.
pub open spec fn key_char(sc: u8, shift: bool) -> u8 {
    match sc {
        0x0D => 9u8,
        0x0E => if shift { 126u8 } else { 96u8 },
        0x15 => if shift { 81u8 } else { 113u8 },
        0x16 => if shift { 33u8 } else { 49u8 },
        0x1A => if shift { 90u8 } else { 122u8 },
        0x1B => if shift { 83u8 } else { 115u8 },
        0x1C => if shift { 65u8 } else { 97u8 },
        0x1D => if shift { 87u8 } else { 119u8 },
        0x1E => if shift { 64u8 } else { 50u8 },
        0x21 => if shift { 67u8 } else { 99u8 },
        0x22 => if shift { 88u8 } else { 120u8 },
        0x23 => if shift { 68u8 } else { 100u8 },
        0x24 => if shift { 69u8 } else { 101u8 },
        0x25 => if shift { 36u8 } else { 52u8 },
        0x26 => if shift { 35u8 } else { 51u8 },
        0x29 => 32u8,
        0x2A => if shift { 86u8 } else { 118u8 },
        0x2B => if shift { 70u8 } else { 102u8 },
        0x2C => if shift { 84u8 } else { 116u8 },
        0x2D => if shift { 82u8 } else { 114u8 },
        0x2E => if shift { 37u8 } else { 53u8 },
        0x31 => if shift { 78u8 } else { 110u8 },
        0x32 => if shift { 66u8 } else { 98u8 },
        0x33 => if shift { 72u8 } else { 104u8 },
        0x34 => if shift { 71u8 } else { 103u8 },
        0x35 => if shift { 89u8 } else { 121u8 },
        0x36 => if shift { 94u8 } else { 54u8 },
        0x3A => if shift { 77u8 } else { 109u8 },
        0x3B => if shift { 74u8 } else { 106u8 },
        0x3C => if shift { 85u8 } else { 117u8 },
        0x3D => if shift { 38u8 } else { 55u8 },
        0x3E => if shift { 42u8 } else { 56u8 },
        0x41 => if shift { 60u8 } else { 44u8 },
        0x42 => if shift { 75u8 } else { 107u8 },
        0x43 => if shift { 73u8 } else { 105u8 },
        0x44 => if shift { 79u8 } else { 111u8 },
        0x45 => if shift { 41u8 } else { 48u8 },
        0x46 => if shift { 40u8 } else { 57u8 },
        0x49 => if shift { 62u8 } else { 46u8 },
        0x4A => if shift { 63u8 } else { 47u8 },
        0x4B => if shift { 76u8 } else { 108u8 },
        0x4C => if shift { 58u8 } else { 59u8 },
        0x4D => if shift { 80u8 } else { 112u8 },
        0x4E => if shift { 95u8 } else { 45u8 },
        0x52 => if shift { 34u8 } else { 39u8 },
        0x54 => if shift { 123u8 } else { 91u8 },
        0x55 => if shift { 43u8 } else { 61u8 },
        0x5B => if shift { 125u8 } else { 93u8 },
        0x5A => 10u8,
        0x61 => if shift { 124u8 } else { 92u8 },
        0x66 => 8u8,
        0x76 => 27u8,
        _ => 0u8,
    }
}

/// The character scancode `sc` types with the given shift state, if any.
pub fn scancode_to_ascii(sc: u8, shift: bool) -> (r: Option<u8>)
    ensures
        r == (if key_char(sc, shift) == 0 { None } else { Some(key_char(sc, shift)) }),
{
    let c: u8 = match sc {
        0x0D => 9u8,
        0x0E => if shift { 126u8 } else { 96u8 },
        0x15 => if shift { 81u8 } else { 113u8 },
        0x16 => if shift { 33u8 } else { 49u8 },
        0x1A => if shift { 90u8 } else { 122u8 },
        0x1B => if shift { 83u8 } else { 115u8 },
        0x1C => if shift { 65u8 } else { 97u8 },
        0x1D => if shift { 87u8 } else { 119u8 },
        0x1E => if shift { 64u8 } else { 50u8 },
        0x21 => if shift { 67u8 } else { 99u8 },
        0x22 => if shift { 88u8 } else { 120u8 },
        0x23 => if shift { 68u8 } else { 100u8 },
        0x24 => if shift { 69u8 } else { 101u8 },
        0x25 => if shift { 36u8 } else { 52u8 },
        0x26 => if shift { 35u8 } else { 51u8 },
        0x29 => 32u8,
        0x2A => if shift { 86u8 } else { 118u8 },
        0x2B => if shift { 70u8 } else { 102u8 },
        0x2C => if shift { 84u8 } else { 116u8 },
        0x2D => if shift { 82u8 } else { 114u8 },
        0x2E => if shift { 37u8 } else { 53u8 },
        0x31 => if shift { 78u8 } else { 110u8 },
        0x32 => if shift { 66u8 } else { 98u8 },
        0x33 => if shift { 72u8 } else { 104u8 },
        0x34 => if shift { 71u8 } else { 103u8 },
        0x35 => if shift { 89u8 } else { 121u8 },
        0x36 => if shift { 94u8 } else { 54u8 },
        0x3A => if shift { 77u8 } else { 109u8 },
        0x3B => if shift { 74u8 } else { 106u8 },
        0x3C => if shift { 85u8 } else { 117u8 },
        0x3D => if shift { 38u8 } else { 55u8 },
        0x3E => if shift { 42u8 } else { 56u8 },
        0x41 => if shift { 60u8 } else { 44u8 },
        0x42 => if shift { 75u8 } else { 107u8 },
        0x43 => if shift { 73u8 } else { 105u8 },
        0x44 => if shift { 79u8 } else { 111u8 },
        0x45 => if shift { 41u8 } else { 48u8 },
        0x46 => if shift { 40u8 } else { 57u8 },
        0x49 => if shift { 62u8 } else { 46u8 },
        0x4A => if shift { 63u8 } else { 47u8 },
        0x4B => if shift { 76u8 } else { 108u8 },
        0x4C => if shift { 58u8 } else { 59u8 },
        0x4D => if shift { 80u8 } else { 112u8 },
        0x4E => if shift { 95u8 } else { 45u8 },
        0x52 => if shift { 34u8 } else { 39u8 },
        0x54 => if shift { 123u8 } else { 91u8 },
        0x55 => if shift { 43u8 } else { 61u8 },
        0x5B => if shift { 125u8 } else { 93u8 },
        0x5A => 10u8,
        0x61 => if shift { 124u8 } else { 92u8 },
        0x66 => 8u8,
        0x76 => 27u8,
        _ => 0u8,
    };
    if c == 0 {
        None
    } else {
        Some(c)
    }
}

/// Cursor-key tokens the extended scancodes produce: up 1, down 2, left 3, right 4.
pub open spec fn arrow_token(sc: u8) -> u8 {
    if sc == 0x75 {
        1
    } else if sc == 0x72 {
        2
    } else if sc == 0x6B {
        3
    } else if sc == 0x74 {
        4
    } else {
        0
    }
}

/// Abstract keyboard state: the queue of typed characters (oldest first)
/// and the decoder flags.
pub struct KbdV {
    pub queue: Seq<u8>,
    pub shift: bool,
    pub ctrl: bool,
    pub extended: bool,
    pub release: bool,
}

/// The queue after typing `c`: appended unless the ring is full.
pub open spec fn enqueue(q: Seq<u8>, c: u8) -> Seq<u8> {
    if q.len() + 1 < BUF_SZ {
        q.push(c)
    } else {
        q
    }
}

/// Shift keys (left and right) and the control key in set 2.
pub open spec fn is_shift(sc: u8) -> bool {
    sc == 0x12 || sc == 0x59
}

/// The keyboard state after scancode `sc` arrives: 0xE0 and 0xF0 prefix the
/// next code; a released shift or control key clears its flag; an extended
/// cursor key queues its token; a pressed shift or control key sets its
/// flag; any other key queues its character, if it has one.
pub open spec fn kbd_step(v: KbdV, sc: u8) -> KbdV {
    if sc == 0xE0 {
        KbdV { extended: true, ..v }
    } else if sc == 0xF0 {
        KbdV { release: true, ..v }
    } else if v.release {
        KbdV {
            shift: if is_shift(sc) { false } else { v.shift },
            ctrl: if sc == 0x14 { false } else { v.ctrl },
            release: false,
            extended: false,
            ..v
        }
    } else if v.extended {
        KbdV {
            extended: false,
            queue: if arrow_token(sc) != 0 { enqueue(v.queue, arrow_token(sc)) } else { v.queue },
            ..v
        }
    } else if is_shift(sc) {
        KbdV { shift: true, extended: false, ..v }
    } else if sc == 0x14 {
        KbdV { ctrl: true, extended: false, ..v }
    } else {
        KbdV {
            queue: if key_char(sc, v.shift) != 0 { enqueue(v.queue, key_char(sc, v.shift)) } else { v.queue },
            extended: false,
            ..v
        }
    }
}

/// Scancode `x` types a lower-case letter when shift is up.
pub open spec fn letter_key(x: u8) -> bool {
    97 <= key_char(x, false) <= 122
}

/// Every letter key types the upper-case form of its letter with shift held.
pub proof fn law_shifted_letters(x: u8)
    requires
        letter_key(x),
    ensures
        key_char(x, true) == key_char(x, false) - 32,
{
}

/// The left (0x12) and right (0x59) shift keys act alike: pressed outside a
/// prefix, each sets the shift state and changes nothing else; released
/// (after 0xF0), each clears it.
pub proof fn law_both_shift_keys(v: KbdV)
    ensures
        !v.release && !v.extended ==> kbd_step(v, 0x59) == kbd_step(v, 0x12) && kbd_step(v, 0x59) == (KbdV {
            shift: true,
            ..v
        }),
        !kbd_step(kbd_step(v, 0xF0), 0x59).shift && !kbd_step(kbd_step(v, 0xF0), 0x12).shift,
        kbd_step(kbd_step(v, 0xF0), 0x59).queue == v.queue,
{
}

/// Holding either shift key and typing a letter queues that letter in upper
/// case: from any state outside a prefix, shift (left or right) then the
/// letter key `x` appends the letter `x` types without shift, less 32.
pub proof fn law_shift_then_letter(v: KbdV, x: u8)
    requires
        !v.release,
        !v.extended,
        letter_key(x),
    ensures
        kbd_step(kbd_step(v, 0x59), x).queue == enqueue(v.queue, (key_char(x, false) - 32) as u8),
        kbd_step(kbd_step(v, 0x12), x).queue == enqueue(v.queue, (key_char(x, false) - 32) as u8),
        kbd_step(kbd_step(v, 0x59), x).shift,
{
    law_shifted_letters(x);
}

/// The cursor keys after the 0xE0 prefix queue their tokens (up 0x75 gives
/// 1, down 0x72 gives 2, left 0x6B gives 3, right 0x74 gives 4); any other
/// key after the prefix queues nothing; the prefix then no longer holds.
pub proof fn law_arrow_keys(v: KbdV, x: u8)
    requires
        !v.release,
        x != 0xE0,
        x != 0xF0,
    ensures
        x == 0x75 ==> kbd_step(kbd_step(v, 0xE0), x).queue == enqueue(v.queue, 1),
        x == 0x72 ==> kbd_step(kbd_step(v, 0xE0), x).queue == enqueue(v.queue, 2),
        x == 0x6B ==> kbd_step(kbd_step(v, 0xE0), x).queue == enqueue(v.queue, 3),
        x == 0x74 ==> kbd_step(kbd_step(v, 0xE0), x).queue == enqueue(v.queue, 4),
        x != 0x75 && x != 0x72 && x != 0x6B && x != 0x74 ==> kbd_step(kbd_step(v, 0xE0), x).queue == v.queue,
        !kbd_step(kbd_step(v, 0xE0), x).extended,
        kbd_step(kbd_step(v, 0xE0), x).shift == v.shift,
{
}

/// A key released (after 0xF0) types nothing; releasing a key other than
/// shift or control leaves their state as it was.
pub proof fn law_release(v: KbdV, x: u8)
    requires
        x != 0xE0,
        x != 0xF0,
    ensures
        kbd_step(kbd_step(v, 0xF0), x).queue == v.queue,
        !kbd_step(kbd_step(v, 0xF0), x).release,
        x != 0x12 && x != 0x59 ==> kbd_step(kbd_step(v, 0xF0), x).shift == v.shift,
        x != 0x14 ==> kbd_step(kbd_step(v, 0xF0), x).ctrl == v.ctrl,
        x == 0x14 ==> !kbd_step(kbd_step(v, 0xF0), x).ctrl,
{
}

/// The control key (0x14) pressed outside a prefix sets the control state
/// and changes nothing else; a key that types nothing leaves the queue as
/// it was; the prefixes 0xE0 and 0xF0 only mark the next code.
pub proof fn law_control_and_silent_keys(v: KbdV, x: u8)
    ensures
        !v.release && !v.extended ==> kbd_step(v, 0x14) == (KbdV { ctrl: true, ..v }),
        !v.release && !v.extended && key_char(x, v.shift) == 0 && x != 0xE0 && x != 0xF0 ==> kbd_step(v, x).queue
            == v.queue,
        kbd_step(v, 0xE0) == (KbdV { extended: true, ..v }),
        kbd_step(v, 0xF0) == (KbdV { release: true, ..v }),
{
}

/// A PS/2 keyboard decoder with its queue of typed characters.
pub struct Ps2Keyboard {
    buf: Vec<u8>,
    head: usize,
    tail: usize,
    shift: bool,
    ctrl: bool,
    extended: bool,
    release: bool,
}

impl Ps2Keyboard {
    /// Characters in the ring, oldest first.
    pub closed spec fn queue(&self) -> Seq<u8> {
        if self.tail <= self.head {
            self.buf@.subrange(self.tail as int, self.head as int)
        } else {
            self.buf@.subrange(self.tail as int, BUF_SZ as int) + self.buf@.subrange(0, self.head as int)
        }
    }

    pub closed spec fn view(&self) -> KbdV {
        KbdV {
            queue: self.queue(),
            shift: self.shift,
            ctrl: self.ctrl,
            extended: self.extended,
            release: self.release,
        }
    }

    /// The ring has its size and both indices lie in it.
    pub closed spec fn wf(&self) -> bool {
        &&& self.buf@.len() == BUF_SZ
        &&& self.head < BUF_SZ
        &&& self.tail < BUF_SZ
    }

    /// Whether the ring has its size and both indices lie in it.
    pub fn fields_ok(&self) -> (r: bool)
        ensures
            r == self.wf(),
    {
        self.buf.len() == BUF_SZ && self.head < BUF_SZ && self.tail < BUF_SZ
    }

    proof fn lemma_queue_len(&self)
        requires
            self.wf(),
        ensures
            self.queue().len() < BUF_SZ,
            self.queue().len() == (self.head + BUF_SZ - self.tail) % (BUF_SZ as int),
    {
    }

    /// An empty queue with no key held.
    pub fn new() -> (k: Self)
        ensures
            k.wf(),
            k@ == (KbdV { queue: Seq::empty(), shift: false, ctrl: false, extended: false, release: false }),
    {
        let k = Ps2Keyboard {
            buf: vec![0u8; BUF_SZ],
            head: 0,
            tail: 0,
            shift: false,
            ctrl: false,
            extended: false,
            release: false,
        };
        proof {
            assert(k.queue() =~= Seq::<u8>::empty());
        }
        k
    }

    fn push_char(&mut self, c: u8)
        requires
            old(self).wf(),
        ensures
            final(self).wf(),
            final(self)@ == (KbdV { queue: enqueue(old(self)@.queue, c), ..old(self)@ }),
    {
        proof {
            self.lemma_queue_len();
        }
        let head = self.head;
        let next = (head + 1) % BUF_SZ;
        if next != self.tail {
            let ghost q0 = self.queue();
            self.buf.set(head, c);
            self.head = next;
            proof {
                assert(self.queue() =~= q0.push(c));
            }
        }
    }

    /// Handles one scancode from the controller (see [`kbd_step`]).
    pub fn irq1_handler(&mut self, scancode: u8)
        requires
            old(self).wf(),
        ensures
            final(self).wf(),
            final(self)@ == kbd_step(old(self)@, scancode),
    {
        if scancode == 0xE0 {
            self.extended = true;
            return;
        }
        if scancode == 0xF0 {
            self.release = true;
            return;
        }
        if self.release {
            if scancode == 0x12 || scancode == 0x59 {
                self.shift = false;
            } else if scancode == 0x14 {
                self.ctrl = false;
            }
            self.release = false;
            self.extended = false;
            return;
        }
        if self.extended {
            self.extended = false;
            let token: u8 = if scancode == 0x75 {
                1
            } else if scancode == 0x72 {
                2
            } else if scancode == 0x6B {
                3
            } else if scancode == 0x74 {
                4
            } else {
                return;
            };
            self.push_char(token);
            return;
        }
        if scancode == 0x12 || scancode == 0x59 {
            self.shift = true;
        } else if scancode == 0x14 {
            self.ctrl = true;
        } else {
            match scancode_to_ascii(scancode, self.shift) {
                Some(c) => self.push_char(c),
                None => {},
            }
        }
        self.extended = false;
    }

    /// Takes the oldest typed character, if any.
    pub fn getchar(&mut self) -> (r: Option<u8>)
        requires
            old(self).wf(),
        ensures
            final(self).wf(),
            old(self)@.queue.len() == 0 ==> r is None && final(self)@ == old(self)@,
            old(self)@.queue.len() > 0 ==> r == Some(old(self)@.queue[0]) && final(self)@ == (KbdV {
                queue: old(self)@.queue.drop_first(),
                ..old(self)@
            }),
    {
        if self.tail != self.head {
            let ghost q0 = self.queue();
            let c = self.buf[self.tail];
            self.tail = (self.tail + 1) % BUF_SZ;
            proof {
                assert(self.queue() =~= q0.drop_first());
            }
            Some(c)
        } else {
            proof {
                assert(self.queue() =~= Seq::<u8>::empty());
            }
            None
        }
    }
}

/// The controller configuration byte start-up writes back: first-port
/// interrupt on, scancode translation off, first-port clock enabled.
pub fn controller_config(config: u8) -> (r: u8)
    ensures
        r == ((config | 1) & !0x40u8) & !0x10u8,
{
    ((config | 1) & !0x40u8) & !0x10u8
}

/// Handles one scancode read from the keyboard controller on IRQ 1.
pub fn irq1_handler(kbd: &mut Ps2Keyboard, scancode: u8)
    requires
        old(kbd).wf(),
    ensures
        final(kbd).wf(),
        final(kbd)@ == kbd_step(old(kbd)@, scancode),
{
    kbd.irq1_handler(scancode);
}

/// A source of typed characters.
pub trait Input {
    /// The next character, if one is waiting.
    fn getchar(&mut self) -> Option<u8>;

    /// Prepares the input for use.
    fn init(&mut self);
}

impl Input for Ps2Keyboard {
    /// The oldest waiting character, taken off the queue; none when the
    /// queue is empty or the ring is malformed (then nothing changes).
    fn getchar(&mut self) -> (r: Option<u8>)
        ensures
            !old(self).wf() ==> r is None && *final(self) == *old(self),
            old(self).wf() ==> final(self).wf(),
            old(self).wf() && old(self)@.queue.len() == 0 ==> r is None && final(self)@ == old(self)@,
            old(self).wf() && old(self)@.queue.len() > 0 ==> r == Some(old(self)@.queue[0]) && final(self)@ == (KbdV {
                queue: old(self)@.queue.drop_first(),
                ..old(self)@
            }),
    {
        if self.fields_ok() {
            Ps2Keyboard::getchar(self)
        } else {
            None
        }
    }

    /// Resets the keyboard to a fresh decoder: empty queue, no modifier
    /// held, no prefix pending.
    fn init(&mut self)
        ensures
            final(self).wf(),
            final(self)@ == (KbdV { queue: Seq::empty(), shift: false, ctrl: false, extended: false, release: false }),
    {
        *self = Ps2Keyboard::new();
    }
}

} // verus!
