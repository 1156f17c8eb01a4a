//! The keyboard driver's scancode decoder: scancode set 1, US layout, lines
//! completed with Enter.
use vstd::prelude::*;
use vstd::string::*;

use crate::text;

verus! {

/// Offsets of the controller's ports within the port capability.
pub const DATA: u16 = 0;

pub const STATUS: u16 = 4;

/// Scancodes read per interrupt at most.
pub const MAX_DRAIN: usize = 32;

/// What the keys give without and with shift, by scancode; NUL for keys that
/// give nothing.
pub const UNSHIFTED: &'static str =
    "\0\x1b1234567890-=\x08\tqwertyuiop[]\n\0asdfghjkl;'`\0\\zxcvbnm,./\0*\0 ";

pub const SHIFTED: &'static str =
    "\0\x1b!@#$%^&*()_+\x08\tQWERTYUIOP{}\n\0ASDFGHJKL:\"~\0|ZXCVBNM<>?\0*\0 ";

pub const LSHIFT: u8 = 0x2A;

pub const RSHIFT: u8 = 0x36;

pub const CAPS: u8 = 0x3A;

/// Longest line that is kept.
pub const MAX_LINE: usize = 120;

/// Keys held down and the line so far.
pub struct Decoder {
    pub shift: bool,
    pub caps: bool,
    pub line: Vec<char>,
}

/// What a decoder knows.
pub struct Keys {
    pub shift: bool,
    pub caps: bool,
    pub line: Seq<char>,
}

/// What a key gives.
pub open spec fn key(shift: bool, code: int) -> Option<char> {
    let table = if shift {
        SHIFTED@
    } else {
        UNSHIFTED@
    };
    if 0 <= code < table.len() {
        Some(table[code])
    } else {
        None
    }
}

/// A letter in the other case; any other character as it is.
pub open spec fn other_case(c: char) -> char {
    if 'a' <= c <= 'z' {
        (c as u32 - 32) as char
    } else if 'A' <= c <= 'Z' {
        (c as u32 + 32) as char
    } else {
        c
    }
}

/// The keyboard after a scancode, and the line it completed, if any.
pub open spec fn pressed(k: Keys, sc: u8) -> (Keys, Option<Seq<char>>) {
    let released = sc >= 0x80;
    let code = sc % 0x80;
    if code == LSHIFT || code == RSHIFT {
        (Keys { shift: !released, ..k }, None)
    } else if released {
        (k, None)
    } else if code == CAPS {
        (Keys { caps: !k.caps, ..k }, None)
    } else {
        match key(k.shift, code as int) {
            None => (k, None),
            Some(c) => if c == '\0' {
                (k, None)
            } else if c == '\n' {
                (Keys { line: Seq::empty(), ..k }, Some(k.line))
            } else if c == '\x08' {
                if k.line.len() == 0 {
                    (k, None)
                } else {
                    (Keys { line: k.line.drop_last(), ..k }, None)
                }
            } else if k.line.len() < MAX_LINE {
                let d = if k.caps {
                    other_case(c)
                } else {
                    c
                };
                (Keys { line: k.line.push(d), ..k }, None)
            } else {
                (k, None)
            },
        }
    }
}

fn flip(c: char) -> (r: char)
    ensures
        r == other_case(c),
{
    if c >= 'a' && c <= 'z' {
        let b: u8 = (c as u32 - 32) as u8;
        b as char
    } else if c >= 'A' && c <= 'Z' {
        let b: u8 = (c as u32 + 32) as u8;
        b as char
    } else {
        c
    }
}

impl View for Decoder {
    type V = Keys;

    open spec fn view(&self) -> Keys {
        Keys { shift: self.shift, caps: self.caps, line: self.line@ }
    }
}

impl Decoder {
    pub open spec fn wf(&self) -> bool {
        self.line@.len() <= MAX_LINE
    }

    pub fn new() -> (r: Self)
        ensures
            r.wf(),
            r@ == (Keys { shift: false, caps: false, line: Seq::empty() }),
    {
        let r: Decoder = Decoder { shift: false, caps: false, line: Vec::new() };
        assert(r.line@ =~= Seq::<char>::empty());
        r
    }

    /// Decode one scancode; returns the line that Enter completed.
    pub fn feed(&mut self, sc: u8) -> (r: Option<String>)
        requires
            old(self).wf(),
        ensures
            final(self).wf(),
            final(self)@ == pressed(old(self)@, sc).0,
            match pressed(old(self)@, sc).1 {
                None => r is None,
                Some(t) => r matches Some(s) && s@ == t,
            },
    {
        let released: bool = sc >= 0x80;
        let code: u8 = sc % 0x80;
        if code == LSHIFT || code == RSHIFT {
            self.shift = !released;
            return None;
        }
        if released {
            return None;
        }
        if code == CAPS {
            self.caps = !self.caps;
            return None;
        }
        let table: &'static str = if self.shift {
            SHIFTED
        } else {
            UNSHIFTED
        };
        if code as usize >= table.unicode_len() {
            return None;
        }
        let c: char = table.get_char(code as usize);
        if c == '\0' {
            return None;
        }
        if c == '\n' {
            let s: String = text::string_of(self.line.as_slice());
            self.line = Vec::new();
            assert(self.line@ =~= Seq::<char>::empty());
            return Some(s);
        }
        if c == '\x08' {
            if self.line.len() > 0 {
                let _ = self.line.pop();
            }
            return None;
        }
        if self.line.len() < MAX_LINE {
            let d: char = if self.caps {
                flip(c)
            } else {
                c
            };
            self.line.push(d);
        }
        None
    }
}

/// Whether the controller has a scancode, by its status.
pub fn has_data(status: u32) -> (r: bool)
    ensures
        r == (status % 2 == 1),
{
    status % 2 == 1
}

/// Either shift key counts as long as it is held, the lock with every stroke, and
/// no other key does anything when it is let go.
pub proof fn lemma_modifiers(k: Keys, sc: u8)
    ensures
        sc == 0x2A || sc == 0x36 ==> pressed(k, sc) == (Keys { shift: true, ..k }, None::<Seq<char>>),
        sc == 0xAA || sc == 0xB6 ==> pressed(k, sc) == (Keys { shift: false, ..k }, None::<Seq<char>>),
        sc == 0x3A ==> pressed(k, sc) == (Keys { caps: !k.caps, ..k }, None::<Seq<char>>),
        sc >= 0x80 && sc != 0xAA && sc != 0xB6 ==> pressed(k, sc) == (k, None::<Seq<char>>),
{
}

/// What the keys are: the digits, the letters of the three rows, the enter key,
/// backspace and the blank, each with what it gives with shift.
pub proof fn lemma_keys(i: int)
    ensures
        0 <= i < 10 ==> key(false, 2 + i) == Some("1234567890"@[i]) && key(true, 2 + i) == Some("!@#$%^&*()"@[i]),
        0 <= i < 10 ==> key(false, 16 + i) == Some("qwertyuiop"@[i]) && key(true, 16 + i) == Some(
            other_case("qwertyuiop"@[i]),
        ),
        0 <= i < 9 ==> key(false, 30 + i) == Some("asdfghjkl"@[i]) && key(true, 30 + i) == Some(
            other_case("asdfghjkl"@[i]),
        ),
        0 <= i < 7 ==> key(false, 44 + i) == Some("zxcvbnm"@[i]) && key(true, 44 + i) == Some(
            other_case("zxcvbnm"@[i]),
        ),
        key(false, 28) == Some('\n') && key(true, 28) == Some('\n'),
        key(false, 14) == Some('\x08') && key(true, 14) == Some('\x08'),
        key(false, 57) == Some(' ') && key(true, 57) == Some(' '),
{
    reveal_strlit("\0\x1b1234567890-=\x08\tqwertyuiop[]\n\0asdfghjkl;'`\0\\zxcvbnm,./\0*\0 ");
    reveal_strlit("\0\x1b!@#$%^&*()_+\x08\tQWERTYUIOP{}\n\0ASDFGHJKL:\"~\0|ZXCVBNM<>?\0*\0 ");
    reveal_strlit("1234567890");
    reveal_strlit("!@#$%^&*()");
    reveal_strlit("qwertyuiop");
    reveal_strlit("asdfghjkl");
    reveal_strlit("zxcvbnm");
}

/// Typing: a character goes to the end of the line, up to 120 of them, in the other
/// case under the lock; backspace takes the last one off; enter completes the line
/// and starts an empty one.
pub proof fn lemma_typing(k: Keys, sc: u8, c: char)
    requires
        sc < 0x80,
        sc != 0x2A && sc != 0x36 && sc != 0x3A,
        key(k.shift, sc as int) == Some(c),
    ensures
        ({
            let (k1, line) = pressed(k, sc);
            &&& k1.shift == k.shift && k1.caps == k.caps
            &&& c == '\n' ==> line == Some(k.line) && k1.line.len() == 0
            &&& c != '\n' ==> line is None
            &&& c == '\x08' && k.line.len() > 0 ==> k1.line == k.line.subrange(0, k.line.len() - 1)
            &&& c == '\x08' && k.line.len() == 0 ==> k1.line.len() == 0
            &&& c != '\n' && c != '\x08' && c != '\0' && k.line.len() < 120 ==> {
                &&& k1.line.len() == k.line.len() + 1
                &&& k1.line.drop_last() == k.line
                &&& !k.caps ==> k1.line.last() == c
                &&& k.caps && 'a' <= c <= 'z' ==> k1.line.last() as int == c as int - 32
                &&& k.caps && 'A' <= c <= 'Z' ==> k1.line.last() as int == c as int + 32
                &&& !('a' <= c <= 'z') && !('A' <= c <= 'Z') ==> k1.line.last() == c
            }
            &&& c != '\n' && c != '\x08' && k.line.len() >= 120 ==> k1.line == k.line
        }),
{
    let (k1, line) = pressed(k, sc);
    if k.line.len() > 0 {
        assert(k.line.drop_last() =~= k.line.subrange(0, k.line.len() - 1));
    }
    if c != '\n' && c != '\x08' && c != '\0' && k.line.len() < 120 {
        assert(k1.line.drop_last() =~= k.line);
    }
}

} // verus!
