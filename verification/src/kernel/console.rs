//! The framebuffer console: text cells, the cursor, and the pixels of a glyph.
use vstd::prelude::*;

verus! {

pub const GLYPH_W: usize = 8;

pub const GLYPH_H: usize = 16;

/// What changes on the screen.
#[derive(Clone, Copy, Debug, PartialEq, Eq, Structural)]
pub enum Op {
    /// Draw a character in a cell.
    Draw { ch: u8, col: usize, row: usize },
    /// Move every line up by one and clear the last.
    Scroll,
    /// Paint the whole screen in the background color.
    Clear,
}

/// The text on the screen and where the next character goes.
pub struct Screen {
    /// The lines, each as long as the screen is wide.
    pub lines: Seq<Seq<u8>>,
    pub col: int,
    pub row: int,
}

/// The lines with one cell changed.
pub open spec fn with_cell(lines: Seq<Seq<u8>>, col: int, row: int, ch: u8) -> Seq<Seq<u8>> {
    lines.update(row, lines[row].update(col, ch))
}

/// The lines after a scroll.
pub open spec fn scrolled(lines: Seq<Seq<u8>>) -> Seq<Seq<u8>> {
    lines.subrange(1, lines.len() as int).push(blank(lines[0].len() as int))
}

pub open spec fn blank(cols: int) -> Seq<u8> {
    Seq::new(cols as nat, |i: int| 0x20u8)
}

/// The lines after changes.
pub open spec fn drawn(lines: Seq<Seq<u8>>, ops: Seq<Op>) -> Seq<Seq<u8>>
    decreases ops.len(),
{
    if ops.len() == 0 {
        lines
    } else {
        let before = drawn(lines, ops.drop_last());
        match ops.last() {
            Op::Draw { ch, col, row } => with_cell(before, col as int, row as int, ch),
            Op::Scroll => scrolled(before),
            Op::Clear => Seq::new(before.len(), |i: int| blank(before[i].len() as int)),
        }
    }
}

/// A new line: the screen scrolls when the cursor is on the last one.
pub open spec fn next_line(s: Screen) -> Screen {
    if s.row + 1 >= s.lines.len() {
        Screen { lines: scrolled(s.lines), col: 0, row: s.row }
    } else {
        Screen { lines: s.lines, col: 0, row: s.row + 1 }
    }
}

/// What a byte is shown as.
pub open spec fn shown(ch: u8) -> u8 {
    if 0x20 <= ch < 0x7F {
        ch
    } else {
        0x3F
    }
}

/// Blanks up to column `to`.
pub open spec fn padded(s: Screen, to: int) -> Screen
    decreases to - s.col,
{
    if s.col >= to {
        s
    } else {
        padded(
            Screen { lines: with_cell(s.lines, s.col, s.row, 0x20), col: s.col + 1, row: s.row },
            to,
        )
    }
}

/// The screen after a character: line feed, carriage return, tab to the next
/// multiple of four, backspace, or a character in the next cell.
pub open spec fn typed(s: Screen, cols: int, ch: u8) -> Screen {
    if ch == 0x0A {
        next_line(s)
    } else if ch == 0x0D {
        Screen { col: 0, ..s }
    } else if ch == 0x09 {
        let stop = (s.col + 4) / 4 * 4;
        padded(
            s,
            if stop < cols {
                stop
            } else {
                cols
            },
        )
    } else if ch == 0x08 {
        if s.col > 0 {
            Screen { lines: with_cell(s.lines, s.col - 1, s.row, 0x20), col: s.col - 1, row: s.row }
        } else {
            s
        }
    } else {
        let t = if s.col >= cols {
            next_line(s)
        } else {
            s
        };
        Screen { lines: with_cell(t.lines, t.col, t.row, shown(ch)), col: t.col + 1, row: t.row }
    }
}

/// A pixel format: where red, green and blue are in a pixel.
#[derive(Clone, Copy, Debug, PartialEq, Eq, Structural)]
pub struct Format {
    pub red: u8,
    pub green: u8,
    pub blue: u8,
}

impl Format {
    pub open spec fn ok(self) -> bool {
        self.red < 32 && self.green < 32 && self.blue < 32
    }

    pub open spec fn color(self, r: u8, g: u8, b: u8) -> u32 {
        ((r as u32) << self.red) | ((g as u32) << self.green) | ((b as u32) << self.blue)
    }
}

/// A console of `cols` by `rows` cells: its cursor and its colors.
#[derive(Clone, Copy, Debug, PartialEq, Eq, Structural)]
pub struct FbConsole {
    pub format: Format,
    pub cols: usize,
    pub rows: usize,
    pub col: usize,
    pub row: usize,
    pub fg: u32,
    pub bg: u32,
}

impl FbConsole {
    pub open spec fn wf(&self) -> bool {
        &&& self.format.ok()
        &&& 1 <= self.cols < usize::MAX - 4
        &&& 1 <= self.rows < usize::MAX
        &&& self.col <= self.cols
        &&& self.row < self.rows
    }

    /// The screen, with these lines on it.
    pub open spec fn screen(&self, lines: Seq<Seq<u8>>) -> Screen {
        Screen { lines, col: self.col as int, row: self.row as int }
    }

    /// The console on a screen of `width` by `height` pixels: light grey on
    /// nearly black.
    pub fn new(width: usize, height: usize, format: Format) -> (r: Self)
        requires
            GLYPH_W <= width,
            GLYPH_H <= height,
            format.ok(),
        ensures
            r.wf(),
            r == (FbConsole {
                format,
                cols: width / GLYPH_W,
                rows: height / GLYPH_H,
                col: 0,
                row: 0,
                fg: format.color(0xD0, 0xD0, 0xD0),
                bg: format.color(0x0B, 0x0E, 0x14),
            }),
    {
        let mut c: FbConsole = FbConsole {
            format,
            cols: width / 8,
            rows: height / 16,
            col: 0,
            row: 0,
            fg: 0,
            bg: 0,
        };
        c.fg = c.rgb(0xD0, 0xD0, 0xD0);
        c.bg = c.rgb(0x0B, 0x0E, 0x14);
        c
    }

    /// The pixel of a color.
    pub fn rgb(&self, r: u8, g: u8, b: u8) -> (c: u32)
        requires
            self.format.ok(),
        ensures
            c == self.format.color(r, g, b),
    {
        ((r as u32) << self.format.red) | ((g as u32) << self.format.green) | ((b as u32)
            << self.format.blue)
    }

    /// The color of text from now on.
    pub fn set_fg(&mut self, r: u8, g: u8, b: u8)
        requires
            old(self).wf(),
        ensures
            *final(self) == (FbConsole { fg: old(self).format.color(r, g, b), ..*old(self) }),
    {
        self.fg = self.rgb(r, g, b);
    }

    /// Start over with an empty screen.
    pub fn clear(&mut self) -> (r: Op)
        requires
            old(self).wf(),
        ensures
            final(self).wf(),
            *final(self) == (FbConsole { col: 0, row: 0, ..*old(self) }),
            r == Op::Clear,
    {
        self.col = 0;
        self.row = 0;
        Op::Clear
    }

    /// The next line; whether the screen scrolls for it.
    fn newline(&mut self) -> (scroll: bool)
        requires
            old(self).wf(),
        ensures
            final(self).wf(),
            scroll == (old(self).row + 1 >= old(self).rows),
            *final(self) == (FbConsole {
                col: 0,
                row: if scroll {
                    old(self).row
                } else {
                    (old(self).row + 1) as usize
                },
                ..*old(self)
            }),
    {
        self.col = 0;
        if self.row + 1 >= self.rows {
            true
        } else {
            self.row = self.row + 1;
            false
        }
    }

    /// Take a character: returns what changes on the screen, whatever it shows.
    pub fn put_char(&mut self, ch: u8) -> (r: Vec<Op>)
        requires
            old(self).wf(),
        ensures
            final(self).wf(),
            *final(self) == (FbConsole { col: final(self).col, row: final(self).row, ..*old(self) }),
            forall|lines: Seq<Seq<u8>>|
                lines.len() == old(self).rows ==> final(self).screen(#[trigger] drawn(lines, r@)) == typed(
                    old(self).screen(lines),
                    old(self).cols as int,
                    ch,
                ),
    {
        let mut ops: Vec<Op> = Vec::new();
        if ch == 0x0A {
            if self.newline() {
                ops.push(Op::Scroll);
                assert(ops@.drop_last() =~= Seq::<Op>::empty());
            }
        } else if ch == 0x0D {
            self.col = 0;
        } else if ch == 0x09 {
            let stop: usize = (self.col + 4) / 4 * 4;
            let end: usize = if stop < self.cols {
                stop
            } else {
                self.cols
            };
            while self.col < end
                invariant
                    self.wf(),
                    *self == (FbConsole { col: self.col, ..*old(self) }),
                    end <= self.cols,
                    forall|lines: Seq<Seq<u8>>|
                        padded(self.screen(#[trigger] drawn(lines, ops@)), end as int) == padded(
                            old(self).screen(lines),
                            end as int,
                        ),
                decreases end - self.col,
            {
                let ghost before = ops@;
                let ghost c0 = *self;
                ops.push(Op::Draw { ch: 0x20, col: self.col, row: self.row });
                self.col = self.col + 1;
                proof {
                    assert(ops@.drop_last() =~= before);
                    assert forall|lines: Seq<Seq<u8>>|
                        padded(self.screen(#[trigger] drawn(lines, ops@)), end as int) == padded(
                            old(self).screen(lines),
                            end as int,
                        ) by {
                        assert(padded(c0.screen(drawn(lines, before)), end as int) == padded(
                            old(self).screen(lines),
                            end as int,
                        ));
                    }
                }
            }
        } else if ch == 0x08 {
            if self.col > 0 {
                self.col = self.col - 1;
                ops.push(Op::Draw { ch: 0x20, col: self.col, row: self.row });
                assert(ops@.drop_last() =~= Seq::<Op>::empty());
            }
        } else {
            if self.col >= self.cols {
                if self.newline() {
                    ops.push(Op::Scroll);
                    assert(ops@.drop_last() =~= Seq::<Op>::empty());
                }
            }
            let ghost before = ops@;
            let g: u8 = if ch >= 0x20 && ch < 0x7F {
                ch
            } else {
                0x3F
            };
            ops.push(Op::Draw { ch: g, col: self.col, row: self.row });
            assert(ops@.drop_last() =~= before);
            self.col = self.col + 1;
        }
        proof {
            reveal_with_fuel(drawn, 3);
        }
        ops
    }
}

/// Whether pixel `dx` of a glyph's line is set: the leftmost pixel is the top
/// bit.
pub open spec fn pixel_set(bits: u8, dx: int) -> bool {
    (bits as int / (if dx == 0 {
        128int
    } else if dx == 1 {
        64
    } else if dx == 2 {
        32
    } else if dx == 3 {
        16
    } else if dx == 4 {
        8
    } else if dx == 5 {
        4
    } else if dx == 6 {
        2
    } else {
        1
    })) % 2 == 1
}

/// The pixels of a glyph: sixteen lines of eight, in the colors of the console.
pub fn glyph(font: &[u8], ch: u8, fg: u32, bg: u32) -> (r: Vec<u32>)
    requires
        font@.len() >= 4096,
    ensures
        r@.len() == 128,
        forall|i: int|
            0 <= i < 128 ==> #[trigger] r@[i] == if pixel_set(font@[ch * 16 + i / 8], i % 8) {
                fg
            } else {
                bg
            },
{
    let mut out: Vec<u32> = Vec::new();
    let mut y: usize = 0;
    while y < 16
        invariant
            y <= 16,
            font@.len() >= 4096,
            out@.len() == 8 * y,
            forall|i: int|
                0 <= i < 8 * y ==> #[trigger] out@[i] == if pixel_set(font@[ch * 16 + i / 8], i % 8) {
                    fg
                } else {
                    bg
                },
        decreases 16 - y,
    {
        let bits: u8 = font[ch as usize * 16 + y];
        let mut x: usize = 0;
        let mut weight: u8 = 128;
        while x < 8
            invariant
                x <= 8,
                y < 16,
                weight == if x == 0 {
                    128int
                } else if x == 1 {
                    64
                } else if x == 2 {
                    32
                } else if x == 3 {
                    16
                } else if x == 4 {
                    8
                } else if x == 5 {
                    4
                } else if x == 6 {
                    2
                } else if x == 7 {
                    1
                } else {
                    0
                },
                bits == font@[ch * 16 + y],
                out@.len() == 8 * y + x,
                forall|i: int|
                    0 <= i < 8 * y + x ==> #[trigger] out@[i] == if pixel_set(
                        font@[ch * 16 + i / 8],
                        i % 8,
                    ) {
                        fg
                    } else {
                        bg
                    },
            decreases 8 - x,
        {
            let on: bool = bits / weight % 2 == 1;
            assert((8 * y + x) / 8 == y && (8 * y + x) % 8 == x);
            if on {
                out.push(fg);
            } else {
                out.push(bg);
            }
            x = x + 1;
            weight = weight / 2;
        }
        y = y + 1;
    }
    out
}

/// Where a pixel is in the framebuffer.
pub fn pixel_offset(x: usize, y: usize, pitch: usize, bpp: usize) -> (r: usize)
    requires
        y * pitch + x * (bpp as int / 8) <= usize::MAX,
    ensures
        r == y * pitch + x * (bpp as int / 8),
{
    assert(0 <= y * pitch <= usize::MAX && 0 <= x * (bpp as int / 8) <= usize::MAX) by (nonlinear_arith)
        requires
            y * pitch + x * (bpp as int / 8) <= usize::MAX,
            y >= 0,
            pitch >= 0,
            x >= 0,
            bpp >= 0,
    ;
    y * pitch + x * (bpp / 8)
}

/// A visible character is put where the cursor is, and the cursor goes on one
/// cell; nothing else on the screen changes. Anything that cannot be shown is a
/// question mark.
pub proof fn lemma_character(s: Screen, cols: int, ch: u8, r: int, c: int)
    requires
        0 <= s.col < cols,
        0 <= s.row < s.lines.len(),
        forall|i: int| 0 <= i < s.lines.len() ==> (#[trigger] s.lines[i]).len() == cols,
        ch != 0x0A && ch != 0x0D && ch != 0x09 && ch != 0x08,
        0 <= r < s.lines.len(),
        0 <= c < cols,
    ensures
        ({
            let t = typed(s, cols, ch);
            &&& t.row == s.row
            &&& t.col == s.col + 1
            &&& t.lines.len() == s.lines.len()
            &&& r == s.row && c == s.col ==> t.lines[r][c] == if 0x20 <= ch <= 0x7E {
                ch
            } else {
                0x3F
            }
            &&& r != s.row || c != s.col ==> t.lines[r][c] == s.lines[r][c]
        }),
{
    assert(s.lines[s.row].len() == cols);
}

/// A line feed takes the cursor to the start of the next line. On the last line
/// everything moves up by one instead, and the last line is blank.
pub proof fn lemma_line_feed(s: Screen, cols: int, r: int, c: int)
    requires
        0 < cols,
        0 <= s.col <= cols,
        0 <= s.row < s.lines.len(),
        forall|i: int| 0 <= i < s.lines.len() ==> (#[trigger] s.lines[i]).len() == cols,
        0 <= r < s.lines.len(),
        0 <= c < cols,
    ensures
        ({
            let t = typed(s, cols, 0x0A);
            &&& t.col == 0
            &&& t.lines.len() == s.lines.len()
            &&& s.row < s.lines.len() - 1 ==> t.row == s.row + 1 && t.lines == s.lines
            &&& s.row == s.lines.len() - 1 ==> {
                &&& t.row == s.row
                &&& r < s.row ==> t.lines[r] == s.lines[r + 1]
                &&& t.lines[s.row][c] == 0x20
            }
        }),
        typed(s, cols, 0x0D) == (Screen { lines: s.lines, col: 0, row: s.row }),
{
    assert(s.lines[0].len() == cols);
}

/// A character that does not fit its line goes where it would go after a line feed.
pub proof fn lemma_wraps(s: Screen, cols: int, ch: u8)
    requires
        0 < cols,
        s.col == cols,
        ch != 0x0A && ch != 0x0D && ch != 0x09 && ch != 0x08,
    ensures
        typed(s, cols, ch) == typed(typed(s, cols, 0x0A), cols, ch),
{
}

/// Backspace takes the last character of the line off and the cursor to its place;
/// at the start of a line it does nothing.
pub proof fn lemma_backspace(s: Screen, cols: int, ch: u8)
    requires
        0 <= s.col < cols,
        0 <= s.row < s.lines.len(),
        forall|i: int| 0 <= i < s.lines.len() ==> (#[trigger] s.lines[i]).len() == cols,
        ch != 0x0A && ch != 0x0D && ch != 0x09 && ch != 0x08,
    ensures
        ({
            let t = typed(typed(s, cols, ch), cols, 0x08);
            &&& t.row == s.row
            &&& t.col == s.col
            &&& t.lines == s.lines.update(s.row, s.lines[s.row].update(s.col, 0x20))
        }),
        s.col == 0 ==> typed(s, cols, 0x08) == s,
{
    assert(s.lines[s.row].len() == cols);
    let t = typed(typed(s, cols, ch), cols, 0x08);
    assert(t.lines =~= s.lines.update(s.row, s.lines[s.row].update(s.col, 0x20))) by {
        assert(t.lines[s.row] =~= s.lines[s.row].update(s.col, 0x20));
    }
}

/// A tab fills up to the next column that is a multiple of four, at most to the end
/// of the line, with blanks.
pub proof fn lemma_tab(s: Screen, cols: int, r: int, c: int)
    requires
        0 <= s.col <= cols,
        0 <= s.row < s.lines.len(),
        forall|i: int| 0 <= i < s.lines.len() ==> (#[trigger] s.lines[i]).len() == cols,
        0 <= r < s.lines.len(),
        0 <= c < cols,
    ensures
        ({
            let t = typed(s, cols, 0x09);
            &&& t.row == s.row
            &&& s.col <= t.col <= s.col + 4
            &&& t.col % 4 == 0 || t.col == cols
            &&& s.col < cols ==> s.col < t.col <= cols
            &&& s.col < c < t.col ==> c % 4 != 0
            &&& r == s.row && s.col <= c < t.col ==> t.lines[r][c] == 0x20
            &&& r != s.row || c < s.col || c >= t.col ==> t.lines[r][c] == s.lines[r][c]
        }),
{
    let stop = (s.col + 4) / 4 * 4;
    lemma_padded(
        s,
        if stop < cols {
            stop
        } else {
            cols
        },
        cols,
        r,
        c,
    );
}

proof fn lemma_padded(s: Screen, to: int, cols: int, r: int, c: int)
    requires
        0 <= s.col <= cols,
        to <= cols,
        0 <= s.row < s.lines.len(),
        forall|i: int| 0 <= i < s.lines.len() ==> (#[trigger] s.lines[i]).len() == cols,
        0 <= r < s.lines.len(),
        0 <= c < cols,
    ensures
        ({
            let t = padded(s, to);
            &&& t.row == s.row
            &&& t.col == if s.col >= to {
                s.col
            } else {
                to
            }
            &&& r == s.row && s.col <= c < t.col ==> t.lines[r][c] == 0x20
            &&& r != s.row || c < s.col || c >= t.col ==> t.lines[r][c] == s.lines[r][c]
        }),
    decreases to - s.col,
{
    if s.col < to {
        let u = Screen { lines: with_cell(s.lines, s.col, s.row, 0x20), col: s.col + 1, row: s.row };
        assert(s.lines[s.row].len() == cols);
        lemma_padded(u, to, cols, r, c);
    }
}

/// The leftmost of the eight pixels of a line is its highest bit.
pub proof fn lemma_pixel(bits: u8, dx: u8)
    requires
        dx < 8,
    ensures
        pixel_set(bits, dx as int) <==> (bits >> ((7 - dx) as u8)) & 1 == 1,
{
    assert(((bits >> 7u8) & 1 == 1 <==> bits / 128 % 2 == 1)
        && ((bits >> 6u8) & 1 == 1 <==> bits / 64 % 2 == 1)
        && ((bits >> 5u8) & 1 == 1 <==> bits / 32 % 2 == 1)
        && ((bits >> 4u8) & 1 == 1 <==> bits / 16 % 2 == 1)
        && ((bits >> 3u8) & 1 == 1 <==> bits / 8 % 2 == 1)
        && ((bits >> 2u8) & 1 == 1 <==> bits / 4 % 2 == 1)
        && ((bits >> 1u8) & 1 == 1 <==> bits / 2 % 2 == 1)
        && ((bits >> 0u8) & 1 == 1 <==> bits % 2 == 1)) by (bit_vector);
}

/// Each color has eight bits of a pixel of its own.
pub proof fn lemma_color(r: u8, g: u8, b: u8)
    ensures
        (Format { red: 16, green: 8, blue: 0 }).color(r, g, b) == 0x1_0000 * r + 0x100 * g + b,
        (Format { red: 0, green: 8, blue: 16 }).color(r, g, b) == 0x1_0000 * b + 0x100 * g + r,
{
    assert(((r as u32) << 16u8) | ((g as u32) << 8u8) | ((b as u32) << 0u8) == 0x1_0000 * r + 0x100 * g + b)
        by (bit_vector);
    assert(((r as u32) << 0u8) | ((g as u32) << 8u8) | ((b as u32) << 16u8) == 0x1_0000 * b + 0x100 * g + r)
        by (bit_vector);
}

} // verus!
