//! The VGA text-mode writer, over an owned model of the 80x25 character
//! buffer. The memory-mapped buffer at physical `0xb8000` is written by the
//! thin layer around this crate.

use vstd::prelude::*;

verus! {

/// Height of the text buffer in rows.
pub const BUFFER_HEIGHT: usize = 25;

/// Width of the text buffer in columns.
pub const BUFFER_WIDTH: usize = 80;

/// A color of the VGA text-mode palette.
#[derive(Debug, Clone, Copy, PartialEq, Eq, Structural)]
pub enum Color {
    Black,
    Blue,
    Green,
    Cyan,
    Red,
    Magenta,
    Brown,
    LightGray,
    DarkGray,
    LightBlue,
    LightGreen,
    LightCyan,
    LightRed,
    Pink,
    Yellow,
    White,
}

impl Color {
    /// The palette number of the color.
    pub fn code(self) -> (r: u8)
        ensures
            r == self.spec_code(),
            r < 16,
    {
        match self {
            Color::Black => 0,
            Color::Blue => 1,
            Color::Green => 2,
            Color::Cyan => 3,
            Color::Red => 4,
            Color::Magenta => 5,
            Color::Brown => 6,
            Color::LightGray => 7,
            Color::DarkGray => 8,
            Color::LightBlue => 9,
            Color::LightGreen => 10,
            Color::LightCyan => 11,
            Color::LightRed => 12,
            Color::Pink => 13,
            Color::Yellow => 14,
            Color::White => 15,
        }
    }

    /// The palette number of the color.
    pub open spec fn spec_code(self) -> u8 {
        match self {
            Color::Black => 0,
            Color::Blue => 1,
            Color::Green => 2,
            Color::Cyan => 3,
            Color::Red => 4,
            Color::Magenta => 5,
            Color::Brown => 6,
            Color::LightGray => 7,
            Color::DarkGray => 8,
            Color::LightBlue => 9,
            Color::LightGreen => 10,
            Color::LightCyan => 11,
            Color::LightRed => 12,
            Color::Pink => 13,
            Color::Yellow => 14,
            Color::White => 15,
        }
    }
}

/// A foreground and background color packed into one byte.
#[derive(Debug, Clone, Copy, PartialEq, Eq, Structural)]
pub struct ColorCode {
    pub bits: u8,
}

impl ColorCode {
    /// Pack a foreground and a background color: background in the high
    /// nibble.
    pub fn new(foreground: Color, background: Color) -> (r: ColorCode)
        ensures
            r.bits == background.spec_code() * 16 + foreground.spec_code(),
    {
        let f = foreground.code();
        let b = background.code();
        proof {
            assert((b << 4) | f == b * 16 + f && b * 16 + f <= u8::MAX) by (bit_vector)
                requires
                    b < 16,
                    f < 16,
            ;
        }
        ColorCode { bits: (b << 4) | f }
    }
}

/// One character cell: an ASCII byte and its colors.
#[derive(Debug, Clone, Copy, PartialEq, Eq, Structural)]
pub struct ScreenChar {
    pub ascii_character: u8,
    pub color_code: ColorCode,
}

/// A blank cell: a space in the given colors.
pub open spec fn blank_char(color_code: ColorCode) -> ScreenChar {
    ScreenChar { ascii_character: 32, color_code }
}

/// The text-mode writer: a cursor column, the current colors, and the
/// buffer's rows of character cells.
pub struct Writer {
    pub column_position: usize,
    pub color_code: ColorCode,
    pub buffer: Vec<Vec<ScreenChar>>,
}

impl Writer {
    /// The buffer is 25 rows of 80 columns and the cursor is inside a row.
    pub open spec fn wf(&self) -> bool {
        &&& self.buffer@.len() == BUFFER_HEIGHT
        &&& forall|r: int| 0 <= r < BUFFER_HEIGHT ==> (#[trigger] self.buffer@[r])@.len()
            == BUFFER_WIDTH
        &&& self.column_position <= BUFFER_WIDTH
    }

    /// A writer over a blank screen.
    pub fn new(color_code: ColorCode) -> (r: Writer)
        ensures
            r.wf(),
            r.column_position == 0,
            r.color_code == color_code,
            forall|row: int, col: int|
                0 <= row < BUFFER_HEIGHT && 0 <= col < BUFFER_WIDTH ==> (#[trigger] r.buffer@[row]@[
                    col
                ]) == blank_char(color_code),
    {
        let mut buffer: Vec<Vec<ScreenChar>> = Vec::new();
        let mut row: usize = 0;
        while row < BUFFER_HEIGHT
            invariant
                row <= BUFFER_HEIGHT,
                buffer@.len() == row,
                forall|r: int| 0 <= r < row ==> (#[trigger] buffer@[r])@.len() == BUFFER_WIDTH,
                forall|r: int, c: int|
                    0 <= r < row && 0 <= c < BUFFER_WIDTH ==> (#[trigger] buffer@[r]@[c])
                        == blank_char(color_code),
            decreases BUFFER_HEIGHT - row,
        {
            let line = blank_line(color_code);
            buffer.push(line);
            row = row + 1;
        }
        Writer { column_position: 0, color_code, buffer }
    }

    /// Scroll: every row moves up by one, whole, and a blank bottom row in
    /// the current colors appears; the cursor returns to column 0.
    pub fn new_line(&mut self)
        requires
            old(self).wf(),
        ensures
            final(self).wf(),
            final(self).column_position == 0,
            final(self).color_code == old(self).color_code,
            forall|r: int|
                0 <= r < BUFFER_HEIGHT - 1 ==> #[trigger] final(self).buffer@[r] == old(
                    self,
                ).buffer@[r + 1],
            forall|c: int|
                0 <= c < BUFFER_WIDTH ==> (#[trigger] final(self).buffer@[BUFFER_HEIGHT - 1]@[c])
                    == blank_char(old(self).color_code),
    {
        let top = self.buffer.remove(0);
        let line = blank_line(self.color_code);
        self.buffer.push(line);
        self.column_position = 0;
    }

    /// Draw one byte at the cursor on the bottom row; a newline, or running
    /// past the right edge, scrolls first.
    pub fn write_byte(&mut self, byte: u8)
        requires
            old(self).wf(),
        ensures
            final(self).wf(),
            final(self).color_code == old(self).color_code,
            byte == 10 ==> final(self).column_position == 0,
            byte != 10 && old(self).column_position < BUFFER_WIDTH ==> {
                &&& final(self).column_position == old(self).column_position + 1
                &&& final(self).buffer@[BUFFER_HEIGHT - 1]@[old(self).column_position as int] == (
                ScreenChar { ascii_character: byte, color_code: old(self).color_code })
            },
    {
        if byte == 10 {
            self.new_line();
        } else {
            if self.column_position >= BUFFER_WIDTH {
                self.new_line();
            }
            let row = BUFFER_HEIGHT - 1;
            let col = self.column_position;
            let color_code = self.color_code;
            let mut line = self.buffer.remove(row);
            line[col] = ScreenChar { ascii_character: byte, color_code };
            self.buffer.insert(row, line);
            self.column_position = self.column_position + 1;
            proof {
                assert(self.buffer@[row as int]@[col as int] == (ScreenChar {
                    ascii_character: byte,
                    color_code,
                }));
            }
        }
    }

    /// Draw every byte of the text in turn.
    pub fn write_str(&mut self, s: &[u8])
        requires
            old(self).wf(),
        ensures
            final(self).wf(),
            final(self).color_code == old(self).color_code,
    {
        let mut i: usize = 0;
        while i < s.len()
            invariant
                self.wf(),
                self.color_code == old(self).color_code,
            decreases s.len() - i,
        {
            self.write_byte(s[i]);
            i = i + 1;
        }
    }
}

/// One row of blanks in the given colors.
fn blank_line(color_code: ColorCode) -> (r: Vec<ScreenChar>)
    ensures
        r@.len() == BUFFER_WIDTH,
        forall|c: int| 0 <= c < BUFFER_WIDTH ==> (#[trigger] r@[c]) == blank_char(color_code),
{
    let mut line: Vec<ScreenChar> = Vec::new();
    let mut col: usize = 0;
    while col < BUFFER_WIDTH
        invariant
            col <= BUFFER_WIDTH,
            line@.len() == col,
            forall|c: int| 0 <= c < col ==> (#[trigger] line@[c]) == blank_char(color_code),
        decreases BUFFER_WIDTH - col,
    {
        line.push(ScreenChar { ascii_character: 32, color_code });
        col = col + 1;
    }
    line
}

/// Blank the whole screen by scrolling one full height: afterwards every
/// cell is a space in the writer's colors.
pub fn clear_screen(writer: &mut Writer)
    requires
        old(writer).wf(),
    ensures
        final(writer).wf(),
        final(writer).column_position == 0,
        final(writer).color_code == old(writer).color_code,
        forall|r: int, c: int|
            0 <= r < BUFFER_HEIGHT && 0 <= c < BUFFER_WIDTH ==> (#[trigger] final(writer).buffer@[r]@[c]) == blank_char(old(writer).color_code),
{
    let mut i: usize = 0;
    while i < BUFFER_HEIGHT
        invariant
            writer.wf(),
            writer.color_code == old(writer).color_code,
            i <= BUFFER_HEIGHT,
            i > 0 ==> writer.column_position == 0,
            forall|r: int, c: int|
                BUFFER_HEIGHT - i <= r < BUFFER_HEIGHT && 0 <= c < BUFFER_WIDTH ==> (
                #[trigger] writer.buffer@[r]@[c]) == blank_char(old(writer).color_code),
        decreases BUFFER_HEIGHT - i,
    {
        let ghost pre = *writer;
        writer.new_line();
        proof {
            assert forall|r: int, c: int|
                BUFFER_HEIGHT - (i + 1) <= r < BUFFER_HEIGHT && 0 <= c < BUFFER_WIDTH implies (
            #[trigger] writer.buffer@[r]@[c]) == blank_char(old(writer).color_code) by {
                if r < BUFFER_HEIGHT - 1 {
                    assert(writer.buffer@[r] == pre.buffer@[r + 1]);
                    assert(pre.buffer@[r + 1]@[c] == blank_char(old(writer).color_code));
                }
            }
        }
        i = i + 1;
    }
}

} // verus!
