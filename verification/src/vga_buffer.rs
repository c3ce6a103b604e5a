//! Text-mode screen: an 80x25 grid of 16-bit cells, a character in the low byte
//! and its colours in the high byte.
//!
//! The [`Writer`] prints into a sub-rectangle of the grid, its region, and
//! confines line wrap and scrolling to it. Painters put cells anywhere on the
//! grid and leave the cursor and the region alone.
use vstd::prelude::*;
use vstd::utf8::encode_utf8;

use volatile::Volatile;

verus! {

/// The sixteen colours of text mode.
#[derive(Debug, Clone, Copy, PartialEq, Eq, Structural)]
pub enum Color {
    Black,
    Blue,
    Green,
    Cyan,
    Red,
    Magenta,
    Brown,
    LightGray,
    DarkGray,
    LightBlue,
    LightGreen,
    LightCyan,
    LightRed,
    Pink,
    Yellow,
    White,
}

impl Color {
    /// The colour's number in the palette.
    pub open spec fn code(self) -> u8 {
        match self {
            Color::Black => 0,
            Color::Blue => 1,
            Color::Green => 2,
            Color::Cyan => 3,
            Color::Red => 4,
            Color::Magenta => 5,
            Color::Brown => 6,
            Color::LightGray => 7,
            Color::DarkGray => 8,
            Color::LightBlue => 9,
            Color::LightGreen => 10,
            Color::LightCyan => 11,
            Color::LightRed => 12,
            Color::Pink => 13,
            Color::Yellow => 14,
            Color::White => 15,
        }
    }

    /// The colour's number in the palette.
    pub fn number(self) -> (r: u8)
        ensures
            r == self.code(),
    {
        match self {
            Color::Black => 0,
            Color::Blue => 1,
            Color::Green => 2,
            Color::Cyan => 3,
            Color::Red => 4,
            Color::Magenta => 5,
            Color::Brown => 6,
            Color::LightGray => 7,
            Color::DarkGray => 8,
            Color::LightBlue => 9,
            Color::LightGreen => 10,
            Color::LightCyan => 11,
            Color::LightRed => 12,
            Color::Pink => 13,
            Color::Yellow => 14,
            Color::White => 15,
        }
    }
}

/// A foreground and a background colour: four bits each, the background high.
#[derive(Debug, Clone, Copy, PartialEq, Eq, Structural)]
pub struct ColorCode(pub u8);

/// The code of a foreground on a background.
pub open spec fn color_code(foreground: Color, background: Color) -> ColorCode {
    ColorCode((background.code() * 16 + foreground.code()) as u8)
}

impl ColorCode {
    /// The code of `foreground` on `background`.
    pub fn new(foreground: Color, background: Color) -> (r: ColorCode)
        ensures
            r == color_code(foreground, background),
            r.0 == background.code() * 16 + foreground.code(),
    {
        let f: u8 = foreground.number();
        let b: u8 = background.number();
        assert(b << 4 | f == b * 16 + f) by (bit_vector)
            requires
                f < 16,
                b < 16,
        ;
        ColorCode(b << 4 | f)
    }

    /// The code as the hardware holds it.
    pub fn raw(self) -> (r: u8)
        ensures
            r == self.0,
    {
        self.0
    }

    /// The code that the hardware holds as `raw`.
    pub fn from_raw(raw: u8) -> (r: ColorCode)
        ensures
            r == ColorCode(raw),
    {
        ColorCode(raw)
    }

    /// The code with foreground and background exchanged.
    pub open spec fn inverted(self) -> ColorCode {
        ColorCode(((self.0 % 16) * 16 + self.0 / 16) as u8)
    }

    /// The code with foreground and background exchanged.
    pub fn invert(self) -> (r: ColorCode)
        ensures
            r == self.inverted(),
    {
        let c: u8 = self.0;
        assert(c << 4 | c >> 4 == (c % 16) * 16 + c / 16) by (bit_vector);
        ColorCode(c << 4 | c >> 4)
    }
}

/// Inverting twice gives the code back.
pub proof fn law_invert_twice(code: ColorCode)
    ensures
        code.inverted().inverted() == code,
{
}

/// One cell of the screen.
#[derive(Debug, Clone, Copy, PartialEq, Eq, Structural)]
pub struct ScreenChar {
    pub ascii_character: u8,
    pub color_code: ColorCode,
}

pub const BUFFER_HEIGHT: usize = 25;

pub const BUFFER_WIDTH: usize = 80;

// ---------- Cells in memory ----------

/// `volatile::Volatile`: a value that is read and written by volatile accesses.
#[verifier::external_type_specification]
#[verifier::external_body]
#[verifier::reject_recursive_types(T)]
pub struct ExVolatile<T: Copy>(Volatile<T>);

/// The value that a volatile cell holds.
pub uninterp spec fn cell_value(cell: Volatile<u16>) -> u16;

/// `Volatile::read` returns the value that the cell holds.
#[verifier::external_body]
fn cell_read(cell: &Volatile<u16>) -> (r: u16)
    ensures
        r == cell_value(*cell),
{
    cell.read()
}

/// `Volatile::write` makes the cell hold the value.
#[verifier::external_body]
fn cell_write(cell: &mut Volatile<u16>, value: u16)
    ensures
        cell_value(*final(cell)) == value,
{
    cell.write(value)
}

/// The character and the colours that a 16-bit cell stands for.
pub open spec fn decoded(v: u16) -> ScreenChar {
    ScreenChar { ascii_character: (v % 256) as u8, color_code: ColorCode((v / 256) as u8) }
}

/// The 16-bit cell for a character and its colours.
fn encode_cell(cell: ScreenChar) -> (r: u16)
    ensures
        decoded(r) == cell,
{
    let low: u16 = cell.ascii_character as u16;
    let high: u16 = cell.color_code.0 as u16;
    let r: u16 = high * 256 + low;
    assert(r % 256 == low);
    assert(r / 256 == high);
    r
}

/// The character and the colours of a 16-bit cell.
fn decode_cell(v: u16) -> (r: ScreenChar)
    ensures
        r == decoded(v),
{
    ScreenChar { ascii_character: (v % 256) as u8, color_code: ColorCode((v / 256) as u8) }
}

/// The grid as it lies in memory.
pub type Buffer = [[Volatile<u16>; BUFFER_WIDTH]; BUFFER_HEIGHT];

// ---------- The writer ----------

/// What a writer is: the screen, the cursor relative to the region, the colours
/// for printing, and the region.
pub struct WriterModel {
    pub cells: Seq<Seq<ScreenChar>>,
    pub column: int,
    pub row: int,
    pub color: ColorCode,
    pub top: int,
    pub left: int,
    pub width: int,
    pub height: int,
}

/// The screen and where printing goes on.
pub struct Writer {
    column_position: usize,
    row_position: usize,
    color_code: ColorCode,
    buffer: Box<Buffer>,
    region_top: usize,
    region_left: usize,
    region_width: usize,
    region_height: usize,
}

impl View for Writer {
    type V = WriterModel;

    closed spec fn view(&self) -> WriterModel {
        WriterModel {
            cells: screen_of(*self.buffer),
            column: self.column_position as int,
            row: self.row_position as int,
            color: self.color_code,
            top: self.region_top as int,
            left: self.region_left as int,
            width: self.region_width as int,
            height: self.region_height as int,
        }
    }
}

/// The characters and colours of the whole grid, row by row.
pub open spec fn screen_of(b: Buffer) -> Seq<Seq<ScreenChar>> {
    Seq::new(25, |r: int| Seq::new(80, |c: int| decoded(cell_value(b[r][c]))))
}

/// The position is on the screen.
pub open spec fn on_screen(r: int, c: int) -> bool {
    0 <= r < 25 && 0 <= c < 80
}

impl WriterModel {
    /// The region is a non-empty part of the screen and the cursor is in it.
    pub open spec fn wf(self) -> bool {
        &&& 0 <= self.top
        &&& 0 <= self.left
        &&& 0 < self.width
        &&& 0 < self.height
        &&& self.top + self.height <= 25
        &&& self.left + self.width <= 80
        &&& 0 <= self.row < self.height
        &&& 0 <= self.column < self.width
        &&& self.sized()
    }

    /// The screen has 25 rows of 80 cells.
    pub open spec fn sized(self) -> bool {
        &&& self.cells.len() == 25
        &&& forall|r: int| 0 <= r < 25 ==> (#[trigger] self.cells[r]).len() == 80
    }

    /// The cell at a position of the screen.
    pub open spec fn at(self, r: int, c: int) -> ScreenChar {
        self.cells[r][c]
    }

    /// The position is in the region.
    pub open spec fn in_region(self, r: int, c: int) -> bool {
        self.top <= r < self.top + self.height && self.left <= c < self.left + self.width
    }

    /// The cell that erases: a space in the current colours.
    pub open spec fn blank(self) -> ScreenChar {
        ScreenChar { ascii_character: 0x20, color_code: self.color }
    }

    /// The same cursor, colours and region.
    pub open spec fn same_mode(self, other: WriterModel) -> bool {
        &&& self.column == other.column
        &&& self.row == other.row
        &&& self.color == other.color
        &&& self.top == other.top
        &&& self.left == other.left
        &&& self.width == other.width
        &&& self.height == other.height
    }

    /// Only the cells differ from those of `before`, if anything does.
    pub open spec fn painted(self, before: WriterModel) -> bool {
        self.same_mode(before) && self.sized()
    }

    /// The model with other cells.
    pub open spec fn with_cells(self, f: spec_fn(int, int) -> ScreenChar) -> WriterModel {
        WriterModel { cells: Seq::new(25, |r: int| Seq::new(80, |c: int| f(r, c))), ..self }
    }

    /// The model after the step to a new line: the cursor goes down, or from the
    /// last row of the region the region scrolls up by one row.
    pub open spec fn line_broken(self) -> WriterModel {
        if self.row + 1 < self.height {
            WriterModel { row: self.row + 1, column: 0, ..self }
        } else {
            let scrolled = self.with_cells(
                |r: int, c: int|
                    if !self.in_region(r, c) {
                        self.at(r, c)
                    } else if r + 1 < self.top + self.height {
                        self.at(r + 1, c)
                    } else {
                        self.blank()
                    },
            );
            WriterModel { column: 0, ..scrolled }
        }
    }

    /// The model after one byte was printed. A byte in the last column of a row
    /// breaks the line.
    pub open spec fn byte_written(self, byte: u8) -> WriterModel {
        if byte == 0x0a {
            self.line_broken()
        } else {
            let put = self.with_cells(
                |r: int, c: int|
                    if r == self.top + self.row && c == self.left + self.column {
                        ScreenChar { ascii_character: byte, color_code: self.color }
                    } else {
                        self.at(r, c)
                    },
            );
            if self.column + 1 < self.width {
                WriterModel { column: self.column + 1, ..put }
            } else {
                put.line_broken()
            }
        }
    }

    /// The model after the bytes were printed, each as the screen can show it.
    pub open spec fn written(self, bytes: Seq<u8>) -> WriterModel
        decreases bytes.len(),
    {
        if bytes.len() == 0 {
            self
        } else {
            self.written(bytes.drop_last()).byte_written(printable(bytes.last()))
        }
    }
}

/// The byte that printing shows for a byte of text: printable ASCII and the line
/// feed as they are, a filled square for anything else.
pub open spec fn printable(byte: u8) -> u8 {
    if 0x20 <= byte <= 0x7e || byte == 0x0a {
        byte
    } else {
        0xfe
    }
}

proof fn lemma_screens_equal(a: Seq<Seq<ScreenChar>>, b: Seq<Seq<ScreenChar>>)
    requires
        a.len() == 25,
        b.len() == 25,
        forall|r: int| 0 <= r < 25 ==> (#[trigger] a[r]).len() == 80,
        forall|r: int| 0 <= r < 25 ==> (#[trigger] b[r]).len() == 80,
        forall|r: int, c: int| on_screen(r, c) ==> #[trigger] a[r][c] == b[r][c],
    ensures
        a == b,
{
    assert forall|r: int| 0 <= r < 25 implies a[r] == b[r] by {
        assert forall|c: int| 0 <= c < 80 implies a[r][c] == b[r][c] by {
            assert(on_screen(r, c));
        }
        assert(a[r] =~= b[r]);
    }
    assert(a =~= b);
}

impl Writer {
    /// The region lies on the screen and the cursor in it.
    pub open spec fn wf(&self) -> bool {
        self@.wf()
    }

    /// The cell at a position of the screen.
    pub open spec fn at(&self, r: int, c: int) -> ScreenChar {
        self@.at(r, c)
    }

    /// Every screen has 25 rows of 80 cells.
    pub proof fn lemma_sized(&self)
        ensures
            self@.sized(),
    {
    }

    /// A writer over the whole screen, yellow on black, at its top left.
    pub fn new(buffer: Box<Buffer>) -> (r: Writer)
        ensures
            r.wf(),
            r@ == (WriterModel {
                cells: screen_of(*buffer),
                column: 0,
                row: 0,
                color: color_code(Color::Yellow, Color::Black),
                top: 0,
                left: 0,
                width: 80,
                height: 25,
            }),
    {
        Writer {
            column_position: 0,
            row_position: 0,
            color_code: ColorCode::new(Color::Yellow, Color::Black),
            buffer,
            region_top: 0,
            region_left: 0,
            region_width: BUFFER_WIDTH,
            region_height: BUFFER_HEIGHT,
        }
    }

    /// Puts one cell.
    fn put(&mut self, row: usize, col: usize, cell: ScreenChar)
        requires
            row < 25,
            col < 80,
        ensures
            final(self)@.painted(old(self)@),
            forall|r: int, c: int| #![trigger final(self).at(r, c)]
                on_screen(r, c) ==> final(self).at(r, c) == if r == row && c == col {
                    cell
                } else {
                    old(self).at(r, c)
                },
    {
        let v: u16 = encode_cell(cell);
        cell_write(&mut self.buffer[row][col], v);
    }

    /// The character and the colours of one cell.
    pub fn read_cell(&self, row: usize, col: usize) -> (r: (u8, ColorCode))
        requires
            row < 25,
            col < 80,
        ensures
            r.0 == self.at(row as int, col as int).ascii_character,
            r.1 == self.at(row as int, col as int).color_code,
    {
        let cell = decode_cell(cell_read(&self.buffer[row][col]));
        (cell.ascii_character, cell.color_code)
    }
}

// ---------- Printing ----------

impl Writer {
    /// Prints one byte: a line feed breaks the line, any other byte is put at
    /// the cursor, and breaks the line where it fills the row.
    pub fn write_byte(&mut self, byte: u8)
        requires
            old(self).wf(),
        ensures
            final(self).wf(),
            final(self)@ == old(self)@.byte_written(byte),
    {
        if byte == 0x0a {
            self.new_line();
        } else {
            let ghost m = self@;
            let row: usize = self.region_top + self.row_position;
            let col: usize = self.region_left + self.column_position;
            let cell = ScreenChar { ascii_character: byte, color_code: self.color_code };
            self.put(row, col, cell);
            proof {
                let want = m.with_cells(
                    |r: int, c: int|
                        if r == m.top + m.row && c == m.left + m.column {
                            ScreenChar { ascii_character: byte, color_code: m.color }
                        } else {
                            m.at(r, c)
                        },
                );
                assert forall|r: int, c: int| on_screen(r, c) implies #[trigger] self@.cells[r][c]
                    == want.cells[r][c] by {
                    assert(self.at(r, c) == self@.cells[r][c]);
                }
                lemma_screens_equal(self@.cells, want.cells);
            }
            if self.column_position + 1 < self.region_width {
                self.column_position += 1;
            } else {
                self.new_line();
            }
        }
    }

    /// Prints the bytes of a text, each as the screen can show it.
    pub fn write_string(&mut self, s: &str)
        requires
            old(self).wf(),
        ensures
            final(self).wf(),
            final(self)@ == old(self)@.written(encode_utf8(s@)),
    {
        let bytes = s.as_bytes();
        let ghost m = self@;
        let mut i: usize = 0;
        assert(bytes@.take(0) =~= Seq::empty());
        while i < bytes.len()
            invariant
                i <= bytes@.len(),
                self.wf(),
                self@ == m.written(bytes@.take(i as int)),
            decreases bytes.len() - i,
        {
            let byte: u8 = bytes[i];
            proof {
                let next = bytes@.take(i + 1);
                assert(next.drop_last() =~= bytes@.take(i as int));
                assert(next.last() == byte);
            }
            if (0x20 <= byte && byte <= 0x7e) || byte == 0x0a {
                self.write_byte(byte);
            } else {
                self.write_byte(0xfe);
            }
            i += 1;
        }
        assert(bytes@.take(bytes@.len() as int) =~= bytes@);
    }

    fn new_line(&mut self)
        requires
            old(self).wf(),
        ensures
            final(self).wf(),
            final(self)@ == old(self)@.line_broken(),
    {
        if self.row_position + 1 < self.region_height {
            self.row_position += 1;
            self.column_position = 0;
            return;
        }
        let ghost m = self@;
        let mut row: usize = self.region_top + 1;
        while row < self.region_top + self.region_height
            invariant
                m.wf(),
                self@.wf(),
                self@.same_mode(m),
                m.top + 1 <= row <= m.top + m.height,
                forall|r: int, c: int| #![trigger self.at(r, c)]
                    on_screen(r, c) ==> self.at(r, c) == if m.in_region(r, c) && r + 1 < row {
                        m.at(r + 1, c)
                    } else {
                        m.at(r, c)
                    },
            decreases m.top + m.height - row,
        {
            let mut col: usize = self.region_left;
            while col < self.region_left + self.region_width
                invariant
                    m.wf(),
                    self@.wf(),
                    self@.same_mode(m),
                    m.top + 1 <= row < m.top + m.height,
                    m.left <= col <= m.left + m.width,
                    forall|r: int, c: int| #![trigger self.at(r, c)]
                        on_screen(r, c) ==> self.at(r, c) == if m.in_region(r, c) && (r + 1 < row
                            || (r + 1 == row && c < col)) {
                            m.at(r + 1, c)
                        } else {
                            m.at(r, c)
                        },
                decreases m.left + m.width - col,
            {
                let (ch, color_code) = self.read_cell(row, col);
                self.put(row - 1, col, ScreenChar { ascii_character: ch, color_code });
                col += 1;
            }
            row += 1;
        }
        let ghost m1 = self@;
        assert forall|r: int, c: int| on_screen(r, c) implies #[trigger] m1.at(r, c)
            == if m.in_region(r, c) && r + 1 < m.top + m.height {
            m.at(r + 1, c)
        } else {
            m.at(r, c)
        } by {
            assert(self.at(r, c) == m1.at(r, c));
        }
        self.clear_last_row();
        let ghost w = *self;
        self.column_position = 0;
        proof {
            let want = m.line_broken();
            assert forall|r: int, c: int| on_screen(r, c) implies #[trigger] self@.cells[r][c]
                == want.cells[r][c] by {
                assert(self.at(r, c) == self@.cells[r][c]);
                assert(w.at(r, c) == self.at(r, c));
                assert(m1.at(r, c) == m1.cells[r][c]);
            }
            lemma_screens_equal(self@.cells, want.cells);
        }
    }

    fn clear_last_row(&mut self)
        requires
            old(self).wf(),
        ensures
            final(self).wf(),
            final(self)@.same_mode(old(self)@),
            forall|r: int, c: int| #![trigger final(self).at(r, c)]
                on_screen(r, c) ==> final(self).at(r, c) == if old(self)@.in_region(r, c) && r + 1
                    == old(self)@.top + old(self)@.height {
                    old(self)@.blank()
                } else {
                    old(self).at(r, c)
                },
    {
        let ghost m = self@;
        let row: usize = self.region_top + self.region_height - 1;
        let blank = ScreenChar { ascii_character: 0x20, color_code: self.color_code };
        let mut col: usize = self.region_left;
        while col < self.region_left + self.region_width
            invariant
                m.wf(),
                self@.wf(),
                self@.same_mode(m),
                blank == m.blank(),
                row == m.top + m.height - 1,
                m.left <= col <= m.left + m.width,
                forall|r: int, c: int| #![trigger self.at(r, c)]
                    on_screen(r, c) ==> self.at(r, c) == if r == row && m.left <= c < col {
                        blank
                    } else {
                        m.at(r, c)
                    },
            decreases m.left + m.width - col,
        {
            self.put(row, col, blank);
            col += 1;
        }
    }

    /// Sets the colours for printing.
    pub fn set_color(&mut self, foreground: Color, background: Color)
        ensures
            final(self)@ == (WriterModel {
                color: color_code(foreground, background),
                ..old(self)@
            }),
    {
        self.color_code = ColorCode::new(foreground, background);
    }

    /// Confines printing and scrolling to a rectangle of the screen and puts the
    /// cursor at its top left.
    pub fn set_region(&mut self, top: usize, left: usize, width: usize, height: usize)
        requires
            top + height <= 25,
            left + width <= 80,
            width > 0,
            height > 0,
        ensures
            final(self).wf(),
            final(self)@ == (WriterModel {
                top: top as int,
                left: left as int,
                width: width as int,
                height: height as int,
                column: 0,
                row: 0,
                ..old(self)@
            }),
    {
        self.region_top = top;
        self.region_left = left;
        self.region_width = width;
        self.region_height = height;
        self.column_position = 0;
        self.row_position = 0;
    }

    /// Erases the last character printed on the row and steps the cursor back.
    /// At the start of a row nothing happens.
    pub fn backspace(&mut self)
        requires
            old(self).wf(),
        ensures
            final(self).wf(),
            final(self)@ == old(self)@.erased(),
    {
        if self.column_position == 0 {
            return;
        }
        let ghost m = self@;
        self.column_position -= 1;
        let row: usize = self.region_top + self.row_position;
        let col: usize = self.region_left + self.column_position;
        let blank = ScreenChar { ascii_character: 0x20, color_code: self.color_code };
        self.put(row, col, blank);
        proof {
            let want = m.erased();
            assert forall|r: int, c: int| on_screen(r, c) implies #[trigger] self@.cells[r][c]
                == want.cells[r][c] by {
                assert(self.at(r, c) == self@.cells[r][c]);
            }
            lemma_screens_equal(self@.cells, want.cells);
        }
    }

    /// Blanks the region and puts the cursor at its bottom left.
    pub fn clear_screen(&mut self)
        requires
            old(self).wf(),
        ensures
            final(self).wf(),
            final(self)@ == old(self)@.cleared(),
    {
        let ghost m = self@;
        let blank = ScreenChar { ascii_character: 0x20, color_code: self.color_code };
        let mut row: usize = self.region_top;
        while row < self.region_top + self.region_height
            invariant
                m.wf(),
                self@.wf(),
                self@.same_mode(m),
                blank == m.blank(),
                m.top <= row <= m.top + m.height,
                forall|r: int, c: int| #![trigger self.at(r, c)]
                    on_screen(r, c) ==> self.at(r, c) == if m.in_region(r, c) && r < row {
                        blank
                    } else {
                        m.at(r, c)
                    },
            decreases m.top + m.height - row,
        {
            let mut col: usize = self.region_left;
            while col < self.region_left + self.region_width
                invariant
                    m.wf(),
                    self@.wf(),
                    self@.same_mode(m),
                    blank == m.blank(),
                    m.top <= row < m.top + m.height,
                    m.left <= col <= m.left + m.width,
                    forall|r: int, c: int| #![trigger self.at(r, c)]
                        on_screen(r, c) ==> self.at(r, c) == if m.in_region(r, c) && (r < row || (r
                            == row && c < col)) {
                            blank
                        } else {
                            m.at(r, c)
                        },
                decreases m.left + m.width - col,
            {
                self.put(row, col, blank);
                col += 1;
            }
            row += 1;
        }
        let ghost w = *self;
        self.column_position = 0;
        self.row_position = self.region_height - 1;
        proof {
            let want = m.cleared();
            assert forall|r: int, c: int| on_screen(r, c) implies #[trigger] self@.cells[r][c]
                == want.cells[r][c] by {
                assert(w.at(r, c) == self.at(r, c));
                assert(self.at(r, c) == self@.cells[r][c]);
            }
            lemma_screens_equal(self@.cells, want.cells);
        }
    }
}

impl WriterModel {
    /// The model after a backspace.
    pub open spec fn erased(self) -> WriterModel {
        if self.column == 0 {
            self
        } else {
            let put = self.with_cells(
                |r: int, c: int|
                    if r == self.top + self.row && c == self.left + self.column - 1 {
                        self.blank()
                    } else {
                        self.at(r, c)
                    },
            );
            WriterModel { column: self.column - 1, ..put }
        }
    }

    /// The model with a blank region and the cursor at its bottom left.
    pub open spec fn cleared(self) -> WriterModel {
        let put = self.with_cells(
            |r: int, c: int|
                if self.in_region(r, c) {
                    self.blank()
                } else {
                    self.at(r, c)
                },
        );
        WriterModel { column: 0, row: self.height - 1, ..put }
    }
}

// ---------- Painting ----------

/// A character in a foreground and a background colour.
pub open spec fn glyph(ch: u8, fg: Color, bg: Color) -> ScreenChar {
    ScreenChar { ascii_character: ch, color_code: color_code(fg, bg) }
}

/// The cell at (`r`, `c`), which was `before`, once `cell` was put at (`row`, `col`).
pub open spec fn dotted(
    before: ScreenChar,
    r: int,
    c: int,
    row: int,
    col: int,
    cell: ScreenChar,
) -> ScreenChar {
    if r == row && c == col {
        cell
    } else {
        before
    }
}

/// The cell at (`r`, `c`), which was `before`, once the rectangle was filled.
pub open spec fn filled(
    before: ScreenChar,
    r: int,
    c: int,
    row: int,
    col: int,
    height: int,
    width: int,
    cell: ScreenChar,
) -> ScreenChar {
    if row <= r < row + height && col <= c < col + width {
        cell
    } else {
        before
    }
}

/// The byte that painting shows for a byte of text: printable ASCII as it is, a
/// filled square for anything else.
pub open spec fn shown(byte: u8) -> u8 {
    if 0x20 <= byte <= 0x7e {
        byte
    } else {
        0xfe
    }
}

/// The cell at (`r`, `c`), which was `before`, once the bytes were painted from
/// (`row`, `col`) to the right.
pub open spec fn lettered(
    before: ScreenChar,
    r: int,
    c: int,
    row: int,
    col: int,
    bytes: Seq<u8>,
    fg: Color,
    bg: Color,
) -> ScreenChar {
    if r == row && col <= c < col + bytes.len() {
        glyph(shown(bytes[c - col]), fg, bg)
    } else {
        before
    }
}

/// The cell at (`r`, `c`), which was `before`, once a frame of single lines was
/// drawn with its corners at the given rectangle.
pub open spec fn boxed(
    before: ScreenChar,
    r: int,
    c: int,
    row: int,
    col: int,
    height: int,
    width: int,
    fg: Color,
    bg: Color,
) -> ScreenChar {
    let bottom = row + height - 1;
    let right = col + width - 1;
    if height < 2 || width < 2 {
        before
    } else if (r == row || r == bottom) && (c == col || c == right) {
        let ch: u8 = if r == row {
            if c == col {
                0xDA
            } else {
                0xBF
            }
        } else if c == col {
            0xC0
        } else {
            0xD9
        };
        glyph(ch, fg, bg)
    } else if (r == row || r == bottom) && col < c < right {
        glyph(0xC4, fg, bg)
    } else if (c == col || c == right) && row < r < bottom {
        glyph(0xB3, fg, bg)
    } else {
        before
    }
}

/// The cell at (`r`, `c`), which was `before`, once a divider was drawn.
pub open spec fn divided(
    before: ScreenChar,
    r: int,
    c: int,
    row: int,
    col: int,
    width: int,
    fg: Color,
    bg: Color,
) -> ScreenChar {
    if width < 2 || r != row || c < col || c >= col + width {
        before
    } else if c == col {
        glyph(0xCC, fg, bg)
    } else if c == col + width - 1 {
        glyph(0xB9, fg, bg)
    } else {
        glyph(0xCD, fg, bg)
    }
}

impl Writer {
    /// Paints one cell, wherever the region is. Nothing happens off the screen.
    pub fn put_cell(&mut self, row: usize, col: usize, ch: u8, fg: Color, bg: Color)
        ensures
            final(self)@.painted(old(self)@),
            forall|r: int, c: int| #![trigger final(self).at(r, c)]
                on_screen(r, c) ==> final(self).at(r, c) == dotted(
                    old(self).at(r, c),
                    r,
                    c,
                    row as int,
                    col as int,
                    glyph(ch, fg, bg),
                ),
    {
        self.put_cell_raw(row, col, ch, ColorCode::new(fg, bg));
    }

    /// Paints one cell in colours given by their code. Nothing happens off the
    /// screen.
    pub fn put_cell_raw(&mut self, row: usize, col: usize, ch: u8, color_code: ColorCode)
        ensures
            final(self)@.painted(old(self)@),
            forall|r: int, c: int| #![trigger final(self).at(r, c)]
                on_screen(r, c) ==> final(self).at(r, c) == dotted(
                    old(self).at(r, c),
                    r,
                    c,
                    row as int,
                    col as int,
                    ScreenChar { ascii_character: ch, color_code },
                ),
    {
        if row >= BUFFER_HEIGHT || col >= BUFFER_WIDTH {
            return;
        }
        self.put(row, col, ScreenChar { ascii_character: ch, color_code });
    }

    /// Fills a rectangle, wherever the region is. What is off the screen is
    /// skipped.
    pub fn fill_rect(
        &mut self,
        row: usize,
        col: usize,
        height: usize,
        width: usize,
        ch: u8,
        fg: Color,
        bg: Color,
    )
        ensures
            final(self)@.painted(old(self)@),
            forall|r: int, c: int| #![trigger final(self).at(r, c)]
                on_screen(r, c) ==> final(self).at(r, c) == filled(
                    old(self).at(r, c),
                    r,
                    c,
                    row as int,
                    col as int,
                    height as int,
                    width as int,
                    glyph(ch, fg, bg),
                ),
    {
        let ghost m = self@;
        let cell = ScreenChar { ascii_character: ch, color_code: ColorCode::new(fg, bg) };
        let bottom: usize = row.saturating_add(height);
        let right: usize = col.saturating_add(width);
        let mut y: usize = row;
        while y < bottom && y < BUFFER_HEIGHT
            invariant
                self@.painted(m),
                row <= y,
                y <= bottom || y == row,
                cell == glyph(ch, fg, bg),
                bottom == row + height || (bottom == usize::MAX && row + height > bottom),
                right == col + width || (right == usize::MAX && col + width > right),
                forall|r: int, c: int| #![trigger self.at(r, c)]
                    on_screen(r, c) ==> self.at(r, c) == if row <= r < y && col <= c < col + width {
                        cell
                    } else {
                        m.at(r, c)
                    },
            decreases bottom - y,
        {
            let mut x: usize = col;
            while x < right && x < BUFFER_WIDTH
                invariant
                    self@.painted(m),
                    y < 25,
                    row <= y < bottom,
                    col <= x,
                    x <= right || x == col,
                    cell == glyph(ch, fg, bg),
                    right == col + width || (right == usize::MAX && col + width > right),
                    forall|r: int, c: int| #![trigger self.at(r, c)]
                        on_screen(r, c) ==> self.at(r, c) == if (row <= r < y && col <= c < col
                            + width) || (r == y && col <= c < x) {
                            cell
                        } else {
                            m.at(r, c)
                        },
                decreases right - x,
            {
                self.put(y, x, cell);
                x += 1;
            }
            y += 1;
        }
    }

    /// Paints a text from (`row`, `col`) to the right, wherever the region is.
    /// It does not wrap: what is off the screen is clipped.
    pub fn write_at(&mut self, row: usize, col: usize, s: &str, fg: Color, bg: Color)
        ensures
            final(self)@.painted(old(self)@),
            forall|r: int, c: int| #![trigger final(self).at(r, c)]
                on_screen(r, c) ==> final(self).at(r, c) == lettered(
                    old(self).at(r, c),
                    r,
                    c,
                    row as int,
                    col as int,
                    encode_utf8(s@),
                    fg,
                    bg,
                ),
    {
        self.write_bytes_at(row, col, s.as_bytes(), fg, bg);
    }

    /// Paints bytes from (`row`, `col`) to the right, as `write_at` does with the
    /// bytes of a text.
    pub fn write_bytes_at(&mut self, row: usize, col: usize, bytes: &[u8], fg: Color, bg: Color)
        ensures
            final(self)@.painted(old(self)@),
            forall|r: int, c: int| #![trigger final(self).at(r, c)]
                on_screen(r, c) ==> final(self).at(r, c) == lettered(
                    old(self).at(r, c),
                    r,
                    c,
                    row as int,
                    col as int,
                    bytes@,
                    fg,
                    bg,
                ),
    {
        if row >= BUFFER_HEIGHT {
            return;
        }
        let ghost m = self@;
        let code = ColorCode::new(fg, bg);
        let mut i: usize = 0;
        while i < bytes.len() && col < BUFFER_WIDTH && i < BUFFER_WIDTH - col
            invariant
                self@.painted(m),
                row < 25,
                i <= bytes@.len(),
                col < 80 ==> col + i <= 80,
                col >= 80 ==> i == 0,
                code == color_code(fg, bg),
                forall|r: int, c: int| #![trigger self.at(r, c)]
                    on_screen(r, c) ==> self.at(r, c) == if r == row && col <= c < col + i {
                        glyph(shown(bytes@[c - col]), fg, bg)
                    } else {
                        m.at(r, c)
                    },
            decreases bytes.len() - i,
        {
            let b: u8 = bytes[i];
            let ch: u8 = if 0x20 <= b && b <= 0x7e {
                b
            } else {
                0xfe
            };
            self.put(row, col + i, ScreenChar { ascii_character: ch, color_code: code });
            i += 1;
        }
    }

    /// Draws a frame of single lines with its top left at (`row`, `col`),
    /// wherever the region is. The inside stays as it is.
    pub fn draw_box(
        &mut self,
        row: usize,
        col: usize,
        height: usize,
        width: usize,
        fg: Color,
        bg: Color,
    )
        requires
            height >= 2 && width >= 2 ==> row + height <= usize::MAX && col + width <= usize::MAX,
        ensures
            final(self)@.painted(old(self)@),
            forall|r: int, c: int| #![trigger final(self).at(r, c)]
                on_screen(r, c) ==> final(self).at(r, c) == boxed(
                    old(self).at(r, c),
                    r,
                    c,
                    row as int,
                    col as int,
                    height as int,
                    width as int,
                    fg,
                    bg,
                ),
    {
        if height < 2 || width < 2 {
            return;
        }
        let ghost m = self@;
        let last_row: usize = row + height - 1;
        let last_col: usize = col + width - 1;
        self.put_cell(row, col, 0xDA, fg, bg);
        self.put_cell(row, last_col, 0xBF, fg, bg);
        self.put_cell(last_row, col, 0xC0, fg, bg);
        self.put_cell(last_row, last_col, 0xD9, fg, bg);
        let ghost m1 = self@;
        let mut x: usize = col + 1;
        assert forall|r: int, c: int| on_screen(r, c) implies #[trigger] m1.at(r, c) == if (r == row
            || r == last_row) && (c == col || c == last_col) {
            boxed(m.at(r, c), r, c, row as int, col as int, height as int, width as int, fg, bg)
        } else {
            m.at(r, c)
        } by {
            assert(self.at(r, c) == m1.at(r, c));
        }
        while x < last_col
            invariant
                self@.painted(m),
                m1.painted(m),
                last_row == row + height - 1,
                last_col == col + width - 1,
                row < last_row,
                col + 1 <= x <= last_col,
                forall|r: int, c: int| #![trigger self.at(r, c)]
                    on_screen(r, c) ==> self.at(r, c) == if (r == row || r == last_row) && col < c
                        < x {
                        glyph(0xC4, fg, bg)
                    } else {
                        m1.at(r, c)
                    },
            decreases last_col - x,
        {
            self.put_cell(row, x, 0xC4, fg, bg);
            self.put_cell(last_row, x, 0xC4, fg, bg);
            x += 1;
        }
        let ghost m2 = self@;
        assert forall|r: int, c: int| on_screen(r, c) implies #[trigger] m2.at(r, c) == if (r == row
            || r == last_row) && col < c < last_col {
            glyph(0xC4, fg, bg)
        } else {
            m1.at(r, c)
        } by {
            assert(self.at(r, c) == m2.at(r, c));
        }
        let mut y: usize = row + 1;
        while y < last_row
            invariant
                self@.painted(m),
                m2.painted(m),
                last_row == row + height - 1,
                last_col == col + width - 1,
                col < last_col,
                row + 1 <= y <= last_row,
                forall|r: int, c: int| #![trigger self.at(r, c)]
                    on_screen(r, c) ==> self.at(r, c) == if (c == col || c == last_col) && row < r
                        < y {
                        glyph(0xB3, fg, bg)
                    } else {
                        m2.at(r, c)
                    },
            decreases last_row - y,
        {
            self.put_cell(y, col, 0xB3, fg, bg);
            self.put_cell(y, last_col, 0xB3, fg, bg);
            y += 1;
        }
    }

    /// Draws a divider across a row.
    pub fn draw_hsep(&mut self, row: usize, col: usize, width: usize, fg: Color, bg: Color)
        requires
            width >= 2 && row < BUFFER_HEIGHT ==> col + width <= usize::MAX,
        ensures
            final(self)@.painted(old(self)@),
            forall|r: int, c: int| #![trigger final(self).at(r, c)]
                on_screen(r, c) ==> final(self).at(r, c) == divided(
                    old(self).at(r, c),
                    r,
                    c,
                    row as int,
                    col as int,
                    width as int,
                    fg,
                    bg,
                ),
    {
        if width < 2 || row >= BUFFER_HEIGHT {
            return;
        }
        let ghost m = self@;
        let last: usize = col + width - 1;
        self.put_cell(row, col, 0xCC, fg, bg);
        self.put_cell(row, last, 0xB9, fg, bg);
        let ghost m1 = self@;
        assert forall|r: int, c: int| on_screen(r, c) implies #[trigger] m1.at(r, c) == if r == row
            && (c == col || c == last) {
            divided(m.at(r, c), r, c, row as int, col as int, width as int, fg, bg)
        } else {
            m.at(r, c)
        } by {
            assert(self.at(r, c) == m1.at(r, c));
        }
        let mut x: usize = col + 1;
        while x < last
            invariant
                self@.painted(m),
                m1.painted(m),
                last == col + width - 1,
                col + 1 <= x <= last,
                forall|r: int, c: int| #![trigger self.at(r, c)]
                    on_screen(r, c) ==> self.at(r, c) == if r == row && col < c < x {
                        glyph(0xCD, fg, bg)
                    } else {
                        m1.at(r, c)
                    },
            decreases last - x,
        {
            self.put_cell(row, x, 0xCD, fg, bg);
            x += 1;
        }
    }
}

// ---------- Console operations ----------

/// Prints a text.
pub fn _print(w: &mut Writer, s: &str)
    requires
        old(w).wf(),
    ensures
        final(w).wf(),
        final(w)@ == old(w)@.written(encode_utf8(s@)),
{
    w.write_string(s);
}

/// Erases the last character of the row.
pub fn backspace(w: &mut Writer)
    requires
        old(w).wf(),
    ensures
        final(w).wf(),
        final(w)@ == old(w)@.erased(),
{
    w.backspace();
}

/// Blanks the region.
pub fn clear_screen(w: &mut Writer)
    requires
        old(w).wf(),
    ensures
        final(w).wf(),
        final(w)@ == old(w)@.cleared(),
{
    w.clear_screen();
}

/// Confines printing to a rectangle of the screen.
pub fn set_region(w: &mut Writer, top: usize, left: usize, width: usize, height: usize)
    requires
        top + height <= 25,
        left + width <= 80,
        width > 0,
        height > 0,
    ensures
        final(w).wf(),
        final(w)@ == (WriterModel {
            top: top as int,
            left: left as int,
            width: width as int,
            height: height as int,
            column: 0,
            row: 0,
            ..old(w)@
        }),
{
    w.set_region(top, left, width, height);
}

/// Makes the whole screen the region.
pub fn reset_region(w: &mut Writer)
    ensures
        final(w).wf(),
        final(w)@ == (WriterModel {
            top: 0,
            left: 0,
            width: 80,
            height: 25,
            column: 0,
            row: 0,
            ..old(w)@
        }),
{
    w.set_region(0, 0, BUFFER_WIDTH, BUFFER_HEIGHT);
}

/// Sets the colours for printing.
pub fn set_color(w: &mut Writer, fg: Color, bg: Color)
    ensures
        final(w)@ == (WriterModel { color: color_code(fg, bg), ..old(w)@ }),
{
    w.set_color(fg, bg);
}

// ---------- Laws ----------

/// Printing never changes a cell outside the region, and leaves the region and
/// the colours as they are.
pub proof fn law_written_in_region(m: WriterModel, bytes: Seq<u8>)
    requires
        m.wf(),
    ensures
        m.written(bytes).wf(),
        m.written(bytes).top == m.top,
        m.written(bytes).left == m.left,
        m.written(bytes).width == m.width,
        m.written(bytes).height == m.height,
        m.written(bytes).color == m.color,
        forall|r: int, c: int|
            on_screen(r, c) && !m.in_region(r, c) ==> #[trigger] m.written(bytes).at(r, c) == m.at(
                r,
                c,
            ),
    decreases bytes.len(),
{
    if bytes.len() > 0 {
        let before = m.written(bytes.drop_last());
        law_written_in_region(m, bytes.drop_last());
        let after = m.written(bytes);
        assert forall|r: int, c: int| on_screen(r, c) && !m.in_region(r, c) implies #[trigger] after.at(
            r,
            c,
        ) == m.at(r, c) by {
            assert(before.at(r, c) == m.at(r, c));
        }
    }
}

/// Printing one text and then another is printing both in one go.
pub proof fn law_written_twice(m: WriterModel, a: Seq<u8>, b: Seq<u8>)
    ensures
        m.written(a).written(b) == m.written(a + b),
    decreases b.len(),
{
    if b.len() == 0 {
        assert(a + b =~= a);
    } else {
        law_written_twice(m, a, b.drop_last());
        assert((a + b).drop_last() =~= a + b.drop_last());
        assert((a + b).last() == b.last());
    }
}

/// A backspace right after a character that did not fill the row takes the cursor
/// back to where it was and leaves a blank there; every other cell is as
/// it was.
pub proof fn law_backspace_undoes(m: WriterModel, byte: u8)
    requires
        m.wf(),
        m.column + 1 < m.width,
        byte != 0x0a,
    ensures
        m.byte_written(byte).erased().same_mode(m),
        forall|r: int, c: int|
            on_screen(r, c) ==> #[trigger] m.byte_written(byte).erased().at(r, c) == if r == m.top
                + m.row && c == m.left + m.column {
                m.blank()
            } else {
                m.at(r, c)
            },
{
}

/// The palette: blue, green and red are mixed, and eight makes a colour light. A
/// code holds the number of the foreground in its lower half and that of the
/// background in its upper.
pub proof fn law_palette(fg: Color, bg: Color)
    ensures
        fg.code() < 16,
        fg.code() == bg.code() ==> fg == bg,
        color_code(fg, bg).0 % 16 == fg.code(),
        color_code(fg, bg).0 / 16 == bg.code(),
        color_code(fg, bg).inverted() == color_code(bg, fg),
        Color::Black.code() == 0,
        Color::Cyan.code() == Color::Blue.code() + Color::Green.code(),
        Color::Magenta.code() == Color::Blue.code() + Color::Red.code(),
        Color::Brown.code() == Color::Green.code() + Color::Red.code(),
        Color::LightGray.code() == Color::Cyan.code() + Color::Red.code(),
        Color::Blue.code() == 1 && Color::Green.code() == 2 && Color::Red.code() == 4,
        Color::DarkGray.code() == Color::Black.code() + 8,
        Color::LightBlue.code() == Color::Blue.code() + 8,
        Color::LightGreen.code() == Color::Green.code() + 8,
        Color::LightCyan.code() == Color::Cyan.code() + 8,
        Color::LightRed.code() == Color::Red.code() + 8,
        Color::Pink.code() == Color::Magenta.code() + 8,
        Color::Yellow.code() == Color::Brown.code() + 8,
        Color::White.code() == Color::LightGray.code() + 8,
{
}

/// Text is shown as it is: printable ASCII, blanks among it, whether printed or
/// painted. Printing keeps the line feed too, and anything else is a filled square.
pub proof fn law_shown_as_is(byte: u8)
    ensures
        ' ' as int <= byte <= '~' as int ==> printable(byte) == byte && shown(byte) == byte,
        byte == '\n' as int ==> printable(byte) == byte,
        !(' ' as int <= byte <= '~' as int) && byte != '\n' as int ==> printable(byte) == 0xfe,
        !(' ' as int <= byte <= '~' as int) ==> shown(byte) == 0xfe,
{
}

/// A text that fits into what is left of the row is printed from the cursor on, one
/// cell for each byte and in the colours of the writer; the cursor is then behind
/// it, and nothing else on the screen changes.
pub proof fn law_printed_in_row(m: WriterModel, bytes: Seq<u8>)
    requires
        m.wf(),
        m.column + bytes.len() < m.width,
        forall|i: int| 0 <= i < bytes.len() ==> 0x20 <= #[trigger] bytes[i] <= 0x7e,
    ensures
        ({
            let after = m.written(bytes);
            &&& after.row == m.row
            &&& after.column == m.column + bytes.len()
            &&& forall|i: int|
                0 <= i < bytes.len() ==> #[trigger] after.at(
                    m.top + m.row,
                    m.left + m.column + i,
                ) == (ScreenChar { ascii_character: bytes[i], color_code: m.color })
            &&& forall|r: int, c: int|
                on_screen(r, c) && !(r == m.top + m.row && m.left + m.column <= c < m.left
                    + m.column + bytes.len()) ==> #[trigger] after.at(r, c) == m.at(r, c)
        }),
    decreases bytes.len(),
{
    law_written_in_region(m, bytes);
    if bytes.len() > 0 {
        let init = bytes.drop_last();
        assert forall|i: int| 0 <= i < init.len() implies 0x20 <= #[trigger] init[i] <= 0x7e by {
            assert(init[i] == bytes[i]);
        }
        law_written_in_region(m, init);
        law_printed_in_row(m, init);
        let before = m.written(init);
        let after = m.written(bytes);
        assert(0x20 <= bytes[bytes.len() - 1] <= 0x7e);
        assert forall|i: int| 0 <= i < bytes.len() implies #[trigger] after.at(
            m.top + m.row,
            m.left + m.column + i,
        ) == (ScreenChar { ascii_character: bytes[i], color_code: m.color }) by {
            if i < init.len() {
                assert(before.at(m.top + m.row, m.left + m.column + i) == (ScreenChar {
                    ascii_character: init[i],
                    color_code: m.color,
                }));
            }
        }
        assert forall|r: int, c: int|
            on_screen(r, c) && !(r == m.top + m.row && m.left + m.column <= c < m.left + m.column
                + bytes.len()) implies #[trigger] after.at(r, c) == m.at(r, c) by {
            assert(before.at(r, c) == m.at(r, c));
        }
    }
}

/// A line feed takes the cursor to the start of the next row and changes nothing on
/// the screen; on the last row of the region every row of it takes what the one
/// below shows, the last is blank, and the cursor stays on it.
pub proof fn law_line_feed(m: WriterModel, r: int, c: int)
    requires
        m.wf(),
        on_screen(r, c),
    ensures
        ({
            let after = m.byte_written(10);
            let inside = m.top <= r < m.top + m.height && m.left <= c < m.left + m.width;
            &&& after.column == 0
            &&& m.row + 1 < m.height ==> after.row == m.row + 1 && after.at(r, c) == m.at(r, c)
            &&& m.row + 1 == m.height ==> after.row == m.row && after.at(r, c) == if !inside {
                m.at(r, c)
            } else if r + 1 == m.top + m.height {
                ScreenChar { ascii_character: 0x20, color_code: m.color }
            } else {
                m.at(r + 1, c)
            }
        }),
{
}

/// The byte that fills a row is put into its last column, and what follows goes to
/// the start of the next row.
pub proof fn law_row_filled(m: WriterModel, byte: u8)
    requires
        m.wf(),
        m.column + 1 == m.width,
        m.row + 1 < m.height,
        byte != 10,
    ensures
        ({
            let after = m.byte_written(byte);
            &&& after.at(m.top + m.row, m.left + m.width - 1) == (ScreenChar {
                ascii_character: byte,
                color_code: m.color,
            })
            &&& after.row == m.row + 1
            &&& after.column == 0
        }),
{
}

/// Clearing blanks the region, leaves the rest of the screen alone, and puts the
/// cursor at its bottom left.
pub proof fn law_cleared(m: WriterModel, r: int, c: int)
    requires
        m.wf(),
        on_screen(r, c),
    ensures
        m.cleared().column == 0,
        m.cleared().row == m.height - 1,
        m.cleared().at(r, c) == if m.top <= r < m.top + m.height && m.left <= c < m.left
            + m.width {
            ScreenChar { ascii_character: 0x20, color_code: m.color }
        } else {
            m.at(r, c)
        },
{
}

/// A text that is painted stands where it was put, byte by byte, and nowhere else.
pub proof fn law_painted_text(
    before: ScreenChar,
    row: int,
    col: int,
    bytes: Seq<u8>,
    i: int,
    fg: Color,
    bg: Color,
)
    requires
        0 <= i < bytes.len(),
        0x20 <= bytes[i] <= 0x7e,
    ensures
        lettered(before, row, col + i, row, col, bytes, fg, bg).ascii_character == bytes[i],
        lettered(before, row, col + i, row, col, bytes, fg, bg).color_code.0 == 16 * bg.code()
            + fg.code(),
        lettered(before, row, col - 1, row, col, bytes, fg, bg) == before,
        lettered(before, row, col + bytes.len(), row, col, bytes, fg, bg) == before,
        lettered(before, row + 1, col + i, row, col, bytes, fg, bg) == before,
        lettered(before, row - 1, col + i, row, col, bytes, fg, bg) == before,
{
}

/// A rectangle is filled up to its edges and no further.
pub proof fn law_filled(
    before: ScreenChar,
    row: int,
    col: int,
    height: int,
    width: int,
    cell: ScreenChar,
    i: int,
    j: int,
)
    ensures
        0 <= i < height && 0 <= j < width ==> filled(
            before,
            row + i,
            col + j,
            row,
            col,
            height,
            width,
            cell,
        ) == cell,
        i < 0 || i >= height || j < 0 || j >= width ==> filled(
            before,
            row + i,
            col + j,
            row,
            col,
            height,
            width,
            cell,
        ) == before,
{
}

/// A frame of at least two cells each way has its four corners, single lines between
/// them, and leaves what is inside and outside alone.
pub proof fn law_boxed(
    before: ScreenChar,
    row: int,
    col: int,
    height: int,
    width: int,
    i: int,
    j: int,
    fg: Color,
    bg: Color,
)
    requires
        2 <= height,
        2 <= width,
    ensures
        ({
            let f = |r: int, c: int| boxed(before, r, c, row, col, height, width, fg, bg);
            let (bottom, right) = (row + height - 1, col + width - 1);
            &&& f(row, col) == glyph(0xDA, fg, bg)
            &&& f(row, right) == glyph(0xBF, fg, bg)
            &&& f(bottom, col) == glyph(0xC0, fg, bg)
            &&& f(bottom, right) == glyph(0xD9, fg, bg)
            &&& 0 < j < width - 1 ==> f(row, col + j) == glyph(0xC4, fg, bg) && f(bottom, col + j)
                == glyph(0xC4, fg, bg)
            &&& 0 < i < height - 1 ==> f(row + i, col) == glyph(0xB3, fg, bg) && f(row + i, right)
                == glyph(0xB3, fg, bg)
            &&& 0 < i < height - 1 && 0 < j < width - 1 ==> f(row + i, col + j) == before
            &&& i < 0 || i >= height || j < 0 || j >= width ==> f(row + i, col + j) == before
        }),
{
}

} // verus!
